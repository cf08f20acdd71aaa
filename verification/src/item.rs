use vstd::prelude::*;
use crate::error::StoreError;

verus! {

/// A table of a single record: a place that is empty or holds one value.
/// The value is only ever replaced as a whole.
pub struct Item<T> {
    slot: Option<T>,
}

impl<T> View for Item<T> {
    type V = Option<T>;

    /// The value that the place holds, if any.
    closed spec fn view(&self) -> Option<T> {
        self.slot
    }
}

impl<T> Item<T> {
    /// An empty place.
    pub fn new() -> (item: Item<T>)
        ensures
            item@ == None::<T>,
    {
        Item { slot: None }
    }

    /// Puts `value` in the place of whatever was there.
    pub fn save(&mut self, value: T)
        ensures
            final(self)@ == Some(value),
    {
        self.slot = Some(value);
    }

    /// The value, if there is one.
    pub fn may_load(&self) -> (found: Option<&T>)
        ensures
            (match found {
                Some(value) => self@ == Some(*value),
                None => self@ == None::<T>,
            }),
    {
        self.slot.as_ref()
    }

    /// The value; `NotFound` if the place is empty.
    pub fn load(&self) -> (found: Result<&T, StoreError>)
        ensures
            (match found {
                Ok(value) => self@ == Some(*value),
                Err(e) => e == StoreError::NotFound && self@ == None::<T>,
            }),
    {
        match &self.slot {
            Some(value) => Ok(value),
            None => Err(StoreError::NotFound),
        }
    }

    /// Empties the place and returns what it held; `NotFound` if it was
    /// empty.
    pub fn remove(&mut self) -> (removed: Result<T, StoreError>)
        ensures
            final(self)@ == None::<T>,
            (match removed {
                Ok(value) => old(self)@ == Some(value),
                Err(e) => e == StoreError::NotFound && old(self)@ == None::<T>,
            }),
    {
        match self.slot.take() {
            Some(value) => Ok(value),
            None => Err(StoreError::NotFound),
        }
    }
}

} // verus!
