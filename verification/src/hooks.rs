use vstd::prelude::*;
use vstd::slice::slice_to_vec;
use crate::addr::Addr;
use crate::error::StoreError;

verus! {

/// What adding `addr` does to the list `list` of a registry that holds at
/// most `capacity` addresses: the new list, or why nothing was added. An
/// address that is registered already is refused as a duplicate, whether or
/// not the registry is full.
pub open spec fn spec_add(list: Seq<Seq<u8>>, capacity: nat, addr: Seq<u8>) -> Result<
    Seq<Seq<u8>>,
    StoreError,
> {
    if list.contains(addr) {
        Err(StoreError::Duplicate)
    } else if list.len() >= capacity {
        Err(StoreError::CapacityExceeded)
    } else {
        Ok(list.push(addr))
    }
}

/// What removing `addr` does to the list `list`: the list without it, the
/// others in their order, or `NotFound`.
pub open spec fn spec_remove(list: Seq<Seq<u8>>, addr: Seq<u8>) -> Result<Seq<Seq<u8>>, StoreError> {
    if list.contains(addr) {
        Ok(list.remove(list.index_of(addr)))
    } else {
        Err(StoreError::NotFound)
    }
}

/// The list after an attempt `outcome` to change `list`: a failed attempt
/// leaves the list as it was.
pub open spec fn list_after(list: Seq<Seq<u8>>, outcome: Result<Seq<Seq<u8>>, StoreError>) -> Seq<
    Seq<u8>,
> {
    match outcome {
        Ok(changed) => changed,
        Err(_) => list,
    }
}

/// Adding an address a second time fails with `Duplicate`, unless the first
/// attempt found the registry full.
pub proof fn law_add_twice_is_duplicate(list: Seq<Seq<u8>>, capacity: nat, addr: Seq<u8>)
    requires
        spec_add(list, capacity, addr) != Err::<Seq<Seq<u8>>, StoreError>(
            StoreError::CapacityExceeded,
        ),
    ensures
        spec_add(list_after(list, spec_add(list, capacity, addr)), capacity, addr) == Err::<
            Seq<Seq<u8>>,
            StoreError,
        >(StoreError::Duplicate),
{
    if !list.contains(addr) {
        let grown = list.push(addr);
        assert(grown[list.len() as int] == addr);
    }
}

/// Removing an address that is not registered fails with `NotFound`.
pub proof fn law_remove_absent_is_not_found(list: Seq<Seq<u8>>, addr: Seq<u8>)
    requires
        !list.contains(addr),
    ensures
        spec_remove(list, addr) == Err::<Seq<Seq<u8>>, StoreError>(StoreError::NotFound),
{
}

/// Removing an address right after it was added gives back the list as it
/// was; an empty registry is empty again.
pub proof fn law_add_then_remove_restores(list: Seq<Seq<u8>>, capacity: nat, addr: Seq<u8>)
    requires
        spec_add(list, capacity, addr) is Ok,
    ensures
        spec_remove(spec_add(list, capacity, addr)->Ok_0, addr) == Ok::<Seq<Seq<u8>>, StoreError>(
            list,
        ),
        list.len() == 0 ==> list_after(
            spec_add(list, capacity, addr)->Ok_0,
            spec_remove(spec_add(list, capacity, addr)->Ok_0, addr),
        ).len() == 0,
{
    let grown = list.push(addr);
    assert(grown[list.len() as int] == addr);
    let i = grown.index_of(addr);
    assert(0 <= i < grown.len() && grown[i] == addr);
    if i < list.len() {
        assert(list[i] == addr);
    }
    assert(grown.remove(i) =~= list);
}

/// A message for one listener: whom to tell, and what.
#[derive(Debug, PartialEq, Eq)]
pub struct Notification {
    /// The listener that the message goes to.
    pub listener: Addr,
    /// The event, as the bytes that the listener is sent.
    pub payload: Vec<u8>,
}

/// A registry of listeners: a bounded list of addresses that are told of an
/// event, in the order in which they registered. No address is listed twice.
pub struct Hooks {
    listeners: Vec<Addr>,
    capacity: usize,
}

impl View for Hooks {
    type V = Seq<Seq<u8>>;

    /// The registered addresses, in the order in which they registered.
    closed spec fn view(&self) -> Seq<Seq<u8>> {
        Seq::new(self.listeners@.len(), |i: int| self.listeners@[i]@)
    }
}

impl Hooks {
    /// The number of addresses that the registry holds at most.
    pub closed spec fn spec_capacity(&self) -> nat {
        self.capacity as nat
    }

    /// The registry's invariant: no address is listed twice, and the list
    /// is within its bound.
    pub open spec fn wf(&self) -> bool {
        &&& self@.no_duplicates()
        &&& self@.len() <= self.spec_capacity()
    }

    /// An empty registry for at most `capacity` listeners.
    pub fn new(capacity: usize) -> (hooks: Hooks)
        ensures
            hooks.wf(),
            hooks@ == Seq::<Seq<u8>>::empty(),
            hooks.spec_capacity() == capacity,
    {
        let hooks = Hooks { listeners: Vec::new(), capacity };
        proof {
            assert(hooks@ =~= Seq::<Seq<u8>>::empty());
        }
        hooks
    }

    /// The bound of the registry.
    pub fn capacity(&self) -> (n: usize)
        ensures
            n == self.spec_capacity(),
    {
        self.capacity
    }

    /// The number of registered listeners.
    pub fn len(&self) -> (n: usize)
        ensures
            n == self@.len(),
    {
        self.listeners.len()
    }

    /// The place of `addr` in the list, if it is registered.
    pub fn position(&self, addr: &Addr) -> (place: Option<usize>)
        ensures
            (match place {
                Some(i) => i < self@.len() && self@[i as int] == addr@ && forall|j: int|
                    0 <= j < i ==> self@[j] != addr@,
                None => !self@.contains(addr@),
            }),
    {
        let mut i: usize = 0;
        while i < self.listeners.len()
            invariant
                i <= self.listeners@.len(),
                self@.len() == self.listeners@.len(),
                forall|j: int| 0 <= j < i ==> self@[j] != addr@,
            decreases self.listeners@.len() - i,
        {
            if self.listeners[i].same(addr) {
                return Some(i);
            }
            i += 1;
        }
        None
    }

    /// Whether `addr` is registered.
    pub fn contains(&self, addr: &Addr) -> (present: bool)
        ensures
            present == self@.contains(addr@),
    {
        self.position(addr).is_some()
    }

    /// Registers `addr` behind the listeners that are there. `Duplicate` if
    /// it is registered already; otherwise `CapacityExceeded` if the
    /// registry is full. A refused call changes nothing.
    pub fn add(&mut self, addr: Addr) -> (done: Result<(), StoreError>)
        requires
            old(self).wf(),
        ensures
            final(self).wf(),
            final(self).spec_capacity() == old(self).spec_capacity(),
            (match spec_add(old(self)@, old(self).spec_capacity(), addr@) {
                Ok(list) => done is Ok && final(self)@ == list,
                Err(e) => done == Err::<(), StoreError>(e) && *final(self) == *old(self),
            }),
    {
        if self.position(&addr).is_some() {
            return Err(StoreError::Duplicate);
        }
        if self.listeners.len() >= self.capacity {
            return Err(StoreError::CapacityExceeded);
        }
        let ghost before = self@;
        self.listeners.push(addr);
        proof {
            assert(self@ =~= before.push(addr@));
        }
        Ok(())
    }

    /// Takes `addr` off the list; the others keep their order. `NotFound`
    /// if it is not registered, and then nothing changes.
    pub fn remove(&mut self, addr: &Addr) -> (done: Result<(), StoreError>)
        requires
            old(self).wf(),
        ensures
            final(self).wf(),
            final(self).spec_capacity() == old(self).spec_capacity(),
            (match spec_remove(old(self)@, addr@) {
                Ok(list) => done is Ok && final(self)@ == list,
                Err(e) => done == Err::<(), StoreError>(e) && *final(self) == *old(self),
            }),
    {
        match self.position(addr) {
            None => Err(StoreError::NotFound),
            Some(i) => {
                let ghost before = self@;
                proof {
                    let k = before.index_of(addr@);
                    assert(0 <= k < before.len() && before[k] == addr@);
                    assert(k == i);
                }
                let _ = self.listeners.remove(i);
                proof {
                    assert(self@ =~= before.remove(i as int));
                }
                Ok(())
            },
        }
    }

    /// The registered addresses, in their order.
    pub fn query(&self) -> (list: Vec<Addr>)
        ensures
            list@.len() == self@.len(),
            forall|i: int| 0 <= i < list@.len() ==> (#[trigger] list@[i])@ == self@[i],
    {
        let mut list: Vec<Addr> = Vec::new();
        let mut i: usize = 0;
        while i < self.listeners.len()
            invariant
                i <= self.listeners@.len(),
                self@.len() == self.listeners@.len(),
                list@.len() == i,
                forall|j: int| 0 <= j < i ==> (#[trigger] list@[j])@ == self@[j],
            decreases self.listeners@.len() - i,
        {
            list.push(self.listeners[i].clone());
            i += 1;
        }
        list
    }

    /// One notification of `event` for every registered listener, in the
    /// order of the registry. Sending them is the caller's part.
    pub fn prepare_notifications(&self, event: &Vec<u8>) -> (out: Vec<Notification>)
        ensures
            out@.len() == self@.len(),
            forall|i: int|
                0 <= i < out@.len() ==> (#[trigger] out@[i]).listener@ == self@[i]
                    && out@[i].payload@ == event@,
    {
        let mut out: Vec<Notification> = Vec::new();
        let mut i: usize = 0;
        while i < self.listeners.len()
            invariant
                i <= self.listeners@.len(),
                self@.len() == self.listeners@.len(),
                out@.len() == i,
                forall|j: int|
                    0 <= j < i ==> (#[trigger] out@[j]).listener@ == self@[j] && out@[j].payload@
                        == event@,
            decreases self.listeners@.len() - i,
        {
            out.push(
                Notification {
                    listener: self.listeners[i].clone(),
                    payload: slice_to_vec(event.as_slice()),
                },
            );
            i += 1;
        }
        out
    }
}

} // verus!
