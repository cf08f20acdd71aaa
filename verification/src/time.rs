use vstd::prelude::*;

verus! {

/// Nanoseconds in one second.
pub const NANOS_PER_SECOND: u64 = 1_000_000_000;

/// A point in time, counted in nanoseconds since the Unix epoch.
#[derive(Clone, Copy, Debug, PartialEq, Eq, Structural, PartialOrd, Ord, Hash)]
pub struct Timestamp {
    nanos: u64,
}

impl View for Timestamp {
    type V = nat;

    /// The nanoseconds since the epoch.
    closed spec fn view(&self) -> nat {
        self.nanos as nat
    }
}

/// Calls `cosmwasm_std::Timestamp::seconds` on the instant that lies `nanos`
/// nanoseconds after the epoch. Trusted: the result is the number of whole
/// seconds, the part below one second dropped.
#[verifier::external_body]
fn whole_seconds(nanos: u64) -> (secs: u64)
    ensures
        secs == nanos / 1_000_000_000,
{
    cosmwasm_std::Timestamp::from_nanos(nanos).seconds()
}

impl Timestamp {
    /// The instant `nanos` nanoseconds after the epoch.
    pub fn from_nanos(nanos: u64) -> (t: Timestamp)
        ensures
            t@ == nanos,
    {
        Timestamp { nanos }
    }

    /// The instant `seconds` whole seconds after the epoch.
    pub fn from_seconds(seconds: u64) -> (t: Timestamp)
        requires
            seconds * NANOS_PER_SECOND <= u64::MAX,
        ensures
            t@ == seconds * NANOS_PER_SECOND,
    {
        Timestamp { nanos: seconds * NANOS_PER_SECOND }
    }

    /// Nanoseconds since the epoch.
    pub fn nanos(&self) -> (n: u64)
        ensures
            n == self@,
    {
        self.nanos
    }

    /// Whole seconds since the epoch; the sub-second part is dropped.
    pub open spec fn spec_seconds(&self) -> u64 {
        (self@ / 1_000_000_000) as u64
    }

    /// Whole seconds since the epoch; the sub-second part is dropped.
    pub fn seconds(&self) -> (s: u64)
        ensures
            s == self.spec_seconds(),
            s == self@ / 1_000_000_000,
    {
        whole_seconds(self.nanos)
    }
}

/// What a record needs to know of the block it is judged in.
pub struct BlockInfo {
    pub height: u64,
    pub time: Timestamp,
    pub chain_id: String,
}

/// A record that stops being valid at some instant.
pub trait Order {
    /// The instant at which the record expires.
    spec fn expiry(&self) -> Timestamp;

    fn expires_at(&self) -> (t: Timestamp)
        ensures
            t == self.expiry(),
    ;

    /// Whether the record has expired in `block`. The boundary counts: a
    /// record that expires exactly at the block's time is expired.
    fn is_expired(&self, block: &BlockInfo) -> (expired: bool)
        ensures
            expired <==> block.time@ >= self.expiry()@,
    {
        self.expires_at().nanos() <= block.time.nanos()
    }
}

} // verus!
