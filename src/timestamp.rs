//! Points in time, as seconds since the Unix epoch and a sub-second part.
use vstd::prelude::*;

verus! {

/// A UTC instant: whole seconds since 1970-01-01T00:00:00Z and nanoseconds
/// past that second (values of one billion and above stand for a leap second).
#[derive(Clone, Copy, Debug, PartialEq, Eq, Structural)]
pub struct Timestamp {
    pub secs: i64,
    pub nanos: u32,
}

/// `a` is strictly earlier than `b`: ordered by seconds, then by nanoseconds.
pub open spec fn earlier(a: Timestamp, b: Timestamp) -> bool {
    a.secs < b.secs || (a.secs == b.secs && a.nanos < b.nanos)
}

/// The later of two instants.
pub open spec fn later_of(a: Timestamp, b: Timestamp) -> Timestamp {
    if earlier(a, b) {
        b
    } else {
        a
    }
}

/// The maximum of two optional instants, where an absent one loses to any
/// present one.
pub open spec fn max_option(a: Option<Timestamp>, b: Option<Timestamp>) -> Option<Timestamp> {
    match (a, b) {
        (None, _) => b,
        (_, None) => a,
        (Some(x), Some(y)) => Some(later_of(x, y)),
    }
}

impl Timestamp {
    pub fn new(secs: i64, nanos: u32) -> (r: Timestamp)
        ensures
            r.secs == secs,
            r.nanos == nanos,
    {
        Timestamp { secs, nanos }
    }

    /// Whether `self` is strictly earlier than `other`.
    pub fn is_earlier_than(&self, other: &Timestamp) -> (r: bool)
        ensures
            r == earlier(*self, *other),
    {
        self.secs < other.secs || (self.secs == other.secs && self.nanos < other.nanos)
    }
}

/// Raises `field` to `ts`: it becomes `ts` when it was absent or earlier, and
/// stays as it was otherwise.
pub fn update_latest(field: &mut Option<Timestamp>, ts: Timestamp)
    ensures
        *final(field) == max_option(*old(field), Some(ts)),
{
    match *field {
        None => {
            *field = Some(ts);
        },
        Some(dt) => {
            if dt.is_earlier_than(&ts) {
                *field = Some(ts);
            }
        },
    }
}

/// The maximum of two optional instants.
pub fn max_timestamp(a: Option<Timestamp>, b: Option<Timestamp>) -> (r: Option<Timestamp>)
    ensures
        r == max_option(a, b),
{
    let mut r = a;
    if let Some(t) = b {
        update_latest(&mut r, t);
    }
    r
}

/// Taking the maximum of optional instants is commutative and associative,
/// and an absent instant is its identity.
pub proof fn lemma_max_option_laws(a: Option<Timestamp>, b: Option<Timestamp>, c: Option<Timestamp>)
    ensures
        max_option(a, b) == max_option(b, a),
        max_option(max_option(a, b), c) == max_option(a, max_option(b, c)),
        max_option(a, None) == a,
{
}

} // verus!
