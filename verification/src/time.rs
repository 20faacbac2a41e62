//! Points in time and spans of time, as plain integers.

use vstd::prelude::*;

verus! {

/// Nanoseconds in one second.
pub const NANOS_PER_SEC: u32 = 1_000_000_000;

/// Seconds in one day.
pub const SECS_PER_DAY: u64 = 86_400;

/// A point in time: whole seconds since the Unix epoch, and the nanoseconds
/// past that second. `nanos` is expected below `NANOS_PER_SEC`.
#[derive(Clone, Copy, Debug, PartialEq, Eq, Structural)]
pub struct Timestamp {
    pub secs: i64,
    pub nanos: u32,
}

/// A length of time: whole seconds and the nanoseconds past them. `nanos` is
/// expected below `NANOS_PER_SEC`.
#[derive(Clone, Copy, Debug, PartialEq, Eq, Structural)]
pub struct Span {
    pub secs: u64,
    pub nanos: u32,
}

impl Span {
    /// The span in nanoseconds.
    pub open spec fn total_nanos(self) -> int {
        self.secs * NANOS_PER_SEC + self.nanos
    }
}

impl Timestamp {
    /// The nanoseconds field is in range.
    pub open spec fn is_valid(self) -> bool {
        self.nanos < NANOS_PER_SEC
    }

    /// Nanoseconds since the Unix epoch.
    pub open spec fn total_nanos(self) -> int {
        self.secs * NANOS_PER_SEC + self.nanos
    }

    /// `self` is not later than `other`, going by the seconds and then by
    /// the nanoseconds. Between valid timestamps this is the order in time:
    /// see `lemma_order_is_chronological`.
    pub open spec fn at_or_before(self, other: Timestamp) -> bool {
        self.secs < other.secs || (self.secs == other.secs && self.nanos <= other.nanos)
    }

    /// Whole seconds that have passed at `self` since `earlier`, or `None`
    /// where `earlier` is in fact later than `self`.
    pub open spec fn secs_since(self, earlier: Timestamp) -> Option<int> {
        if self.total_nanos() >= earlier.total_nanos() {
            Some((self.total_nanos() - earlier.total_nanos()) / (NANOS_PER_SEC as int))
        } else {
            None
        }
    }

    /// Whole days that have passed at `self` since `earlier`, or `None` where
    /// `earlier` is in fact later than `self`.
    pub open spec fn days_since(self, earlier: Timestamp) -> Option<int> {
        match self.secs_since(earlier) {
            Some(secs) => Some(secs / (SECS_PER_DAY as int)),
            None => None,
        }
    }

    /// Whether `self` is not later than `other`: by the fields, which for
    /// valid timestamps is by the time that they stand for.
    pub fn is_at_or_before(&self, other: &Timestamp) -> (r: bool)
        ensures
            r == self.at_or_before(*other),
            self.is_valid() && other.is_valid() ==> r == (self.total_nanos()
                <= other.total_nanos()),
    {
        proof {
            if self.is_valid() && other.is_valid() {
                lemma_order_is_chronological(*self, *other);
            }
        }
        self.secs < other.secs || (self.secs == other.secs && self.nanos <= other.nanos)
    }

    /// Nanoseconds since the Unix epoch.
    pub fn nanos_since_epoch(&self) -> (r: i128)
        ensures
            r == self.total_nanos(),
    {
        let secs: i128 = self.secs as i128;
        let nanos: i128 = self.nanos as i128;
        assert(-0x8000_0000_0000_0000 * 1_000_000_000 <= secs * 1_000_000_000
            <= 0x7fff_ffff_ffff_ffff * 1_000_000_000) by (nonlinear_arith)
            requires
                -0x8000_0000_0000_0000 <= secs <= 0x7fff_ffff_ffff_ffff,
        ;
        secs * 1_000_000_000 + nanos
    }

    /// Whole days that have passed at `self` since `earlier`.
    pub fn whole_days_since(&self, earlier: &Timestamp) -> (r: Option<u64>)
        ensures
            r.is_some() == self.days_since(*earlier).is_some(),
            r matches Some(d) ==> self.days_since(*earlier) == Some(d as int),
    {
        let now: i128 = self.nanos_since_epoch();
        let then: i128 = earlier.nanos_since_epoch();
        if now < then {
            return None;
        }
        let secs: i128 = (now - then) / 1_000_000_000;
        let days: i128 = secs / 86_400;
        Some(days as u64)
    }

    /// Whether at least `span` has passed at `self` since `earlier`.
    pub fn has_passed(&self, earlier: &Timestamp, span: &Span) -> (r: bool)
        ensures
            r == (self.total_nanos() - earlier.total_nanos() >= span.total_nanos()),
    {
        let now: i128 = self.nanos_since_epoch();
        let then: i128 = earlier.nanos_since_epoch();
        let secs: i128 = span.secs as i128;
        let nanos: i128 = span.nanos as i128;
        assert(0 <= secs * 1_000_000_000 <= 0xffff_ffff_ffff_ffff * 1_000_000_000)
            by (nonlinear_arith)
            requires
                0 <= secs <= 0xffff_ffff_ffff_ffff,
        ;
        now - then >= secs * 1_000_000_000 + nanos
    }
}

/// The time, where there is one, is valid.
pub open spec fn valid_time(t: Option<Timestamp>) -> bool {
    match t {
        Some(x) => x.is_valid(),
        None => true,
    }
}

/// `a` is missing, or it stands for a time that is not later than that of
/// `b`.
pub open spec fn not_after(a: Option<Timestamp>, b: Option<Timestamp>) -> bool {
    match (a, b) {
        (None, _) => true,
        (Some(_), None) => false,
        (Some(x), Some(y)) => x.total_nanos() <= y.total_nanos(),
    }
}

/// `latest` is the later in time of `a` and `b`: it is one of the two, and
/// neither stands for a later time.
pub open spec fn is_later_in_time(
    a: Option<Timestamp>,
    b: Option<Timestamp>,
    latest: Option<Timestamp>,
) -> bool {
    &&& latest == a || latest == b
    &&& not_after(a, latest)
    &&& not_after(b, latest)
}

/// The later of two optional times, going by the fields; a missing time is
/// earlier than any time. For valid times this is the later in time: see
/// `lemma_later_of_is_later_in_time`.
pub open spec fn later_of(a: Option<Timestamp>, b: Option<Timestamp>) -> Option<Timestamp> {
    match (a, b) {
        (_, None) => a,
        (None, _) => b,
        (Some(x), Some(y)) => if y.at_or_before(x) {
            a
        } else {
            b
        },
    }
}

/// `a` may stand before `b` when times are listed oldest first, going by
/// the fields: a missing time counts as older than any time. For valid times
/// this is the order in time: see `lemma_time_key_is_chronological`.
pub open spec fn time_key_le(a: Option<Timestamp>, b: Option<Timestamp>) -> bool {
    match (a, b) {
        (None, _) => true,
        (Some(_), None) => false,
        (Some(x), Some(y)) => x.at_or_before(y),
    }
}

/// The later of two optional times.
pub fn max_time(a: Option<Timestamp>, b: Option<Timestamp>) -> (r: Option<Timestamp>)
    ensures
        r == later_of(a, b),
        valid_time(a) && valid_time(b) ==> is_later_in_time(a, b, r) && valid_time(r),
{
    proof {
        if valid_time(a) && valid_time(b) {
            lemma_later_of_is_later_in_time(a, b);
        }
    }
    match (a, b) {
        (_, None) => a,
        (None, _) => b,
        (Some(x), Some(y)) => if y.is_at_or_before(&x) {
            a
        } else {
            b
        },
    }
}

/// Whether `a` may stand before `b` when times are listed oldest first.
pub fn time_key_in_order(a: Option<Timestamp>, b: Option<Timestamp>) -> (r: bool)
    ensures
        r == time_key_le(a, b),
        valid_time(a) && valid_time(b) ==> r == not_after(a, b),
{
    proof {
        if valid_time(a) && valid_time(b) {
            lemma_time_key_is_chronological(a, b);
        }
    }
    match (a, b) {
        (None, _) => true,
        (Some(_), None) => false,
        (Some(x), Some(y)) => x.is_at_or_before(&y),
    }
}

/// On valid timestamps the order by fields is the order on the time line.
pub proof fn lemma_order_is_chronological(a: Timestamp, b: Timestamp)
    requires
        a.is_valid(),
        b.is_valid(),
    ensures
        a.at_or_before(b) <==> a.total_nanos() <= b.total_nanos(),
{
    if a.secs < b.secs {
        assert(a.secs * NANOS_PER_SEC + NANOS_PER_SEC <= b.secs * NANOS_PER_SEC)
            by (nonlinear_arith)
            requires
                a.secs < b.secs,
        ;
    } else if b.secs < a.secs {
        assert(b.secs * NANOS_PER_SEC + NANOS_PER_SEC <= a.secs * NANOS_PER_SEC)
            by (nonlinear_arith)
            requires
                b.secs < a.secs,
        ;
    }
}

/// Between valid times the order of `time_key_le` is the order in time.
pub proof fn lemma_time_key_is_chronological(a: Option<Timestamp>, b: Option<Timestamp>)
    requires
        valid_time(a),
        valid_time(b),
    ensures
        time_key_le(a, b) == not_after(a, b),
{
    match (a, b) {
        (Some(x), Some(y)) => {
            lemma_order_is_chronological(x, y);
        },
        _ => {},
    }
}

/// Of two valid times `later_of` gives the later in time.
pub proof fn lemma_later_of_is_later_in_time(a: Option<Timestamp>, b: Option<Timestamp>)
    requires
        valid_time(a),
        valid_time(b),
    ensures
        is_later_in_time(a, b, later_of(a, b)),
        valid_time(later_of(a, b)),
{
    match (a, b) {
        (Some(x), Some(y)) => {
            lemma_order_is_chronological(x, y);
            lemma_order_is_chronological(y, x);
        },
        _ => {},
    }
}

/// `time_key_le` is a total order on optional times.
pub proof fn lemma_time_key_order(
    a: Option<Timestamp>,
    b: Option<Timestamp>,
    c: Option<Timestamp>,
)
    ensures
        time_key_le(a, a),
        time_key_le(a, b) || time_key_le(b, a),
        time_key_le(a, b) && time_key_le(b, a) ==> a == b,
        time_key_le(a, b) && time_key_le(b, c) ==> time_key_le(a, c),
{
}

/// Taking the later time is commutative, associative and idempotent, and a
/// missing time is its neutral element.
pub proof fn lemma_later_of(a: Option<Timestamp>, b: Option<Timestamp>, c: Option<Timestamp>)
    ensures
        later_of(a, b) == later_of(b, a),
        later_of(later_of(a, b), c) == later_of(a, later_of(b, c)),
        later_of(a, a) == a,
        later_of(a, None) == a,
        time_key_le(a, later_of(a, b)),
        time_key_le(b, later_of(a, b)),
{
}

} // verus!
