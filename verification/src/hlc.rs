//! A hybrid logical clock.
//!
//! A timestamp pairs wall-clock seconds with a logical counter that breaks
//! ties. A clock hands out timestamps that strictly increase, whatever its
//! physical-time source does, and merges timestamps received from other
//! producers so that every local stamp issued afterwards is later than them.

use std::cmp::Ordering;
use std::sync::Mutex;
use vstd::prelude::*;
use vstd::std_specs::cmp::PartialOrdSpec;
use vstd::string::StringExecFns;

verus! {

/// A hybrid logical timestamp: seconds first, logical counter as tie-break.
#[derive(Debug, Clone, Copy, PartialEq, Eq, Structural, Ord)]
pub struct HLTimestamp {
    pub seconds: i64,
    pub logical: u16,
}

impl HLTimestamp {
    /// Strict "earlier than": by seconds, then by logical counter.
    pub open spec fn before(self, other: HLTimestamp) -> bool {
        self.seconds < other.seconds || (self.seconds == other.seconds && self.logical
            < other.logical)
    }

    /// "Earlier than or equal to".
    pub open spec fn at_or_before(self, other: HLTimestamp) -> bool {
        self.before(other) || self == other
    }

    /// Whether a local tick at physical time `physical` leaves the logical
    /// counter within its range.
    pub open spec fn can_tick(self, physical: i64) -> bool {
        self.seconds < physical || self.logical < u16::MAX
    }

    /// The timestamp that follows `self` when a local event is stamped at
    /// physical time `physical`.
    pub open spec fn ticked(self, physical: i64) -> HLTimestamp
        recommends
            self.can_tick(physical),
    {
        if self.seconds < physical {
            HLTimestamp { seconds: physical, logical: 0 }
        } else {
            HLTimestamp { seconds: self.seconds, logical: (self.logical + 1) as u16 }
        }
    }

    /// Whether merging `remote` at physical time `physical` leaves the
    /// logical counter within its range.
    pub open spec fn can_merge(self, physical: i64, remote: HLTimestamp) -> bool {
        if physical > remote.seconds && physical > self.seconds {
            true
        } else if remote.seconds > self.seconds {
            remote.logical < u16::MAX
        } else if self.seconds > remote.seconds {
            self.logical < u16::MAX
        } else {
            self.logical < u16::MAX && remote.logical < u16::MAX
        }
    }

    /// The timestamp that follows `self` when an event stamped `remote`
    /// elsewhere is received at physical time `physical`.
    pub open spec fn merged(self, physical: i64, remote: HLTimestamp) -> HLTimestamp
        recommends
            self.can_merge(physical, remote),
    {
        if physical > remote.seconds && physical > self.seconds {
            HLTimestamp { seconds: physical, logical: 0 }
        } else if remote.seconds > self.seconds {
            HLTimestamp { seconds: remote.seconds, logical: (remote.logical + 1) as u16 }
        } else if self.seconds > remote.seconds {
            HLTimestamp { seconds: self.seconds, logical: (self.logical + 1) as u16 }
        } else {
            HLTimestamp {
                seconds: self.seconds,
                logical: (vstd::math::max(self.logical as int, remote.logical as int) + 1) as u16,
            }
        }
    }

    /// Creates a timestamp from its seconds and logical ticks.
    pub fn new(s: i64, l: u16) -> (t: HLTimestamp)
        ensures
            t == (HLTimestamp { seconds: s, logical: l }),
    {
        HLTimestamp { seconds: s, logical: l }
    }

    /// The seconds of the timestamp.
    pub fn seconds(&self) -> (s: i64)
        ensures
            s == self.seconds,
    {
        self.seconds
    }

    /// The logical counter of the timestamp.
    pub fn logical(&self) -> (l: u16)
        ensures
            l == self.logical,
    {
        self.logical
    }

    /// Stamps a local event: the successor of `self` at physical time
    /// `physical`.
    pub fn tick(self, physical: i64) -> (t: HLTimestamp)
        requires
            self.can_tick(physical),
        ensures
            t == self.ticked(physical),
            self.before(t),
    {
        if self.seconds < physical {
            HLTimestamp { seconds: physical, logical: 0 }
        } else {
            HLTimestamp { seconds: self.seconds, logical: self.logical + 1 }
        }
    }

    /// Stamps the reception of an event that was stamped `remote` elsewhere:
    /// the successor of `self` at physical time `physical`, later than both
    /// `self` and `remote`.
    pub fn merge(self, physical: i64, remote: HLTimestamp) -> (t: HLTimestamp)
        requires
            self.can_merge(physical, remote),
        ensures
            t == self.merged(physical, remote),
            self.before(t),
            remote.before(t),
    {
        if physical > remote.seconds && physical > self.seconds {
            HLTimestamp { seconds: physical, logical: 0 }
        } else if remote.seconds > self.seconds {
            HLTimestamp { seconds: remote.seconds, logical: remote.logical + 1 }
        } else if self.seconds > remote.seconds {
            HLTimestamp { seconds: self.seconds, logical: self.logical + 1 }
        } else {
            let mut logical: u16 = self.logical;
            if remote.logical > logical {
                logical = remote.logical;
            }
            HLTimestamp { seconds: self.seconds, logical: logical + 1 }
        }
    }
}

/// The character of a decimal digit.
pub open spec fn digit(d: int) -> char
    recommends
        0 <= d < 10,
{
    if d == 0 {
        '0'
    } else if d == 1 {
        '1'
    } else if d == 2 {
        '2'
    } else if d == 3 {
        '3'
    } else if d == 4 {
        '4'
    } else if d == 5 {
        '5'
    } else if d == 6 {
        '6'
    } else if d == 7 {
        '7'
    } else if d == 8 {
        '8'
    } else {
        '9'
    }
}

/// A natural number in decimal digits, without leading zeros.
pub open spec fn decimal(n: nat) -> Seq<char>
    decreases n,
{
    if n < 10 {
        seq![digit(n as int)]
    } else {
        decimal(n / 10).push(digit((n % 10) as int))
    }
}

/// An integer in decimal digits, behind a minus sign if it is negative.
pub open spec fn signed_decimal(i: int) -> Seq<char> {
    if i < 0 {
        seq!['-'] + decimal((-i) as nat)
    } else {
        decimal(i as nat)
    }
}

/// The text of one decimal digit.
fn digit_text(d: u64) -> (text: &'static str)
    requires
        d < 10,
    ensures
        text@ == seq![digit(d as int)],
{
    proof {
        reveal_strlit("0");
        reveal_strlit("1");
        reveal_strlit("2");
        reveal_strlit("3");
        reveal_strlit("4");
        reveal_strlit("5");
        reveal_strlit("6");
        reveal_strlit("7");
        reveal_strlit("8");
        reveal_strlit("9");
    }
    let text = if d == 0 {
        "0"
    } else if d == 1 {
        "1"
    } else if d == 2 {
        "2"
    } else if d == 3 {
        "3"
    } else if d == 4 {
        "4"
    } else if d == 5 {
        "5"
    } else if d == 6 {
        "6"
    } else if d == 7 {
        "7"
    } else if d == 8 {
        "8"
    } else {
        "9"
    };
    text
}

/// Appends a number in decimal digits.
fn push_decimal(out: &mut String, n: u64)
    ensures
        final(out)@ == old(out)@ + decimal(n as nat),
    decreases n,
{
    if n >= 10 {
        push_decimal(out, n / 10);
    }
    out.append(digit_text(n % 10));
}

impl HLTimestamp {
    /// The text of a timestamp: its seconds, a plus sign, its logical
    /// counter.
    pub open spec fn text(self) -> Seq<char> {
        signed_decimal(self.seconds as int) + seq!['+'] + decimal(self.logical as nat)
    }

    /// The timestamp as text, such as `1+2`.
    pub fn to_string(&self) -> (text: String)
        ensures
            text@ == self.text(),
    {
        let mut out = String::new();
        if self.seconds < 0 {
            proof {
                reveal_strlit("-");
            }
            out.append("-");
            push_decimal(&mut out, (-(self.seconds + 1)) as u64 + 1);
        } else {
            push_decimal(&mut out, self.seconds as u64);
        }
        proof {
            reveal_strlit("+");
        }
        out.append("+");
        push_decimal(&mut out, self.logical as u64);
        out
    }
}

impl PartialOrd for HLTimestamp {
    fn partial_cmp(&self, other: &Self) -> (r: Option<Ordering>) {
        if self.seconds < other.seconds {
            Some(Ordering::Less)
        } else if self.seconds > other.seconds {
            Some(Ordering::Greater)
        } else if self.logical < other.logical {
            Some(Ordering::Less)
        } else if self.logical > other.logical {
            Some(Ordering::Greater)
        } else {
            Some(Ordering::Equal)
        }
    }
}

impl vstd::std_specs::cmp::PartialOrdSpecImpl for HLTimestamp {
    open spec fn obeys_partial_cmp_spec() -> bool {
        true
    }

    open spec fn partial_cmp_spec(&self, other: &Self) -> Option<Ordering> {
        if self.before(*other) {
            Some(Ordering::Less)
        } else if other.before(*self) {
            Some(Ordering::Greater)
        } else {
            Some(Ordering::Equal)
        }
    }
}

/// A hybrid logical clock: the latest timestamp it has issued, and the source
/// of physical time that it consults, a function that returns the current
/// time in seconds.
///
/// The clock is changed by `get_time` and `update` alone. Its view is the
/// latest timestamp.
pub struct State<F> {
    s: HLTimestamp,
    now: F,
}

impl<F> View for State<F> {
    type V = HLTimestamp;

    closed spec fn view(&self) -> HLTimestamp {
        self.s
    }
}

/// `std::sync::Mutex`, which `State::new_sendable` returns.
#[verifier::external_type_specification]
#[verifier::external_body]
#[verifier::reject_recursive_types(T)]
pub struct ExMutex<T: ?Sized>(std::sync::Mutex<T>);

/// Reads the system clock through `time::OffsetDateTime::now_utc` and
/// returns its `unix_timestamp`: the seconds since the Unix epoch. Nothing
/// is claimed of the value.
#[verifier::external_body]
fn system_seconds() -> i64 {
    time::OffsetDateTime::now_utc().unix_timestamp()
}

/// Wraps a value in a fresh `std::sync::Mutex` with `Mutex::new`. Nothing is
/// claimed of the mutex.
#[verifier::external_body]
fn guarded<T>(value: T) -> Mutex<T> {
    Mutex::new(value)
}

impl State<()> {
    /// Creates a clock at `(0, 0)` that reads the system's time in seconds.
    pub fn new() -> (clock: State<impl FnMut() -> i64>)
        ensures
            clock@ == (HLTimestamp { seconds: 0, logical: 0 }),
            call_requires(clock.source(), ()),
    {
        State::new_with(|| system_seconds())
    }

    /// Creates the clock of `State::new` inside a `Mutex`, for producers
    /// that share one clock.
    pub fn new_sendable() -> Mutex<State<impl FnMut() -> i64>> {
        guarded(State::new())
    }
}

impl<F: FnMut() -> i64> State<F> {
    /// The source of physical time.
    pub closed spec fn source(&self) -> F {
        self.now
    }

    /// Creates a clock at `(0, 0)` that reads physical time from `now`.
    pub fn new_with(now: F) -> (clock: State<F>)
        ensures
            clock@ == (HLTimestamp { seconds: 0, logical: 0 }),
            clock.source() == now,
    {
        State { s: HLTimestamp { seconds: 0, logical: 0 }, now: now }
    }

    /// The latest timestamp that the clock has issued.
    pub fn time(&self) -> (t: HLTimestamp)
        ensures
            t == self@,
    {
        self.s
    }

    /// Stamps a local event: reads the physical time `p` and moves the clock
    /// to `ticked(p)`, which is later than every timestamp issued before.
    ///
    /// The source must be callable, and the logical counter must have room
    /// whatever the source returns.
    pub fn get_time(&mut self) -> (t: HLTimestamp)
        requires
            call_requires(old(self).source(), ()),
            forall|p: i64| call_ensures(old(self).source(), (), p) ==> old(self)@.can_tick(p),
        ensures
            t == final(self)@,
            final(self).source() == old(self).source(),
            exists|p: i64|
                call_ensures(old(self).source(), (), p) && t == old(self)@.ticked(p),
            old(self)@.before(t),
    {
        let seconds: i64 = (self.now)();
        assert(self@ == old(self)@);
        self.s = self.s.tick(seconds);
        self.s
    }

    /// Stamps the reception of an event that was stamped `event` on a remote
    /// system: reads the physical time `p` and moves the clock to
    /// `merged(p, event)`, which is later than both the clock's earlier
    /// timestamps and `event`.
    ///
    /// The source must be callable, and the logical counter must have room
    /// whatever the source returns.
    pub fn update(&mut self, event: HLTimestamp) -> (t: HLTimestamp)
        requires
            call_requires(old(self).source(), ()),
            forall|p: i64|
                call_ensures(old(self).source(), (), p) ==> old(self)@.can_merge(p, event),
        ensures
            t == final(self)@,
            final(self).source() == old(self).source(),
            exists|p: i64|
                call_ensures(old(self).source(), (), p) && t == old(self)@.merged(p, event),
            old(self)@.before(t),
            event.before(t),
    {
        let seconds: i64 = (self.now)();
        assert(self@ == old(self)@);
        self.s = self.s.merge(seconds, event);
        self.s
    }
}

/// The timestamp that a clock started at `start` shows after stamping one
/// local event at each of the physical times in `readings`, in that order.
pub open spec fn clock_after(start: HLTimestamp, readings: Seq<i64>) -> HLTimestamp
    decreases readings.len(),
{
    if readings.len() == 0 {
        start
    } else {
        clock_after(start, readings.drop_last()).ticked(readings.last())
    }
}

/// Whether the logical counter stays within its range at every one of the
/// ticks of `clock_after(start, readings)`.
pub open spec fn readings_fit(start: HLTimestamp, readings: Seq<i64>) -> bool
    decreases readings.len(),
{
    readings.len() > 0 ==> readings_fit(start, readings.drop_last()) && clock_after(
        start,
        readings.drop_last(),
    ).can_tick(readings.last())
}

/// The order of timestamps is the lexicographic order of
/// `(seconds, logical)`: `a < b` exactly if `a` has fewer seconds, or the
/// same seconds and a smaller logical counter; `a > b` is `b < a`, and two
/// timestamps that are neither earlier nor later than each other are equal.
pub proof fn lemma_order_is_lexicographic(a: HLTimestamp, b: HLTimestamp)
    ensures
        a.partial_cmp_spec(&b) == Some(Ordering::Less) <==> a.seconds < b.seconds || (a.seconds
            == b.seconds && a.logical < b.logical),
        a.partial_cmp_spec(&b) == Some(Ordering::Greater) <==> b.partial_cmp_spec(&a) == Some(
            Ordering::Less,
        ),
        a.partial_cmp_spec(&b) == Some(Ordering::Equal) <==> a == b,
        a.partial_cmp_spec(&b) is Some,
{
}

/// The order is total and strict: of `a` before `b`, `a == b` and `b`
/// before `a` exactly one holds.
pub proof fn lemma_order_is_total(a: HLTimestamp, b: HLTimestamp)
    ensures
        a.before(b) || a == b || b.before(a),
        !(a.before(b) && b.before(a)),
        !(a.before(b) && a == b),
{
}

/// The order is transitive.
pub proof fn lemma_order_is_transitive(a: HLTimestamp, b: HLTimestamp, c: HLTimestamp)
    requires
        a.before(b),
        b.before(c),
    ensures
        a.before(c),
{
}

/// A local tick yields a later timestamp whatever the physical time is:
/// ahead, stalled or behind.
pub proof fn lemma_tick_increases(t: HLTimestamp, physical: i64)
    requires
        t.can_tick(physical),
    ensures
        t.before(t.ticked(physical)),
        physical > t.seconds ==> t.ticked(physical) == (HLTimestamp {
            seconds: physical,
            logical: 0,
        }),
        physical <= t.seconds ==> t.ticked(physical).seconds == t.seconds && t.ticked(
            physical,
        ).logical == t.logical + 1,
{
}

/// Successive local ticks of one clock strictly increase: the timestamp
/// after the first `i` readings is earlier than the one after the first `j`,
/// for every `i < j`, whatever the readings are.
pub proof fn lemma_successive_ticks_increase(
    start: HLTimestamp,
    readings: Seq<i64>,
    i: int,
    j: int,
)
    requires
        readings_fit(start, readings),
        0 <= i < j <= readings.len(),
    ensures
        clock_after(start, readings.take(i)).before(clock_after(start, readings.take(j))),
    decreases readings.len(),
{
    let shorter = readings.drop_last();
    if j == readings.len() {
        assert(readings.take(j) == readings);
        if i < j - 1 {
            lemma_successive_ticks_increase(start, shorter, i, j - 1);
            assert(shorter.take(i) == readings.take(i));
            assert(shorter.take(j - 1) == shorter);
        }
    } else {
        lemma_successive_ticks_increase(start, shorter, i, j);
        assert(shorter.take(i) == readings.take(i));
        assert(shorter.take(j) == readings.take(j));
    }
}

/// One operation of a clock: stamping a local event, or receiving a remote
/// one, at a physical time.
pub enum Step {
    Local { physical: i64 },
    Remote { physical: i64, remote: HLTimestamp },
}

impl Step {
    /// The timestamp that follows `t` by this operation.
    pub open spec fn apply(self, t: HLTimestamp) -> HLTimestamp {
        match self {
            Step::Local { physical } => t.ticked(physical),
            Step::Remote { physical, remote } => t.merged(physical, remote),
        }
    }

    /// Whether this operation leaves the logical counter of `t` within its
    /// range.
    pub open spec fn fits(self, t: HLTimestamp) -> bool {
        match self {
            Step::Local { physical } => t.can_tick(physical),
            Step::Remote { physical, remote } => t.can_merge(physical, remote),
        }
    }
}

/// The timestamp that a clock started at `start` shows after `steps`, in
/// that order.
pub open spec fn clock_through(start: HLTimestamp, steps: Seq<Step>) -> HLTimestamp
    decreases steps.len(),
{
    if steps.len() == 0 {
        start
    } else {
        steps.last().apply(clock_through(start, steps.drop_last()))
    }
}

/// Whether the logical counter stays within its range at every one of
/// `steps`.
pub open spec fn steps_fit(start: HLTimestamp, steps: Seq<Step>) -> bool
    decreases steps.len(),
{
    steps.len() > 0 ==> steps_fit(start, steps.drop_last()) && steps.last().fits(
        clock_through(start, steps.drop_last()),
    )
}

/// The timestamps of one clock strictly increase over any operations,
/// local or remote, whatever the physical times are; and once a remote
/// timestamp has been received, every timestamp of the clock is later than
/// it.
pub proof fn lemma_clock_increases(start: HLTimestamp, steps: Seq<Step>, i: int, j: int)
    requires
        steps_fit(start, steps),
        0 <= i < j <= steps.len(),
    ensures
        clock_through(start, steps.take(i)).before(clock_through(start, steps.take(j))),
        steps[i] matches Step::Remote { remote, .. } ==> remote.before(
            clock_through(start, steps.take(j)),
        ),
    decreases steps.len(),
{
    let shorter = steps.drop_last();
    if j == steps.len() {
        assert(steps.take(j) == steps);
        if i < j - 1 {
            lemma_clock_increases(start, shorter, i, j - 1);
            assert(shorter.take(i) == steps.take(i));
            assert(shorter.take(j - 1) == shorter);
        }
    } else {
        lemma_clock_increases(start, shorter, i, j);
        assert(shorter.take(i) == steps.take(i));
        assert(shorter.take(j) == steps.take(j));
    }
}

/// The four cases of a merge, spelled out: physical time ahead of both
/// sides resets the counter; otherwise the side with more seconds wins and
/// its counter advances; with equal seconds the larger counter advances.
pub proof fn lemma_merge_cases(t: HLTimestamp, physical: i64, remote: HLTimestamp)
    requires
        t.can_merge(physical, remote),
    ensures
        physical > remote.seconds && physical > t.seconds ==> t.merged(physical, remote) == (
        HLTimestamp { seconds: physical, logical: 0 }),
        !(physical > remote.seconds && physical > t.seconds) && remote.seconds > t.seconds
            ==> t.merged(physical, remote).seconds == remote.seconds && t.merged(
            physical,
            remote,
        ).logical == remote.logical + 1,
        !(physical > remote.seconds && physical > t.seconds) && t.seconds > remote.seconds
            ==> t.merged(physical, remote).seconds == t.seconds && t.merged(
            physical,
            remote,
        ).logical == t.logical + 1,
        !(physical > remote.seconds && physical > t.seconds) && t.seconds == remote.seconds
            ==> t.merged(physical, remote).seconds == t.seconds && t.merged(
            physical,
            remote,
        ).logical == vstd::math::max(t.logical as int, remote.logical as int) + 1,
{
}

/// A merge yields a timestamp later than both the local state and the
/// remote timestamp.
pub proof fn lemma_merge_dominates(t: HLTimestamp, physical: i64, remote: HLTimestamp)
    requires
        t.can_merge(physical, remote),
    ensures
        t.before(t.merged(physical, remote)),
        remote.before(t.merged(physical, remote)),
{
}

} // verus!
