//! Elapsed time, its text, and the clock that every stream reads.
use vstd::prelude::*;
use crate::text::string_from_chars;

verus! {

pub const NANOS_PER_SEC: u32 = 1_000_000_000;

/// A span of time since the start of the run: whole seconds and the nanoseconds
/// beyond them.
#[derive(Clone, Copy, Debug, PartialEq, Eq)]
pub struct Elapsed {
    secs: u64,
    nanos: u32,
}

impl Elapsed {
    #[verifier::type_invariant]
    spec fn nanos_below_a_second(self) -> bool {
        self.nanos < NANOS_PER_SEC
    }

    /// The whole seconds.
    pub closed spec fn spec_secs(self) -> nat {
        self.secs as nat
    }

    /// The nanoseconds beyond the whole seconds.
    pub closed spec fn spec_nanos(self) -> nat {
        self.nanos as nat
    }

    /// The span in nanoseconds.
    pub open spec fn total_nanos(self) -> nat {
        self.spec_secs() * 1_000_000_000 + self.spec_nanos()
    }

    /// `secs` seconds and `nanos` nanoseconds; whole seconds in `nanos` carry over.
    pub fn new(secs: u64, nanos: u32) -> (r: Elapsed)
        requires
            secs + nanos / 1_000_000_000 <= u64::MAX,
        ensures
            r.total_nanos() == secs * 1_000_000_000 + nanos,
            r.spec_secs() == secs + nanos / 1_000_000_000,
            r.spec_nanos() == nanos % 1_000_000_000,
    {
        Elapsed { secs: secs + (nanos / NANOS_PER_SEC) as u64, nanos: nanos % NANOS_PER_SEC }
    }

    pub fn from_secs(secs: u64) -> (r: Elapsed)
        ensures
            r.spec_secs() == secs,
            r.spec_nanos() == 0,
    {
        Elapsed { secs, nanos: 0 }
    }

    pub fn from_millis(millis: u64) -> (r: Elapsed)
        ensures
            r.spec_secs() == millis / 1000,
            r.spec_nanos() == (millis % 1000) * 1_000_000,
            r.total_nanos() == millis * 1_000_000,
    {
        Elapsed { secs: millis / 1000, nanos: ((millis % 1000) as u32) * 1_000_000 }
    }

    pub fn from_micros(micros: u64) -> (r: Elapsed)
        ensures
            r.spec_secs() == micros / 1_000_000,
            r.spec_nanos() == (micros % 1_000_000) * 1000,
            r.total_nanos() == micros * 1000,
    {
        Elapsed { secs: micros / 1_000_000, nanos: ((micros % 1_000_000) as u32) * 1000 }
    }

    pub fn as_secs(&self) -> (r: u64)
        ensures
            r == self.spec_secs(),
    {
        self.secs
    }

    pub fn subsec_nanos(&self) -> (r: u32)
        ensures
            r == self.spec_nanos(),
            r < NANOS_PER_SEC,
    {
        proof {
            use_type_invariant(self);
        }
        self.nanos
    }

    /// Whether `self` is no shorter than `other`.
    pub fn is_at_least(&self, other: &Elapsed) -> (r: bool)
        ensures
            r == (self.total_nanos() >= other.total_nanos()),
    {
        proof {
            use_type_invariant(self);
            use_type_invariant(other);
        }
        self.secs > other.secs || (self.secs == other.secs && self.nanos >= other.nanos)
    }

    /// The span from `earlier` to `self`; zero where `earlier` is the later one.
    pub fn saturating_sub(&self, earlier: &Elapsed) -> (r: Elapsed)
        ensures
            self.total_nanos() >= earlier.total_nanos() ==> r.total_nanos() == self.total_nanos()
                - earlier.total_nanos(),
            self.total_nanos() < earlier.total_nanos() ==> r.total_nanos() == 0,
    {
        proof {
            use_type_invariant(self);
            use_type_invariant(earlier);
        }
        if self.secs < earlier.secs || (self.secs == earlier.secs && self.nanos < earlier.nanos) {
            Elapsed { secs: 0, nanos: 0 }
        } else if self.nanos >= earlier.nanos {
            Elapsed { secs: self.secs - earlier.secs, nanos: self.nanos - earlier.nanos }
        } else {
            Elapsed {
                secs: self.secs - earlier.secs - 1,
                nanos: NANOS_PER_SEC - earlier.nanos + self.nanos,
            }
        }
    }
}

/// The character of the decimal digit `d`.
pub open spec fn digit_char(d: nat) -> char {
    (d + '0' as nat) as char
}

/// `n` in decimal.
pub open spec fn decimal(n: nat) -> Seq<char>
    decreases n,
{
    if n < 10 {
        seq![digit_char(n)]
    } else {
        decimal(n / 10).push(digit_char(n % 10))
    }
}

/// `n` in decimal, with zeros in front up to `width` characters.
pub open spec fn zero_padded(n: nat, width: nat) -> Seq<char> {
    if decimal(n).len() < width {
        Seq::new((width - decimal(n).len()) as nat, |i: int| '0') + decimal(n)
    } else {
        decimal(n)
    }
}

/// The text of a span: `MM:SS.mmm`, `HH:` in front from the first hour on, and six
/// digits of fraction with `microseconds`.
pub open spec fn format_text(secs: nat, nanos: nat, microseconds: bool) -> Seq<char> {
    let hours = secs / 3600;
    (if hours > 0 {
        zero_padded(hours, 2).push(':')
    } else {
        Seq::empty()
    }) + zero_padded(secs / 60 % 60, 2).push(':') + zero_padded(secs % 60, 2).push('.') + (
    if microseconds {
        zero_padded(nanos / 1000, 6)
    } else {
        zero_padded(nanos / 1_000_000, 3)
    })
}

pub open spec fn elapsed_text(d: Elapsed, microseconds: bool) -> Seq<char> {
    format_text(d.spec_secs(), d.spec_nanos(), microseconds)
}

/// The number of fraction digits.
pub open spec fn spec_subsec_length(microseconds: bool) -> nat {
    if microseconds {
        6
    } else {
        3
    }
}

/// The length of the text of a span under an hour.
pub open spec fn spec_duration_length(microseconds: bool) -> nat {
    2 + 1 + 2 + 1 + spec_subsec_length(microseconds)
}

/// The length of a time stamp under an hour, with its delta where there is one.
pub open spec fn spec_stamp_length(with_delta: bool, microseconds: bool) -> nat {
    if with_delta {
        spec_duration_length(microseconds) * 2 + 3
    } else {
        spec_duration_length(microseconds)
    }
}

pub open spec fn spaces(n: nat) -> Seq<char> {
    Seq::new(n, |i: int| ' ')
}

/// The time stamp of a line at `time`, with the delta from `previous` where asked; spaces
/// of the width of a stamp where the time could not be read.
pub open spec fn stamp_text(
    time: Option<Elapsed>,
    previous: Option<Elapsed>,
    with_delta: bool,
    microseconds: bool,
) -> Seq<char> {
    match time {
        None => spaces(spec_stamp_length(with_delta, microseconds)),
        Some(t) => elapsed_text(t, microseconds) + if !with_delta {
            Seq::empty()
        } else {
            match previous {
                Some(p) => seq![' ', '('] + format_text(
                    if t.total_nanos() >= p.total_nanos() {
                        ((t.total_nanos() - p.total_nanos()) as nat) / 1_000_000_000
                    } else {
                        0
                    },
                    if t.total_nanos() >= p.total_nanos() {
                        ((t.total_nanos() - p.total_nanos()) as nat) % 1_000_000_000
                    } else {
                        0
                    },
                    microseconds,
                ) + seq![')'],
                None => spaces(spec_duration_length(microseconds) + 3),
            }
        },
    }
}

fn digit(d: u64) -> (r: char)
    requires
        d < 10,
    ensures
        r == digit_char(d as nat),
{
    let c = (d as u8 + 48u8) as char;
    assert(c == digit_char(d as nat));
    c
}

fn push_decimal(out: &mut Vec<char>, n: u64)
    ensures
        final(out)@ == old(out)@ + decimal(n as nat),
    decreases n,
{
    if n >= 10 {
        push_decimal(out, n / 10);
    }
    out.push(digit(n % 10));
    proof {
        if n < 10 {
            assert(old(out)@.push(digit_char(n as nat)) =~= old(out)@ + decimal(n as nat));
        } else {
            assert(old(out)@ + decimal((n / 10) as nat) + seq![digit_char((n % 10) as nat)]
                =~= old(out)@ + decimal(n as nat));
        }
    }
}

fn push_padded(out: &mut Vec<char>, n: u64, width: usize)
    ensures
        final(out)@ == old(out)@ + zero_padded(n as nat, width as nat),
{
    let mut digits: Vec<char> = Vec::new();
    push_decimal(&mut digits, n);
    assert(digits@ =~= decimal(n as nat));
    let ghost start = out@;
    let mut i: usize = digits.len();
    while i < width
        invariant
            digits@ == decimal(n as nat),
            digits.len() <= i,
            i <= width || i == digits.len(),
            out@ == start + Seq::new((i - digits.len()) as nat, |k: int| '0'),
        decreases width - i,
    {
        out.push('0');
        assert(out@ =~= start + Seq::new((i + 1 - digits.len()) as nat, |k: int| '0'));
        i = i + 1;
    }
    let ghost zeros = out@;
    let mut j: usize = 0;
    while j < digits.len()
        invariant
            digits@ == decimal(n as nat),
            j <= digits.len(),
            out@ == zeros + digits@.take(j as int),
        decreases digits.len() - j,
    {
        out.push(digits[j]);
        assert(out@ =~= zeros + digits@.take(j + 1));
        j = j + 1;
    }
    assert(digits@.take(digits.len() as int) =~= digits@);
    if digits.len() < width {
        assert(out@ =~= start + zero_padded(n as nat, width as nat));
    } else {
        assert(Seq::new(0, |k: int| '0') + digits@ =~= digits@);
        assert(out@ =~= start + zero_padded(n as nat, width as nat));
    }
}

/// Appends the text of `duration`.
pub(crate) fn push_format(out: &mut Vec<char>, duration: &Elapsed, microseconds: bool)
    ensures
        final(out)@ == old(out)@ + elapsed_text(*duration, microseconds),
{
    let secs = duration.as_secs();
    let nanos = duration.subsec_nanos();
    let ghost start = out@;
    let hours = secs / 3600;
    if hours > 0 {
        push_padded(out, hours, 2);
        out.push(':');
    }
    let ghost part1 = out@;
    push_padded(out, secs / 60 % 60, 2);
    out.push(':');
    push_padded(out, secs % 60, 2);
    out.push('.');
    let ghost part2 = out@;
    if microseconds {
        push_padded(out, (nanos / 1000) as u64, 6);
    } else {
        push_padded(out, (nanos / 1_000_000) as u64, 3);
    }
    proof {
        let h: Seq<char> = if hours > 0 {
            zero_padded(hours as nat, 2).push(':')
        } else {
            Seq::empty()
        };
        assert(part1 =~= start + h);
        assert(out@ =~= start + elapsed_text(*duration, microseconds));
    }
}

/// The text of `duration`: `MM:SS.mmm`, with `HH:` in front from the first hour on,
/// and six digits of fraction with `microseconds`.
pub fn format(duration: Elapsed, microseconds: bool) -> (r: String)
    ensures
        r@ == elapsed_text(duration, microseconds),
{
    let mut out: Vec<char> = Vec::new();
    push_format(&mut out, &duration, microseconds);
    assert(out@ =~= elapsed_text(duration, microseconds));
    string_from_chars(&out)
}

fn subsec_length(microseconds: bool) -> (r: usize)
    ensures
        r == spec_subsec_length(microseconds),
{
    if microseconds {
        6
    } else {
        3
    }
}

/// The length of the text of a span under an hour.
fn duration_length(microseconds: bool) -> (r: usize)
    ensures
        r == spec_duration_length(microseconds),
{
    2 + 1 + 2 + 1 + subsec_length(microseconds)
}

/// The length of a time stamp under an hour, with its delta where there is one.
fn stamp_length(with_delta: bool, microseconds: bool) -> (r: usize)
    ensures
        r == spec_stamp_length(with_delta, microseconds),
{
    if with_delta {
        duration_length(microseconds) * 2 + 3
    } else {
        duration_length(microseconds)
    }
}

fn push_spaces(out: &mut Vec<char>, n: usize)
    ensures
        final(out)@ == old(out)@ + spaces(n as nat),
{
    let ghost start = out@;
    let mut i: usize = 0;
    while i < n
        invariant
            i <= n,
            out@ == start + spaces(i as nat),
        decreases n - i,
    {
        out.push(' ');
        assert(out@ =~= start + spaces((i + 1) as nat));
        i = i + 1;
    }
}

/// Appends the time stamp of a line at `time`, with the delta from `previous` where
/// asked; spaces of the same width where the time could not be read.
#[verifier::rlimit(60)]
#[verifier::spinoff_prover]
pub(crate) fn push_stamp(
    out: &mut Vec<char>,
    time: Option<Elapsed>,
    previous: Option<Elapsed>,
    with_delta: bool,
    microseconds: bool,
)
    ensures
        final(out)@ == old(out)@ + stamp_text(time, previous, with_delta, microseconds),
{
    let ghost start = out@;
    match time {
        None => push_spaces(out, stamp_length(with_delta, microseconds)),
        Some(t) => {
            push_format(out, &t, microseconds);
            let ghost mid = out@;
            if with_delta {
                match previous {
                    Some(p) => {
                        let delta = t.saturating_sub(&p);
                        out.push(' ');
                        out.push('(');
                        push_format(out, &delta, microseconds);
                        out.push(')');
                        proof {
                            use_type_invariant(&delta);
                            let d = delta.total_nanos();
                            assert(delta.spec_secs() == d / 1_000_000_000 && delta.spec_nanos()
                                == d % 1_000_000_000);
                            assert(out@ =~= mid + (seq![' ', '('] + elapsed_text(delta, microseconds)
                                + seq![')']));
                        }
                    },
                    None => push_spaces(out, duration_length(microseconds) + 3),
                }
            }
            assert(out@ =~= start + stamp_text(time, previous, with_delta, microseconds));
        },
    }
}

/// Relies on `std::time::Instant`, an opaque point in time.
#[verifier::external_type_specification]
#[verifier::external_body]
pub struct ExInstant(std::time::Instant);

/// Relies on `Instant::now`: the current point of a clock that never goes back.
#[verifier::external_body]
fn instant_now() -> (r: std::time::Instant) {
    std::time::Instant::now()
}

/// Relies on `Instant::elapsed`: the time since `start`, as whole seconds and the
/// nanoseconds beyond them, which `Duration::subsec_nanos` keeps below a second.
#[verifier::external_body]
fn elapsed_since(start: &std::time::Instant) -> (r: (u64, u32))
    ensures
        r.1 < NANOS_PER_SEC,
{
    let d = start.elapsed();
    (d.as_secs(), d.subsec_nanos())
}

/// The clock the streams of one run share: time since the run started, and the
/// stamp it handed out last.
///
/// A clock made with `new` reads no real time: it hands out the stamps given to
/// `expect_get`, in order.
pub struct Timestamp {
    previous_time: Option<Elapsed>,
    start: Option<std::time::Instant>,
    expected_stamps: Vec<Elapsed>,
}

impl Timestamp {
    /// The stamp handed out last.
    pub closed spec fn spec_previous(&self) -> Option<Elapsed> {
        self.previous_time
    }

    /// Whether the clock reads real time.
    pub closed spec fn is_wall_clock(&self) -> bool {
        self.start is Some
    }

    /// The stamps still to hand out, for a clock that reads no real time.
    pub closed spec fn expected(&self) -> Seq<Elapsed> {
        self.expected_stamps@
    }

    /// Whether `get` has a stamp to hand out.
    pub open spec fn can_get(&self) -> bool {
        self.is_wall_clock() || self.expected().len() > 0
    }

    /// A clock that hands out the stamps given to `expect_get`.
    pub fn new() -> (r: Timestamp)
        ensures
            !r.is_wall_clock(),
            r.spec_previous() is None,
            r.expected() == Seq::<Elapsed>::empty(),
    {
        Timestamp { previous_time: None, start: None, expected_stamps: Vec::new() }
    }

    /// A clock of real time that starts now.
    pub fn wall_clock() -> (r: Timestamp)
        ensures
            r.is_wall_clock(),
            r.spec_previous() is None,
            r.expected() == Seq::<Elapsed>::empty(),
    {
        Timestamp { previous_time: None, start: Some(instant_now()), expected_stamps: Vec::new() }
    }

    /// The time since the start, never less than the stamp handed out before; for a
    /// clock of given stamps, the next of them.
    pub fn get(&mut self) -> (r: Elapsed)
        requires
            old(self).can_get(),
        ensures
            final(self).spec_previous() == Some(r),
            old(self).is_wall_clock() && old(self).spec_previous() is Some ==> r.total_nanos()
                >= old(self).spec_previous()->0.total_nanos(),
            final(self).is_wall_clock() == old(self).is_wall_clock(),
            !old(self).is_wall_clock() ==> r == old(self).expected()[0] && final(self).expected()
                == old(self).expected().drop_first(),
            old(self).is_wall_clock() ==> final(self).expected() == old(self).expected(),
    {
        let t = match &self.start {
            Some(start) => {
                let (secs, nanos) = elapsed_since(start);
                let now = Elapsed::new(secs, nanos);
                match self.previous_time {
                    Some(previous) if !now.is_at_least(&previous) => previous,
                    _ => now,
                }
            },
            None => self.expected_stamps.remove(0),
        };
        self.previous_time = Some(t);
        t
    }

    /// The stamp handed out last, if any.
    pub fn previous(&self) -> (r: Option<Elapsed>)
        ensures
            r == self.spec_previous(),
    {
        self.previous_time
    }

    /// Adds `stamp` to the stamps to hand out.
    pub fn expect_get(&mut self, stamp: Elapsed)
        ensures
            final(self).expected() == old(self).expected().push(stamp),
            final(self).spec_previous() == old(self).spec_previous(),
            final(self).is_wall_clock() == old(self).is_wall_clock(),
    {
        self.expected_stamps.push(stamp);
    }

    /// Whether every stamp given to `expect_get` has been handed out.
    pub fn assert_all_used(&self) -> (r: bool)
        ensures
            r == (self.expected().len() == 0),
    {
        self.expected_stamps.len() == 0
    }
}

/// Reads `timestamp` and returns the stamp of a line: the time, and with `with_delta`
/// the time since the stamp the clock handed out before.
pub fn create_prefix(timestamp: &mut Timestamp, with_delta: bool, microseconds: bool) -> (r:
    String)
    requires
        old(timestamp).can_get(),
    ensures
        final(timestamp).spec_previous() matches Some(t) && {
            &&& r@ == stamp_text(Some(t), old(timestamp).spec_previous(), with_delta, microseconds)
            &&& !old(timestamp).is_wall_clock() ==> t == old(timestamp).expected()[0]
            &&& old(timestamp).is_wall_clock() && old(timestamp).spec_previous() is Some
                ==> t.total_nanos() >= old(timestamp).spec_previous()->0.total_nanos()
        },
        final(timestamp).is_wall_clock() == old(timestamp).is_wall_clock(),
        !old(timestamp).is_wall_clock() ==> final(timestamp).expected() == old(timestamp).expected().drop_first(),
{
    let previous_time = timestamp.previous();
    let time = timestamp.get();
    let mut out: Vec<char> = Vec::new();
    push_stamp(&mut out, Some(time), previous_time, with_delta, microseconds);
    assert(out@ =~= stamp_text(Some(time), previous_time, with_delta, microseconds));
    string_from_chars(&out)
}

} // verus!
