//! The duration value, its parser and its canonical formatter.

use vstd::prelude::*;
use vstd::arithmetic::div_mod::lemma_mod_mod;
use vstd::string::*;
use crate::decimal::{append_decimal, decimal_digits};
use crate::grammar::{
    bytes_of, group_start, group_text, groups_text, lemma_group_start_bounds, lemma_groups_are_ascii,
    magnitude, matches_grammar, scan_group, total_seconds, unit_count, unit_letter, unit_span, SECS_PER_DAY,
    SECS_PER_HOUR, SECS_PER_MINUTE, SECS_PER_WEEK,
};
use crate::range::{
    days_to_seconds, hours_to_seconds, minutes_to_seconds, seconds_to_seconds, weeks_to_seconds,
    MAX_SECONDS,
};

verus! {

/// Errors returned by the parser.
#[derive(Copy, Clone, Debug, PartialEq, Eq, Structural)]
pub enum DurationFlexError {
    /// The text does not follow the grammar, e.g. `1y` (`y` is no unit) or
    /// `5s5d` (units out of order).
    InvalidFormat,
    /// The text follows the grammar, but the duration is out of range.
    OutOfRange,
}

/// Why a text was turned down by `DurationFlex::decode`: the text itself, and
/// what was expected in its place.
#[derive(Debug)]
pub struct InvalidValue {
    pub unexpected: String,
    pub expected: &'static str,
}

/// What a duration is: whole seconds and a remainder in nanoseconds.
pub struct Span {
    pub secs: int,
    pub nanos: int,
}

/// A duration that is conveniently written as text: `1h23m`, `1w6d23h49m59s`.
///
/// Values are immutable. Those that the parser gives have no negative seconds
/// and no nanoseconds.
#[derive(Copy, Clone, Debug, PartialEq, Eq, Structural)]
pub struct DurationFlex {
    secs: i64,
    nanos: i32,
}

impl View for DurationFlex {
    type V = Span;

    closed spec fn view(&self) -> Span {
        Span { secs: self.secs as int, nanos: self.nanos as int }
    }
}

/// The outcome of parsing, with the duration taken by its view.
pub open spec fn outcome_view(r: Result<DurationFlex, DurationFlexError>) -> Result<
    Span,
    DurationFlexError,
> {
    match r {
        Ok(d) => Ok(d@),
        Err(e) => Err(e),
    }
}

/// What a reader of texts should be told to expect.
pub const EXPECTED_FORMAT: &'static str =
    "a String with the format weeks (w), days (d), hours (h), minutes (m) and/or seconds (s), in order";

/// What parsing the text `s` gives. A text outside of the grammar is an
/// `InvalidFormat`, whatever numbers it holds; a text of the grammar is
/// `OutOfRange` where its total is more than `MAX_SECONDS`; any other text is
/// its total in whole seconds.
pub open spec fn parse_spec(s: Seq<char>) -> Result<Span, DurationFlexError> {
    if !matches_grammar(s) {
        Err(DurationFlexError::InvalidFormat)
    } else if total_seconds(s) > MAX_SECONDS {
        Err(DurationFlexError::OutOfRange)
    } else {
        Ok(Span { secs: total_seconds(s) as int, nanos: 0 })
    }
}

/// How many of the unit at place `k` the canonical text of `secs` shows: the
/// weeks in `secs`, then what each smaller unit holds of the rest.
pub open spec fn unit_part(secs: int, k: int) -> int {
    if k <= 0 {
        secs / unit_span(0)
    } else {
        (secs % unit_span(k - 1)) / unit_span(k)
    }
}

/// The digits of unit `k` in the canonical text of `secs`; none where the unit
/// has nothing to show.
pub open spec fn canonical_group(secs: int, k: int) -> Option<Seq<char>> {
    if unit_part(secs, k) == 0 {
        None
    } else {
        Some(decimal_digits(unit_part(secs, k) as nat))
    }
}

/// The five groups of the canonical text of `secs`.
pub open spec fn canonical_groups(secs: int) -> Seq<Option<Seq<char>>> {
    Seq::new(unit_count() as nat, |k: int| canonical_group(secs, k))
}

/// The canonical text of a duration of `secs` whole seconds, `secs` not
/// negative. Zero seconds give the empty text.
pub open spec fn format_spec(secs: int) -> Seq<char> {
    groups_text(canonical_groups(secs), 0)
}

/// What one component adds to the text: nothing for the value zero, else the
/// numeral of the value and the component's name.
pub open spec fn component_text(value: int, component: Seq<char>) -> Seq<char> {
    if value == 0 {
        Seq::empty()
    } else {
        decimal_digits(value as nat) + component
    }
}

/// The canonical text, written out unit by unit.
pub proof fn lemma_format_unfold(secs: int)
    requires
        secs >= 0,
    ensures
        format_spec(secs) == component_text(secs / 604800, seq!['w']) + component_text(
            secs % 604800 / 86400,
            seq!['d'],
        ) + component_text(secs % 86400 / 3600, seq!['h']) + component_text(
            secs % 3600 / 60,
            seq!['m'],
        ) + component_text(secs % 60, seq!['s']),
{
    reveal_with_fuel(groups_text, 6);
    let g = canonical_groups(secs);
    assert(secs % 60 / 1 == secs % 60);
    assert forall|k: int| 0 <= k < 5 implies group_text(#[trigger] g[k], unit_letter(k))
        =~= component_text(unit_part(secs, k), seq![unit_letter(k)]) by {
        if unit_part(secs, k) != 0 {
            let ds = decimal_digits(unit_part(secs, k) as nat);
            assert(ds.push(unit_letter(k)) =~= ds + seq![unit_letter(k)]);
        }
    }
    assert(groups_text(g, 5) =~= Seq::<char>::empty());
    assert(groups_text(g, 4) =~= component_text(secs % 60, seq!['s']));
    assert(groups_text(g, 3) =~= component_text(secs % 3600 / 60, seq!['m']) + groups_text(g, 4));
    assert(groups_text(g, 2) =~= component_text(secs % 86400 / 3600, seq!['h']) + groups_text(
        g,
        3,
    ));
    assert(groups_text(g, 1) =~= component_text(secs % 604800 / 86400, seq!['d']) + groups_text(
        g,
        2,
    ));
    assert(groups_text(g, 0) =~= component_text(secs / 604800, seq!['w']) + groups_text(g, 1));
}

impl DurationFlex {
    /// Whole seconds.
    pub fn secs(&self) -> (r: i64)
        ensures
            r == self@.secs,
    {
        self.secs
    }

    /// Nano-seconds.
    pub fn nanos(&self) -> (r: i32)
        ensures
            r == self@.nanos,
    {
        self.nanos
    }

    /// A duration of `secs` whole seconds, with no nanoseconds. This is how a
    /// signed duration of finer resolution comes in: cut down to its whole
    /// seconds, the rest dropped.
    pub fn from_seconds(secs: i64) -> (r: DurationFlex)
        ensures
            r@ == (Span { secs: secs as int, nanos: 0 }),
    {
        DurationFlex { secs, nanos: 0i32 }
    }

    /// A duration from the whole seconds and the nanoseconds below one second
    /// of an unsigned duration. Both are kept. Seconds beyond `i64::MAX` wrap
    /// round into the negative numbers.
    pub fn from_parts(secs: u64, subsec_nanos: u32) -> (r: DurationFlex)
        requires
            subsec_nanos < 1_000_000_000,
        ensures
            r@.nanos == subsec_nanos,
            r@.secs == if secs <= i64::MAX {
                secs as int
            } else {
                secs - 0x1_0000_0000_0000_0000
            },
    {
        let signed: i64 = if secs <= 0x7fff_ffff_ffff_ffff {
            secs as i64
        } else {
            let over: u64 = secs - 0x8000_0000_0000_0000;
            i64::MIN + (over as i64)
        };
        DurationFlex { secs: signed, nanos: subsec_nanos as i32 }
    }

    /// The whole seconds and the nanoseconds of a duration that is not
    /// negative, as an unsigned duration takes them.
    pub fn unsigned_parts(&self) -> (r: (u64, u32))
        requires
            self@.secs >= 0,
            self@.nanos >= 0,
        ensures
            r.0 == self@.secs,
            r.1 == self@.nanos,
    {
        (self.secs as u64, self.nanos as u32)
    }

    /// Takes the whole multiples of one component out of `secs` and, unless
    /// there is none, appends their count and the component's name to `out`.
    pub fn ser_component(secs: &mut i64, component: &str, component_secs: i64, out: &mut String)
        requires
            *old(secs) >= 0,
            component_secs > 0,
        ensures
            *final(secs) == *old(secs) % component_secs,
            final(out)@ == old(out)@ + component_text(
                (*old(secs) / component_secs) as int,
                component@,
            ),
    {
        let value: i64 = *secs / component_secs;
        assert(0 <= value * component_secs <= *secs && *secs - value * component_secs == *secs
            % component_secs) by (nonlinear_arith)
            requires
                value == *secs / component_secs,
                *secs >= 0,
                component_secs > 0,
        ;
        *secs -= value * component_secs;
        if value != 0 {
            append_decimal(out, value as u64);
            out.append(component);
            assert(out@ =~= old(out)@ + component_text(value as int, component@));
        } else {
            assert(out@ =~= old(out)@ + component_text(value as int, component@));
        }
    }

    /// The canonical text of this duration: the weeks, days, hours, minutes
    /// and seconds it holds, largest unit first, each reduced by the larger
    /// ones, and none written whose count is zero.
    pub fn to_string(&self) -> (r: String)
        requires
            self@.secs >= 0,
        ensures
            r@ == format_spec(self@.secs),
    {
        let mut secs: i64 = self.secs;
        let mut out = String::new();
        let ghost total = self.secs as int;
        proof {
            reveal_strlit("w");
            reveal_strlit("d");
            reveal_strlit("h");
            reveal_strlit("m");
            reveal_strlit("s");
            assert("w"@ =~= seq!['w']);
            assert("d"@ =~= seq!['d']);
            assert("h"@ =~= seq!['h']);
            assert("m"@ =~= seq!['m']);
            assert("s"@ =~= seq!['s']);
            lemma_format_unfold(total);
            lemma_mod_mod(total, 86400, 7);
            lemma_mod_mod(total, 3600, 24);
            lemma_mod_mod(total, 60, 60);
        }
        Self::ser_component(&mut secs, "w", SECS_PER_WEEK, &mut out);
        assert(out@ =~= component_text(total / 604800, seq!['w']));
        assert(secs == total % 604800);
        Self::ser_component(&mut secs, "d", SECS_PER_DAY, &mut out);
        assert(secs == total % 86400);
        Self::ser_component(&mut secs, "h", SECS_PER_HOUR, &mut out);
        assert(secs == total % 3600);
        Self::ser_component(&mut secs, "m", SECS_PER_MINUTE, &mut out);
        assert(secs == total % 60);
        Self::ser_component(&mut secs, "s", 1, &mut out);
        out
    }

    /// Parses a text such as `1w2d3h4m5s`.
    pub fn try_from(value: &str) -> (r: Result<DurationFlex, DurationFlexError>)
        ensures
            outcome_view(r) == parse_spec(value@),
            r is Ok ==> 0 <= r->Ok_0@.secs <= MAX_SECONDS && r->Ok_0@.nanos == 0,
    {
        let ghost s = value@;
        proof {
            lemma_group_start_bounds(s, 1);
            lemma_group_start_bounds(s, 2);
            lemma_group_start_bounds(s, 3);
            lemma_group_start_bounds(s, 4);
            lemma_group_start_bounds(s, 5);
        }
        if !value.is_ascii() {
            proof {
                lemma_groups_are_ascii(s, unit_count());
            }
            return Err(DurationFlexError::InvalidFormat);
        }
        let bytes = value.as_bytes();
        proof {
            is_ascii_spec_bytes(value);
            assert(bytes_of(bytes@, s));
        }
        let (at_days, weeks) = scan_group(bytes, 0, 'w', Ghost(s));
        let (at_hours, days) = scan_group(bytes, at_days, 'd', Ghost(s));
        let (at_minutes, hours) = scan_group(bytes, at_hours, 'h', Ghost(s));
        let (at_seconds, minutes) = scan_group(bytes, at_minutes, 'm', Ghost(s));
        let (at_end, seconds) = scan_group(bytes, at_seconds, 's', Ghost(s));
        proof {
            reveal_with_fuel(group_start, 6);
            assert(at_end == group_start(s, 5));
            assert(weeks == crate::grammar::clamp_magnitude(magnitude(s, 0)));
            assert(seconds == crate::grammar::clamp_magnitude(magnitude(s, 4)));
        }
        if at_end != bytes.len() {
            return Err(DurationFlexError::InvalidFormat);
        }
        let weeks = match weeks_to_seconds(weeks) {
            Some(secs) => secs,
            None => { return Err(DurationFlexError::OutOfRange); },
        };
        let days = match days_to_seconds(days) {
            Some(secs) => secs,
            None => { return Err(DurationFlexError::OutOfRange); },
        };
        let hours = match hours_to_seconds(hours) {
            Some(secs) => secs,
            None => { return Err(DurationFlexError::OutOfRange); },
        };
        let minutes = match minutes_to_seconds(minutes) {
            Some(secs) => secs,
            None => { return Err(DurationFlexError::OutOfRange); },
        };
        let seconds = match seconds_to_seconds(seconds) {
            Some(secs) => secs,
            None => { return Err(DurationFlexError::OutOfRange); },
        };
        let total: i64 = weeks + days + hours + minutes + seconds;
        match seconds_to_seconds(total) {
            Some(secs) => Ok(DurationFlex { secs, nanos: 0i32 }),
            None => Err(DurationFlexError::OutOfRange),
        }
    }

    /// Reads a duration that arrives as a text inside some structured data.
    /// Whatever the parser objects to, the reader of the data is told the
    /// same: the text that was found, and the form that is expected.
    pub fn decode(v: &str) -> (r: Result<DurationFlex, InvalidValue>)
        ensures
            match r {
                Ok(d) => parse_spec(v@) == Ok::<Span, DurationFlexError>(d@),
                Err(e) => parse_spec(v@) is Err && e.unexpected@ == v@ && e.expected@
                    == EXPECTED_FORMAT@,
            },
    {
        match DurationFlex::try_from(v) {
            Ok(value) => Ok(value),
            Err(DurationFlexError::InvalidFormat) => Err(
                InvalidValue { unexpected: v.to_owned(), expected: EXPECTED_FORMAT },
            ),
            Err(DurationFlexError::OutOfRange) => Err(
                InvalidValue { unexpected: v.to_owned(), expected: EXPECTED_FORMAT },
            ),
        }
    }
}

impl<'a> vstd::std_specs::convert::TryFromSpecImpl<&'a str> for DurationFlex {
    open spec fn obeys_try_from_spec() -> bool {
        true
    }

    closed spec fn try_from_spec(v: &'a str) -> Result<DurationFlex, DurationFlexError> {
        match parse_spec(v@) {
            Ok(span) => Ok(DurationFlex { secs: span.secs as i64, nanos: 0 }),
            Err(e) => Err(e),
        }
    }
}

impl<'a> TryFrom<&'a str> for DurationFlex {
    type Error = DurationFlexError;

    /// Parses a text such as `1w2d3h4m5s`.
    fn try_from(value: &'a str) -> (r: Result<DurationFlex, DurationFlexError>)
        ensures
            outcome_view(r) == parse_spec(value@),
    {
        DurationFlex::try_from(value)
    }
}

impl core::str::FromStr for DurationFlex {
    type Err = DurationFlexError;

    /// Parses a text such as `1w2d3h4m5s`.
    fn from_str(s: &str) -> (r: Result<DurationFlex, DurationFlexError>)
        ensures
            outcome_view(r) == parse_spec(s@),
    {
        DurationFlex::try_from(s)
    }
}

} // verus!
