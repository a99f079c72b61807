//! What holds of the grammar, the parser and the formatter together.

use vstd::prelude::*;
use vstd::arithmetic::div_mod::lemma_mod_mod;
use crate::decimal::{
    all_digits, decimal_digits, decimal_value, is_digit, lemma_decimal_digits,
    lemma_decimal_digits_leading,
};
use crate::duration::{
    canonical_groups, format_spec, parse_spec, unit_part, DurationFlexError, Span,
};
use crate::grammar::{
    digit_run_end, group_end, group_magnitude, group_present, group_start, group_text,
    groups_text, has_unit, lemma_digit_run, lemma_group_start_bounds, magnitude, matches_grammar, total_seconds,
    unit_count, unit_letter, well_formed_groups,
};
use crate::range::MAX_SECONDS;

verus! {

/// The magnitude that a group stands for: the worth of its digits, or zero
/// where it is absent.
pub open spec fn group_value(digits: Option<Seq<char>>) -> nat {
    match digits {
        Some(ds) => decimal_value(ds),
        None => 0,
    }
}

/// A stretch of digits that ends at the end of the text, or before a
/// character that is no digit, is a whole run.
pub proof fn lemma_run_of_digits(s: Seq<char>, i: int, n: int)
    requires
        0 <= i,
        0 <= n,
        i + n <= s.len(),
        forall|p: int| i <= p < i + n ==> is_digit(#[trigger] s[p]),
        i + n < s.len() ==> !is_digit(s[i + n]),
    ensures
        digit_run_end(s, i) == i + n,
    decreases n,
{
    if n > 0 {
        assert(is_digit(s[i]));
        lemma_run_of_digits(s, i + 1, n - 1);
    }
}

/// Where the rest of a text is made of the groups of later units, no group
/// of an earlier unit starts.
pub proof fn lemma_other_unit_absent(
    s: Seq<char>,
    i: int,
    groups: Seq<Option<Seq<char>>>,
    from: int,
    k: int,
)
    requires
        well_formed_groups(groups),
        0 <= k < from <= unit_count(),
        0 <= i <= s.len(),
        s.subrange(i, s.len() as int) == groups_text(groups, from),
    ensures
        !group_present(s, i, unit_letter(k)),
    decreases unit_count() - from,
{
    let rest = s.subrange(i, s.len() as int);
    if from == unit_count() {
        assert(rest.len() == 0);
        assert(i == s.len());
    } else {
        match groups[from] {
            Some(ds) => {
                let n = ds.len() as int;
                let tail = groups_text(groups, from + 1);
                assert(rest == ds.push(unit_letter(from)) + tail);
                assert(rest.len() == n + 1 + tail.len());
                assert forall|p: int| i <= p < i + n implies is_digit(#[trigger] s[p]) by {
                    assert(s[p] == rest[p - i]);
                    assert(rest[p - i] == ds[p - i]);
                }
                assert(s[i + n] == rest[n]);
                assert(rest[n] == unit_letter(from));
                lemma_run_of_digits(s, i, n);
            },
            None => {
                assert(group_text(groups[from], unit_letter(from)) =~= Seq::<char>::empty());
                assert(rest =~= groups_text(groups, from + 1));
                lemma_other_unit_absent(s, i, groups, from + 1, k);
            },
        }
    }
}

/// Where the rest of a text is made of the groups from unit `k` on, reading
/// the group of unit `k` finds what was written for it and leaves the groups
/// of the later units.
pub proof fn lemma_read_group(s: Seq<char>, i: int, groups: Seq<Option<Seq<char>>>, k: int)
    requires
        well_formed_groups(groups),
        0 <= k < unit_count(),
        0 <= i <= s.len(),
        s.subrange(i, s.len() as int) == groups_text(groups, k),
    ensures
        group_present(s, i, unit_letter(k)) == (groups[k] is Some),
        group_magnitude(s, i, unit_letter(k)) == group_value(groups[k]),
        i <= group_end(s, i, unit_letter(k)) <= s.len(),
        s.subrange(group_end(s, i, unit_letter(k)), s.len() as int) == groups_text(
            groups,
            k + 1,
        ),
{
    let rest = s.subrange(i, s.len() as int);
    let tail = groups_text(groups, k + 1);
    match groups[k] {
        Some(ds) => {
            let n = ds.len() as int;
            assert(rest == ds.push(unit_letter(k)) + tail);
            assert(rest.len() == n + 1 + tail.len());
            assert forall|p: int| i <= p < i + n implies is_digit(#[trigger] s[p]) by {
                assert(s[p] == rest[p - i]);
                assert(rest[p - i] == ds[p - i]);
            }
            assert(s[i + n] == rest[n]);
            assert(rest[n] == unit_letter(k));
            lemma_run_of_digits(s, i, n);
            assert(s.subrange(i, i + n) =~= ds) by {
                assert forall|p: int| 0 <= p < n implies s.subrange(i, i + n)[p] == ds[p] by {
                    assert(s[i + p] == rest[p]);
                    assert(rest[p] == ds[p]);
                }
            }
            assert(s.subrange(i + n + 1, s.len() as int) =~= tail) by {
                assert forall|p: int| 0 <= p < tail.len() implies s.subrange(
                    i + n + 1,
                    s.len() as int,
                )[p] == tail[p] by {
                    assert(s[i + n + 1 + p] == rest[n + 1 + p]);
                }
            }
        },
        None => {
            assert(group_text(groups[k], unit_letter(k)) =~= Seq::<char>::empty());
            assert(rest =~= tail);
            lemma_other_unit_absent(s, i, groups, k + 1, k);
        },
    }
}

/// Reading the text of some groups up to unit `k` finds each group where it
/// was written and leaves the groups from unit `k` on.
pub proof fn lemma_read_groups(groups: Seq<Option<Seq<char>>>, k: int)
    requires
        well_formed_groups(groups),
        0 <= k <= unit_count(),
    ensures
        ({
            let s = groups_text(groups, 0);
            &&& 0 <= group_start(s, k) <= s.len()
            &&& s.subrange(group_start(s, k), s.len() as int) == groups_text(groups, k)
            &&& forall|j: int|
                0 <= j < k ==> #[trigger] has_unit(s, j) == (groups[j] is Some)
            &&& forall|j: int| 0 <= j < k ==> #[trigger] magnitude(s, j) == group_value(groups[j])
        }),
    decreases k,
{
    let s = groups_text(groups, 0);
    if k == 0 {
        assert(s.subrange(0, s.len() as int) =~= s);
    } else {
        lemma_read_groups(groups, k - 1);
        lemma_read_group(s, group_start(s, k - 1), groups, k - 1);
    }
}

/// Every text that is written as five optional groups in the order of the
/// units, each a run of at least one digit and its unit letter, is a text of
/// the grammar; a unit is found in it exactly where its group was written,
/// and its magnitude is the worth of the digits written.
pub proof fn lemma_written_groups_parse(groups: Seq<Option<Seq<char>>>)
    requires
        well_formed_groups(groups),
    ensures
        matches_grammar(groups_text(groups, 0)),
        forall|k: int|
            0 <= k < unit_count() ==> #[trigger] has_unit(groups_text(groups, 0), k) == (
            groups[k] is Some),
        forall|k: int|
            0 <= k < unit_count() ==> #[trigger] magnitude(groups_text(groups, 0), k)
                == group_value(groups[k]),
{
    let s = groups_text(groups, 0);
    lemma_read_groups(groups, unit_count());
    assert(groups_text(groups, unit_count()) =~= Seq::<char>::empty());
    assert(s.subrange(group_start(s, unit_count()), s.len() as int).len() == 0);
}

/// The digits that the text `s` holds for unit `k`, if it holds the unit.
pub open spec fn digits_of(s: Seq<char>, k: int) -> Option<Seq<char>> {
    if has_unit(s, k) {
        Some(s.subrange(group_start(s, k), digit_run_end(s, group_start(s, k))))
    } else {
        None
    }
}

/// The five groups that the text `s` holds.
pub open spec fn groups_of(s: Seq<char>) -> Seq<Option<Seq<char>>> {
    Seq::new(unit_count() as nat, |k: int| digits_of(s, k))
}

/// The groups read from a text, written out again from unit `k` on, are the
/// text from the start of unit `k` to where reading stopped.
pub proof fn lemma_groups_of_text(s: Seq<char>, k: int)
    requires
        0 <= k <= unit_count(),
    ensures
        0 <= group_start(s, k) <= group_start(s, unit_count()) <= s.len(),
        groups_text(groups_of(s), k) == s.subrange(
            group_start(s, k),
            group_start(s, unit_count()),
        ),
    decreases unit_count() - k,
{
    let groups = groups_of(s);
    let stop = group_start(s, unit_count());
    let i = group_start(s, k);
    lemma_group_start_bounds(s, k);
    lemma_group_start_bounds(s, unit_count());
    if k == unit_count() {
        assert(groups_text(groups, k) =~= s.subrange(i, stop));
    } else {
        lemma_groups_of_text(s, k + 1);
        lemma_digit_run(s, i);
        let j = digit_run_end(s, i);
        let next = group_start(s, k + 1);
        assert(next == group_end(s, i, unit_letter(k)));
        if has_unit(s, k) {
            assert(s.subrange(i, j).push(unit_letter(k)) =~= s.subrange(i, j + 1));
            assert(s.subrange(i, j + 1) + s.subrange(j + 1, stop) =~= s.subrange(i, stop));
        } else {
            assert(group_text(groups[k], unit_letter(k)) =~= Seq::<char>::empty());
            assert(Seq::<char>::empty() + s.subrange(i, stop) =~= s.subrange(i, stop));
        }
    }
}

/// The groups read from any text are well formed: each present one is a run
/// of at least one digit.
pub proof fn lemma_groups_of_well_formed(s: Seq<char>)
    ensures
        well_formed_groups(groups_of(s)),
{
    let groups = groups_of(s);
    assert forall|k: int| 0 <= k < unit_count() implies match #[trigger] groups[k] {
        Some(ds) => ds.len() > 0 && all_digits(ds),
        None => true,
    } by {
        lemma_group_start_bounds(s, k);
        lemma_digit_run(s, group_start(s, k));
    }
}

/// The grammar, said in one sentence: a text is accepted exactly if it can be
/// written as five optional groups in the order weeks, days, hours, minutes,
/// seconds, each a run of at least one digit followed by its unit letter.
pub proof fn lemma_grammar_is_written_groups(s: Seq<char>)
    ensures
        matches_grammar(s) <==> exists|groups: Seq<Option<Seq<char>>>|
            well_formed_groups(groups) && #[trigger] groups_text(groups, 0) == s,
{
    if matches_grammar(s) {
        lemma_groups_of_text(s, 0);
        lemma_groups_of_well_formed(s);
        assert(s.subrange(0, s.len() as int) =~= s);
        assert(groups_text(groups_of(s), 0) == s);
    }
    if exists|groups: Seq<Option<Seq<char>>>|
        well_formed_groups(groups) && #[trigger] groups_text(groups, 0) == s {
        let groups = choose|groups: Seq<Option<Seq<char>>>|
            well_formed_groups(groups) && #[trigger] groups_text(groups, 0) == s;
        lemma_written_groups_parse(groups);
    }
}

/// The counts that the canonical text shows are those of a mixed-radix
/// decomposition: fewer than 7 days, 24 hours, 60 minutes and 60 seconds, with
/// the weeks taking the rest, and together they make up the duration.
pub proof fn lemma_unit_parts(secs: int)
    requires
        secs >= 0,
    ensures
        0 <= unit_part(secs, 0),
        0 <= unit_part(secs, 1) < 7,
        0 <= unit_part(secs, 2) < 24,
        0 <= unit_part(secs, 3) < 60,
        0 <= unit_part(secs, 4) < 60,
        unit_part(secs, 0) * 604800 + unit_part(secs, 1) * 86400 + unit_part(secs, 2) * 3600
            + unit_part(secs, 3) * 60 + unit_part(secs, 4) == secs,
{
    lemma_mod_mod(secs, 86400, 7);
    lemma_mod_mod(secs, 3600, 24);
    lemma_mod_mod(secs, 60, 60);
    let in_week = secs % 604800;
    let in_day = secs % 86400;
    let in_hour = secs % 3600;
    assert(secs == 604800 * (secs / 604800) + in_week);
    assert(in_week == 86400 * (in_week / 86400) + in_day);
    assert(in_day == 3600 * (in_day / 3600) + in_hour);
    assert(in_hour == 60 * (in_hour / 60) + secs % 60);
}

/// The groups of a canonical text are well formed.
pub proof fn lemma_canonical_groups_well_formed(secs: int)
    requires
        secs >= 0,
    ensures
        well_formed_groups(canonical_groups(secs)),
{
    let groups = canonical_groups(secs);
    lemma_unit_parts(secs);
    assert forall|k: int| 0 <= k < unit_count() implies match #[trigger] groups[k] {
        Some(ds) => ds.len() > 0 && all_digits(ds),
        None => true,
    } by {
        if unit_part(secs, k) != 0 {
            lemma_decimal_digits(unit_part(secs, k) as nat);
        }
    }
}

/// The canonical text shows a unit exactly where its count is not zero, and
/// read as a text of the grammar it gives each unit the count it was written
/// from: so no unit is written with magnitude 0, and the magnitudes of days,
/// hours, minutes and seconds stay below 7, 24, 60 and 60.
pub proof fn lemma_format_canonical(secs: int)
    requires
        secs >= 0,
    ensures
        matches_grammar(format_spec(secs)),
        forall|k: int|
            0 <= k < unit_count() ==> #[trigger] has_unit(format_spec(secs), k) == (unit_part(
                secs,
                k,
            ) != 0),
        forall|k: int|
            0 <= k < unit_count() ==> #[trigger] magnitude(format_spec(secs), k) == unit_part(
                secs,
                k,
            ),
        magnitude(format_spec(secs), 1) < 7,
        magnitude(format_spec(secs), 2) < 24,
        magnitude(format_spec(secs), 3) < 60,
        magnitude(format_spec(secs), 4) < 60,
        total_seconds(format_spec(secs)) == secs,
{
    let groups = canonical_groups(secs);
    lemma_unit_parts(secs);
    lemma_canonical_groups_well_formed(secs);
    assert forall|k: int| 0 <= k < unit_count() implies group_value(#[trigger] groups[k])
        == unit_part(secs, k) by {
        if unit_part(secs, k) != 0 {
            lemma_decimal_digits(unit_part(secs, k) as nat);
        }
    }
    lemma_written_groups_parse(groups);
    let s = format_spec(secs);
    assert(magnitude(s, 0) == unit_part(secs, 0));
    assert(magnitude(s, 1) == unit_part(secs, 1));
    assert(magnitude(s, 2) == unit_part(secs, 2));
    assert(magnitude(s, 3) == unit_part(secs, 3));
    assert(magnitude(s, 4) == unit_part(secs, 4));
}

/// In the canonical text no magnitude is written with a leading zero: each
/// numeral is the shortest for its count.
pub proof fn lemma_format_no_leading_zero(secs: int, k: int)
    requires
        secs >= 0,
        0 <= k < unit_count(),
        unit_part(secs, k) != 0,
    ensures
        has_unit(format_spec(secs), k),
        0 <= group_start(format_spec(secs), k) < format_spec(secs).len(),
        format_spec(secs)[group_start(format_spec(secs), k)] != '0',
{
    let groups = canonical_groups(secs);
    let s = format_spec(secs);
    let count = unit_part(secs, k) as nat;
    lemma_unit_parts(secs);
    lemma_canonical_groups_well_formed(secs);
    lemma_format_canonical(secs);
    lemma_read_groups(groups, k);
    lemma_decimal_digits(count);
    lemma_decimal_digits_leading(count);
    let i = group_start(s, k);
    let rest = s.subrange(i, s.len() as int);
    let ds = decimal_digits(count);
    assert(rest == ds.push(unit_letter(k)) + groups_text(groups, k + 1));
    assert(rest[0] == ds[0]);
    assert(rest.len() > 0);
    assert(s[i] == rest[0]);
}

/// Round trip: the canonical text of a duration of whole seconds, not
/// negative and within range, parses to that duration again.
pub proof fn lemma_round_trip(secs: int)
    requires
        0 <= secs <= MAX_SECONDS,
    ensures
        parse_spec(format_spec(secs)) == Ok::<Span, DurationFlexError>(
            Span { secs: secs, nanos: 0 },
        ),
{
    lemma_format_canonical(secs);
}

/// Beyond the range the round trip ends in `OutOfRange`: the canonical text
/// is still a text of the grammar, but its total is too large to be held.
pub proof fn lemma_round_trip_out_of_range(secs: int)
    requires
        secs > MAX_SECONDS,
    ensures
        parse_spec(format_spec(secs)) == Err::<Span, DurationFlexError>(
            DurationFlexError::OutOfRange,
        ),
{
    lemma_format_canonical(secs);
}

/// The parser gives no negative seconds and no nanoseconds.
pub proof fn lemma_parsed_is_whole_and_not_negative(s: Seq<char>)
    ensures
        match parse_spec(s) {
            Ok(span) => 0 <= span.secs <= MAX_SECONDS && span.nanos == 0,
            Err(_) => true,
        },
{
}

} // verus!
