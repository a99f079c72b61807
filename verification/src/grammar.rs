//! The text grammar: up to five groups, each a run of decimal digits followed
//! by its unit letter, in the fixed order weeks, days, hours, minutes, seconds.
//!
//! In the notation of regular expressions the accepted texts are
//! `^(\d+w)?(\d+d)?(\d+h)?(\d+m)?(\d+s)?$`, with `\d` an ASCII digit.

use vstd::prelude::*;
use crate::decimal::{all_digits, decimal_value, digit_value, is_digit};

verus! {

pub const SECS_PER_MINUTE: i64 = 60;

pub const SECS_PER_HOUR: i64 = 3600;

pub const SECS_PER_DAY: i64 = 86400;

pub const SECS_PER_WEEK: i64 = 604800;

/// The number of units: weeks, days, hours, minutes, seconds.
pub open spec fn unit_count() -> int {
    5
}

/// The letter of the unit at place `k`, counted from weeks at place 0.
pub open spec fn unit_letter(k: int) -> char {
    if k == 0 {
        'w'
    } else if k == 1 {
        'd'
    } else if k == 2 {
        'h'
    } else if k == 3 {
        'm'
    } else {
        's'
    }
}

/// The length in seconds of the unit at place `k`.
pub open spec fn unit_span(k: int) -> int {
    if k == 0 {
        604800
    } else if k == 1 {
        86400
    } else if k == 2 {
        3600
    } else if k == 3 {
        60
    } else {
        1
    }
}

/// The place just behind the longest run of digits that starts at `i`.
pub open spec fn digit_run_end(s: Seq<char>, i: int) -> int
    decreases s.len() - i,
{
    if 0 <= i < s.len() && is_digit(s[i]) {
        digit_run_end(s, i + 1)
    } else {
        i
    }
}

/// Whether a group with the given unit letter starts at `i`: at least one
/// digit, and the letter right behind the digits.
pub open spec fn group_present(s: Seq<char>, i: int, letter: char) -> bool {
    let j = digit_run_end(s, i);
    i < j && j < s.len() && s[j] == letter
}

/// The place behind the group with the given letter at `i`, or `i` itself
/// where no such group starts there.
pub open spec fn group_end(s: Seq<char>, i: int, letter: char) -> int {
    if group_present(s, i, letter) {
        digit_run_end(s, i) + 1
    } else {
        i
    }
}

/// The magnitude of the group with the given letter at `i`; zero where no such
/// group starts there.
pub open spec fn group_magnitude(s: Seq<char>, i: int, letter: char) -> nat {
    if group_present(s, i, letter) {
        decimal_value(s.subrange(i, digit_run_end(s, i)))
    } else {
        0
    }
}

/// Where the group of unit `k` starts (or would start, if it is absent), the
/// groups of the earlier units having been read from the front of `s`.
pub open spec fn group_start(s: Seq<char>, k: int) -> int
    decreases k,
{
    if k <= 0 {
        0
    } else {
        group_end(s, group_start(s, k - 1), unit_letter(k - 1))
    }
}

/// Whether `s` is a text of the grammar: reading the five optional groups in
/// order uses up all of it.
pub open spec fn matches_grammar(s: Seq<char>) -> bool {
    group_start(s, unit_count()) == s.len()
}

/// Whether the text `s` holds a group for unit `k`.
pub open spec fn has_unit(s: Seq<char>, k: int) -> bool {
    group_present(s, group_start(s, k), unit_letter(k))
}

/// The magnitude that the text `s` gives for unit `k`; zero where the unit is
/// left out.
pub open spec fn magnitude(s: Seq<char>, k: int) -> nat {
    group_magnitude(s, group_start(s, k), unit_letter(k))
}

/// The seconds that the text `s` stands for: each magnitude times the length
/// of its unit, summed.
pub open spec fn total_seconds(s: Seq<char>) -> nat {
    magnitude(s, 0) * 604800 + magnitude(s, 1) * 86400 + magnitude(s, 2) * 3600 + magnitude(s, 3)
        * 60 + magnitude(s, 4)
}

/// The text of one group: its digits and its unit letter, or nothing where
/// the group is absent.
pub open spec fn group_text(digits: Option<Seq<char>>, letter: char) -> Seq<char> {
    match digits {
        Some(ds) => ds.push(letter),
        None => Seq::empty(),
    }
}

/// The groups of the units from place `k` on, written one behind the other.
pub open spec fn groups_text(groups: Seq<Option<Seq<char>>>, k: int) -> Seq<char>
    decreases unit_count() - k,
{
    if k < 0 || k >= unit_count() {
        Seq::empty()
    } else {
        group_text(groups[k], unit_letter(k)) + groups_text(groups, k + 1)
    }
}

/// Whether `groups` holds one entry for each unit, each either absent or a
/// run of at least one digit.
pub open spec fn well_formed_groups(groups: Seq<Option<Seq<char>>>) -> bool {
    &&& groups.len() == unit_count()
    &&& forall|k: int|
        0 <= k < unit_count() ==> match #[trigger] groups[k] {
            Some(ds) => ds.len() > 0 && all_digits(ds),
            None => true,
        }
}

/// A magnitude as the scanner reports it: itself where it fits in an `i64`,
/// `i64::MAX` where it does not.
pub open spec fn clamp_magnitude(v: nat) -> i64 {
    if v > i64::MAX {
        i64::MAX
    } else {
        v as i64
    }
}

/// Whether `bytes` holds the characters of `s`, one byte each.
pub open spec fn bytes_of(bytes: Seq<u8>, s: Seq<char>) -> bool {
    &&& bytes.len() == s.len()
    &&& forall|i: int| 0 <= i < s.len() ==> '\0' <= #[trigger] s[i] <= '\u{7f}'
    &&& forall|i: int| 0 <= i < s.len() ==> #[trigger] bytes[i] == s[i] as u8
}

/// A run of digits stops where `digit_run_end` says, and holds digits only.
pub proof fn lemma_digit_run(s: Seq<char>, i: int)
    requires
        0 <= i <= s.len(),
    ensures
        i <= digit_run_end(s, i) <= s.len(),
        forall|p: int| i <= p < digit_run_end(s, i) ==> is_digit(#[trigger] s[p]),
        digit_run_end(s, i) < s.len() ==> !is_digit(s[digit_run_end(s, i)]),
    decreases s.len() - i,
{
    if i < s.len() && is_digit(s[i]) {
        lemma_digit_run(s, i + 1);
    }
}

/// Every start of a group lies inside the text, and no group starts before
/// the one of an earlier unit.
pub proof fn lemma_group_start_bounds(s: Seq<char>, k: int)
    ensures
        0 <= group_start(s, k) <= s.len(),
        k > 0 ==> group_start(s, k - 1) <= group_start(s, k),
    decreases k,
{
    if k > 0 {
        lemma_group_start_bounds(s, k - 1);
        lemma_digit_run(s, group_start(s, k - 1));
    }
}

/// What the groups of the first `k` units cover is made of digits and unit
/// letters only.
pub proof fn lemma_groups_are_ascii(s: Seq<char>, k: int)
    requires
        0 <= k <= unit_count(),
    ensures
        forall|p: int|
            0 <= p < group_start(s, k) ==> '\0' <= #[trigger] s[p] <= '\u{7f}',
    decreases k,
{
    if k > 0 {
        lemma_groups_are_ascii(s, k - 1);
        lemma_group_start_bounds(s, k - 1);
        lemma_digit_run(s, group_start(s, k - 1));
    }
}

/// Reads the group with the given unit letter at `start`, if one stands
/// there: the place behind it and its magnitude, cut off at `i64::MAX`.
pub(crate) fn scan_group(bytes: &[u8], start: usize, letter: char, Ghost(s): Ghost<Seq<char>>) -> (r:
    (usize, i64))
    requires
        bytes_of(bytes@, s),
        start <= s.len(),
        '\0' <= letter <= '\u{7f}',
    ensures
        r.0 == group_end(s, start as int, letter),
        r.1 == clamp_magnitude(group_magnitude(s, start as int, letter)),
        start <= r.0 <= s.len(),
{
    let n = bytes.len();
    let mut j: usize = start;
    let mut acc: i64 = 0;
    proof {
        assert(s.subrange(start as int, start as int) =~= Seq::<char>::empty());
    }
    while j < n && 48 <= bytes[j] && bytes[j] <= 57
        invariant
            bytes_of(bytes@, s),
            n == s.len(),
            start <= j <= n,
            digit_run_end(s, start as int) == digit_run_end(s, j as int),
            acc == clamp_magnitude(decimal_value(s.subrange(start as int, j as int))),
        decreases n - j,
    {
        let d: i64 = (bytes[j] - 48) as i64;
        proof {
            let before = s.subrange(start as int, j as int);
            let after = s.subrange(start as int, j as int + 1);
            assert(after.drop_last() =~= before);
            assert(after.last() == s[j as int]);
            assert(is_digit(s[j as int]));
            assert(digit_value(s[j as int]) == d);
            assert(decimal_value(after) == decimal_value(before) * 10 + d);
        }
        if acc <= (i64::MAX - d) / 10 {
            acc = acc * 10 + d;
        } else {
            acc = i64::MAX;
        }
        j = j + 1;
    }
    proof {
        lemma_digit_run(s, j as int);
        assert(j < n ==> !is_digit(s[j as int]));
        assert(digit_run_end(s, j as int) == j);
    }
    if j > start && j < n && bytes[j] == letter as u8 {
        assert(s[j as int] == letter);
        (j + 1, acc)
    } else {
        assert(j < n ==> (s[j as int] == letter <==> bytes[j as int] == letter as u8));
        (start, 0)
    }
}

} // verus!
