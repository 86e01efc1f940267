//! The dictionary's text format: one record per line, `<word> <frequency>`,
//! where the word is five lowercase ASCII letters, one space separates the
//! two, and the frequency is a decimal number that fits in a `u64`. Lines
//! end with `\n`; the last one may lack it.
use vstd::prelude::*;

use crate::word::WORD_LEN;

verus! {

pub open spec fn is_lower(b: u8) -> bool {
    97 <= b <= 122
}

pub open spec fn is_digit(b: u8) -> bool {
    48 <= b <= 57
}

/// The value of a run of decimal digits, most significant first.
pub open spec fn digits_value(s: Seq<u8>) -> nat
    decreases s.len(),
{
    if s.len() == 0 {
        0
    } else {
        digits_value(s.drop_last()) * 10 + (s.last() - 48) as nat
    }
}

/// A well-formed record, without its line end.
pub open spec fn record_ok(line: Seq<u8>) -> bool {
    &&& line.len() >= 7
    &&& forall|i: int| 0 <= i < 5 ==> is_lower(#[trigger] line[i])
    &&& line[5] == 32
    &&& forall|i: int| 6 <= i < line.len() ==> is_digit(#[trigger] line[i])
    &&& digits_value(line.subrange(6, line.len() as int)) <= u64::MAX
}

/// The word and frequency that a well-formed record holds.
pub open spec fn record_entry(line: Seq<u8>) -> (Seq<char>, u64) {
    (
        line.subrange(0, 5).map_values(|b: u8| b as char),
        digits_value(line.subrange(6, line.len() as int)) as u64,
    )
}

/// The position of the first line feed at or after `from`, or the length
/// of `t` if there is none.
pub open spec fn line_end(t: Seq<u8>, from: int) -> int
    decreases t.len() - from,
{
    if from >= t.len() {
        t.len() as int
    } else if t[from] == 10 {
        from
    } else {
        line_end(t, from + 1)
    }
}

/// The entries of the records of `t` from position `from` on, or `None`
/// when one of them is malformed.
pub open spec fn records_from(t: Seq<u8>, from: int) -> Option<Seq<(Seq<char>, u64)>>
    decreases t.len() - from,
{
    let e = line_end(t, from);
    if from < 0 || from >= t.len() {
        Some(Seq::empty())
    } else if e < from || e > t.len() || !record_ok(t.subrange(from, e)) {
        None
    } else if e == t.len() {
        Some(seq![record_entry(t.subrange(from, e))])
    } else {
        match records_from(t, e + 1) {
            Some(rest) => Some(seq![record_entry(t.subrange(from, e))] + rest),
            None => None,
        }
    }
}

/// The entries of a whole dictionary text, or `None` when a record is
/// malformed.
pub open spec fn parse_dictionary(t: Seq<u8>) -> Option<Seq<(Seq<char>, u64)>> {
    records_from(t, 0)
}

proof fn lemma_line_end_bounds(t: Seq<u8>, from: int)
    requires
        0 <= from <= t.len(),
    ensures
        from <= line_end(t, from) <= t.len(),
        line_end(t, from) < t.len() ==> t[line_end(t, from)] == 10,
    decreases t.len() - from,
{
    if from < t.len() && t[from] != 10 {
        lemma_line_end_bounds(t, from + 1);
    }
}

proof fn lemma_digits_prefix(s: Seq<u8>, k: int)
    requires
        0 <= k <= s.len(),
    ensures
        digits_value(s.subrange(0, k)) <= digits_value(s),
    decreases s.len(),
{
    if k < s.len() {
        assert(s.drop_last() =~= s.subrange(0, s.len() - 1));
        lemma_digits_prefix(s.drop_last(), k);
        assert(s.drop_last().subrange(0, k) =~= s.subrange(0, k));
    } else {
        assert(s.subrange(0, k) =~= s);
    }
}

/// Relies on String::push: the character is appended at the end.
#[verifier::external_body]
pub(crate) fn push_char(s: &mut String, c: char)
    ensures
        final(s)@ == old(s)@.push(c),
{
    s.push(c);
}

pub(crate) fn find_line_end(t: &[u8], from: usize) -> (e: usize)
    requires
        from <= t@.len(),
    ensures
        e as int == line_end(t@, from as int),
        from <= e <= t@.len(),
{
    proof {
        lemma_line_end_bounds(t@, from as int);
    }
    let mut e = from;
    while e < t.len() && t[e] != 10
        invariant
            from <= e <= t@.len(),
            line_end(t@, from as int) == line_end(t@, e as int),
        decreases t@.len() - e,
    {
        e += 1;
    }
    e
}

/// Parses the record `t[from..to]`.
pub(crate) fn parse_record(t: &[u8], from: usize, to: usize) -> (r: Option<(String, u64)>)
    requires
        from <= to <= t@.len(),
    ensures
        r is Some <==> record_ok(t@.subrange(from as int, to as int)),
        r matches Some(p) ==> (p.0@, p.1) == record_entry(t@.subrange(from as int, to as int)),
{
    let ghost line = t@.subrange(from as int, to as int);
    if to - from < 7 || t[from + 5] != 32 {
        return None;
    }
    let mut word = String::new();
    let mut i: usize = 0;
    while i < WORD_LEN
        invariant
            from + 7 <= to <= t@.len(),
            line == t@.subrange(from as int, to as int),
            i <= WORD_LEN,
            forall|k: int| 0 <= k < i ==> is_lower(#[trigger] line[k]),
            word@ == line.subrange(0, i as int).map_values(|b: u8| b as char),
        decreases WORD_LEN - i,
    {
        let b = t[from + i];
        assert(line[i as int] == b);
        if b < 97 || b > 122 {
            return None;
        }
        push_char(&mut word, b as char);
        i += 1;
        assert(word@ =~= line.subrange(0, i as int).map_values(|b: u8| b as char));
    }
    let ghost digits = line.subrange(6, line.len() as int);
    let mut value: u64 = 0;
    let mut k: usize = from + 6;
    while k < to
        invariant
            from + 7 <= to <= t@.len(),
            line == t@.subrange(from as int, to as int),
            digits == line.subrange(6, line.len() as int),
            from + 6 <= k <= to,
            forall|j: int| 6 <= j < k - from ==> is_digit(#[trigger] line[j]),
            value == digits_value(digits.subrange(0, k - from - 6)),
        decreases to - k,
    {
        let b = t[k];
        assert(line[k - from] == b);
        if b < 48 || b > 57 {
            return None;
        }
        let ghost n = k - from - 6;
        assert(digits.subrange(0, n + 1).drop_last() =~= digits.subrange(0, n));
        if value > (u64::MAX - (b - 48) as u64) / 10 {
            proof {
                lemma_digits_prefix(digits, n + 1);
            }
            return None;
        }
        value = value * 10 + (b - 48) as u64;
        k += 1;
    }
    assert(digits.subrange(0, digits.len() as int) =~= digits);
    Some((word, value))
}

} // verus!
