//! Line-level parsing: splitting a region into lines, extracting the key,
//! and reading the fixed-point value (ten times the decimal measurement).

use vstd::prelude::*;
use vstd::slice::slice_subrange;

use crate::stats::VAL_LIMIT;
use crate::Error;

verus! {

/// The record delimiter `;`.
pub const SEMICOLON: u8 = 59;

/// The line terminator `\n`.
pub const NEWLINE: u8 = 10;

/// The sign byte `-`.
pub const MINUS: u8 = 45;

/// The decimal point `.`.
pub const DOT: u8 = 46;

/// The byte `0`.
pub const ZERO: u8 = 48;

/// The byte `9`.
pub const NINE: u8 = 57;

/// Largest integer part a value may carry; one more fractional digit makes
/// exactly `VAL_LIMIT`.
pub const MAX_INT_PART: u64 = 99_999_999_999_999_999;

pub open spec fn is_digit(b: u8) -> bool {
    ZERO <= b <= NINE
}

pub open spec fn digit_val(b: u8) -> int {
    b - ZERO
}

pub open spec fn all_digits(s: Seq<u8>) -> bool {
    forall|i: int| 0 <= i < s.len() ==> is_digit(s[i])
}

/// The number written by a sequence of digit bytes, most significant first.
pub open spec fn digits_value(s: Seq<u8>) -> int
    decreases s.len(),
{
    if s.len() == 0 {
        0
    } else {
        digits_value(s.drop_last()) * 10 + digit_val(s.last())
    }
}

/// One or more integer digits, a dot, exactly one fractional digit.
pub open spec fn valid_unsigned(s: Seq<u8>) -> bool {
    &&& s.len() >= 3
    &&& all_digits(s.take(s.len() - 2))
    &&& s[s.len() - 2] == DOT
    &&& is_digit(s.last())
}

/// Fixed-point value of an unsigned value text: the digits read as one
/// integer, the dot dropped.
pub open spec fn unsigned_value(s: Seq<u8>) -> int {
    digits_value(s.take(s.len() - 2)) * 10 + digit_val(s.last())
}

/// A value text: an optional leading `-`, then a representable unsigned value.
pub open spec fn valid_value(s: Seq<u8>) -> bool {
    if s.len() > 0 && s[0] == MINUS {
        valid_unsigned(s.skip(1)) && unsigned_value(s.skip(1)) <= VAL_LIMIT
    } else {
        valid_unsigned(s) && unsigned_value(s) <= VAL_LIMIT
    }
}

/// The fixed-point value a value text denotes.
pub open spec fn value_of(s: Seq<u8>) -> int {
    if s.len() > 0 && s[0] == MINUS {
        -unsigned_value(s.skip(1))
    } else {
        unsigned_value(s)
    }
}

pub proof fn lemma_digits_value_nonneg(s: Seq<u8>)
    requires
        all_digits(s),
    ensures
        digits_value(s) >= 0,
    decreases s.len(),
{
    if s.len() > 0 {
        assert(all_digits(s.drop_last()));
        lemma_digits_value_nonneg(s.drop_last());
        assert(digits_value(s.drop_last()) * 10 >= 0) by (nonlinear_arith)
            requires
                digits_value(s.drop_last()) >= 0,
        {}
    }
}

/// Reading a prefix of a digit string never exceeds reading the whole.
pub proof fn lemma_digits_value_prefix(s: Seq<u8>, k: int)
    requires
        all_digits(s),
        0 <= k <= s.len(),
    ensures
        digits_value(s.take(k)) <= digits_value(s),
    decreases s.len(),
{
    if k == s.len() {
        assert(s.take(k) =~= s);
    } else {
        assert(all_digits(s.drop_last()));
        lemma_digits_value_prefix(s.drop_last(), k);
        assert(s.drop_last().take(k) =~= s.take(k));
        lemma_digits_value_nonneg(s.drop_last());
        assert(digits_value(s.drop_last()) * 10 >= digits_value(s.drop_last())) by (nonlinear_arith)
            requires
                digits_value(s.drop_last()) >= 0,
        {}
    }
}

/// Parse the value part of a record: an optional `-`, one or more digits,
/// a dot, exactly one fractional digit, denoting a representable value.
#[verifier::loop_isolation(false)]
pub fn parse_temp(bytes: &[u8]) -> (r: Result<i64, Error>)
    ensures
        r is Ok <==> valid_value(bytes@),
        (r matches Ok(v) ==> v == value_of(bytes@) && -VAL_LIMIT <= v <= VAL_LIMIT),
        (r matches Err(e) ==> e == Error::MalformedRecord),
{
    let len = bytes.len();
    let neg = len > 0 && bytes[0] == MINUS;
    let start: usize = if neg { 1 } else { 0 };
    let ghost us: Seq<u8> = bytes@.skip(start as int);
    proof {
        if !neg {
            assert(us =~= bytes@);
        }
    }

    if len < start + 3 {
        return Err(Error::MalformedRecord);
    }
    if bytes[len - 2] != DOT {
        assert(us[us.len() - 2] == bytes@[len - 2]);
        return Err(Error::MalformedRecord);
    }
    let last = bytes[len - 1];
    if !(ZERO <= last && last <= NINE) {
        assert(us.last() == bytes@[len - 1]);
        return Err(Error::MalformedRecord);
    }

    let ghost ipart: Seq<u8> = us.take(us.len() - 2);
    assert(ipart =~= bytes@.subrange(start as int, len - 2));

    let mut mag: u64 = 0;
    let mut j: usize = start;
    while j < len - 2
        invariant
            start <= j <= len - 2,
            len == bytes@.len(),
            len >= start + 3,
            start == 0 || start == 1,
            ipart =~= bytes@.subrange(start as int, len - 2),
            all_digits(bytes@.subrange(start as int, j as int)),
            mag == digits_value(bytes@.subrange(start as int, j as int)),
            mag <= MAX_INT_PART,
        decreases len - 2 - j,
    {
        let b = bytes[j];
        let ghost pre: Seq<u8> = bytes@.subrange(start as int, j as int);
        let ghost pre1: Seq<u8> = bytes@.subrange(start as int, j + 1 as int);
        assert(pre1.drop_last() =~= pre);
        assert(pre1.last() == bytes@[j as int]);
        if !(ZERO <= b && b <= NINE) {
            assert(ipart[j - start] == bytes@[j as int]);
            assert(!all_digits(ipart));
            return Err(Error::MalformedRecord);
        }
        let d = (b - ZERO) as u64;
        let wide: u128 = (mag as u128) * 10 + (d as u128);
        assert(wide == digits_value(pre1));
        if wide > MAX_INT_PART as u128 {
            // The integer part alone already exceeds the representable range.
            proof {
                if valid_value(bytes@) {
                    assert(all_digits(ipart));
                    assert(pre1 =~= ipart.take(j + 1 - start as int));
                    lemma_digits_value_prefix(ipart, j + 1 - start as int);
                    assert(digits_value(ipart) > MAX_INT_PART);
                    assert(us.last() == bytes@[len - 1]);
                    assert(unsigned_value(us) == digits_value(ipart) * 10 + digit_val(us.last()));
                    assert(digits_value(ipart) * 10 > VAL_LIMIT - 9) by (nonlinear_arith)
                        requires
                            digits_value(ipart) >= MAX_INT_PART + 1,
                    {}
                    assert(unsigned_value(us) > VAL_LIMIT);
                    assert(false);
                }
            }
            return Err(Error::MalformedRecord);
        }
        mag = mag * 10 + d;
        j = j + 1;
    }

    assert(bytes@.subrange(start as int, j as int) =~= ipart);
    assert(all_digits(ipart));
    assert(us.take(us.len() - 2) =~= ipart);
    assert(us[us.len() - 2] == bytes@[len - 2]);
    assert(us.last() == bytes@[len - 1]);
    assert(valid_unsigned(us));

    let v: u64 = mag * 10 + (last - ZERO) as u64;
    assert(v == unsigned_value(us));
    assert(valid_value(bytes@));
    if neg {
        Ok(-(v as i64))
    } else {
        Ok(v as i64)
    }
}

/// Position of the first occurrence of `b` in `s`, or `s.len()` if absent.
pub open spec fn first_pos(s: Seq<u8>, b: u8) -> int
    decreases s.len(),
{
    if s.len() == 0 {
        0
    } else if s[0] == b {
        0
    } else {
        1 + first_pos(s.skip(1), b)
    }
}

/// What `first_pos` returns: the least position holding `b`, or the length.
pub proof fn lemma_first_pos(s: Seq<u8>, b: u8)
    ensures
        0 <= first_pos(s, b) <= s.len(),
        first_pos(s, b) < s.len() ==> s[first_pos(s, b)] == b,
        forall|i: int| 0 <= i < first_pos(s, b) ==> s[i] != b,
    decreases s.len(),
{
    if s.len() > 0 && s[0] != b {
        lemma_first_pos(s.skip(1), b);
        let p = first_pos(s, b);
        assert(p == 1 + first_pos(s.skip(1), b));
        if p < s.len() {
            assert(s[p] == s.skip(1)[p - 1]);
        }
        assert forall|i: int| 0 <= i < p implies s[i] != b by {
            if i >= 1 {
                assert(s[i] == s.skip(1)[i - 1]);
            }
        }
    }
}

/// `first_pos` is pinned down by the least-position characterisation.
pub proof fn lemma_first_pos_is(s: Seq<u8>, b: u8, p: int)
    requires
        0 <= p < s.len(),
        s[p] == b,
        forall|i: int| 0 <= i < p ==> s[i] != b,
    ensures
        first_pos(s, b) == p,
{
    lemma_first_pos(s, b);
    let q = first_pos(s, b);
    if q < p {
        assert(s[q] != b);
    }
    if q > p {
        assert(s[p] != b);
    }
}

/// Position of the delimiter in a line, or the line's length if absent.
pub open spec fn semi_pos(line: Seq<u8>) -> int {
    first_pos(line, SEMICOLON)
}

/// A line is valid when it has a delimiter and its value part is a valid
/// value text.
pub open spec fn valid_line(line: Seq<u8>) -> bool {
    &&& semi_pos(line) < line.len()
    &&& valid_value(line.skip(semi_pos(line) + 1))
}

/// The key of a line: every byte before the first delimiter.
pub open spec fn key_of(line: Seq<u8>) -> Seq<u8> {
    line.take(semi_pos(line))
}

/// The fixed-point value of a line.
pub open spec fn line_value(line: Seq<u8>) -> int {
    value_of(line.skip(semi_pos(line) + 1))
}

/// The lines of a region: split at terminators (terminators dropped). A final
/// fragment without terminator is a line too; an empty final fragment is not.
pub open spec fn lines_of(s: Seq<u8>) -> Seq<Seq<u8>>
    decreases s.len(),
{
    if s.len() == 0 {
        Seq::empty()
    } else {
        let p = first_pos(s, NEWLINE);
        if 0 <= p && p < s.len() {
            seq![s.take(p)] + lines_of(s.skip(p + 1))
        } else {
            seq![s]
        }
    }
}

/// Every line of the region parses.
pub open spec fn all_lines_valid(s: Seq<u8>) -> bool {
    forall|i: int| 0 <= i < lines_of(s).len() ==> valid_line(#[trigger] lines_of(s)[i])
}

/// The records of a sequence of valid lines: each line's key and value.
pub open spec fn records_of_lines(ls: Seq<Seq<u8>>) -> Seq<(Seq<u8>, int)> {
    ls.map(|i: int, l: Seq<u8>| (key_of(l), line_value(l)))
}

/// The records written in a region, line by line.
pub open spec fn records_of(s: Seq<u8>) -> Seq<(Seq<u8>, int)> {
    records_of_lines(lines_of(s))
}

/// A region has no more lines than bytes.
pub proof fn lemma_lines_len(s: Seq<u8>)
    ensures
        lines_of(s).len() <= s.len(),
    decreases s.len(),
{
    if s.len() > 0 {
        lemma_first_pos(s, NEWLINE);
        let p = first_pos(s, NEWLINE);
        if 0 <= p && p < s.len() {
            lemma_lines_len(s.skip(p + 1));
        }
    }
}

/// Splitting a region at a line-aligned boundary splits its lines: the cut
/// point must sit at an end, or immediately after a terminator.
pub proof fn lemma_lines_split(s: Seq<u8>, b: int)
    requires
        0 <= b <= s.len(),
        b == 0 || b == s.len() || s[b - 1] == NEWLINE,
    ensures
        lines_of(s) == lines_of(s.take(b)) + lines_of(s.skip(b)),
    decreases s.len(),
{
    if b == 0 {
        assert(s.take(0) =~= Seq::<u8>::empty());
        assert(s.skip(0) =~= s);
        assert(lines_of(s.take(b)) + lines_of(s.skip(b)) =~= lines_of(s));
    } else if b == s.len() {
        assert(s.take(b) =~= s);
        assert(s.skip(b) =~= Seq::<u8>::empty());
        assert(lines_of(s.take(b)) + lines_of(s.skip(b)) =~= lines_of(s));
    } else {
        lemma_first_pos(s, NEWLINE);
        let p = first_pos(s, NEWLINE);
        if p > b - 1 {
            assert(s[b - 1] != NEWLINE);
        }
        assert(0 <= p <= b - 1 < s.len());
        let t = s.take(b);
        assert(t[p] == NEWLINE);
        assert(forall|i: int| 0 <= i < p ==> t[i] != NEWLINE);
        lemma_first_pos_is(t, NEWLINE, p);
        assert(lines_of(t) == seq![t.take(p)] + lines_of(t.skip(p + 1)));
        assert(t.take(p) =~= s.take(p));

        let s2 = s.skip(p + 1);
        let b2 = b - p - 1;
        assert(0 <= b2 <= s2.len());
        if b2 > 0 && b2 < s2.len() {
            assert(s2[b2 - 1] == s[b - 1]);
        }
        lemma_lines_split(s2, b2);
        assert(t.skip(p + 1) =~= s2.take(b2));
        assert(s2.skip(b2) =~= s.skip(b));
        assert(lines_of(s) == seq![s.take(p)] + (lines_of(s2.take(b2)) + lines_of(s2.skip(b2))));
        assert(lines_of(s.take(b)) + lines_of(s.skip(b)) =~= seq![s.take(p)] + (lines_of(
            s2.take(b2),
        ) + lines_of(s2.skip(b2))));
    }
}

/// Split one line into its key and its fixed-point value.
#[verifier::loop_isolation(false)]
pub fn parse_data<'a>(line: &'a [u8]) -> (r: Result<(&'a [u8], i64), Error>)
    ensures
        r is Ok <==> valid_line(line@),
        (r matches Ok((k, v)) ==> k@ == key_of(line@) && v == line_value(line@) && -VAL_LIMIT <= v
            <= VAL_LIMIT),
        (r matches Err(e) ==> e == Error::MalformedRecord),
{
    let len = line.len();
    let mut p: usize = 0;
    while p < len && line[p] != SEMICOLON
        invariant
            0 <= p <= len,
            len == line@.len(),
            forall|i: int| 0 <= i < p ==> line@[i] != SEMICOLON,
        decreases len - p,
    {
        p = p + 1;
    }
    proof {
        lemma_first_pos(line@, SEMICOLON);
        if p < len {
            lemma_first_pos_is(line@, SEMICOLON, p as int);
        } else {
            if semi_pos(line@) < len {
                assert(line@[semi_pos(line@)] != SEMICOLON);
            }
        }
    }
    if p == len {
        return Err(Error::MalformedRecord);
    }
    let name = slice_subrange(line, 0, p);
    let rest = slice_subrange(line, p + 1, len);
    assert(name@ =~= key_of(line@));
    assert(rest@ =~= line@.skip(semi_pos(line@) + 1));
    match parse_temp(rest) {
        Ok(v) => Ok((name, v)),
        Err(e) => Err(e),
    }
}

} // verus!
