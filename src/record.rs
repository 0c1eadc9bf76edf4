//! Line parser: one record line, as bytes, split into a key and a value.
//!
//! A value is a decimal number with at most one digit after the point, held
//! exactly as a count of tenths.
use vstd::prelude::*;

verus! {

/// The byte that separates a key from its value (`;`).
pub const DELIMITER: u8 = 59;

/// The ASCII `.` that separates whole units from tenths.
pub const POINT: u8 = 46;

pub open spec fn is_digit(b: u8) -> bool {
    48 <= b <= 57
}

pub open spec fn all_digits(s: Seq<u8>) -> bool {
    forall|i: int| 0 <= i < s.len() ==> is_digit(#[trigger] s[i])
}

/// The number that a string of decimal digits spells.
pub open spec fn digits_value(s: Seq<u8>) -> int
    decreases s.len(),
{
    if s.len() == 0 {
        0
    } else {
        10 * digits_value(s.drop_last()) + (s.last() - 48)
    }
}

/// The position of the first delimiter in a line, if any.
pub open spec fn first_delimiter(line: Seq<u8>) -> Option<int>
    decreases line.len(),
{
    if line.len() == 0 {
        None
    } else {
        match first_delimiter(line.drop_last()) {
            Some(i) => Some(i),
            None => if line.last() == DELIMITER {
                Some(line.len() - 1)
            } else {
                None
            },
        }
    }
}

/// An unsigned magnitude split into its whole-unit digits and its tenths digit
/// (none, or one): `12`, `12.`, `12.3` and `.3` are the accepted shapes.
pub open spec fn magnitude_parts(m: Seq<u8>) -> (Seq<u8>, Seq<u8>) {
    if m.len() >= 1 && m.last() == POINT {
        (m.drop_last(), Seq::empty())
    } else if m.len() >= 2 && m[m.len() - 2] == POINT {
        (m.subrange(0, m.len() - 2), m.subrange(m.len() - 1, m.len() as int))
    } else {
        (m, Seq::empty())
    }
}

/// The magnitude in tenths, if `m` has one of the accepted shapes.
pub open spec fn magnitude_tenths(m: Seq<u8>) -> Option<int> {
    let (whole, frac) = magnitude_parts(m);
    if all_digits(whole) && all_digits(frac) && whole.len() + frac.len() >= 1 {
        Some(10 * digits_value(whole) + digits_value(frac))
    } else {
        None
    }
}

/// The value that `text` spells, in tenths: an optional sign (`-` or `+`)
/// followed by a magnitude.
pub open spec fn decimal_tenths(text: Seq<u8>) -> Option<int> {
    if text.len() >= 1 && text[0] == 45 {
        match magnitude_tenths(text.drop_first()) {
            Some(v) => Some(-v),
            None => None,
        }
    } else if text.len() >= 1 && text[0] == 43 {
        magnitude_tenths(text.drop_first())
    } else {
        magnitude_tenths(text)
    }
}

/// The sample that a value text holds: its value in tenths where that value
/// exists and fits in an `i64`.
pub open spec fn sample_of(text: Seq<u8>) -> Option<int> {
    match decimal_tenths(text) {
        Some(v) => if i64::MIN <= v <= i64::MAX {
            Some(v)
        } else {
            None
        },
        None => None,
    }
}

/// What one line holds: no delimiter (the line is skipped), a value text
/// that is no sample, or a key with its sample.
pub enum LineView {
    Skipped,
    Malformed,
    Record(Seq<u8>, int),
}

/// A line read as a record: the key is everything before the first
/// delimiter, the value text everything after it.
pub open spec fn line_view(line: Seq<u8>) -> LineView {
    match first_delimiter(line) {
        None => LineView::Skipped,
        Some(i) => match sample_of(line.subrange(i + 1, line.len() as int)) {
            None => LineView::Malformed,
            Some(v) => LineView::Record(line.subrange(0, i), v),
        },
    }
}

/// One parsed record: a key and its sample in tenths.
pub struct Record {
    pub key: Vec<u8>,
    pub value: i64,
}

/// Why a line gave no record.
#[derive(Clone, Copy, Debug, PartialEq, Eq, Structural)]
pub enum LineError {
    /// The line holds no delimiter; such a line is skipped.
    MissingDelimiter,
    /// The text after the delimiter is not a number that fits.
    MalformedValue,
}

proof fn lemma_first_delimiter_extends(s: Seq<u8>, n: int, i: int)
    requires
        0 <= n <= s.len(),
        first_delimiter(s.subrange(0, n)) == Some(i),
    ensures
        first_delimiter(s) == Some(i),
    decreases s.len(),
{
    if n == s.len() {
        assert(s.subrange(0, n) =~= s);
    } else {
        assert(s.drop_last().subrange(0, n) =~= s.subrange(0, n));
        lemma_first_delimiter_extends(s.drop_last(), n, i);
    }
}

proof fn lemma_first_delimiter_bounds(s: Seq<u8>)
    ensures
        match first_delimiter(s) {
            Some(i) => 0 <= i < s.len() && s[i] == DELIMITER,
            None => true,
        },
    decreases s.len(),
{
    if s.len() > 0 {
        lemma_first_delimiter_bounds(s.drop_last());
    }
}

proof fn lemma_digits_value_nonneg(s: Seq<u8>)
    requires
        all_digits(s),
    ensures
        digits_value(s) >= 0,
    decreases s.len(),
{
    if s.len() > 0 {
        assert(is_digit(s[s.len() - 1]));
        assert(all_digits(s.drop_last()));
        lemma_digits_value_nonneg(s.drop_last());
    }
}

proof fn lemma_digits_value_prefix(s: Seq<u8>, n: int)
    requires
        all_digits(s),
        0 <= n <= s.len(),
    ensures
        digits_value(s.subrange(0, n)) <= digits_value(s),
    decreases s.len(),
{
    if n == s.len() {
        assert(s.subrange(0, n) =~= s);
    } else {
        assert(is_digit(s[s.len() - 1]));
        assert(all_digits(s.drop_last()));
        assert(s.drop_last().subrange(0, n) =~= s.subrange(0, n));
        lemma_digits_value_prefix(s.drop_last(), n);
        lemma_digits_value_nonneg(s.drop_last());
    }
}

/// The position of the first delimiter in `line`.
pub fn find_delimiter(line: &[u8]) -> (r: Option<usize>)
    ensures
        match r {
            Some(i) => first_delimiter(line@) == Some(i as int),
            None => first_delimiter(line@) is None,
        },
{
    let mut i: usize = 0;
    while i < line.len()
        invariant
            0 <= i <= line@.len(),
            first_delimiter(line@.subrange(0, i as int)) is None,
        decreases line@.len() - i,
    {
        assert(line@.subrange(0, i + 1).drop_last() =~= line@.subrange(0, i as int));
        if line[i] == DELIMITER {
            proof {
                lemma_first_delimiter_extends(line@, i + 1, i as int);
            }
            return Some(i);
        }
        i = i + 1;
    }
    assert(line@.subrange(0, i as int) =~= line@);
    None
}

/// The number that the digits of `s` spell, where all are digits and the
/// number fits in a `u64`.
fn digits_u64(s: &[u8]) -> (r: Option<u64>)
    ensures
        match r {
            Some(v) => all_digits(s@) && v == digits_value(s@),
            None => !all_digits(s@) || digits_value(s@) > u64::MAX,
        },
{
    let mut acc: u64 = 0;
    let mut j: usize = 0;
    while j < s.len()
        invariant
            0 <= j <= s@.len(),
            all_digits(s@.subrange(0, j as int)),
            acc == digits_value(s@.subrange(0, j as int)),
        decreases s@.len() - j,
    {
        let b = s[j];
        let ghost next = s@.subrange(0, j + 1);
        assert(next.drop_last() =~= s@.subrange(0, j as int));
        if b < 48 || b > 57 {
            assert(!is_digit(s@[j as int]));
            return None;
        }
        let wide: u128 = acc as u128 * 10 + (b - 48) as u128;
        if wide > u64::MAX as u128 {
            proof {
                if all_digits(s@) {
                    lemma_digits_value_prefix(s@, j + 1);
                }
            }
            return None;
        }
        acc = wide as u64;
        j = j + 1;
    }
    assert(s@.subrange(0, j as int) =~= s@);
    Some(acc)
}

/// The magnitude that `m` spells, in tenths, where its whole part fits in a
/// `u64`.
fn magnitude(m: &[u8]) -> (r: Option<u128>)
    ensures
        match r {
            Some(v) => magnitude_tenths(m@) == Some(v as int),
            None => magnitude_tenths(m@) is None || magnitude_tenths(m@)->0 > u64::MAX,
        },
{
    let n = m.len();
    let (whole, frac) = if n >= 1 && m[n - 1] == POINT {
        (&m[0..n - 1], &m[n..n])
    } else if n >= 2 && m[n - 2] == POINT {
        (&m[0..n - 2], &m[n - 1..n])
    } else {
        (&m[0..n], &m[n..n])
    };
    assert(whole@ == magnitude_parts(m@).0 && frac@ == magnitude_parts(m@).1) by {
        assert(m@.subrange(0, n as int) =~= m@);
        assert(m@.subrange(n as int, n as int) =~= Seq::<u8>::empty());
        assert(m@.subrange(0, n - 1) =~= m@.drop_last());
    }
    if whole.len() + frac.len() == 0 {
        return None;
    }
    let w = digits_u64(whole);
    let f = digits_u64(frac);
    match (w, f) {
        (Some(w), Some(f)) => {
            proof {
                if frac@.len() == 1 {
                    assert(frac@.drop_last() =~= Seq::<u8>::empty());
                    assert(is_digit(frac@[0]));
                }
            }
            Some(10 * (w as u128) + f as u128)
        },
        _ => {
            proof {
                if all_digits(whole@) && all_digits(frac@) {
                    lemma_digits_value_nonneg(whole@);
                    lemma_digits_value_nonneg(frac@);
                }
            }
            None
        },
    }
}

/// The sample that a value text holds, in tenths.
pub fn parse_sample(text: &[u8]) -> (r: Option<i64>)
    ensures
        match r {
            Some(v) => sample_of(text@) == Some(v as int),
            None => sample_of(text@) is None,
        },
{
    let n = text.len();
    let negative = n >= 1 && text[0] == 45;
    let m = if n >= 1 && (text[0] == 45 || text[0] == 43) {
        &text[1..n]
    } else {
        &text[0..n]
    };
    assert(m@ == text@.drop_first() || m@ == text@) by {
        assert(text@.subrange(0, n as int) =~= text@);
    }
    assert(n >= 1 && (text@[0] == 45 || text@[0] == 43) ==> m@ =~= text@.drop_first());
    assert(!(n >= 1 && (text@[0] == 45 || text@[0] == 43)) ==> m@ =~= text@);
    match magnitude(m) {
        None => None,
        Some(v) => {
            if negative {
                if v <= 9223372036854775808 {
                    Some((0 - (v as i128)) as i64)
                } else {
                    None
                }
            } else if v <= 9223372036854775807 {
                Some(v as i64)
            } else {
                None
            }
        },
    }
}

/// Parses one line into a record, or says why it holds none.
pub fn parse_line(line: &[u8]) -> (r: Result<Record, LineError>)
    ensures
        match r {
            Ok(rec) => line_view(line@) == LineView::Record(rec.key@, rec.value as int),
            Err(LineError::MissingDelimiter) => line_view(line@) is Skipped,
            Err(LineError::MalformedValue) => line_view(line@) is Malformed,
        },
{
    let n = line.len();
    match find_delimiter(line) {
        None => Err(LineError::MissingDelimiter),
        Some(i) => {
            proof {
                lemma_first_delimiter_bounds(line@);
                assert(i < line@.len());
            }
            let text = &line[i + 1..n];
            match parse_sample(text) {
                None => Err(LineError::MalformedValue),
                Some(v) => {
                    let key = vstd::slice::slice_to_vec(&line[0..i]);
                    Ok(Record { key, value: v })
                },
            }
        },
    }
}

} // verus!
