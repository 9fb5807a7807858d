//! The stored text form of a timestamp: `YYYY-MM-DD HH:MM:SS`, nineteen
//! characters, every field padded with zeros to its width.

use crate::calendar::Timestamp;
use crate::text::all_digits;
use crate::text::chars_of;
use crate::text::digit_char;
use crate::text::digit_text;
use crate::text::digit_value;
use crate::text::digits_value;
use crate::text::is_digit;
use crate::text::read_digits;
use vstd::prelude::*;
use vstd::string::StringExecFns;

verus! {

/// `n` in two digits, for `n` from 0 to 99.
pub open spec fn two_digits(n: int) -> Seq<char> {
    seq![digit_char(n / 10), digit_char(n % 10)]
}

/// `n` in four digits, for `n` from 0 to 9999.
pub open spec fn four_digits(n: int) -> Seq<char> {
    seq![
        digit_char(n / 1000),
        digit_char(n / 100 % 10),
        digit_char(n / 10 % 10),
        digit_char(n % 10),
    ]
}

/// The stored text form of `t`.
pub open spec fn stamp_text(t: Timestamp) -> Seq<char> {
    four_digits(t.year as int) + seq!['-'] + two_digits(t.month as int) + seq!['-'] + two_digits(
        t.day as int,
    ) + seq![' '] + two_digits(t.hour as int) + seq![':'] + two_digits(t.minute as int) + seq![':']
        + two_digits(t.second as int)
}

/// The fields that a text of the stored form holds, valid or not; only
/// meant for a text that `has_stamp_shape`.
pub open spec fn stamp_fields(s: Seq<char>) -> Timestamp {
    Timestamp {
        year: digits_value(s.subrange(0, 4)) as i32,
        month: digits_value(s.subrange(5, 7)) as u32,
        day: digits_value(s.subrange(8, 10)) as u32,
        hour: digits_value(s.subrange(11, 13)) as u32,
        minute: digits_value(s.subrange(14, 16)) as u32,
        second: digits_value(s.subrange(17, 19)) as u32,
    }
}

/// Nineteen characters, digits but for the five separators in their
/// places.
pub open spec fn has_stamp_shape(s: Seq<char>) -> bool {
    &&& s.len() == 19
    &&& s[4] == '-'
    &&& s[7] == '-'
    &&& s[10] == ' '
    &&& s[13] == ':'
    &&& s[16] == ':'
    &&& all_digits(s.subrange(0, 4))
    &&& all_digits(s.subrange(5, 7))
    &&& all_digits(s.subrange(8, 10))
    &&& all_digits(s.subrange(11, 13))
    &&& all_digits(s.subrange(14, 16))
    &&& all_digits(s.subrange(17, 19))
}

/// The timestamp that a stored text stands for; `None` where the text has
/// not the stored form or names no valid timestamp.
pub open spec fn stamp_value(s: Seq<char>) -> Option<Timestamp> {
    if has_stamp_shape(s) && stamp_fields(s).is_valid() {
        Some(stamp_fields(s))
    } else {
        None
    }
}

/// Two digits read back give the number they were written for.
pub proof fn lemma_two_digits_value(n: int)
    requires
        0 <= n <= 99,
    ensures
        all_digits(two_digits(n)),
        digits_value(two_digits(n)) == n,
{
    let s = two_digits(n);
    assert(s.drop_last() =~= seq![digit_char(n / 10)]);
    assert(s.drop_last().drop_last() =~= Seq::<char>::empty());
    assert(digits_value(s.drop_last().drop_last()) == 0);
    assert(digits_value(s.drop_last()) == n / 10);
}

/// Four digits read back give the number they were written for.
pub proof fn lemma_four_digits_value(n: int)
    requires
        0 <= n <= 9999,
    ensures
        all_digits(four_digits(n)),
        digits_value(four_digits(n)) == n,
{
    let s = four_digits(n);
    let s3 = s.drop_last();
    let s2 = s3.drop_last();
    let s1 = s2.drop_last();
    assert(s3 =~= seq![digit_char(n / 1000), digit_char(n / 100 % 10), digit_char(n / 10 % 10)]);
    assert(s2 =~= seq![digit_char(n / 1000), digit_char(n / 100 % 10)]);
    assert(s1 =~= seq![digit_char(n / 1000)]);
    assert(s1.drop_last() =~= Seq::<char>::empty());
    assert(digits_value(s1.drop_last()) == 0);
    assert(digits_value(s1) == n / 1000);
    assert(digits_value(s2) == n / 100);
    assert(digits_value(s3) == n / 10);
}

/// Writing a valid timestamp and reading the text back gives the same
/// timestamp.
pub proof fn lemma_stamp_round_trip(t: Timestamp)
    requires
        t.is_valid(),
    ensures
        stamp_text(t).len() == 19,
        stamp_value(stamp_text(t)) == Some(t),
{
    let s = stamp_text(t);
    lemma_four_digits_value(t.year as int);
    lemma_two_digits_value(t.month as int);
    lemma_two_digits_value(t.day as int);
    lemma_two_digits_value(t.hour as int);
    lemma_two_digits_value(t.minute as int);
    lemma_two_digits_value(t.second as int);
    assert(s.subrange(0, 4) =~= four_digits(t.year as int));
    assert(s.subrange(5, 7) =~= two_digits(t.month as int));
    assert(s.subrange(8, 10) =~= two_digits(t.day as int));
    assert(s.subrange(11, 13) =~= two_digits(t.hour as int));
    assert(s.subrange(14, 16) =~= two_digits(t.minute as int));
    assert(s.subrange(17, 19) =~= two_digits(t.second as int));
}

/// A text that stands for a timestamp is the stored text form of that
/// timestamp: no two texts stand for one.
pub proof fn lemma_stamp_text_unique(s: Seq<char>)
    requires
        stamp_value(s) is Some,
    ensures
        stamp_text(stamp_value(s)->0) == s,
{
    let t = stamp_fields(s);
    lemma_digits_are_canonical(s.subrange(0, 4));
    lemma_digits_are_canonical(s.subrange(5, 7));
    lemma_digits_are_canonical(s.subrange(8, 10));
    lemma_digits_are_canonical(s.subrange(11, 13));
    lemma_digits_are_canonical(s.subrange(14, 16));
    lemma_digits_are_canonical(s.subrange(17, 19));
    assert(stamp_text(t) =~= s);
}

/// A run of two digits, or of four, is the padded form of its number.
pub proof fn lemma_digits_are_canonical(s: Seq<char>)
    requires
        all_digits(s),
        s.len() == 2 || s.len() == 4,
    ensures
        0 <= digits_value(s),
        s.len() == 2 ==> digits_value(s) <= 99 && two_digits(digits_value(s)) == s,
        s.len() == 4 ==> digits_value(s) <= 9999 && four_digits(digits_value(s)) == s,
{
    assert(is_digit(s[0]) && is_digit(s[1]));
    if s.len() == 2 {
        let s1 = s.drop_last();
        assert(s1.drop_last() =~= Seq::<char>::empty());
        assert(digits_value(s1.drop_last()) == 0);
        assert(digits_value(s1) == digit_value(s[0]));
        assert(digits_value(s) == digit_value(s[0]) * 10 + digit_value(s[1]));
        assert(two_digits(digits_value(s)) =~= s);
    } else {
        assert(is_digit(s[2]) && is_digit(s[3]));
        let s3 = s.drop_last();
        let s2 = s3.drop_last();
        let s1 = s2.drop_last();
        assert(s1.drop_last() =~= Seq::<char>::empty());
        assert(digits_value(s1.drop_last()) == 0);
        assert(digits_value(s1) == digit_value(s[0]));
        assert(digits_value(s2) == digit_value(s[0]) * 10 + digit_value(s[1]));
        assert(digits_value(s3) == digits_value(s2) * 10 + digit_value(s[2]));
        assert(digits_value(s) == digits_value(s3) * 10 + digit_value(s[3]));
        assert(four_digits(digits_value(s)) =~= s);
    }
}

/// Appends `n` in two digits.
pub fn push_two_digits(out: &mut String, n: u32)
    requires
        n <= 99,
    ensures
        final(out)@ == old(out)@ + two_digits(n as int),
{
    out.append(digit_text(n / 10));
    out.append(digit_text(n % 10));
    assert(out@ =~= old(out)@ + two_digits(n as int));
}

/// Appends `n` in four digits.
pub fn push_four_digits(out: &mut String, n: u32)
    requires
        n <= 9999,
    ensures
        final(out)@ == old(out)@ + four_digits(n as int),
{
    out.append(digit_text(n / 1000));
    out.append(digit_text(n / 100 % 10));
    out.append(digit_text(n / 10 % 10));
    out.append(digit_text(n % 10));
    assert(out@ =~= old(out)@ + four_digits(n as int));
}

/// The stored text form of a valid timestamp.
pub fn format_time(t: &Timestamp) -> (r: String)
    requires
        t.is_valid(),
    ensures
        r@ == stamp_text(*t),
{
    proof {
        reveal_strlit("-");
        reveal_strlit(" ");
        reveal_strlit(":");
    }
    let mut out = String::new();
    push_four_digits(&mut out, t.year as u32);
    let ghost year = out@;
    assert(year =~= four_digits(t.year as int));
    out.append("-");
    push_two_digits(&mut out, t.month);
    out.append("-");
    push_two_digits(&mut out, t.day);
    let ghost date = out@;
    assert(date == year + seq!['-'] + two_digits(t.month as int) + seq!['-'] + two_digits(
        t.day as int,
    ));
    out.append(" ");
    push_two_digits(&mut out, t.hour);
    out.append(":");
    push_two_digits(&mut out, t.minute);
    out.append(":");
    push_two_digits(&mut out, t.second);
    assert(out@ == date + seq![' '] + two_digits(t.hour as int) + seq![':'] + two_digits(
        t.minute as int,
    ) + seq![':'] + two_digits(t.second as int));
    out
}

/// The timestamp that the stored text `s` stands for.
pub fn parse_stamp(s: &str) -> (r: Option<Timestamp>)
    ensures
        r == stamp_value(s@),
{
    let text = chars_of(s);
    if text.len() != 19 {
        return None;
    }
    if text[4] != '-' || text[7] != '-' || text[10] != ' ' || text[13] != ':' || text[16] != ':' {
        return None;
    }
    let year = read_digits(&text, 0, 4);
    let month = read_digits(&text, 5, 7);
    let day = read_digits(&text, 8, 10);
    let hour = read_digits(&text, 11, 13);
    let minute = read_digits(&text, 14, 16);
    let second = read_digits(&text, 17, 19);
    match (year, month, day, hour, minute, second) {
        (Some(year), Some(month), Some(day), Some(hour), Some(minute), Some(second)) => {
            proof {
                lemma_digits_are_canonical(s@.subrange(0, 4));
            }
            Timestamp::new(year as i32, month, day, hour, minute, second)
        },
        _ => None,
    }
}

} // verus!
