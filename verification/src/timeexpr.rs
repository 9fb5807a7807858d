//! Time expressions: `+` and a dotted list of offsets from now, or `@` and
//! either a dotted list of fields to set or a time on the twelve-hour
//! clock.

use crate::calendar::Timestamp;
use crate::calendar::day_number;
use crate::calendar::lemma_at_seconds_found;
use crate::calendar::lemma_shifted;
use crate::calendar::lemma_valid_seconds_bounded;
use crate::stamp::four_digits;
use crate::stamp::lemma_four_digits_value;
use crate::text::all_digits;
use crate::text::chars_of;
use crate::text::digit_value;
use crate::text::digits_value;
use crate::text::find_dot;
use crate::text::first_dot;
use crate::text::integer_value;
use crate::text::is_digit;
use crate::text::lemma_first_dot;
use crate::text::lemma_first_dot_is;
use crate::text::read_digits;
use crate::text::read_integer;
use crate::timeline::MAX_SHIFT;
use vstd::prelude::*;

verus! {

/// The seconds in one unit of an offset: `s`, `m`, `h` or `d`.
pub open spec fn offset_unit(c: char) -> Option<int> {
    if c == 's' {
        Some(1int)
    } else if c == 'm' {
        Some(60int)
    } else if c == 'h' {
        Some(3_600int)
    } else if c == 'd' {
        Some(86_400int)
    } else {
        None
    }
}

/// `from` moved by one offset term, an integer and then its unit. `None`
/// where the term is no such text or the moved time is no valid one.
pub open spec fn offset_term(from: Timestamp, term: Seq<char>) -> Option<Timestamp> {
    if term.len() == 0 {
        None
    } else {
        match (integer_value(term.drop_last()), offset_unit(term.last())) {
            (Some(n), Some(unit)) => from.shifted(n * unit),
            _ => None,
        }
    }
}

/// `from` moved by each term of `text` in turn, the terms parted by dots.
pub open spec fn offset_terms(from: Timestamp, text: Seq<char>) -> Option<Timestamp>
    decreases text.len(),
{
    let end = first_dot(text);
    match offset_term(from, text.take(end)) {
        None => None,
        Some(moved) => if 0 <= end < text.len() {
            offset_terms(moved, text.skip(end + 1))
        } else {
            Some(moved)
        },
    }
}

/// The seconds in one unit of an offset.
fn seconds_per(unit: char) -> (r: Option<i64>)
    ensures
        r == (match offset_unit(unit) {
            Some(n) => Some(n as i64),
            None => None,
        }),
        r matches Some(n) ==> 1 <= n <= 86_400,
{
    if unit == 's' {
        Some(1)
    } else if unit == 'm' {
        Some(60)
    } else if unit == 'h' {
        Some(3_600)
    } else if unit == 'd' {
        Some(86_400)
    } else {
        None
    }
}

/// `from` moved by the offset term that stands in `text` from `start` up
/// to `end`.
fn offset_term_in(from: Timestamp, text: &Vec<char>, start: usize, end: usize) -> (r: Option<
    Timestamp,
>)
    requires
        from.is_valid(),
        start <= end <= text.len(),
    ensures
        r == offset_term(from, text@.subrange(start as int, end as int)),
        r matches Some(t) ==> t.is_valid(),
{
    let ghost term = text@.subrange(start as int, end as int);
    if start == end {
        return None;
    }
    assert(term.drop_last() =~= text@.subrange(start as int, end - 1));
    assert(term.last() == text@[end - 1]);
    let amount = read_integer(text, start, end - 1);
    let unit = seconds_per(text[end - 1]);
    match (amount, unit) {
        (Some(n), Some(unit)) => {
            if n > MAX_SHIFT || n < -MAX_SHIFT {
                proof {
                    lemma_offset_out_of_reach(from, n as int, unit as int);
                }
                None
            } else {
                assert(-MAX_SHIFT * 86_400 <= n * unit <= MAX_SHIFT * 86_400) by (nonlinear_arith)
                    requires
                        -MAX_SHIFT <= n <= MAX_SHIFT,
                        1 <= unit <= 86_400,
                ;
                from.checked_add_seconds(n * unit)
            }
        },
        (None, Some(unit)) => {
            proof {
                if let Some(n) = integer_value(term.drop_last()) {
                    lemma_offset_out_of_reach(from, n, unit as int);
                }
            }
            None
        },
        _ => None,
    }
}

/// More than `MAX_SHIFT` units, of a second or longer each, lead out of
/// the valid range from anywhere in it.
proof fn lemma_offset_out_of_reach(from: Timestamp, n: int, unit: int)
    requires
        from.is_valid(),
        unit >= 1,
        n > MAX_SHIFT || n < -MAX_SHIFT,
    ensures
        from.shifted(n * unit) is None,
{
    lemma_valid_seconds_bounded(from);
    lemma_at_seconds_found(from.unix_seconds() + n * unit);
    assert(n > MAX_SHIFT ==> n * unit >= n) by (nonlinear_arith)
        requires
            unit >= 1,
    ;
    assert(n < -MAX_SHIFT ==> n * unit <= n) by (nonlinear_arith)
        requires
            unit >= 1,
    ;
}

/// `from` moved by the offset terms that stand in `text` from `start` up
/// to `end`.
fn offset_terms_in(from: Timestamp, text: &Vec<char>, start: usize, end: usize) -> (r: Option<
    Timestamp,
>)
    requires
        from.is_valid(),
        start <= end <= text.len(),
    ensures
        r == offset_terms(from, text@.subrange(start as int, end as int)),
        r matches Some(t) ==> t.is_valid(),
{
    let mut at = from;
    let mut pos: usize = start;
    loop
        invariant
            start <= pos <= end <= text.len(),
            at.is_valid(),
            offset_terms(from, text@.subrange(start as int, end as int)) == offset_terms(
                at,
                text@.subrange(pos as int, end as int),
            ),
        decreases end - pos,
    {
        let ghost rest = text@.subrange(pos as int, end as int);
        let stop = find_dot(text, pos, end);
        proof {
            lemma_first_dot(rest);
            assert(rest.take(stop - pos) =~= text@.subrange(pos as int, stop as int));
            if stop < end {
                assert(rest.skip(stop - pos + 1) =~= text@.subrange(stop + 1, end as int));
            }
        }
        match offset_term_in(at, text, pos, stop) {
            None => {
                return None;
            },
            Some(moved) => {
                if stop == end {
                    return Some(moved);
                }
                at = moved;
                pos = stop + 1;
            },
        }
    }
}

/// `now` moved by one offset term: an integer, with or without a sign,
/// and then `s`, `m`, `h` or `d` for seconds, minutes, hours or days.
pub fn parse_duration(now: Timestamp, term: &str) -> (r: Option<Timestamp>)
    requires
        now.is_valid(),
    ensures
        r == offset_term(now, term@),
        r matches Some(t) ==> t.is_valid(),
{
    let text = chars_of(term);
    assert(text@.subrange(0, text.len() as int) =~= term@);
    offset_term_in(now, &text, 0, text.len())
}

/// Whether `text` ends in `am` or in `pm`.
pub open spec fn ends_in_meridiem(text: Seq<char>) -> bool {
    text.len() >= 2 && text[text.len() - 1] == 'm' && (text[text.len() - 2] == 'a' || text[text.len()
        - 2] == 'p')
}

/// The hour, from 0 to 23, and the minute that a time on the twelve-hour
/// clock names: one to four digits and then `am` or `pm`. An odd count of
/// digits has one digit for the hour, an even count two; what is left is
/// the minute. `None` where the text is no such time.
pub open spec fn clock_reading(text: Seq<char>) -> Option<(int, int)> {
    let digits = text.take(text.len() - 2);
    if 3 <= text.len() <= 6 && ends_in_meridiem(text) && all_digits(digits) {
        let width: int = if digits.len() % 2 == 1 {
            1
        } else {
            2
        };
        let hour = digits_value(digits.take(width));
        let minute = digits_value(digits.skip(width));
        if 1 <= hour <= 12 && 0 <= minute <= 59 {
            let afternoon = text[text.len() - 2] == 'p';
            Some(
                (
                    if hour == 12 {
                        if afternoon {
                            12int
                        } else {
                            0int
                        }
                    } else if afternoon {
                        hour + 12
                    } else {
                        hour
                    },
                    minute,
                ),
            )
        } else {
            None
        }
    } else {
        None
    }
}

/// The next time after `now` at which the clock shows what `text` names:
/// today where that is still to come, else tomorrow.
pub open spec fn clock_instant(now: Timestamp, text: Seq<char>) -> Option<Timestamp> {
    match clock_reading(text) {
        Some((hour, minute)) => {
            let today = Timestamp {
                hour: hour as u32,
                minute: minute as u32,
                second: 0,
                ..now
            };
            if now.unix_seconds() < today.unix_seconds() {
                Some(today)
            } else {
                today.shifted(86_400)
            }
        },
        None => None,
    }
}

/// Whether `c` names a field of a timestamp: `Y`, `M`, `D`, `h`, `m` or
/// `s`.
pub open spec fn is_field_unit(c: char) -> bool {
    c == 'Y' || c == 'M' || c == 'D' || c == 'h' || c == 'm' || c == 's'
}

/// Whether the field that `unit` names can ever hold `n`.
pub open spec fn field_in_range(unit: char, n: int) -> bool {
    if unit == 'Y' {
        0 <= n <= 9999
    } else if unit == 'M' {
        1 <= n <= 12
    } else if unit == 'D' {
        1 <= n <= 31
    } else if unit == 'h' {
        0 <= n <= 23
    } else if unit == 'm' || unit == 's' {
        0 <= n <= 59
    } else {
        false
    }
}

/// `t` with the field that `unit` names set to `n`.
pub open spec fn with_field(t: Timestamp, unit: char, n: int) -> Timestamp {
    if unit == 'Y' {
        Timestamp { year: n as i32, ..t }
    } else if unit == 'M' {
        Timestamp { month: n as u32, ..t }
    } else if unit == 'D' {
        Timestamp { day: n as u32, ..t }
    } else if unit == 'h' {
        Timestamp { hour: n as u32, ..t }
    } else if unit == 'm' {
        Timestamp { minute: n as u32, ..t }
    } else {
        Timestamp { second: n as u32, ..t }
    }
}

/// `t` with one field set by `term`: the letter of a field and an
/// integer, in either order. `None` where the term is no such text or the
/// field can never hold the integer.
pub open spec fn field_term(t: Timestamp, term: Seq<char>) -> Option<Timestamp> {
    if term.len() == 0 {
        None
    } else {
        let unit = if is_field_unit(term[0]) {
            term[0]
        } else {
            term.last()
        };
        let number = if is_field_unit(term[0]) {
            term.drop_first()
        } else {
            term.drop_last()
        };
        match integer_value(number) {
            Some(n) => if is_field_unit(unit) && field_in_range(unit, n) {
                Some(with_field(t, unit, n))
            } else {
                None
            },
            None => None,
        }
    }
}

/// `t` with its fields set by each term of `text` in turn, the terms
/// parted by dots. What comes out need not be a day that exists.
pub open spec fn field_terms(t: Timestamp, text: Seq<char>) -> Option<Timestamp>
    decreases text.len(),
{
    let end = first_dot(text);
    match field_term(t, text.take(end)) {
        None => None,
        Some(set) => if 0 <= end < text.len() {
            field_terms(set, text.skip(end + 1))
        } else {
            Some(set)
        },
    }
}

/// `now` with the fields set that `text` names, where that is a valid
/// timestamp.
pub open spec fn field_instant(now: Timestamp, text: Seq<char>) -> Option<Timestamp> {
    match field_terms(now, text) {
        Some(t) => if t.is_valid() {
            Some(t)
        } else {
            None
        },
        None => None,
    }
}

/// The instant that `text` names: a time on the twelve-hour clock where
/// it ends in `am` or `pm`, else fields to set.
pub open spec fn instant_value(now: Timestamp, text: Seq<char>) -> Option<Timestamp> {
    if ends_in_meridiem(text) {
        clock_instant(now, text)
    } else {
        field_instant(now, text)
    }
}

/// The timestamp that the expression `expr` names when read at `now`.
pub open spec fn time_value(expr: Seq<char>, now: Timestamp) -> Option<Timestamp> {
    if expr.len() > 0 && expr[0] == '+' {
        offset_terms(now, expr.skip(1))
    } else if expr.len() > 0 && expr[0] == '@' {
        instant_value(now, expr.skip(1))
    } else {
        None
    }
}

/// The time on the twelve-hour clock that stands in `text` from `start`
/// up to `end`, as an hour from 0 to 23 and a minute.
fn clock_reading_in(text: &Vec<char>, start: usize, end: usize) -> (r: Option<(u32, u32)>)
    requires
        start <= end <= text.len(),
    ensures
        r matches Some((hour, minute)) ==> hour <= 23 && minute <= 59,
        match r {
            Some((hour, minute)) => clock_reading(text@.subrange(start as int, end as int)) == Some(
                (hour as int, minute as int),
            ),
            None => clock_reading(text@.subrange(start as int, end as int)) is None,
        },
{
    let ghost whole = text@.subrange(start as int, end as int);
    let len = end - start;
    if len < 3 || len > 6 {
        return None;
    }
    assert(whole[len - 1] == text@[end - 1]);
    assert(whole[len - 2] == text@[end - 2]);
    if text[end - 1] != 'm' || (text[end - 2] != 'a' && text[end - 2] != 'p') {
        return None;
    }
    let afternoon = text[end - 2] == 'p';
    let count = len - 2;
    let width: usize = if count % 2 == 1 {
        1
    } else {
        2
    };
    let ghost digits = whole.take(len - 2);
    assert(digits =~= text@.subrange(start as int, end - 2));
    assert(digits.take(width as int) =~= text@.subrange(start as int, start + width));
    assert(digits.skip(width as int) =~= text@.subrange(start + width, end - 2));
    let hour = read_digits(text, start, start + width);
    let minute = read_digits(text, start + width, end - 2);
    proof {
        let head = digits.take(width as int);
        let tail = digits.skip(width as int);
        if all_digits(head) && all_digits(tail) {
            assert forall|i: int| 0 <= i < digits.len() implies is_digit(
                #[trigger] digits[i],
            ) by {
                if i < width {
                    assert(digits[i] == head[i]);
                } else {
                    assert(digits[i] == tail[i - width]);
                }
            }
        }
        if all_digits(digits) {
            assert forall|i: int| 0 <= i < head.len() implies is_digit(
                #[trigger] head[i],
            ) by {
                assert(head[i] == digits[i]);
            }
            assert forall|i: int| 0 <= i < tail.len() implies is_digit(
                #[trigger] tail[i],
            ) by {
                assert(tail[i] == digits[i + width]);
            }
        }
    }
    match (hour, minute) {
        (Some(hour), Some(minute)) => {
            if 1 <= hour && hour <= 12 && minute <= 59 {
                let hour24: u32 = if hour == 12 {
                    if afternoon {
                        12
                    } else {
                        0
                    }
                } else if afternoon {
                    hour + 12
                } else {
                    hour
                };
                Some((hour24, minute))
            } else {
                None
            }
        },
        _ => None,
    }
}

/// The next time after `now` at which the clock shows what stands in
/// `text` from `start` up to `end`.
fn clock_instant_in(now: Timestamp, text: &Vec<char>, start: usize, end: usize) -> (r: Option<
    Timestamp,
>)
    requires
        now.is_valid(),
        start <= end <= text.len(),
    ensures
        r == clock_instant(now, text@.subrange(start as int, end as int)),
        r matches Some(t) ==> t.is_valid(),
{
    match clock_reading_in(text, start, end) {
        None => None,
        Some((hour, minute)) => {
            let today = Timestamp { hour, minute, second: 0, ..now };
            if now.is_before(&today) {
                Some(today)
            } else {
                today.checked_add_seconds(86_400)
            }
        },
    }
}

/// Whether `c` names a field of a timestamp.
fn names_field(c: char) -> (r: bool)
    ensures
        r == is_field_unit(c),
{
    c == 'Y' || c == 'M' || c == 'D' || c == 'h' || c == 'm' || c == 's'
}

/// `t` with one field set by the term that stands in `text` from `start`
/// up to `end`.
fn field_term_in(t: Timestamp, text: &Vec<char>, start: usize, end: usize) -> (r: Option<
    Timestamp,
>)
    requires
        start <= end <= text.len(),
    ensures
        r == field_term(t, text@.subrange(start as int, end as int)),
{
    let ghost term = text@.subrange(start as int, end as int);
    if start == end {
        return None;
    }
    assert(term[0] == text@[start as int]);
    assert(term.last() == text@[end - 1]);
    assert(term.drop_first() =~= text@.subrange(start + 1, end as int));
    assert(term.drop_last() =~= text@.subrange(start as int, end - 1));
    let unit_first = names_field(text[start]);
    let unit = if unit_first {
        text[start]
    } else {
        text[end - 1]
    };
    let number = if unit_first {
        read_integer(text, start + 1, end)
    } else {
        read_integer(text, start, end - 1)
    };
    if !names_field(unit) {
        return None;
    }
    match number {
        None => None,
        Some(n) => {
            if unit == 'Y' {
                if 0 <= n && n <= 9999 {
                    Some(Timestamp { year: n as i32, ..t })
                } else {
                    None
                }
            } else if unit == 'M' {
                if 1 <= n && n <= 12 {
                    Some(Timestamp { month: n as u32, ..t })
                } else {
                    None
                }
            } else if unit == 'D' {
                if 1 <= n && n <= 31 {
                    Some(Timestamp { day: n as u32, ..t })
                } else {
                    None
                }
            } else if unit == 'h' {
                if 0 <= n && n <= 23 {
                    Some(Timestamp { hour: n as u32, ..t })
                } else {
                    None
                }
            } else if unit == 'm' {
                if 0 <= n && n <= 59 {
                    Some(Timestamp { minute: n as u32, ..t })
                } else {
                    None
                }
            } else {
                if 0 <= n && n <= 59 {
                    Some(Timestamp { second: n as u32, ..t })
                } else {
                    None
                }
            }
        },
    }
}

/// `now` with the fields set that the terms name which stand in `text`
/// from `start` up to `end`, where that is a valid timestamp.
fn field_instant_in(now: Timestamp, text: &Vec<char>, start: usize, end: usize) -> (r: Option<
    Timestamp,
>)
    requires
        start <= end <= text.len(),
    ensures
        r == field_instant(now, text@.subrange(start as int, end as int)),
        r matches Some(t) ==> t.is_valid(),
{
    let mut at = now;
    let mut pos: usize = start;
    loop
        invariant
            start <= pos <= end <= text.len(),
            field_terms(now, text@.subrange(start as int, end as int)) == field_terms(
                at,
                text@.subrange(pos as int, end as int),
            ),
        decreases end - pos,
    {
        let ghost rest = text@.subrange(pos as int, end as int);
        let stop = find_dot(text, pos, end);
        proof {
            lemma_first_dot(rest);
            assert(rest.take(stop - pos) =~= text@.subrange(pos as int, stop as int));
            if stop < end {
                assert(rest.skip(stop - pos + 1) =~= text@.subrange(stop + 1, end as int));
            }
        }
        match field_term_in(at, text, pos, stop) {
            None => {
                return None;
            },
            Some(set) => {
                if stop == end {
                    return if set.check_valid() {
                        Some(set)
                    } else {
                        None
                    };
                }
                at = set;
                pos = stop + 1;
            },
        }
    }
}

/// The instant that stands in `text` from `start` up to `end`.
fn instant_in(now: Timestamp, text: &Vec<char>, start: usize, end: usize) -> (r: Option<Timestamp>)
    requires
        now.is_valid(),
        start <= end <= text.len(),
    ensures
        r == instant_value(now, text@.subrange(start as int, end as int)),
        r matches Some(t) ==> t.is_valid(),
{
    let ghost whole = text@.subrange(start as int, end as int);
    if end - start >= 2 {
        assert(whole[whole.len() - 1] == text@[end - 1]);
        assert(whole[whole.len() - 2] == text@[end - 2]);
    }
    if end - start >= 2 && text[end - 1] == 'm' && (text[end - 2] == 'a' || text[end - 2] == 'p') {
        clock_instant_in(now, text, start, end)
    } else {
        field_instant_in(now, text, start, end)
    }
}

/// The instant that `text` names when read at `now`. A text that ends in
/// `am` or `pm` is a time on the twelve-hour clock, and stands for the
/// next moment at which the clock shows it. Any other text is a dotted
/// list of fields to set in `now`, such as `Y2030.M1.D1`.
pub fn parse_instant(now: Timestamp, text: &str) -> (r: Option<Timestamp>)
    requires
        now.is_valid(),
    ensures
        r == instant_value(now, text@),
        r matches Some(t) ==> t.is_valid(),
{
    let chars = chars_of(text);
    assert(chars@.subrange(0, chars.len() as int) =~= text@);
    instant_in(now, &chars, 0, chars.len())
}

/// The timestamp that the expression `expr` names when read at `now`:
/// after `+` offsets from `now`, after `@` an instant. `None` for any
/// other text.
pub fn parse_time(expr: &str, now: Timestamp) -> (r: Option<Timestamp>)
    requires
        now.is_valid(),
    ensures
        r == time_value(expr@, now),
        r matches Some(t) ==> t.is_valid(),
{
    let chars = chars_of(expr);
    if chars.len() == 0 {
        return None;
    }
    assert(chars@.subrange(1, chars.len() as int) =~= expr@.skip(1));
    if chars[0] == '+' {
        offset_terms_in(now, &chars, 1, chars.len())
    } else if chars[0] == '@' {
        instant_in(now, &chars, 1, chars.len())
    } else {
        None
    }
}

/// A first term that a dot ends is applied, and the terms behind the dot
/// are applied to what it gives; a text without a dot is one term.
pub proof fn lemma_offset_terms_unfold(from: Timestamp, term: Seq<char>, rest: Seq<char>)
    requires
        forall|i: int| 0 <= i < term.len() ==> term[i] != '.',
    ensures
        offset_terms(from, term) == offset_term(from, term),
        offset_terms(from, term + seq!['.'] + rest) == (match offset_term(from, term) {
            Some(moved) => offset_terms(moved, rest),
            None => None,
        }),
{
    lemma_first_dot_is(term, term.len() as int);
    assert(term.take(term.len() as int) =~= term);
    let text = term + seq!['.'] + rest;
    lemma_first_dot_is(text, term.len() as int);
    assert(text.take(term.len() as int) =~= term);
    assert(text.skip(term.len() as int + 1) =~= rest);
}

/// The same of the terms that set fields.
pub proof fn lemma_field_terms_unfold(t: Timestamp, term: Seq<char>, rest: Seq<char>)
    requires
        forall|i: int| 0 <= i < term.len() ==> term[i] != '.',
    ensures
        field_terms(t, term) == field_term(t, term),
        field_terms(t, term + seq!['.'] + rest) == (match field_term(t, term) {
            Some(set) => field_terms(set, rest),
            None => None,
        }),
{
    lemma_first_dot_is(term, term.len() as int);
    assert(term.take(term.len() as int) =~= term);
    let text = term + seq!['.'] + rest;
    lemma_first_dot_is(text, term.len() as int);
    assert(text.take(term.len() as int) =~= term);
    assert(text.skip(term.len() as int + 1) =~= rest);
}

/// One or two digits stand for the number they spell.
pub proof fn lemma_small_numbers(a: char, b: char)
    requires
        is_digit(a),
        is_digit(b),
    ensures
        integer_value(seq![a]) == Some(digit_value(a)),
        integer_value(seq![a, b]) == Some(digit_value(a) * 10 + digit_value(b)),
{
    let one = seq![a];
    let two = seq![a, b];
    assert(one.drop_last() =~= Seq::<char>::empty());
    assert(digits_value(one.drop_last()) == 0);
    assert(two.drop_last() =~= one);
    assert(all_digits(one));
    assert(all_digits(two));
}

/// A term of an integer and a unit moves a time by the integer times the
/// seconds of the unit.
pub proof fn lemma_offset_term(from: Timestamp, number: Seq<char>, unit: char)
    requires
        integer_value(number) is Some,
        offset_unit(unit) is Some,
    ensures
        offset_term(from, number.push(unit)) == from.shifted(
            integer_value(number)->0 * offset_unit(unit)->0,
        ),
{
    let term = number.push(unit);
    assert(term.drop_last() =~= number);
    assert(term.last() == unit);
}

/// `+10s` names the moment ten seconds after now.
pub proof fn lemma_ten_seconds(now: Timestamp)
    requires
        now.is_valid(),
    ensures
        time_value("+10s"@, now) == now.shifted(10),
{
    let expr = "+10s"@;
    let number = seq!['1', '0'];
    let term = number.push('s');
    assert(expr.len() == 4 && expr[0] == '+' && expr.skip(1) =~= term) by {
        reveal_strlit("+10s");
    }
    assert(offset_terms(now, term) == offset_term(now, term)) by {
        assert(term[0] != '.' && term[1] != '.' && term[2] != '.');
        lemma_offset_terms_unfold(now, term, Seq::empty());
    }
    assert(integer_value(number) == Some(10int)) by {
        lemma_small_numbers('1', '0');
    }
    assert(offset_unit('s') == Some(1int));
    lemma_offset_term(now, number, 's');
}

/// `+1h.30m` names the moment ninety minutes after now.
pub proof fn lemma_ninety_minutes(now: Timestamp)
    requires
        now.is_valid(),
    ensures
        time_value("+1h.30m"@, now) == now.shifted(5_400),
{
    let expr = "+1h.30m"@;
    let hour = seq!['1'].push('h');
    let half = seq!['3', '0'].push('m');
    assert(expr.len() == 7 && expr[0] == '+' && expr.skip(1) =~= hour + seq!['.'] + half) by {
        reveal_strlit("+1h.30m");
    }
    assert(integer_value(seq!['1']) == Some(1int) && integer_value(seq!['3', '0']) == Some(30int))
        by {
        lemma_small_numbers('1', '0');
        lemma_small_numbers('3', '0');
    }
    assert(offset_unit('h') == Some(3_600int) && offset_unit('m') == Some(60int));
    assert(offset_term(now, hour) == now.shifted(3_600)) by {
        lemma_offset_term(now, seq!['1'], 'h');
    }
    assert(offset_terms(now, hour + seq!['.'] + half) == (match offset_term(now, hour) {
        Some(moved) => offset_terms(moved, half),
        None => None,
    })) by {
        assert(hour[0] != '.' && hour[1] != '.');
        lemma_offset_terms_unfold(now, hour, half);
    }
    lemma_shifted(now, 3_600);
    lemma_shifted(now, 5_400);
    lemma_valid_seconds_bounded(now);
    assert(time_value(expr, now) == offset_terms(now, hour + seq!['.'] + half));
    match now.shifted(3_600) {
        Some(later) => {
            assert(later.unix_seconds() + 1_800 == now.unix_seconds() + 5_400);
            assert(later.shifted(1_800) == now.shifted(5_400));
            assert(offset_terms(later, half) == offset_term(later, half)) by {
                assert(half[0] != '.' && half[1] != '.' && half[2] != '.');
                lemma_offset_terms_unfold(later, half, Seq::empty());
            }
            assert(offset_term(later, half) == later.shifted(1_800)) by {
                lemma_offset_term(later, seq!['3', '0'], 'm');
            }
            lemma_shifted(later, 1_800);
        },
        None => {},
    }
}

/// A term of a field's letter and then an integer that the field can
/// hold sets the field to the integer.
pub proof fn lemma_field_term(t: Timestamp, unit: char, number: Seq<char>)
    requires
        is_field_unit(unit),
        integer_value(number) is Some,
        field_in_range(unit, integer_value(number)->0),
    ensures
        field_term(t, seq![unit] + number) == Some(with_field(t, unit, integer_value(number)->0)),
{
    let term = seq![unit] + number;
    assert(term[0] == unit);
    assert(term.drop_first() =~= number);
}

/// `@Y2030.M1.D1.h0.m0.s0` names the first second of 2030, whatever now
/// is.
pub proof fn lemma_all_fields_set(now: Timestamp)
    requires
        now.is_valid(),
    ensures
        time_value("@Y2030.M1.D1.h0.m0.s0"@, now) == Some(
            Timestamp { year: 2030, month: 1, day: 1, hour: 0, minute: 0, second: 0 },
        ),
{
    let expr = "@Y2030.M1.D1.h0.m0.s0"@;
    let dot = seq!['.'];
    let year = seq!['Y'] + seq!['2', '0', '3', '0'];
    let month = seq!['M'] + seq!['1'];
    let day = seq!['D'] + seq!['1'];
    let hour = seq!['h'] + seq!['0'];
    let minute = seq!['m'] + seq!['0'];
    let second = seq!['s'] + seq!['0'];
    let after_minute = minute + dot + second;
    let after_hour = hour + dot + after_minute;
    let after_day = day + dot + after_hour;
    let after_month = month + dot + after_day;
    let text = year + dot + after_month;
    assert(expr.len() == 21 && expr[0] == '@' && expr.skip(1) =~= text) by {
        reveal_strlit("@Y2030.M1.D1.h0.m0.s0");
    }
    assert(!ends_in_meridiem(text));
    assert(integer_value(seq!['2', '0', '3', '0']) == Some(2030int)) by {
        lemma_four_digits_value(2030);
        assert(four_digits(2030) =~= seq!['2', '0', '3', '0']);
    }
    assert(integer_value(seq!['1']) == Some(1int) && integer_value(seq!['0']) == Some(0int)) by {
        lemma_small_numbers('1', '0');
        lemma_small_numbers('0', '0');
    }
    let t1 = with_field(now, 'Y', 2030);
    let t2 = with_field(t1, 'M', 1);
    let t3 = with_field(t2, 'D', 1);
    let t4 = with_field(t3, 'h', 0);
    let t5 = with_field(t4, 'm', 0);
    let t6 = with_field(t5, 's', 0);
    assert(field_terms(now, text) == field_terms(t1, after_month)) by {
        lemma_field_term(now, 'Y', seq!['2', '0', '3', '0']);
        assert(forall|i: int| 0 <= i < year.len() ==> year[i] != '.');
        lemma_field_terms_unfold(now, year, after_month);
    }
    assert(field_terms(t1, after_month) == field_terms(t2, after_day)) by {
        lemma_field_term(t1, 'M', seq!['1']);
        assert(forall|i: int| 0 <= i < month.len() ==> month[i] != '.');
        lemma_field_terms_unfold(t1, month, after_day);
    }
    assert(field_terms(t2, after_day) == field_terms(t3, after_hour)) by {
        lemma_field_term(t2, 'D', seq!['1']);
        assert(forall|i: int| 0 <= i < day.len() ==> day[i] != '.');
        lemma_field_terms_unfold(t2, day, after_hour);
    }
    assert(field_terms(t3, after_hour) == field_terms(t4, after_minute)) by {
        lemma_field_term(t3, 'h', seq!['0']);
        assert(forall|i: int| 0 <= i < hour.len() ==> hour[i] != '.');
        lemma_field_terms_unfold(t3, hour, after_minute);
    }
    assert(field_terms(t4, after_minute) == field_terms(t5, second)) by {
        lemma_field_term(t4, 'm', seq!['0']);
        assert(forall|i: int| 0 <= i < minute.len() ==> minute[i] != '.');
        lemma_field_terms_unfold(t4, minute, second);
    }
    assert(field_terms(t5, second) == Some(t6)) by {
        lemma_field_term(t5, 's', seq!['0']);
        assert(forall|i: int| 0 <= i < second.len() ==> second[i] != '.');
        lemma_field_terms_unfold(t5, second, Seq::empty());
    }
    assert(t6 == Timestamp { year: 2030, month: 1, day: 1, hour: 0, minute: 0, second: 0 });
    assert(t6.is_valid());
}

/// A time on the twelve-hour clock names the next moment at which the
/// clock shows it: after now, no more than a day after, at the hour and
/// the minute named and at second 0.
pub proof fn lemma_clock_is_next(now: Timestamp, text: Seq<char>)
    requires
        now.is_valid(),
        clock_instant(now, text) is Some,
    ensures
        match (clock_reading(text), clock_instant(now, text)) {
            (Some((hour, minute)), Some(t)) => {
                &&& t.is_valid()
                &&& t.hour == hour
                &&& t.minute == minute
                &&& t.second == 0
                &&& now.unix_seconds() < t.unix_seconds() <= now.unix_seconds() + 86_400
            },
            _ => false,
        },
{
    let (hour, minute) = clock_reading(text)->0;
    let today = Timestamp { hour: hour as u32, minute: minute as u32, second: 0, ..now };
    let found = clock_instant(now, text)->0;
    assert(today.is_valid());
    if !(now.unix_seconds() < today.unix_seconds()) {
        lemma_shifted(today, 86_400);
        assert(found.unix_seconds() == today.unix_seconds() + 86_400);
        let day_today = day_number(
            today.year as int,
            today.month as int,
            today.day as int,
        );
        let day_found = day_number(
            found.year as int,
            found.month as int,
            found.day as int,
        );
        assert(day_found == day_today + 1);
    }
}

/// `@930am` names half past nine today where that is still to come, and
/// half past nine tomorrow where it is not.
pub proof fn lemma_half_past_nine(now: Timestamp)
    requires
        now.is_valid(),
    ensures
        time_value("@930am"@, now) == ({
            let today = Timestamp { hour: 9, minute: 30, second: 0, ..now };
            if now.unix_seconds() < today.unix_seconds() {
                Some(today)
            } else {
                today.shifted(86_400)
            }
        }),
{
    let expr = "@930am"@;
    let text = seq!['9', '3', '0', 'a', 'm'];
    assert(expr.len() == 6 && expr[0] == '@' && expr.skip(1) =~= text) by {
        reveal_strlit("@930am");
    }
    let digits = text.take(3);
    assert(digits.take(1) =~= seq!['9']);
    assert(digits.skip(1) =~= seq!['3', '0']);
    lemma_small_numbers('9', '0');
    lemma_small_numbers('3', '0');
    assert(integer_value(seq!['9']) == Some(9int));
    assert(integer_value(seq!['3', '0']) == Some(30int));
    assert(all_digits(digits)) by {
        assert(digits =~= seq!['9', '3', '0']);
    }
    assert(clock_reading(text) == Some((9int, 30int)));
}

} // verus!
