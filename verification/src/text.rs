//! Small pieces of text handling that the parsers and printers share.

use vstd::prelude::*;

verus! {

/// The characters of `s`, in order.
pub fn chars_of(s: &str) -> (v: Vec<char>)
    ensures
        v@ == s@,
{
    let mut v: Vec<char> = Vec::new();
    for c in it: s.chars()
        invariant
            it.seq() == s@,
            v@ == s@.take(it.index() as int),
    {
        v.push(c);
    }
    v
}

pub open spec fn is_digit(c: char) -> bool {
    '0' <= c <= '9'
}

/// The number that a digit stands for.
pub open spec fn digit_value(c: char) -> int {
    c as int - '0' as int
}

/// The digit that stands for `d`, for `d` from 0 to 9.
pub open spec fn digit_char(d: int) -> char {
    (d + 48) as char
}

/// The digit for `d`, as a one-character text.
pub fn digit_text(d: u32) -> (r: &'static str)
    requires
        d <= 9,
    ensures
        r@ == seq![digit_char(d as int)],
{
    proof {
        reveal_strlit("0");
        reveal_strlit("1");
        reveal_strlit("2");
        reveal_strlit("3");
        reveal_strlit("4");
        reveal_strlit("5");
        reveal_strlit("6");
        reveal_strlit("7");
        reveal_strlit("8");
        reveal_strlit("9");
    }
    let r = if d == 0 {
        "0"
    } else if d == 1 {
        "1"
    } else if d == 2 {
        "2"
    } else if d == 3 {
        "3"
    } else if d == 4 {
        "4"
    } else if d == 5 {
        "5"
    } else if d == 6 {
        "6"
    } else if d == 7 {
        "7"
    } else if d == 8 {
        "8"
    } else {
        "9"
    };
    assert(r@ =~= seq![digit_char(d as int)]);
    r
}

/// The lower-case hexadecimal digit that stands for `d`, for `d` from 0
/// to 15.
pub open spec fn hex_char(d: int) -> char {
    if d < 10 {
        digit_char(d)
    } else {
        (d + 87) as char
    }
}

/// The hexadecimal digit for `d`, as a one-character text.
pub fn hex_text(d: u32) -> (r: &'static str)
    requires
        d <= 15,
    ensures
        r@ == seq![hex_char(d as int)],
{
    if d < 10 {
        digit_text(d)
    } else {
        proof {
            reveal_strlit("a");
            reveal_strlit("b");
            reveal_strlit("c");
            reveal_strlit("d");
            reveal_strlit("e");
            reveal_strlit("f");
        }
        let r = if d == 10 {
            "a"
        } else if d == 11 {
            "b"
        } else if d == 12 {
            "c"
        } else if d == 13 {
            "d"
        } else if d == 14 {
            "e"
        } else {
            "f"
        };
        assert(r@ =~= seq![hex_char(d as int)]);
        r
    }
}

/// Whether `c` is a digit, and which.
pub fn digit_of(c: char) -> (r: Option<u32>)
    ensures
        r == (if is_digit(c) {
            Some(digit_value(c) as u32)
        } else {
            None
        }),
{
    let code: u32 = c as u32;
    if 48 <= code && code <= 57 {
        Some(code - 48)
    } else {
        None
    }
}

/// The place of the first dot in `s`, or the length of `s` where it has
/// none.
pub open spec fn first_dot(s: Seq<char>) -> int
    decreases s.len(),
{
    if s.len() == 0 || s[0] == '.' {
        0
    } else {
        1 + first_dot(s.drop_first())
    }
}

/// `first_dot` lies within the text, no dot stands before it, and a dot
/// stands at it unless it is the end.
pub proof fn lemma_first_dot(s: Seq<char>)
    ensures
        0 <= first_dot(s) <= s.len(),
        forall|i: int| 0 <= i < first_dot(s) ==> s[i] != '.',
        first_dot(s) < s.len() ==> s[first_dot(s)] == '.',
    decreases s.len(),
{
    if s.len() != 0 && s[0] != '.' {
        let rest = s.drop_first();
        lemma_first_dot(rest);
        assert forall|i: int| 0 <= i < first_dot(s) implies s[i] != '.' by {
            if i > 0 {
                assert(s[i] == rest[i - 1]);
            }
        }
        assert(first_dot(rest) < rest.len() ==> s[first_dot(s)] == rest[first_dot(rest)]);
    }
}

/// A place with a dot, or the end, before which no dot stands is
/// `first_dot`.
pub proof fn lemma_first_dot_is(s: Seq<char>, k: int)
    requires
        0 <= k <= s.len(),
        forall|i: int| 0 <= i < k ==> s[i] != '.',
        k < s.len() ==> s[k] == '.',
    ensures
        first_dot(s) == k,
{
    lemma_first_dot(s);
    let f = first_dot(s);
    if f < k {
        assert(s[f] == '.');
    }
}

/// The place of the first dot among the characters of `text` from `from`
/// up to `to`, or `to` where there is none.
pub fn find_dot(text: &Vec<char>, from: usize, to: usize) -> (r: usize)
    requires
        from <= to <= text.len(),
    ensures
        from <= r <= to,
        r - from == first_dot(text@.subrange(from as int, to as int)),
{
    let mut i: usize = from;
    while i < to && text[i] != '.'
        invariant
            from <= i <= to <= text.len(),
            forall|k: int| from <= k < i ==> text@[k] != '.',
        decreases to - i,
    {
        i = i + 1;
    }
    proof {
        lemma_first_dot_is(text@.subrange(from as int, to as int), i - from);
    }
    i
}

/// Whether every character of `s` is a digit.
pub open spec fn all_digits(s: Seq<char>) -> bool {
    forall|i: int| 0 <= i < s.len() ==> is_digit(#[trigger] s[i])
}

/// The number that a run of digits stands for, read in base ten.
pub open spec fn digits_value(s: Seq<char>) -> int
    decreases s.len(),
{
    if s.len() == 0 {
        0
    } else {
        digits_value(s.drop_last()) * 10 + digit_value(s.last())
    }
}

/// The integer that `s` stands for: an optional sign, `+` or `-`, and
/// then one digit or more. `None` for any other text.
pub open spec fn integer_value(s: Seq<char>) -> Option<int> {
    if s.len() > 0 && (s[0] == '+' || s[0] == '-') {
        let digits = s.subrange(1, s.len() as int);
        if digits.len() > 0 && all_digits(digits) {
            Some(
                if s[0] == '-' {
                    -digits_value(digits)
                } else {
                    digits_value(digits)
                },
            )
        } else {
            None
        }
    } else if s.len() > 0 && all_digits(s) {
        Some(digits_value(s))
    } else {
        None
    }
}

/// The largest size of an integer that `read_integer` hands out.
pub const MAX_INTEGER: i64 = 999_999_999_999_999_999;

/// A run of digits never stands for a negative number, and one digit
/// more never makes the number smaller.
pub proof fn lemma_digits_value_grows(s: Seq<char>)
    requires
        all_digits(s),
    ensures
        0 <= digits_value(s),
        s.len() > 0 ==> digits_value(s.drop_last()) <= digits_value(s),
    decreases s.len(),
{
    if s.len() > 0 {
        assert(is_digit(s[s.len() - 1]));
        assert forall|i: int| 0 <= i < s.drop_last().len() implies is_digit(
            #[trigger] s.drop_last()[i],
        ) by {
            assert(s.drop_last()[i] == s[i]);
        }
        lemma_digits_value_grows(s.drop_last());
    }
}

/// The number that the digits of `text` from `from` up to `to` stand for;
/// `None` where one of these characters is no digit. At most nine digits
/// are read, so the number fits.
#[verifier::loop_isolation(false)]
pub fn read_digits(text: &Vec<char>, from: usize, to: usize) -> (r: Option<u32>)
    requires
        from <= to <= text.len(),
        to - from <= 9,
    ensures
        r == (if all_digits(text@.subrange(from as int, to as int)) {
            Some(digits_value(text@.subrange(from as int, to as int)) as u32)
        } else {
            None
        }),
        r matches Some(n) ==> n == digits_value(text@.subrange(from as int, to as int)),
{
    let ghost digits = text@.subrange(from as int, to as int);
    let mut i: usize = from;
    let mut total: u32 = 0;
    let mut bound: u32 = 1;
    while i < to
        invariant
            from <= i <= to,
            all_digits(digits.take(i - from)),
            total == digits_value(digits.take(i - from)),
            total < bound,
            bound <= 1_000_000_000,
            i - from < 9 ==> bound <= 100_000_000,
            i - from < 8 ==> bound <= 10_000_000,
            i - from < 7 ==> bound <= 1_000_000,
            i - from < 6 ==> bound <= 100_000,
            i - from < 5 ==> bound <= 10_000,
            i - from < 4 ==> bound <= 1_000,
            i - from < 3 ==> bound <= 100,
            i - from < 2 ==> bound <= 10,
            i - from < 1 ==> bound <= 1,
        decreases to - i,
    {
        let ghost before = digits.take(i - from);
        let ghost after = digits.take(i - from + 1);
        assert(after.drop_last() =~= before);
        assert(after.last() == text@[i as int]);
        match digit_of(text[i]) {
            None => {
                assert(!is_digit(digits[i - from]));
                return None;
            },
            Some(d) => {
                assert forall|k: int| 0 <= k < after.len() implies is_digit(#[trigger] after[k]) by {
                    if k < before.len() {
                        assert(after[k] == before[k]);
                    }
                }
                total = total * 10 + d;
                bound = bound * 10;
            },
        }
        i = i + 1;
    }
    assert(digits.take(to - from) =~= digits);
    Some(total)
}

/// The integer that the characters of `text` from `from` up to `to`
/// stand for, where its size is at most `MAX_INTEGER`.
#[verifier::loop_isolation(false)]
pub fn read_integer(text: &Vec<char>, from: usize, to: usize) -> (r: Option<i64>)
    requires
        from <= to <= text.len(),
    ensures
        r == (match integer_value(text@.subrange(from as int, to as int)) {
            Some(n) => if -MAX_INTEGER <= n <= MAX_INTEGER {
                Some(n as i64)
            } else {
                None
            },
            None => None,
        }),
{
    let ghost s = text@.subrange(from as int, to as int);
    if from == to {
        return None;
    }
    let negative = text[from] == '-';
    let start: usize = if text[from] == '-' || text[from] == '+' {
        from + 1
    } else {
        from
    };
    assert(s[0] == text@[from as int]);
    let ghost digits = text@.subrange(start as int, to as int);
    assert(digits =~= if start == from {
        s
    } else {
        s.subrange(1, s.len() as int)
    });
    if start == to {
        return None;
    }
    let mut i: usize = start;
    let mut total: i64 = 0;
    let mut too_large = false;
    while i < to
        invariant
            start <= i <= to <= text.len(),
            digits == text@.subrange(start as int, to as int),
            all_digits(digits.take(i - start)),
            0 <= total <= MAX_INTEGER,
            !too_large ==> total == digits_value(digits.take(i - start)),
            too_large ==> digits_value(digits.take(i - start)) > MAX_INTEGER,
        decreases to - i,
    {
        let ghost before = digits.take(i - start);
        let ghost after = digits.take(i - start + 1);
        assert(after.drop_last() =~= before);
        assert(after.last() == text@[i as int]);
        match digit_of(text[i]) {
            None => {
                assert(!is_digit(digits[i - start]));
                return None;
            },
            Some(d) => {
                assert forall|k: int| 0 <= k < after.len() implies is_digit(#[trigger] after[k]) by {
                    if k < before.len() {
                        assert(after[k] == before[k]);
                    }
                }
                proof {
                    lemma_digits_value_grows(after);
                }
                if too_large || total > (MAX_INTEGER - d as i64) / 10 {
                    too_large = true;
                } else {
                    total = total * 10 + d as i64;
                }
            },
        }
        i = i + 1;
    }
    assert(digits.take(to - start) =~= digits);
    if too_large {
        None
    } else if negative {
        Some(-total)
    } else {
        Some(total)
    }
}

} // verus!
