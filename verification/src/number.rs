//! Decimal numerals: reading a token as a 32-bit signed integer and writing
//! an integer back as text.

use vstd::prelude::*;
use vstd::string::StringExecFns;

verus! {

/// `c` is one of the ten ASCII digits.
pub open spec fn is_digit(c: char) -> bool {
    '0' <= c <= '9'
}

/// The value of a digit: 0 for `'0'` up to 9 for `'9'`.
pub open spec fn digit_value(c: char) -> int {
    (c as u32) as int - 48
}

/// Every character of `s` is a digit.
pub open spec fn all_digits(s: Seq<char>) -> bool {
    forall|i: int| 0 <= i < s.len() ==> is_digit(#[trigger] s[i])
}

/// The number that a run of digits denotes in base ten, the leftmost digit
/// weighing most. The empty run denotes 0.
pub open spec fn digits_value(s: Seq<char>) -> int
    decreases s.len(),
{
    if s.len() == 0 {
        0
    } else {
        10 * digits_value(s.drop_last()) + digit_value(s.last())
    }
}

/// The integer that a token denotes, if it is a numeral: an optional `-`,
/// then one or more digits, with a value that fits in 32 bits.
pub open spec fn number_of(token: Seq<char>) -> Option<i32> {
    let negative = token.len() > 0 && token[0] == '-';
    let digits = if negative {
        token.skip(1)
    } else {
        token
    };
    let magnitude = digits_value(digits);
    let value = if negative {
        -magnitude
    } else {
        magnitude
    };
    if digits.len() > 0 && all_digits(digits) && i32::MIN <= value <= i32::MAX {
        Some(value as i32)
    } else {
        None
    }
}

/// The digit that stands for `d`, for `d` below ten.
pub open spec fn digit_char(d: int) -> char {
    if d == 0 {
        '0'
    } else if d == 1 {
        '1'
    } else if d == 2 {
        '2'
    } else if d == 3 {
        '3'
    } else if d == 4 {
        '4'
    } else if d == 5 {
        '5'
    } else if d == 6 {
        '6'
    } else if d == 7 {
        '7'
    } else if d == 8 {
        '8'
    } else {
        '9'
    }
}

/// The digits of a natural number in base ten, without leading zeros; `0`
/// is written with one digit.
pub open spec fn digits_of(m: nat) -> Seq<char>
    decreases m,
{
    if m < 10 {
        seq![digit_char(m as int)]
    } else {
        digits_of(m / 10).push(digit_char((m % 10) as int))
    }
}

/// The decimal text of an integer: its digits, after a `-` if it is negative.
pub open spec fn decimal(n: int) -> Seq<char> {
    if n < 0 {
        seq!['-'] + digits_of((-n) as nat)
    } else {
        digits_of(n as nat)
    }
}

/// A run of digits has a value that is not negative.
pub proof fn lemma_digits_value_nonnegative(s: Seq<char>)
    requires
        all_digits(s),
    ensures
        digits_value(s) >= 0,
    decreases s.len(),
{
    if s.len() > 0 {
        lemma_digits_value_nonnegative(s.drop_last());
        assert(is_digit(s.last()));
    }
}

/// The value of a run of digits is at least the value of each of its
/// prefixes.
pub proof fn lemma_digits_value_prefix(s: Seq<char>, k: int)
    requires
        all_digits(s),
        0 <= k <= s.len(),
    ensures
        0 <= digits_value(s.take(k)) <= digits_value(s),
    decreases s.len() - k,
{
    lemma_digits_value_nonnegative(s.take(k));
    if k == s.len() {
        assert(s.take(k) =~= s);
    } else {
        lemma_digits_value_prefix(s, k + 1);
        let longer = s.take(k + 1);
        assert(longer.drop_last() =~= s.take(k));
        assert(is_digit(longer.last()));
        assert(digits_value(longer) == 10 * digits_value(longer.drop_last()) + digit_value(
            longer.last(),
        ));
    }
}

/// The digits of a number are digits, at least one of them, and denote the
/// number.
pub proof fn lemma_digits_of(m: nat)
    ensures
        digits_of(m).len() > 0,
        all_digits(digits_of(m)),
        digits_value(digits_of(m)) == m,
    decreases m,
{
    if m < 10 {
        let s = digits_of(m);
        assert(s == seq![digit_char(m as int)]);
        assert(s.drop_last() =~= Seq::<char>::empty());
        assert(digits_value(s) == 10 * digits_value(s.drop_last()) + digit_value(s.last()));
        assert(digits_value(s.drop_last()) == 0);
    } else {
        lemma_digits_of(m / 10);
        let head = digits_of(m / 10);
        let s = digits_of(m);
        assert(s == head.push(digit_char((m % 10) as int)));
        assert(s.drop_last() =~= head);
        assert(digits_value(s) == 10 * digits_value(s.drop_last()) + digit_value(s.last()));
        assert forall|i: int| 0 <= i < s.len() implies is_digit(#[trigger] s[i]) by {
            if i < head.len() {
                assert(is_digit(head[i]));
            }
        }
    }
}

/// Reading back what was written gives the number that was written.
pub proof fn lemma_number_of_decimal(n: i32)
    ensures
        number_of(decimal(n as int)) == Some(n),
{
    if n < 0 {
        let m = (-(n as int)) as nat;
        lemma_digits_of(m);
        let token = decimal(n as int);
        assert(token == seq!['-'] + digits_of(m));
        assert(token[0] == '-');
        assert(token.skip(1) =~= digits_of(m));
    } else {
        let m = n as nat;
        lemma_digits_of(m);
        let token = decimal(n as int);
        assert(is_digit(token[0]));
        assert(token[0] != '-');
    }
}

/// Reads a token as a 32-bit signed integer in decimal notation. A numeral
/// is an optional `-` followed by one or more ASCII digits, leading zeros
/// included; a `+` in front is not accepted, and a numeral whose value does
/// not fit in 32 bits is no number.
pub fn parse_number(token: &str) -> (result: Option<i32>)
    ensures
        result == number_of(token@),
{
    if !token.is_ascii() {
        proof {
            let i = choose|i: int| 0 <= i < token@.len() && !('\0' <= #[trigger] token@[i] <= '\u{7f}');
            let negative = token@.len() > 0 && token@[0] == '-';
            if negative {
                if i > 0 {
                    assert(token@.skip(1)[i - 1] == token@[i]);
                    assert(!is_digit(token@.skip(1)[i - 1]));
                }
            } else {
                assert(!is_digit(token@[i]));
            }
        }
        return None;
    }
    let bytes = token.as_bytes();
    proof {
        vstd::string::is_ascii_spec_bytes(token);
    }
    let n = bytes.len();
    let negative = n > 0 && bytes[0] == 45;
    let start: usize = if negative {
        1
    } else {
        0
    };
    let ghost digits = if negative {
        token@.skip(1)
    } else {
        token@
    };
    assert(negative == (token@.len() > 0 && token@[0] == '-')) by {
        if n > 0 {
            assert(token@[0] as u8 == bytes@[0]);
        }
    }
    assert(digits =~= token@.subrange(start as int, n as int));
    if start == n {
        return None;
    }
    let mut acc: i64 = 0;
    let mut i: usize = start;
    while i < n
        invariant
            start <= i <= n,
            n == bytes@.len(),
            n == token@.len(),
            token.is_ascii(),
            forall|j: int| 0 <= j < n ==> token@[j] as u8 == #[trigger] bytes@[j],
            digits == token@.subrange(start as int, n as int),
            negative == (token@.len() > 0 && token@[0] == '-'),
            digits == if negative {
                token@.skip(1)
            } else {
                token@
            },
            all_digits(digits.take(i - start)),
            acc == digits_value(digits.take(i - start)),
            0 <= acc <= 2147483648,
        decreases n - i,
    {
        let b = bytes[i];
        let ghost k = i - start;
        assert(digits[k] == token@[i as int]);
        assert(token@[i as int] as u8 == b);
        if b < 48 || b > 57 {
            assert(!is_digit(digits[k]));
            return None;
        }
        assert(is_digit(digits[k]));
        let next: i64 = acc * 10 + (b - 48) as i64;
        proof {
            let longer = digits.take(k + 1);
            assert(longer.drop_last() =~= digits.take(k));
            assert(longer.last() == digits[k]);
            assert(digits_value(longer) == 10 * digits_value(longer.drop_last()) + digit_value(
                longer.last(),
            ));
            assert(next == digits_value(longer));
            assert forall|j: int| 0 <= j < longer.len() implies is_digit(#[trigger] longer[j]) by {
                if j < k {
                    assert(is_digit(digits.take(k)[j]));
                }
            }
        }
        if next > 2147483648 {
            proof {
                if all_digits(digits) {
                    lemma_digits_value_prefix(digits, k + 1);
                }
            }
            return None;
        }
        acc = next;
        i += 1;
    }
    assert(digits.take(i - start) =~= digits);
    let value: i64 = if negative {
        -acc
    } else {
        acc
    };
    if value > 2147483647 {
        None
    } else {
        Some(value as i32)
    }
}

/// The text of one digit.
fn digit_text(d: u32) -> (text: &'static str)
    requires
        d < 10,
    ensures
        text@ == seq![digit_char(d as int)],
{
    proof {
        reveal_strlit("0");
        reveal_strlit("1");
        reveal_strlit("2");
        reveal_strlit("3");
        reveal_strlit("4");
        reveal_strlit("5");
        reveal_strlit("6");
        reveal_strlit("7");
        reveal_strlit("8");
        reveal_strlit("9");
    }
    let text = if d == 0 {
        "0"
    } else if d == 1 {
        "1"
    } else if d == 2 {
        "2"
    } else if d == 3 {
        "3"
    } else if d == 4 {
        "4"
    } else if d == 5 {
        "5"
    } else if d == 6 {
        "6"
    } else if d == 7 {
        "7"
    } else if d == 8 {
        "8"
    } else {
        "9"
    };
    assert(text@ =~= seq![digit_char(d as int)]);
    text
}

/// Appends the digits of `m` to `out`.
fn push_digits(m: u32, out: &mut String)
    ensures
        final(out)@ == old(out)@ + digits_of(m as nat),
    decreases m,
{
    if m >= 10 {
        push_digits(m / 10, out);
    }
    let ghost before = out@;
    out.append(digit_text(m % 10));
    proof {
        if m >= 10 {
            assert(digits_of(m as nat) == digits_of((m / 10) as nat).push(
                digit_char((m % 10) as int),
            ));
            assert(out@ =~= old(out)@ + digits_of(m as nat));
        } else {
            assert(digits_of(m as nat) == seq![digit_char(m as int)]);
            assert(out@ =~= old(out)@ + digits_of(m as nat));
        }
    }
}

/// Appends the decimal text of `n` to `out`.
pub fn push_decimal(n: i32, out: &mut String)
    ensures
        final(out)@ == old(out)@ + decimal(n as int),
{
    if n < 0 {
        proof {
            reveal_strlit("-");
        }
        out.append("-");
        let m: u32 = (-(n as i64)) as u32;
        push_digits(m, out);
        assert(out@ =~= old(out)@ + decimal(n as int));
    } else {
        push_digits(n as u32, out);
    }
}

} // verus!
