//! Reading the identifier of an event where it is written as text.

use vstd::prelude::*;
use vstd::string::StrSliceExecFns;

verus! {

/// The value of a hexadecimal digit, of either case.
pub open spec fn hex_digit(c: char) -> Option<nat> {
    if '0' <= c <= '9' {
        Some((c as nat - '0' as nat) as nat)
    } else if 'a' <= c <= 'f' {
        Some((c as nat - 'a' as nat + 10) as nat)
    } else if 'A' <= c <= 'F' {
        Some((c as nat - 'A' as nat + 10) as nat)
    } else {
        None
    }
}

/// Every character is a hexadecimal digit.
pub open spec fn all_hex(digits: Seq<char>) -> bool {
    forall|i: int| 0 <= i < digits.len() ==> hex_digit(#[trigger] digits[i]) is Some
}

/// The number that the digits write in base sixteen.
pub open spec fn hex_value(digits: Seq<char>) -> nat
    decreases digits.len(),
{
    if digits.len() == 0 {
        0
    } else {
        hex_value(digits.drop_last()) * 16 + hex_digit(digits.last()).unwrap_or(0)
    }
}

/// The text without a leading `0x` or `0X`.
pub open spec fn without_prefix(text: Seq<char>) -> Seq<char> {
    if text.len() >= 2 && text[0] == '0' && (text[1] == 'x' || text[1] == 'X') {
        text.skip(2)
    } else {
        text
    }
}

/// The text without a leading plus sign.
pub open spec fn without_sign(text: Seq<char>) -> Seq<char> {
    if text.len() >= 1 && text[0] == '+' {
        text.skip(1)
    } else {
        text
    }
}

/// The identifier that the text writes in base sixteen: after an optional
/// `0x` or `0X` and an optional plus sign there must be at least one digit
/// and nothing but digits, and the number must be an identifier.
pub open spec fn hex_id(text: Seq<char>) -> Option<usize> {
    let digits = without_sign(without_prefix(text));
    if digits.len() > 0 && all_hex(digits) && hex_value(digits) <= usize::MAX {
        Some(hex_value(digits) as usize)
    } else {
        None
    }
}

/// The digits of a longer text write no smaller a number.
proof fn lemma_hex_value_grows(digits: Seq<char>, k: int)
    requires
        0 <= k <= digits.len(),
    ensures
        hex_value(digits.take(k)) <= hex_value(digits),
    decreases digits.len() - k,
{
    if k < digits.len() {
        lemma_hex_value_grows(digits, k + 1);
        assert(digits.take(k + 1).drop_last() =~= digits.take(k));
    } else {
        assert(digits.take(k) =~= digits);
    }
}

fn digit_value(c: char) -> (r: Option<usize>)
    ensures
        match r {
            Some(d) => hex_digit(c) == Some(d as nat) && d < 16,
            None => hex_digit(c) is None,
        },
{
    if '0' <= c && c <= '9' {
        Some((c as u32 - '0' as u32) as usize)
    } else if 'a' <= c && c <= 'f' {
        Some((c as u32 - 'a' as u32 + 10) as usize)
    } else if 'A' <= c && c <= 'F' {
        Some((c as u32 - 'A' as u32 + 10) as usize)
    } else {
        None
    }
}

/// Reads an identifier that is written in base sixteen, with or without a
/// leading `0x` or `0X`.
pub fn parse_hex_id(text: &str) -> (r: Option<usize>)
    ensures
        r == hex_id(text@),
{
    let n = text.unicode_len();
    let mut start: usize = 0;
    if n >= 2 && text.get_char(0) == '0' {
        let second = text.get_char(1);
        if second == 'x' || second == 'X' {
            start = 2;
        }
    }
    assert(text@.skip(start as int) =~= without_prefix(text@)) by {
        assert(text@.skip(0) =~= text@);
    }
    let ghost body = without_prefix(text@);
    if start < n && text.get_char(start) == '+' {
        assert(body[0] == '+');
        assert(text@.skip(start + 1) =~= body.skip(1));
        start += 1;
    } else {
        assert(body.len() == 0 || body[0] != '+') by {
            if start < n {
                assert(body[0] == text@[start as int]);
            }
        }
    }
    let ghost digits = without_sign(body);
    assert(digits =~= text@.skip(start as int));
    if start >= n {
        return None;
    }
    let mut acc: usize = 0;
    let mut i: usize = start;
    assert(digits.take(0) =~= Seq::<char>::empty());
    while i < n
        invariant
            start <= i <= n,
            n == text@.len(),
            digits == text@.skip(start as int),
            digits == without_sign(without_prefix(text@)),
            all_hex(digits.take(i - start)),
            acc == hex_value(digits.take(i - start)),
        decreases n - i,
    {
        let c = text.get_char(i);
        let ghost k = i - start;
        assert(digits[k] == c);
        assert(digits.take(k + 1).drop_last() =~= digits.take(k));
        assert(digits.take(k + 1).last() == c);
        let d = match digit_value(c) {
            Some(d) => d,
            None => {
                assert(hex_digit(digits[k]) is None);
                return None;
            },
        };
        let next = match acc.checked_mul(16) {
            Some(shifted) => shifted.checked_add(d),
            None => None,
        };
        match next {
            Some(value) => {
                acc = value;
            },
            None => {
                proof {
                    assert(hex_value(digits.take(k + 1)) > usize::MAX);
                    lemma_hex_value_grows(digits, k + 1);
                }
                return None;
            },
        }
        proof {
            assert forall|j: int| 0 <= j < k + 1 implies hex_digit(
                #[trigger] digits.take(k + 1)[j],
            ) is Some by {
                if j < k {
                    assert(digits.take(k)[j] == digits.take(k + 1)[j]);
                }
            }
        }
        i += 1;
    }
    assert(digits.take(n - start) =~= digits);
    Some(acc)
}

} // verus!
