//! Small pieces of text layout: decimal numbers, centring and padding.

use vstd::prelude::*;

verus! {

/// The character of a decimal digit.
pub open spec fn digit_char(d: int) -> char {
    if d == 0 {
        '0'
    } else if d == 1 {
        '1'
    } else if d == 2 {
        '2'
    } else if d == 3 {
        '3'
    } else if d == 4 {
        '4'
    } else if d == 5 {
        '5'
    } else if d == 6 {
        '6'
    } else if d == 7 {
        '7'
    } else if d == 8 {
        '8'
    } else {
        '9'
    }
}

/// The decimal digits of a number, without leading zeros.
pub open spec fn decimal(n: nat) -> Seq<char>
    decreases n,
{
    if n < 10 {
        seq![digit_char(n as int)]
    } else {
        decimal(n / 10).push(digit_char((n % 10) as int))
    }
}

/// `count` copies of `c`.
pub open spec fn repeat(c: char, count: int) -> Seq<char> {
    Seq::new(
        if count > 0 {
            count as nat
        } else {
            0
        },
        |i: int| c,
    )
}

/// `text` in the middle of a field of `width` characters, the rest filled
/// with `fill`; where the rest is odd, the extra character goes to the
/// right. A text that is wider than the field stays as it is.
pub open spec fn centered(text: Seq<char>, width: int, fill: char) -> Seq<char> {
    if text.len() >= width {
        text
    } else {
        let pad = width - text.len();
        repeat(fill, pad / 2) + text + repeat(fill, pad - pad / 2)
    }
}

/// `text` followed by as many spaces as bring it to `width` characters.
pub open spec fn padded(text: Seq<char>, width: int) -> Seq<char> {
    text + repeat(' ', width - text.len())
}

fn digit(d: usize) -> (c: char)
    requires
        d < 10,
    ensures
        c == digit_char(d as int),
{
    if d == 0 {
        '0'
    } else if d == 1 {
        '1'
    } else if d == 2 {
        '2'
    } else if d == 3 {
        '3'
    } else if d == 4 {
        '4'
    } else if d == 5 {
        '5'
    } else if d == 6 {
        '6'
    } else if d == 7 {
        '7'
    } else if d == 8 {
        '8'
    } else {
        '9'
    }
}

/// Writes the decimal digits of `n` at the end of `out`.
pub fn push_decimal(out: &mut Vec<char>, n: usize)
    ensures
        final(out)@ == old(out)@ + decimal(n as nat),
    decreases n,
{
    if n < 10 {
        out.push(digit(n));
        assert(out@ =~= old(out)@ + decimal(n as nat));
    } else {
        push_decimal(out, n / 10);
        out.push(digit(n % 10));
        assert(out@ =~= old(out)@ + decimal(n as nat));
    }
}

/// Writes `count` copies of `c` at the end of `out`.
pub fn push_repeat(out: &mut Vec<char>, c: char, count: usize)
    ensures
        final(out)@ == old(out)@ + repeat(c, count as int),
{
    let mut i: usize = 0;
    while i < count
        invariant
            i <= count,
            out@ == old(out)@ + repeat(c, i as int),
        decreases count - i,
    {
        out.push(c);
        assert(out@ =~= old(out)@ + repeat(c, i + 1));
        i += 1;
    }
    assert(out@ =~= old(out)@ + repeat(c, count as int));
}

/// Writes the characters of `text` at the end of `out`.
pub fn push_all(out: &mut Vec<char>, text: &Vec<char>)
    ensures
        final(out)@ == old(out)@ + text@,
{
    let mut i: usize = 0;
    while i < text.len()
        invariant
            i <= text@.len(),
            out@ == old(out)@ + text@.take(i as int),
        decreases text@.len() - i,
    {
        out.push(text[i]);
        assert(out@ =~= old(out)@ + text@.take(i + 1));
        i += 1;
    }
    assert(text@.take(text@.len() as int) =~= text@);
}

/// Writes `text`, centred in a field of `width` characters filled with
/// `fill`, at the end of `out`.
pub fn push_centered(out: &mut Vec<char>, text: &Vec<char>, width: usize, fill: char)
    ensures
        final(out)@ == old(out)@ + centered(text@, width as int, fill),
{
    if text.len() >= width {
        push_all(out, text);
    } else {
        let pad = width - text.len();
        push_repeat(out, fill, pad / 2);
        push_all(out, text);
        push_repeat(out, fill, pad - pad / 2);
        assert(out@ =~= old(out)@ + centered(text@, width as int, fill));
    }
}

/// Brings `out` to `width` characters with spaces at its end.
pub fn pad_to(out: &mut Vec<char>, width: usize)
    ensures
        final(out)@ == padded(old(out)@, width as int),
{
    if out.len() < width {
        let count = width - out.len();
        push_repeat(out, ' ', count);
    } else {
        assert(out@ =~= padded(out@, width as int));
    }
}

/// Appends a character with `String::push` of the standard library, which
/// is documented to append the given `char` to the end of the string. The
/// contract says that the string then holds the character after what it
/// held.
#[verifier::external_body]
fn push_char(s: &mut String, c: char)
    ensures
        final(s)@ == old(s)@.push(c),
{
    s.push(c);
}

/// The string that holds the characters.
pub fn string_of(chars: &Vec<char>) -> (s: String)
    ensures
        s@ == chars@,
{
    let mut s = String::new();
    let mut i: usize = 0;
    while i < chars.len()
        invariant
            i <= chars@.len(),
            s@ == chars@.take(i as int),
        decreases chars@.len() - i,
    {
        push_char(&mut s, chars[i]);
        assert(s@ =~= chars@.take(i + 1));
        i += 1;
    }
    assert(chars@.take(chars@.len() as int) =~= chars@);
    s
}

} // verus!
