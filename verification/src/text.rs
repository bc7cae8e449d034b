//! Text forms used in names and catalogs: lowercase hex and decimal numbers.

use vstd::prelude::*;

verus! {

/// `String::push` of the standard library appends a character: afterwards the
/// string reads as it did before, followed by that character.
pub assume_specification[ String::push ](s: &mut String, c: char)
    ensures
        final(s)@ == old(s)@.push(c),
;

/// The lowercase hexadecimal digit for a value below 16.
pub open spec fn hex_digit(n: int) -> char {
    if n < 10 {
        (('0' as int) + n) as char
    } else {
        (('a' as int) + n - 10) as char
    }
}

/// Lowercase hexadecimal text of a byte string, two digits per byte, high
/// nibble first.
pub open spec fn hex_of(bytes: Seq<u8>) -> Seq<char> {
    Seq::new(
        2 * bytes.len(),
        |i: int|
            if i % 2 == 0 {
                hex_digit(bytes[i / 2] as int / 16)
            } else {
                hex_digit(bytes[i / 2] as int % 16)
            },
    )
}

fn hex_char(n: u8) -> (c: char)
    requires
        n < 16,
    ensures
        c == hex_digit(n as int),
{
    if n < 10 {
        (48u8 + n) as char
    } else {
        (87u8 + n) as char
    }
}

/// Lowercase hexadecimal text of `bytes`.
pub fn hex(bytes: &[u8]) -> (s: String)
    ensures
        s@ == hex_of(bytes@),
{
    let mut s = String::new();
    let mut i: usize = 0;
    while i < bytes.len()
        invariant
            i <= bytes.len(),
            s@ == hex_of(bytes@.subrange(0, i as int)),
        decreases bytes.len() - i,
    {
        let b: u8 = bytes[i];
        let hi: u8 = b / 16;
        let lo: u8 = b % 16;
        s.push(hex_char(hi));
        s.push(hex_char(lo));
        proof {
            let prev = bytes@.subrange(0, i as int);
            let next = bytes@.subrange(0, i + 1);
            assert(next == prev.push(b));
            assert(hex_of(next) =~= hex_of(prev).push(hex_digit(hi as int)).push(
                hex_digit(lo as int),
            ));
        }
        i += 1;
    }
    assert(bytes@.subrange(0, i as int) == bytes@);
    s
}

/// The decimal digit for a value below 10.
pub open spec fn digit_char(d: int) -> char {
    (('0' as int) + d) as char
}

/// Decimal text of a number, without leading zeros.
pub open spec fn decimal(n: nat) -> Seq<char>
    decreases n,
{
    if n < 10 {
        seq![digit_char(n as int)]
    } else {
        decimal(n / 10).push(digit_char((n % 10) as int))
    }
}

/// Decimal text of a number, with `fill` in front up to `width` characters.
pub open spec fn decimal_filled(n: nat, width: nat, fill: char) -> Seq<char> {
    let d = decimal(n);
    if d.len() >= width {
        d
    } else {
        Seq::new((width - d.len()) as nat, |i: int| fill) + d
    }
}

/// Decimal text of a number, with zeros in front up to `width` characters.
pub open spec fn decimal_padded(n: nat, width: nat) -> Seq<char> {
    decimal_filled(n, width, '0')
}

fn decimal_len(n: usize) -> (len: usize)
    ensures
        len == decimal(n as nat).len(),
        1 <= len <= 20,
    decreases n,
{
    if n < 10 {
        1
    } else {
        let rest = decimal_len(n / 10);
        assert(rest < 20) by {
            lemma_decimal_len_bound(n as nat);
        }
        rest + 1
    }
}

proof fn lemma_decimal_len_bound(n: nat)
    ensures
        n <= 0xffff_ffff_ffff_ffff ==> decimal(n).len() <= 20,
{
    reveal_with_fuel(decimal, 21);
}

/// Appends the decimal text of `n`.
pub(crate) fn push_decimal(s: &mut String, n: usize)
    ensures
        final(s)@ == old(s)@ + decimal(n as nat),
    decreases n,
{
    if n >= 10 {
        push_decimal(s, n / 10);
    }
    let d: u8 = (n % 10) as u8;
    s.push((48u8 + d) as char);
    assert(s@ =~= old(s)@ + decimal(n as nat));
}

/// Appends the decimal text of `n`, zero-padded to `width` characters.
pub(crate) fn push_decimal_padded(s: &mut String, n: usize, width: usize)
    ensures
        final(s)@ == old(s)@ + decimal_padded(n as nat, width as nat),
{
    push_decimal_filled(s, n, width, '0');
}

/// Appends the decimal text of `n`, filled up in front to `width` characters.
pub(crate) fn push_decimal_filled(s: &mut String, n: usize, width: usize, fill: char)
    ensures
        final(s)@ == old(s)@ + decimal_filled(n as nat, width as nat, fill),
{
    let len = decimal_len(n);
    let ghost start = s@;
    if len < width {
        let pad: usize = width - len;
        let mut i: usize = 0;
        while i < pad
            invariant
                i <= pad,
                s@ == start + Seq::new(i as nat, |j: int| fill),
            decreases pad - i,
        {
            s.push(fill);
            assert(s@ =~= start + Seq::new((i + 1) as nat, |j: int| fill));
            i += 1;
        }
    } else {
        assert(s@ =~= start + Seq::new(0nat, |j: int| fill));
    }
    push_decimal(s, n);
    assert(s@ =~= start + decimal_filled(n as nat, width as nat, fill));
}

} // verus!
