use vstd::prelude::*;
use crate::text::push_char;

verus! {

/// The lowercase hexadecimal digit that stands for `d`, for `0 <= d < 16`.
pub open spec fn hex_char(d: int) -> char {
    if d < 10 {
        ('0' as int + d) as char
    } else {
        ('a' as int + d - 10) as char
    }
}

/// The value of a hexadecimal digit, in either case; `None` for any other character.
pub open spec fn hex_value(c: char) -> Option<u16> {
    if '0' <= c <= '9' {
        Some((c as int - '0' as int) as u16)
    } else if 'a' <= c <= 'f' {
        Some((c as int - 'a' as int + 10) as u16)
    } else if 'A' <= c <= 'F' {
        Some((c as int - 'A' as int + 10) as u16)
    } else {
        None
    }
}

/// The shortest lowercase hexadecimal numeral of `n`: no leading zero, and `"0"` for zero.
pub open spec fn hex_min(n: nat) -> Seq<char>
    decreases n,
{
    if n < 16 {
        seq![hex_char(n as int)]
    } else {
        hex_min(n / 16).push(hex_char((n % 16) as int))
    }
}

/// The lowercase hexadecimal numeral of `n`, with zeros in front up to `width` digits.
pub open spec fn hex_pad(n: nat, width: nat) -> Seq<char> {
    let digits = hex_min(n);
    if digits.len() >= width {
        digits
    } else {
        Seq::new((width - digits.len()) as nat, |i: int| '0') + digits
    }
}

/// The four-digit lowercase hexadecimal numeral of a 16-bit value.
pub open spec fn hex4(v: u16) -> Seq<char> {
    seq![
        hex_char(v as int / 4096),
        hex_char(v as int / 256 % 16),
        hex_char(v as int / 16 % 16),
        hex_char(v as int % 16),
    ]
}

/// The lowercase hexadecimal digit that stands for `d`.
pub(crate) fn hex_digit(d: u8) -> (c: char)
    requires
        d < 16,
    ensures
        c == hex_char(d as int),
{
    if d < 10 {
        (48u8 + d) as char
    } else {
        (87u8 + d) as char
    }
}

/// The value of a hexadecimal digit, in either case.
pub fn hex_digit_value(c: char) -> (v: Option<u16>)
    ensures
        v == hex_value(c),
        v matches Some(d) ==> d < 16,
{
    let n: u32 = c as u32;
    if 48 <= n && n <= 57 {
        Some((n - 48) as u16)
    } else if 97 <= n && n <= 102 {
        Some((n - 87) as u16)
    } else if 65 <= n && n <= 70 {
        Some((n - 55) as u16)
    } else {
        None
    }
}

/// Appends the shortest hexadecimal numeral of `n`.
pub fn push_hex(out: &mut String, n: usize)
    ensures
        final(out)@ == old(out)@ + hex_min(n as nat),
    decreases n,
{
    let ghost before = out@;
    if n >= 16 {
        push_hex(out, n / 16);
    }
    push_char(out, hex_digit((n % 16) as u8));
    assert(out@ == before + hex_min(n as nat));
}

/// The number of digits in the shortest hexadecimal numeral of `n`.
pub fn hex_len(n: usize) -> (len: usize)
    ensures
        len == hex_min(n as nat).len(),
{
    let mut len: usize = 1;
    let mut rest: usize = n;
    while rest >= 16
        invariant
            1 <= len,
            hex_min(n as nat).len() == hex_min(rest as nat).len() + len - 1,
            len + rest <= n + 1,
        decreases rest,
    {
        rest = rest / 16;
        len += 1;
    }
    len
}

/// Appends the hexadecimal numeral of `n`, with zeros in front up to `width` digits.
pub fn push_hex_pad(out: &mut String, n: usize, width: usize)
    ensures
        final(out)@ == old(out)@ + hex_pad(n as nat, width as nat),
{
    let ghost before = out@;
    let len = hex_len(n);
    let mut i: usize = len;
    while i < width
        invariant
            len == hex_min(n as nat).len(),
            len <= i,
            i <= width || i == len,
            out@ == before + Seq::new((i - len) as nat, |k: int| '0'),
        decreases width - i,
    {
        push_char(out, '0');
        i += 1;
    }
    push_hex(out, n);
    assert(out@ == before + hex_pad(n as nat, width as nat));
}

/// Appends the four hexadecimal digits of `v`.
pub fn push_hex4(out: &mut String, v: u16)
    ensures
        final(out)@ == old(out)@ + hex4(v),
{
    let ghost before = out@;
    push_char(out, hex_digit((v / 4096) as u8));
    push_char(out, hex_digit((v / 256 % 16) as u8));
    push_char(out, hex_digit((v / 16 % 16) as u8));
    push_char(out, hex_digit((v % 16) as u8));
    assert(out@ == before + hex4(v));
}

} // verus!
