use vstd::prelude::*;

verus! {

/// Appends one character to a string.
///
/// Calls `String::push`, which vstd does not specify. Trusted: afterwards the
/// string holds its former characters followed by `c`.
#[verifier::external_body]
pub(crate) fn push_char(s: &mut String, c: char)
    ensures
        final(s)@ == old(s)@.push(c),
{
    s.push(c)
}

/// The decimal digit that stands for `d`, for `0 <= d < 10`.
pub open spec fn dec_char(d: int) -> char {
    ('0' as int + d) as char
}

/// The decimal numeral of `n`: no leading zero, and `"0"` for zero.
pub open spec fn dec_min(n: nat) -> Seq<char>
    decreases n,
{
    if n < 10 {
        seq![dec_char(n as int)]
    } else {
        dec_min(n / 10).push(dec_char((n % 10) as int))
    }
}

/// Appends the decimal numeral of `n`.
pub fn push_dec(out: &mut String, n: usize)
    ensures
        final(out)@ == old(out)@ + dec_min(n as nat),
    decreases n,
{
    let ghost before = out@;
    if n >= 10 {
        push_dec(out, n / 10);
    }
    push_char(out, (48u8 + (n % 10) as u8) as char);
    assert(out@ == before + dec_min(n as nat));
}

} // verus!
