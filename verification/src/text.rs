//! Rendering of numbers into the text of error messages, with the exact
//! character sequences stated as spec functions.
use vstd::prelude::*;

verus! {

/// The character for a digit value below sixteen (lower-case for ten and above).
pub open spec fn digit_char(d: nat) -> char {
    if d < 10 {
        ((48 + d) as u8) as char
    } else {
        ((87 + d) as u8) as char
    }
}

/// Decimal digits of `n`, without leading zeros (`"0"` for zero).
pub open spec fn decimal(n: nat) -> Seq<char>
    decreases n,
{
    if n < 10 {
        seq![digit_char(n)]
    } else {
        decimal(n / 10).push(digit_char(n % 10))
    }
}

/// Lower-case hexadecimal digits of `n`, without leading zeros (`"0"` for zero).
pub open spec fn hex_digits(n: nat) -> Seq<char>
    decreases n,
{
    if n < 16 {
        seq![digit_char(n)]
    } else {
        hex_digits(n / 16).push(digit_char(n % 16))
    }
}

/// Lower-case hexadecimal digits of `n`, left-padded with `'0'` to at least
/// `width` characters (the `{:0width$x}` rendering).
pub open spec fn hex_padded(n: nat, width: nat) -> Seq<char> {
    let digits = hex_digits(n);
    if digits.len() >= width {
        digits
    } else {
        Seq::new((width - digits.len()) as nat, |i: int| '0') + digits
    }
}

/// The characters of a string.
pub(crate) fn chars_of(s: &str) -> (v: Vec<char>)
    ensures
        v@ == s@,
{
    let mut v: Vec<char> = Vec::new();
    for c in it: s.chars()
        invariant
            v@ == it.seq().take(it.index() as int),
    {
        v.push(c);
    }
    v
}

/// Appends one character to a string.
#[verifier::external_body]
pub(crate) fn push_char(s: &mut String, c: char)
    ensures
        final(s)@ == old(s)@.push(c),
{
    s.push(c);
}

fn digit(d: u8) -> (c: char)
    requires
        d < 16,
    ensures
        c == digit_char(d as nat),
{
    if d < 10 {
        (48u8 + d) as char
    } else {
        (87u8 + d) as char
    }
}

/// Appends the decimal rendering of `n`.
pub fn push_decimal(s: &mut String, n: u64)
    ensures
        final(s)@ == old(s)@ + decimal(n as nat),
    decreases n,
{
    if n >= 10 {
        push_decimal(s, n / 10);
    }
    let d = (n % 10) as u8;
    push_char(s, digit(d));
    assert(decimal(n as nat) == if n < 10 {
        seq![digit_char(n as nat)]
    } else {
        decimal((n / 10) as nat).push(digit_char((n % 10) as nat))
    });
}

fn push_hex_digits(s: &mut String, n: u64)
    ensures
        final(s)@ == old(s)@ + hex_digits(n as nat),
    decreases n,
{
    if n >= 16 {
        push_hex_digits(s, n / 16);
    }
    let d = (n % 16) as u8;
    push_char(s, digit(d));
    assert(hex_digits(n as nat) == if n < 16 {
        seq![digit_char(n as nat)]
    } else {
        hex_digits((n / 16) as nat).push(digit_char((n % 16) as nat))
    });
}

fn hex_digit_count(n: u64) -> (k: usize)
    ensures
        k == hex_digits(n as nat).len(),
        k <= 16,
    decreases n,
{
    if n < 16 {
        1
    } else {
        let k = hex_digit_count(n / 16);
        proof {
            assert(hex_digits(n as nat) == hex_digits((n / 16) as nat).push(digit_char((n % 16) as nat)));
            lemma_hex_digits_len(n as nat);
        }
        k + 1
    }
}

spec fn pow16(k: nat) -> nat
    decreases k,
{
    if k == 0 {
        1
    } else {
        16 * pow16((k - 1) as nat)
    }
}

proof fn lemma_hex_len_bound(n: nat, k: nat)
    requires
        k >= 1,
        n < pow16(k),
    ensures
        hex_digits(n).len() <= k,
    decreases k,
{
    if n >= 16 {
        assert(k >= 2) by {
            if k == 1 {
                assert(pow16(1) == 16 * pow16(0));
            }
        }
        assert(pow16(k) == 16 * pow16((k - 1) as nat));
        lemma_hex_len_bound(n / 16, (k - 1) as nat);
    }
}

proof fn lemma_hex_digits_len(n: nat)
    requires
        n < 0x1_0000_0000_0000_0000,
    ensures
        hex_digits(n).len() <= 16,
{
    reveal_with_fuel(pow16, 17);
    lemma_hex_len_bound(n, 16);
}

/// Appends the hexadecimal rendering of `n`, zero-padded to `width` digits.
pub fn push_hex(s: &mut String, n: u64, width: usize)
    ensures
        final(s)@ == old(s)@ + hex_padded(n as nat, width as nat),
{
    let k = hex_digit_count(n);
    let ghost start = s@;
    if k < width {
        let mut i: usize = k;
        while i < width
            invariant
                k <= i <= width,
                s@ == start + Seq::new((i - k) as nat, |j: int| '0'),
            decreases width - i,
        {
            push_char(s, '0');
            i = i + 1;
            assert(s@ =~= start + Seq::new((i - k) as nat, |j: int| '0'));
        }
    }
    let ghost mid = s@;
    push_hex_digits(s, n);
    assert(s@ =~= start + hex_padded(n as nat, width as nat));
}

} // verus!
