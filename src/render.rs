//! Rendering of parameter values as text, one rule per display hint.
use vstd::prelude::*;

use crate::hint::DisplayHint;

verus! {

/// The digit for `d` (below 16), upper- or lower-case.
pub open spec fn digit_char(d: nat, upper: bool) -> char {
    if d < 10 {
        ((48 + d) as u8) as char
    } else if upper {
        ((55 + d) as u8) as char
    } else {
        ((87 + d) as u8) as char
    }
}

/// The digits of `n` in `base`, most significant first, without leading
/// zeros (zero itself is one digit).
pub open spec fn digits(n: nat, base: nat, upper: bool) -> Seq<char>
    decreases n via digits_decreases
{
    if base < 2 || base > 16 {
        seq![]
    } else if n < base {
        seq![digit_char(n, upper)]
    } else {
        digits(n / base, base, upper).push(digit_char(n % base, upper))
    }
}

#[via_fn]
proof fn digits_decreases(n: nat, base: nat, upper: bool) {
    if 2 <= base && n >= base {
        lemma_div_smaller(n, base);
    }
}

proof fn lemma_div_smaller(n: nat, base: nat)
    requires
        2 <= base <= n,
    ensures
        n / base < n,
{
    assert(n / base < n) by (nonlinear_arith)
        requires
            2 <= base <= n,
    ;
}

/// Decimal digits of `n`.
pub open spec fn decimal(n: nat) -> Seq<char> {
    digits(n, 10, false)
}

/// Dotted-decimal form of the four bytes of `n`, most significant first.
pub open spec fn dotted_quad(n: nat) -> Seq<char> {
    decimal((n / 0x100_0000) % 256) + seq!['.'] + decimal((n / 0x1_0000) % 256) + seq!['.']
        + decimal((n / 0x100) % 256) + seq!['.'] + decimal(n % 256)
}

/// The last `g` 16-bit groups of `n` in lower-case hex, separated by `:`,
/// most significant first.
pub open spec fn hex_groups(n: nat, g: nat) -> Seq<char>
    decreases g,
{
    if g <= 1 {
        digits(n % 0x1_0000, 16, false)
    } else {
        hex_groups(n / 0x1_0000, (g - 1) as nat) + seq![':'] + digits(n % 0x1_0000, 16, false)
    }
}

/// The text of a value under a display hint.
pub open spec fn render(h: DisplayHint, n: nat) -> Seq<char> {
    match h {
        DisplayHint::Default => decimal(n),
        DisplayHint::LowerHex => digits(n, 16, false),
        DisplayHint::UpperHex => digits(n, 16, true),
        DisplayHint::IPv4 => dotted_quad(n),
        DisplayHint::IPv6 => hex_groups(n, 8),
    }
}

fn digit(d: u128, upper: bool) -> (c: char)
    requires
        d < 16,
    ensures
        c == digit_char(d as nat, upper),
{
    if d < 10 {
        (48 + d as u8) as char
    } else if upper {
        (55 + d as u8) as char
    } else {
        (87 + d as u8) as char
    }
}

fn push_digits(out: &mut Vec<char>, n: u128, base: u128, upper: bool)
    requires
        2 <= base <= 16,
    ensures
        final(out)@ == old(out)@ + digits(n as nat, base as nat, upper),
    decreases n,
{
    if n < base {
        out.push(digit(n, upper));
        assert(digits(n as nat, base as nat, upper) =~= seq![digit_char(n as nat, upper)]);
    } else {
        let ghost start = out@;
        proof {
            lemma_div_smaller(n as nat, base as nat);
        }
        push_digits(out, n / base, base, upper);
        out.push(digit(n % base, upper));
        assert(out@ =~= start + digits(n as nat, base as nat, upper));
    }
}

fn push_dotted_quad(out: &mut Vec<char>, n: u128)
    ensures
        final(out)@ == old(out)@ + dotted_quad(n as nat),
{
    let ghost start = out@;
    push_digits(out, (n / 0x100_0000) % 256, 10, false);
    out.push('.');
    push_digits(out, (n / 0x1_0000) % 256, 10, false);
    out.push('.');
    push_digits(out, (n / 0x100) % 256, 10, false);
    out.push('.');
    push_digits(out, n % 256, 10, false);
    assert(out@ =~= start + dotted_quad(n as nat));
}

fn push_hex_groups(out: &mut Vec<char>, n: u128, g: u32)
    ensures
        final(out)@ == old(out)@ + hex_groups(n as nat, g as nat),
    decreases g,
{
    let ghost start = out@;
    if g <= 1 {
        push_digits(out, n % 0x1_0000, 16, false);
    } else {
        push_hex_groups(out, n / 0x1_0000, g - 1);
        out.push(':');
        push_digits(out, n % 0x1_0000, 16, false);
        assert(out@ =~= start + hex_groups(n as nat, g as nat));
    }
}

/// Appends the text of `n` under hint `h`.
pub fn push_rendered(out: &mut Vec<char>, h: DisplayHint, n: u128)
    ensures
        final(out)@ == old(out)@ + render(h, n as nat),
{
    match h {
        DisplayHint::Default => push_digits(out, n, 10, false),
        DisplayHint::LowerHex => push_digits(out, n, 16, false),
        DisplayHint::UpperHex => push_digits(out, n, 16, true),
        DisplayHint::IPv4 => push_dotted_quad(out, n),
        DisplayHint::IPv6 => push_hex_groups(out, n, 8),
    }
}

} // verus!
