//! The closed vocabulary of display hints and the resolver from specifier
//! tokens to hints.
use vstd::prelude::*;

verus! {

/// How a parameter's value is rendered as text. Never affects storage width.
#[derive(Clone, Copy, Debug, PartialEq, Eq, Structural)]
pub enum DisplayHint {
    /// Natural textual form: decimal for numbers, verbatim for text.
    Default,
    /// Lower-case hexadecimal digits.
    LowerHex,
    /// Upper-case hexadecimal digits.
    UpperHex,
    /// Dotted-decimal rendering of a 4-byte address.
    IPv4,
    /// Colon-separated hexadecimal groups of a 16-byte address.
    IPv6,
}

/// A specifier token that names no display hint.
#[derive(Clone, Copy, Debug, PartialEq, Eq, Structural)]
pub struct UnknownHintError;

/// The specifier tokens of the hint vocabulary. The empty token stands for
/// a placeholder without specifier.
pub open spec fn hint_of_token(t: Seq<char>) -> Option<DisplayHint> {
    if t =~= seq![] {
        Some(DisplayHint::Default)
    } else if t =~= seq!['x'] {
        Some(DisplayHint::LowerHex)
    } else if t =~= seq!['X'] {
        Some(DisplayHint::UpperHex)
    } else if t =~= seq!['i'] || t =~= seq!['i', 'p', 'v', '4'] {
        Some(DisplayHint::IPv4)
    } else if t =~= seq!['i', 'p', 'v', '6'] {
        Some(DisplayHint::IPv6)
    } else {
        None
    }
}

fn token_is(t: &[char], w: &[char]) -> (r: bool)
    ensures
        r == (t@ =~= w@),
{
    if t.len() != w.len() {
        return false;
    }
    let mut i: usize = 0;
    while i < t.len()
        invariant
            t@.len() == w@.len(),
            i <= t@.len(),
            forall|j: int| 0 <= j < i ==> t@[j] == w@[j],
        decreases t@.len() - i,
    {
        if t[i] != w[i] {
            return false;
        }
        i = i + 1;
    }
    true
}

/// Resolves a specifier token (the text after the `:` of a placeholder, or
/// the empty token) to its display hint: `x` lower-hex, `X` upper-hex, `i`
/// or `ipv4` IPv4, `ipv6` IPv6, nothing at all Default. Any other token is
/// refused; the resolver never falls back to a default.
pub fn resolve_hint(token: &[char]) -> (r: Result<DisplayHint, UnknownHintError>)
    ensures
        hint_of_token(token@) is Some ==> r == Ok::<DisplayHint, UnknownHintError>(
            hint_of_token(token@).unwrap(),
        ),
        hint_of_token(token@) is None ==> r is Err,
{
    if token.len() == 0 {
        Ok(DisplayHint::Default)
    } else if token_is(token, &['x']) {
        Ok(DisplayHint::LowerHex)
    } else if token_is(token, &['X']) {
        Ok(DisplayHint::UpperHex)
    } else if token_is(token, &['i']) || token_is(token, &['i', 'p', 'v', '4']) {
        Ok(DisplayHint::IPv4)
    } else if token_is(token, &['i', 'p', 'v', '6']) {
        Ok(DisplayHint::IPv6)
    } else {
        Err(UnknownHintError)
    }
}

/// Hint closure: every token outside the vocabulary is refused, and every
/// accepted token is one of the vocabulary's spellings.
pub proof fn lemma_hint_closure(t: Seq<char>)
    ensures
        hint_of_token(t) is Some <==> (t =~= seq![] || t =~= seq!['x'] || t =~= seq!['X']
            || t =~= seq!['i'] || t =~= seq!['i', 'p', 'v', '4'] || t =~= seq![
            'i',
            'p',
            'v',
            '6',
        ]),
{
}

} // verus!
