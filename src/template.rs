//! The template compiler: turns a printf-like format string into the ordered
//! sequence of literal and parameter fragments that drives encoding and
//! decoding.
use vstd::prelude::*;
use vstd::string::*;
use vstd::utf8::{encode_scalar, encode_utf8};

use crate::hint::{DisplayHint, hint_of_token, resolve_hint};

verus! {

/// The mathematical content of a fragment.
pub enum FragmentModel {
    Literal(Seq<char>),
    Parameter(DisplayHint),
}

/// One piece of a parsed template: verbatim text, or a slot whose value
/// travels on the wire.
#[derive(Clone, Debug, PartialEq, Eq)]
pub enum Fragment {
    Literal(String),
    Parameter(DisplayHint),
}

impl View for Fragment {
    type V = FragmentModel;

    open spec fn view(&self) -> FragmentModel {
        match self {
            Fragment::Literal(s) => FragmentModel::Literal(s@),
            Fragment::Parameter(h) => FragmentModel::Parameter(*h),
        }
    }
}

/// Why a format string was refused. Offsets are byte offsets into the
/// format string's UTF-8 text and point at the opening or stray delimiter.
#[derive(Clone, Copy, Debug, PartialEq, Eq, Structural)]
pub enum TemplateError {
    /// Unterminated placeholder, unescaped `}`, or a placeholder body that is
    /// neither empty nor `:` followed by a specifier.
    Malformed { offset: usize },
    /// A specifier outside the hint vocabulary.
    UnknownHint { offset: usize },
}

/// A parsed format string. Immutable once built.
#[derive(Clone, Debug, PartialEq, Eq)]
pub struct Template {
    fragments: Vec<Fragment>,
}

/// The fragments' mathematical content, in order.
pub open spec fn fragments_view(v: Seq<Fragment>) -> Seq<FragmentModel> {
    v.map_values(|f: Fragment| f@)
}

impl View for Template {
    type V = Seq<FragmentModel>;

    closed spec fn view(&self) -> Seq<FragmentModel> {
        fragments_view(self.fragments@)
    }
}

/// A pending literal run becomes a fragment only when it is not empty.
pub open spec fn flush(lit: Seq<char>) -> Seq<FragmentModel> {
    if lit.len() == 0 {
        seq![]
    } else {
        seq![FragmentModel::Literal(lit)]
    }
}

/// A parse result with fragments `p` put in front of whatever it found.
pub open spec fn prepend(
    p: Seq<FragmentModel>,
    r: Result<Seq<FragmentModel>, TemplateError>,
) -> Result<Seq<FragmentModel>, TemplateError> {
    match r {
        Ok(t) => Ok(p + t),
        Err(e) => Err(e),
    }
}

/// The hint of a placeholder body (the text between `{` and `}`): empty, or
/// `:` followed by a specifier token.
pub open spec fn body_hint(body: Seq<char>) -> Option<DisplayHint> {
    if body.len() == 0 {
        Some(DisplayHint::Default)
    } else if body[0] == ':' {
        hint_of_token(body.subrange(1, body.len() as int))
    } else {
        None
    }
}

/// The byte offset, in UTF-8, of the character at position `i`.
pub open spec fn byte_offset(s: Seq<char>, i: int) -> nat {
    encode_utf8(s.take(i)).len()
}

/// The error for a placeholder at `start` whose body names no hint.
pub open spec fn body_error(s: Seq<char>, body: Seq<char>, start: int) -> TemplateError {
    if body.len() > 0 && body[0] == ':' {
        TemplateError::UnknownHint { offset: byte_offset(s, start) as usize }
    } else {
        TemplateError::Malformed { offset: byte_offset(s, start) as usize }
    }
}

/// Parses `s` from position `i`, with `lit` the literal text gathered since
/// the last fragment.
pub open spec fn parse_from(s: Seq<char>, i: int, lit: Seq<char>) -> Result<
    Seq<FragmentModel>,
    TemplateError,
>
    decreases s.len() - i, 1int,
{
    if i < 0 || i >= s.len() {
        Ok(flush(lit))
    } else if s[i] == '{' {
        if i + 1 < s.len() && s[i + 1] == '{' {
            parse_from(s, i + 2, lit.push('{'))
        } else {
            placeholder_from(s, i, i + 1, lit)
        }
    } else if s[i] == '}' {
        if i + 1 < s.len() && s[i + 1] == '}' {
            parse_from(s, i + 2, lit.push('}'))
        } else {
            Err(TemplateError::Malformed { offset: byte_offset(s, i) as usize })
        }
    } else {
        parse_from(s, i + 1, lit.push(s[i]))
    }
}

/// Parses the placeholder opened at `start`, having scanned its body up to
/// position `j`.
pub open spec fn placeholder_from(s: Seq<char>, start: int, j: int, lit: Seq<char>) -> Result<
    Seq<FragmentModel>,
    TemplateError,
>
    decreases s.len() - j, 0int,
{
    if j < 0 || j >= s.len() {
        Err(TemplateError::Malformed { offset: byte_offset(s, start) as usize })
    } else if s[j] == '}' {
        let body = s.subrange(start + 1, j);
        match body_hint(body) {
            Some(h) => prepend(
                flush(lit).push(FragmentModel::Parameter(h)),
                parse_from(s, j + 1, seq![]),
            ),
            None => Err(body_error(s, body, start)),
        }
    } else {
        placeholder_from(s, start, j + 1, lit)
    }
}

/// The fragments of a format string, or why it is refused.
pub open spec fn parse_template(s: Seq<char>) -> Result<Seq<FragmentModel>, TemplateError> {
    parse_from(s, 0, seq![])
}

proof fn lemma_prepend_assoc(
    a: Seq<FragmentModel>,
    b: Seq<FragmentModel>,
    r: Result<Seq<FragmentModel>, TemplateError>,
)
    ensures
        prepend(a, prepend(b, r)) == prepend(a + b, r),
{
    if let Ok(t) = r {
        assert((a + b) + t =~= a + (b + t));
    }
}

/// Relies on std's `String::push`: appends one character at the end.
#[verifier::external_body]
fn push_char(s: &mut String, c: char)
    ensures
        final(s)@ == old(s)@.push(c),
{
    s.push(c)
}

/// The string of exactly the characters of `v`, in order.
pub(crate) fn string_from_chars(v: &Vec<char>) -> (r: String)
    ensures
        r@ == v@,
{
    let mut r = String::new();
    let mut i: usize = 0;
    while i < v.len()
        invariant
            i <= v@.len(),
            r@ =~= v@.take(i as int),
        decreases v@.len() - i,
    {
        push_char(&mut r, v[i]);
        i = i + 1;
    }
    assert(v@.take(v@.len() as int) =~= v@);
    r
}

pub(crate) fn chars_of(s: &str) -> (r: Vec<char>)
    ensures
        r@ == s@,
{
    let n = s.unicode_len();
    let mut r: Vec<char> = Vec::new();
    let mut i: usize = 0;
    while i < n
        invariant
            n == s@.len(),
            i <= n,
            r@ =~= s@.subrange(0, i as int),
        decreases n - i,
    {
        r.push(s.get_char(i));
        i = i + 1;
    }
    r
}

fn copy_range(v: &Vec<char>, a: usize, b: usize) -> (r: Vec<char>)
    requires
        a <= b <= v@.len(),
    ensures
        r@ == v@.subrange(a as int, b as int),
{
    let mut r: Vec<char> = Vec::new();
    let mut k: usize = a;
    while k < b
        invariant
            a <= k <= b <= v@.len(),
            r@ =~= v@.subrange(a as int, k as int),
        decreases b - k,
    {
        r.push(v[k]);
        k = k + 1;
    }
    r
}

proof fn lemma_encode_concat(a: Seq<char>, b: Seq<char>)
    ensures
        encode_utf8(a + b) == encode_utf8(a) + encode_utf8(b),
    decreases a.len(),
{
    if a.len() > 0 {
        assert((a + b).drop_first() =~= a.drop_first() + b);
        lemma_encode_concat(a.drop_first(), b);
        assert(encode_utf8(a + b) =~= encode_utf8(a) + encode_utf8(b));
    } else {
        assert(a + b =~= b);
        assert(encode_utf8(a) =~= seq![]);
        assert(encode_utf8(a) + encode_utf8(b) =~= encode_utf8(b));
    }
}

/// The byte offset of the character after position `i`.
fn next_offset(cs: &Vec<char>, i: usize, b: usize, total: usize) -> (r: usize)
    requires
        i < cs@.len(),
        b == byte_offset(cs@, i as int),
        total == encode_utf8(cs@).len(),
    ensures
        r == byte_offset(cs@, i + 1),
{
    let ghost s = cs@;
    proof {
        let c = s[i as int];
        assert(s.take(i + 1) =~= s.take(i as int) + seq![c]);
        lemma_encode_concat(s.take(i as int), seq![c]);
        assert(seq![c].drop_first() =~= seq![]);
        assert(encode_utf8(seq![c]) =~= encode_scalar(c as u32) + encode_utf8(seq![]));
        assert(s =~= s.take(i + 1) + s.skip(i + 1));
        lemma_encode_concat(s.take(i + 1), s.skip(i + 1));
        vstd::utf8::char_is_scalar(c);
    }
    let u = cs[i] as u32;
    if u <= 0x7F {
        b + 1
    } else if u <= 0x7FF {
        b + 2
    } else if u <= 0xFFFF {
        b + 3
    } else {
        b + 4
    }
}

fn flush_into(frags: &mut Vec<Fragment>, lit: &Vec<char>)
    ensures
        fragments_view(final(frags)@) =~= fragments_view(old(frags)@) + flush(lit@),
{
    if lit.len() > 0 {
        frags.push(Fragment::Literal(string_from_chars(lit)));
    }
}

/// Parses a format string. Literal runs (with `{{` and `}}` standing for
/// `{` and `}`) become literal fragments; each placeholder `{}` or
/// `{:spec}` becomes a parameter fragment with the resolved hint.
pub fn parse(text: &str) -> (r: Result<Template, TemplateError>)
    ensures
        match r {
            Ok(t) => parse_template(text@) == Ok::<Seq<FragmentModel>, TemplateError>(t@),
            Err(e) => parse_template(text@) == Err::<Seq<FragmentModel>, TemplateError>(e),
        },
{
    let cs = chars_of(text);
    let total = text.as_bytes().len();
    let n = cs.len();
    let mut frags: Vec<Fragment> = Vec::new();
    let mut lit: Vec<char> = Vec::new();
    let mut i: usize = 0;
    let mut b: usize = 0;
    assert(fragments_view(frags@) =~= seq![]);
    assert(cs@.take(0) =~= seq![]);
    while i < n
        invariant
            cs@ == text@,
            total == encode_utf8(cs@).len(),
            n == cs@.len(),
            i <= n,
            b == byte_offset(cs@, i as int),
            parse_template(cs@) == prepend(fragments_view(frags@), parse_from(cs@, i as int, lit@)),
        decreases n - i,
    {
        let c = cs[i];
        if c == '{' {
            if i + 1 < n && cs[i + 1] == '{' {
                lit.push('{');
                let b1 = next_offset(&cs, i, b, total);
                b = next_offset(&cs, i + 1, b1, total);
                i = i + 2;
            } else {
                let start = b;
                let mut j: usize = i + 1;
                let mut bj = next_offset(&cs, i, b, total);
                while j < n && cs[j] != '}'
                    invariant
                        n == cs@.len(),
                        total == encode_utf8(cs@).len(),
                        i < j <= n,
                        bj == byte_offset(cs@, j as int),
                        placeholder_from(cs@, i as int, i + 1, lit@) == placeholder_from(
                            cs@,
                            i as int,
                            j as int,
                            lit@,
                        ),
                    decreases n - j,
                {
                    bj = next_offset(&cs, j, bj, total);
                    j = j + 1;
                }
                if j >= n {
                    return Err(TemplateError::Malformed { offset: start });
                }
                let body = copy_range(&cs, i + 1, j);
                let hint = if body.len() == 0 {
                    DisplayHint::Default
                } else if body[0] == ':' {
                    let token = copy_range(&body, 1, body.len());
                    match resolve_hint(token.as_slice()) {
                        Ok(h) => h,
                        Err(_) => {
                            return Err(TemplateError::UnknownHint { offset: start });
                        },
                    }
                } else {
                    return Err(TemplateError::Malformed { offset: start });
                };
                let ghost before = fragments_view(frags@);
                flush_into(&mut frags, &lit);
                let ghost mid = frags@;
                frags.push(Fragment::Parameter(hint));
                proof {
                    let p = flush(lit@).push(FragmentModel::Parameter(hint));
                    assert(fragments_view(frags@) =~= fragments_view(mid).push(
                        FragmentModel::Parameter(hint),
                    ));
                    assert(fragments_view(frags@) =~= before + p);
                    lemma_prepend_assoc(before, p, parse_from(cs@, j + 1, seq![]));
                }
                lit = Vec::new();
                b = next_offset(&cs, j, bj, total);
                i = j + 1;
            }
        } else if c == '}' {
            if i + 1 < n && cs[i + 1] == '}' {
                lit.push('}');
                let b1 = next_offset(&cs, i, b, total);
                b = next_offset(&cs, i + 1, b1, total);
                i = i + 2;
            } else {
                return Err(TemplateError::Malformed { offset: b });
            }
        } else {
            lit.push(c);
            b = next_offset(&cs, i, b, total);
            i = i + 1;
        }
    }
    let ghost before = fragments_view(frags@);
    flush_into(&mut frags, &lit);
    proof {
        assert(fragments_view(frags@) =~= before + flush(lit@) + seq![]);
    }
    Ok(Template { fragments: frags })
}

/// How many parameter fragments a fragment sequence holds.
pub open spec fn param_count(fs: Seq<FragmentModel>) -> nat
    decreases fs.len(),
{
    if fs.len() == 0 {
        0
    } else {
        param_count(fs.drop_last()) + if fs.last() is Parameter {
            1nat
        } else {
            0nat
        }
    }
}

/// How many placeholders the source text holds from position `i` on: each
/// `{` that does not start an escaped `{{` opens one, which the next `}`
/// closes.
pub open spec fn placeholders_from(s: Seq<char>, i: int) -> nat
    decreases s.len() - i, 1int,
{
    if i < 0 || i >= s.len() {
        0
    } else if s[i] == '{' {
        if i + 1 < s.len() && s[i + 1] == '{' {
            placeholders_from(s, i + 2)
        } else {
            closing_from(s, i + 1)
        }
    } else if s[i] == '}' && i + 1 < s.len() && s[i + 1] == '}' {
        placeholders_from(s, i + 2)
    } else {
        placeholders_from(s, i + 1)
    }
}

/// Placeholders from the one whose body is being scanned at `j` on.
pub open spec fn closing_from(s: Seq<char>, j: int) -> nat
    decreases s.len() - j, 0int,
{
    if j < 0 || j >= s.len() {
        0
    } else if s[j] == '}' {
        1 + placeholders_from(s, j + 1)
    } else {
        closing_from(s, j + 1)
    }
}

/// The number of placeholders in a format string.
pub open spec fn placeholder_count(s: Seq<char>) -> nat {
    placeholders_from(s, 0)
}

proof fn lemma_param_count_add(a: Seq<FragmentModel>, b: Seq<FragmentModel>)
    ensures
        param_count(a + b) == param_count(a) + param_count(b),
    decreases b.len(),
{
    if b.len() > 0 {
        lemma_param_count_add(a, b.drop_last());
        assert((a + b).drop_last() =~= a + b.drop_last());
    }
}

proof fn lemma_flush_count(lit: Seq<char>)
    ensures
        param_count(flush(lit)) == 0,
{
    if lit.len() > 0 {
        assert(flush(lit).drop_last() =~= seq![]);
        reveal_with_fuel(param_count, 2);
    }
}

proof fn lemma_count_parse_from(s: Seq<char>, i: int, lit: Seq<char>)
    ensures
        parse_from(s, i, lit) matches Ok(t) ==> param_count(t) == placeholders_from(s, i),
    decreases s.len() - i, 1int,
{
    if i < 0 || i >= s.len() {
        lemma_flush_count(lit);
    } else if s[i] == '{' {
        if i + 1 < s.len() && s[i + 1] == '{' {
            lemma_count_parse_from(s, i + 2, lit.push('{'));
        } else {
            lemma_count_placeholder_from(s, i, i + 1, lit);
        }
    } else if s[i] == '}' {
        if i + 1 < s.len() && s[i + 1] == '}' {
            lemma_count_parse_from(s, i + 2, lit.push('}'));
        }
    } else {
        lemma_count_parse_from(s, i + 1, lit.push(s[i]));
    }
}

proof fn lemma_count_placeholder_from(s: Seq<char>, start: int, j: int, lit: Seq<char>)
    ensures
        placeholder_from(s, start, j, lit) matches Ok(t) ==> param_count(t) == closing_from(s, j),
    decreases s.len() - j, 0int,
{
    if j < 0 || j >= s.len() {
    } else if s[j] == '}' {
        let body = s.subrange(start + 1, j);
        if let Some(h) = body_hint(body) {
            let p = flush(lit).push(FragmentModel::Parameter(h));
            lemma_count_parse_from(s, j + 1, seq![]);
            if let Ok(t) = parse_from(s, j + 1, seq![]) {
                lemma_param_count_add(p, t);
                assert(p.drop_last() =~= flush(lit));
                lemma_flush_count(lit);
            }
        }
    } else {
        lemma_count_placeholder_from(s, start, j + 1, lit);
    }
}

/// Every well-formed format string yields exactly one parameter fragment per
/// placeholder of its text.
pub proof fn lemma_parameters_match_placeholders(s: Seq<char>)
    ensures
        parse_template(s) matches Ok(t) ==> param_count(t) == placeholder_count(s),
{
    lemma_count_parse_from(s, 0, seq![]);
}

/// Parsing depends on the text alone: equal texts give identical results.
pub proof fn lemma_parse_deterministic(s1: Seq<char>, s2: Seq<char>)
    requires
        s1 == s2,
    ensures
        parse_template(s1) == parse_template(s2),
{
}

impl Template {
    /// The fragments, in order.
    pub fn fragments(&self) -> (r: &Vec<Fragment>)
        ensures
            fragments_view(r@) == self@,
    {
        &self.fragments
    }
}

} // verus!
