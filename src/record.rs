//! Binary records: a header followed by one tag-free value per parameter
//! fragment, and the decoder that turns such bytes back into text.
use vstd::prelude::*;

use crate::hint::DisplayHint;
use crate::render::{render, push_rendered};
use crate::template::{
    FragmentModel, Fragment, Template, fragments_view, param_count, chars_of, string_from_chars,
};
use vstd::utf8::{decode_utf8, encode_utf8, valid_utf8};

use crate::wire::{
    le_bytes, le_value, pow256, push_le, read_le, lemma_le_bytes_len, lemma_le_round_trip,
};

verus! {

/// The declared wire type of a parameter: an unsigned integer of 1, 2, 4, 8
/// or 16 bytes, or UTF-8 text preceded by its length in two bytes.
#[derive(Clone, Copy, Debug, PartialEq, Eq, Structural)]
pub enum ArgKind {
    U8,
    U16,
    U32,
    U64,
    U128,
    Str,
}

impl ArgKind {
    /// Bytes that a value of an integer kind takes on the wire (text has
    /// no fixed width).
    pub open spec fn spec_width(self) -> nat {
        match self {
            ArgKind::U8 => 1,
            ArgKind::U16 => 2,
            ArgKind::U32 => 4,
            ArgKind::U64 => 8,
            ArgKind::U128 => 16,
            ArgKind::Str => 0,
        }
    }

    /// Bytes that a value of an integer kind takes on the wire.
    pub fn width(&self) -> (r: usize)
        ensures
            r == self.spec_width(),
    {
        match self {
            ArgKind::U8 => 1,
            ArgKind::U16 => 2,
            ArgKind::U32 => 4,
            ArgKind::U64 => 8,
            ArgKind::U128 => 16,
            ArgKind::Str => 0,
        }
    }
}

/// An argument value supplied at encode time.
#[derive(Clone, Debug, PartialEq, Eq)]
pub enum Value {
    U8(u8),
    U16(u16),
    U32(u32),
    U64(u64),
    U128(u128),
    Str(String),
}

/// What a parameter's value is once it is off the wire: a number or text.
pub enum Arg {
    Num(u128),
    Text(Seq<char>),
}

impl Value {
    /// The wire kind of the value.
    pub open spec fn spec_kind(self) -> ArgKind {
        match self {
            Value::U8(_) => ArgKind::U8,
            Value::U16(_) => ArgKind::U16,
            Value::U32(_) => ArgKind::U32,
            Value::U64(_) => ArgKind::U64,
            Value::U128(_) => ArgKind::U128,
            Value::Str(_) => ArgKind::Str,
        }
    }

    /// The value as the decoder sees it.
    pub open spec fn spec_arg(self) -> Arg {
        match self {
            Value::U8(x) => Arg::Num(x as u128),
            Value::U16(x) => Arg::Num(x as u128),
            Value::U32(x) => Arg::Num(x as u128),
            Value::U64(x) => Arg::Num(x as u128),
            Value::U128(x) => Arg::Num(x),
            Value::Str(s) => Arg::Text(s@),
        }
    }

    /// The wire kind of the value.
    pub fn kind(&self) -> (r: ArgKind)
        ensures
            r == self.spec_kind(),
    {
        match self {
            Value::U8(_) => ArgKind::U8,
            Value::U16(_) => ArgKind::U16,
            Value::U32(_) => ArgKind::U32,
            Value::U64(_) => ArgKind::U64,
            Value::U128(_) => ArgKind::U128,
            Value::Str(_) => ArgKind::Str,
        }
    }
}

/// Whether a hint may render a value of a kind: IPv4 needs a 4-byte value,
/// IPv6 a 16-byte one, the hex hints any integer; text takes only Default.
pub open spec fn compatible(h: DisplayHint, k: ArgKind) -> bool {
    match h {
        DisplayHint::Default => true,
        DisplayHint::LowerHex | DisplayHint::UpperHex => k != ArgKind::Str,
        DisplayHint::IPv4 => k == ArgKind::U32,
        DisplayHint::IPv6 => k == ArgKind::U128,
    }
}

fn is_compatible(h: DisplayHint, k: ArgKind) -> (r: bool)
    ensures
        r == compatible(h, k),
{
    match h {
        DisplayHint::Default => true,
        DisplayHint::LowerHex | DisplayHint::UpperHex => k != ArgKind::Str,
        DisplayHint::IPv4 => k == ArgKind::U32,
        DisplayHint::IPv6 => k == ArgKind::U128,
    }
}

/// Fragment `i` is a parameter whose hint cannot render the kind bound to
/// its slot.
pub open spec fn slot_mismatch(fs: Seq<FragmentModel>, ks: Seq<ArgKind>, i: int) -> bool {
    match fs[i] {
        FragmentModel::Parameter(h) => param_count(fs.take(i)) < ks.len() && !compatible(
            h,
            ks[param_count(fs.take(i)) as int],
        ),
        FragmentModel::Literal(_) => false,
    }
}

/// Why kinds could not be bound to a template.
#[derive(Clone, Copy, Debug, PartialEq, Eq, Structural)]
pub enum BindError {
    /// The number of kinds differs from the number of parameter fragments.
    ArgumentCountMismatch { expected: usize, found: usize },
    /// The parameter with this index has a hint that cannot render its kind.
    IncompatibleHint { index: usize },
}

/// A template with a declared wire kind for each of its parameters, in
/// order: what encoder and decoder share.
#[derive(Debug)]
pub struct Layout {
    template: Template,
    kinds: Vec<ArgKind>,
}

impl Layout {
    #[verifier::type_invariant]
    spec fn inv(self) -> bool {
        &&& param_count(self.template@) == self.kinds@.len()
        &&& forall|i: int|
            0 <= i < self.template@.len() ==> !slot_mismatch(self.template@, self.kinds@, i)
    }

    /// The template this layout was bound from.
    pub fn template(&self) -> (r: &Template)
        ensures
            r@ == self@.fragments,
    {
        &self.template
    }

    /// The declared kinds, one per parameter.
    pub fn kinds(&self) -> (r: &Vec<ArgKind>)
        ensures
            r@ == self@.kinds,
    {
        &self.kinds
    }
}

/// The mathematical content of a layout.
pub struct LayoutModel {
    pub fragments: Seq<FragmentModel>,
    pub kinds: Seq<ArgKind>,
}

impl View for Layout {
    type V = LayoutModel;

    closed spec fn view(&self) -> LayoutModel {
        LayoutModel { fragments: self.template@, kinds: self.kinds@ }
    }
}

impl Layout {
    /// One kind per parameter, and every hint able to render its kind.
    pub open spec fn well_formed(&self) -> bool {
        &&& param_count(self@.fragments) == self@.kinds.len()
        &&& forall|i: int| 0 <= i < self@.fragments.len() ==> !slot_mismatch(self@.fragments, self@.kinds, i)
    }

    /// Binds a declared kind to each parameter of `template`, in order.
    pub fn bind(template: Template, kinds: Vec<ArgKind>) -> (r: Result<Layout, BindError>)
        ensures
            match r {
                Ok(l) => l@.fragments == template@ && l@.kinds == kinds@ && l.well_formed(),
                Err(BindError::ArgumentCountMismatch { expected, found }) => {
                    &&& param_count(template@) != kinds@.len()
                    &&& expected == param_count(template@)
                    &&& found == kinds@.len()
                },
                Err(BindError::IncompatibleHint { index }) => {
                    &&& param_count(template@) == kinds@.len()
                    &&& exists|i: int|
                        0 <= i < template@.len() && slot_mismatch(template@, kinds@, i) && (forall|
                            j: int,
                        | 0 <= j < i ==> !slot_mismatch(template@, kinds@, j)) && index == param_count(
                            template@.take(i),
                        )
                },
            },
            param_count(template@) == kinds@.len() && (forall|i: int|
                0 <= i < template@.len() ==> !slot_mismatch(template@, kinds@, i)) ==> r is Ok,
    {
        let frags = template.fragments();
        let n = frags.len();
        let ghost fs = template@;
        let mut i: usize = 0;
        let mut p: usize = 0;
        let mut mismatch: Option<usize> = None;
        assert(fs.take(0) =~= seq![]);
        while i < n
            invariant
                n == fs.len(),
                fragments_view(frags@) == fs,
                i <= n,
                p == param_count(fs.take(i as int)),
                p <= i,
                match mismatch {
                    None => forall|j: int| 0 <= j < i ==> !slot_mismatch(fs, kinds@, j),
                    Some(idx) => exists|k: int|
                        0 <= k < i && slot_mismatch(fs, kinds@, k) && (forall|j: int|
                            0 <= j < k ==> !slot_mismatch(fs, kinds@, j)) && idx == param_count(
                            fs.take(k),
                        ),
                },
            decreases n - i,
        {
            assert(fs.take(i + 1).drop_last() =~= fs.take(i as int));
            assert(fs[i as int] == frags@[i as int]@);
            let ghost old_mismatch = mismatch;
            match &frags[i] {
                Fragment::Parameter(h) => {
                    if mismatch.is_none() && p < kinds.len() && !is_compatible(*h, kinds[p]) {
                        mismatch = Some(p);
                    }
                    assert(fs[i as int] == FragmentModel::Parameter(*h));
                    assert(mismatch is None ==> !slot_mismatch(fs, kinds@, i as int));
                    p = p + 1;
                },
                Fragment::Literal(_) => {
                    assert(!slot_mismatch(fs, kinds@, i as int));
                },
            }
            proof {
                if mismatch is None {
                    assert(old_mismatch is None);
                    assert forall|j: int| 0 <= j < i + 1 implies !slot_mismatch(fs, kinds@, j) by {
                        if j < i {
                        }
                    }
                }
                if old_mismatch is None && mismatch is Some {
                    assert(slot_mismatch(fs, kinds@, i as int));
                    assert(mismatch == Some(param_count(fs.take(i as int)) as usize));
                }
            }
            i = i + 1;
        }
        assert(fs.take(n as int) =~= fs);
        if p != kinds.len() {
            return Err(BindError::ArgumentCountMismatch { expected: p, found: kinds.len() });
        }
        match mismatch {
            Some(index) => Err(BindError::IncompatibleHint { index }),
            None => Ok(Layout { template, kinds }),
        }
    }
}

/// Severity of a record.
#[derive(Clone, Copy, Debug, PartialEq, Eq, Structural)]
pub enum Level {
    Error,
    Warn,
    Info,
    Debug,
    Trace,
}

/// The byte that stands for a level on the wire.
pub open spec fn level_code(l: Level) -> u8 {
    match l {
        Level::Error => 1,
        Level::Warn => 2,
        Level::Info => 3,
        Level::Debug => 4,
        Level::Trace => 5,
    }
}

/// The level that a byte stands for, if any.
pub open spec fn level_of_code(b: u8) -> Option<Level> {
    if b == 1 {
        Some(Level::Error)
    } else if b == 2 {
        Some(Level::Warn)
    } else if b == 3 {
        Some(Level::Info)
    } else if b == 4 {
        Some(Level::Debug)
    } else if b == 5 {
        Some(Level::Trace)
    } else {
        None
    }
}

fn encode_level(l: Level) -> (r: u8)
    ensures
        r == level_code(l),
{
    match l {
        Level::Error => 1,
        Level::Warn => 2,
        Level::Info => 3,
        Level::Debug => 4,
        Level::Trace => 5,
    }
}

fn decode_level(b: u8) -> (r: Option<Level>)
    ensures
        r == level_of_code(b),
{
    if b == 1 {
        Some(Level::Error)
    } else if b == 2 {
        Some(Level::Warn)
    } else if b == 3 {
        Some(Level::Info)
    } else if b == 4 {
        Some(Level::Debug)
    } else if b == 5 {
        Some(Level::Trace)
    } else {
        None
    }
}

/// The longest text field a header can carry: its length travels in two
/// bytes.
pub const MAX_FIELD_LEN: usize = 0xFFFF;

/// The fields written once at the start of every record, in this order.
#[derive(Clone, Debug, PartialEq, Eq)]
pub struct Header {
    pub target: Vec<u8>,
    pub level: Level,
    pub module: Vec<u8>,
    pub file: Vec<u8>,
    pub line: u32,
}

/// The mathematical content of a header.
pub struct HeaderModel {
    pub target: Seq<u8>,
    pub level: Level,
    pub module: Seq<u8>,
    pub file: Seq<u8>,
    pub line: u32,
}

impl View for Header {
    type V = HeaderModel;

    open spec fn view(&self) -> HeaderModel {
        HeaderModel {
            target: self.target@,
            level: self.level,
            module: self.module@,
            file: self.file@,
            line: self.line,
        }
    }
}

/// Every header text field fits its two-byte length prefix.
pub open spec fn header_fits(h: HeaderModel) -> bool {
    &&& h.target.len() <= MAX_FIELD_LEN
    &&& h.module.len() <= MAX_FIELD_LEN
    &&& h.file.len() <= MAX_FIELD_LEN
}

/// A byte run preceded by its length in two little-endian bytes.
pub open spec fn prefixed(b: Seq<u8>) -> Seq<u8> {
    le_bytes(b.len(), 2) + b
}

/// The header on the wire: target, level byte, module, file, then the line
/// number in four little-endian bytes.
pub open spec fn header_bytes(h: HeaderModel) -> Seq<u8> {
    prefixed(h.target) + seq![level_code(h.level)] + prefixed(h.module) + prefixed(h.file)
        + le_bytes(h.line as nat, 4)
}

/// A value on the wire, without tag: an integer in the little-endian bytes
/// of its kind's width, text as its length-prefixed UTF-8 bytes.
pub open spec fn value_bytes(v: Value) -> Seq<u8> {
    match v {
        Value::U8(x) => le_bytes(x as nat, 1),
        Value::U16(x) => le_bytes(x as nat, 2),
        Value::U32(x) => le_bytes(x as nat, 4),
        Value::U64(x) => le_bytes(x as nat, 8),
        Value::U128(x) => le_bytes(x as nat, 16),
        Value::Str(s) => prefixed(encode_utf8(s@)),
    }
}

/// The values, one after another, in order.
pub open spec fn values_bytes(vs: Seq<Value>) -> Seq<u8>
    decreases vs.len(),
{
    if vs.len() == 0 {
        seq![]
    } else {
        value_bytes(vs[0]) + values_bytes(vs.drop_first())
    }
}

/// Every text value's UTF-8 bytes fit a two-byte length prefix.
pub open spec fn args_fit(vs: Seq<Value>) -> bool {
    forall|i: int| 0 <= i < vs.len() ==> (#[trigger] vs[i] matches Value::Str(s) ==> encode_utf8(s@).len() <= MAX_FIELD_LEN)
}

/// The whole record: header, then values.
pub open spec fn record_bytes(h: HeaderModel, vs: Seq<Value>) -> Seq<u8> {
    header_bytes(h) + values_bytes(vs)
}

/// The values have, one for one and in order, the declared kinds.
pub open spec fn kinds_match(vs: Seq<Value>, ks: Seq<ArgKind>) -> bool {
    &&& vs.len() == ks.len()
    &&& forall|i: int| 0 <= i < vs.len() ==> #[trigger] vs[i].spec_kind() == ks[i]
}

/// Why a record was not written. The buffer is untouched in every case.
#[derive(Clone, Copy, Debug, PartialEq, Eq, Structural)]
pub enum EncodeError {
    /// The values do not have the layout's kinds (or not as many).
    ArgumentMismatch,
    /// A header text field or a text value is longer than `MAX_FIELD_LEN`
    /// bytes.
    FieldTooLong,
    /// The buffer cannot hold the whole record.
    BufferTooSmall,
}

fn push_bytes(out: &mut Vec<u8>, b: &[u8])
    ensures
        final(out)@ == old(out)@ + b@,
{
    let ghost start = out@;
    let mut i: usize = 0;
    while i < b.len()
        invariant
            i <= b@.len(),
            out@ =~= start + b@.take(i as int),
        decreases b@.len() - i,
    {
        out.push(b[i]);
        i = i + 1;
    }
    assert(b@.take(b@.len() as int) =~= b@);
}

fn push_prefixed(out: &mut Vec<u8>, b: &Vec<u8>)
    requires
        b@.len() <= MAX_FIELD_LEN,
    ensures
        final(out)@ == old(out)@ + prefixed(b@),
{
    let ghost start = out@;
    push_le(out, b.len() as u128, 2);
    push_bytes(out, b.as_slice());
    assert(out@ =~= start + prefixed(b@));
}

fn push_value(out: &mut Vec<u8>, v: &Value)
    requires
        v matches Value::Str(s) ==> encode_utf8(s@).len() <= MAX_FIELD_LEN,
    ensures
        final(out)@ == old(out)@ + value_bytes(*v),
{
    match v {
        Value::U8(x) => push_le(out, *x as u128, 1),
        Value::U16(x) => push_le(out, *x as u128, 2),
        Value::U32(x) => push_le(out, *x as u128, 4),
        Value::U64(x) => push_le(out, *x as u128, 8),
        Value::U128(x) => push_le(out, *x, 16),
        Value::Str(s) => {
            let ghost start = out@;
            let b = s.as_str().as_bytes();
            push_le(out, b.len() as u128, 2);
            push_bytes(out, b);
            assert(out@ =~= start + prefixed(encode_utf8(s@)));
        },
    }
}

fn check_fit(values: &[Value]) -> (r: bool)
    ensures
        r == args_fit(values@),
{
    let mut i: usize = 0;
    while i < values.len()
        invariant
            i <= values@.len(),
            forall|j: int| 0 <= j < i ==> (#[trigger] values@[j] matches Value::Str(s) ==> encode_utf8(s@).len() <= MAX_FIELD_LEN),
        decreases values@.len() - i,
    {
        if let Value::Str(s) = &values[i] {
            if s.as_str().as_bytes().len() > MAX_FIELD_LEN {
                return false;
            }
        }
        i = i + 1;
    }
    true
}

fn check_kinds(values: &[Value], kinds: &Vec<ArgKind>) -> (r: bool)
    ensures
        r == kinds_match(values@, kinds@),
{
    if values.len() != kinds.len() {
        return false;
    }
    let mut i: usize = 0;
    while i < values.len()
        invariant
            values@.len() == kinds@.len(),
            i <= values@.len(),
            forall|j: int| 0 <= j < i ==> #[trigger] values@[j].spec_kind() == kinds@[j],
        decreases values@.len() - i,
    {
        if values[i].kind() != kinds[i] {
            return false;
        }
        i = i + 1;
    }
    true
}

/// Builds the bytes of a record.
fn record_of(header: &Header, values: &[Value]) -> (r: Vec<u8>)
    requires
        header_fits(header@),
        args_fit(values@),
    ensures
        r@ == record_bytes(header@, values@),
{
    let mut out: Vec<u8> = Vec::new();
    push_prefixed(&mut out, &header.target);
    out.push(encode_level(header.level));
    push_prefixed(&mut out, &header.module);
    push_prefixed(&mut out, &header.file);
    push_le(&mut out, header.line as u128, 4);
    assert(out@ =~= header_bytes(header@));
    let ghost target = record_bytes(header@, values@);
    let n = values.len();
    let mut k: usize = 0;
    assert(values@.subrange(0, n as int) =~= values@);
    while k < n
        invariant
            n == values@.len(),
            k <= n,
            out@ + values_bytes(values@.subrange(k as int, n as int)) == target,
            args_fit(values@),
        decreases n - k,
    {
        let ghost before = out@;
        let v = &values[k];
        push_value(&mut out, v);
        let ghost rest = values@.subrange(k as int, n as int);
        assert(rest.drop_first() =~= values@.subrange(k + 1, n as int));
        assert(rest[0] == *v);
        assert(out@ + values_bytes(values@.subrange(k + 1, n as int)) =~= before + values_bytes(
            rest,
        ));
        k = k + 1;
    }
    assert(out@ =~= out@ + values_bytes(values@.subrange(n as int, n as int)));
    out
}

/// Encodes one record into the start of `buf`: the header, then each value
/// in the little-endian bytes of its kind, with nothing for literal text.
/// On success returns the number of bytes written; on failure leaves `buf`
/// exactly as it was.
pub fn encode(layout: &Layout, header: &Header, values: &[Value], buf: &mut [u8]) -> (r: Result<
    usize,
    EncodeError,
>)
    ensures
        match r {
            Ok(n) => {
                &&& kinds_match(values@, layout@.kinds)
                &&& header_fits(header@)
                &&& args_fit(values@)
                &&& n == record_bytes(header@, values@).len()
                &&& n <= old(buf)@.len()
                &&& final(buf)@ == record_bytes(header@, values@) + old(buf)@.subrange(
                    n as int,
                    old(buf)@.len() as int,
                )
            },
            Err(e) => {
                &&& final(buf)@ == old(buf)@
                &&& match e {
                    EncodeError::ArgumentMismatch => !kinds_match(values@, layout@.kinds),
                    EncodeError::FieldTooLong => kinds_match(values@, layout@.kinds) && !(
                    header_fits(header@) && args_fit(values@)),
                    EncodeError::BufferTooSmall => {
                        &&& kinds_match(values@, layout@.kinds)
                        &&& header_fits(header@)
                        &&& args_fit(values@)
                        &&& record_bytes(header@, values@).len() > old(buf)@.len()
                    },
                }
            },
        },
{
    if !check_kinds(values, &layout.kinds) {
        return Err(EncodeError::ArgumentMismatch);
    }
    if header.target.len() > MAX_FIELD_LEN || header.module.len() > MAX_FIELD_LEN
        || header.file.len() > MAX_FIELD_LEN || !check_fit(values) {
        return Err(EncodeError::FieldTooLong);
    }
    let rec = record_of(header, values);
    let n = rec.len();
    if n > buf.len() {
        return Err(EncodeError::BufferTooSmall);
    }
    let ghost original = buf@;
    let mut i: usize = 0;
    while i < n
        invariant
            n == rec@.len(),
            n <= original.len(),
            buf@.len() == original.len(),
            i <= n,
            buf@ =~= rec@.take(i as int) + original.subrange(i as int, original.len() as int),
        decreases n - i,
    {
        buf[i] = rec[i];
        i = i + 1;
    }
    assert(rec@.take(n as int) =~= rec@);
    Ok(n)
}

/// Why bytes could not be turned back into a record.
#[derive(Clone, Copy, Debug, PartialEq, Eq, Structural)]
pub enum DecodeError {
    /// The bytes end before the header or before all parameter values.
    Truncated,
    /// The level byte stands for no level.
    InvalidLevel,
    /// A text value is not valid UTF-8.
    InvalidText,
    /// No template is known for the record's identity.
    UnknownTemplate,
}

/// A decoded record: its header and its rendered message.
#[derive(Clone, Debug, PartialEq, Eq)]
pub struct Record {
    pub header: Header,
    pub text: String,
}

/// The length-prefixed run at `pos`, and the position after it.
pub open spec fn read_prefixed(b: Seq<u8>, pos: int) -> Option<(Seq<u8>, int)> {
    if pos < 0 || pos + 2 > b.len() {
        None
    } else {
        let n = le_value(b.subrange(pos, pos + 2));
        if pos + 2 + n > b.len() {
            None
        } else {
            Some((b.subrange(pos + 2, pos + 2 + n), pos + 2 + n))
        }
    }
}

/// The header at the start of `b`, and where the values begin.
pub open spec fn decode_header(b: Seq<u8>) -> Result<(HeaderModel, int), DecodeError> {
    match read_prefixed(b, 0) {
        None => Err(DecodeError::Truncated),
        Some((target, p1)) => if p1 + 1 > b.len() {
            Err(DecodeError::Truncated)
        } else {
            match level_of_code(b[p1]) {
                None => Err(DecodeError::InvalidLevel),
                Some(level) => match read_prefixed(b, p1 + 1) {
                    None => Err(DecodeError::Truncated),
                    Some((module, p2)) => match read_prefixed(b, p2) {
                        None => Err(DecodeError::Truncated),
                        Some((file, p3)) => if p3 + 4 > b.len() {
                            Err(DecodeError::Truncated)
                        } else {
                            Ok(
                                (
                                    HeaderModel {
                                        target,
                                        level,
                                        module,
                                        file,
                                        line: le_value(b.subrange(p3, p3 + 4)) as u32,
                                    },
                                    p3 + 4,
                                ),
                            )
                        },
                    },
                },
            }
        },
    }
}

/// The value of kind `k` at `pos`, and the position after it.
pub open spec fn read_arg(k: ArgKind, b: Seq<u8>, pos: int) -> Result<(Arg, int), DecodeError> {
    match k {
        ArgKind::Str => match read_prefixed(b, pos) {
            None => Err(DecodeError::Truncated),
            Some((t, next)) => if valid_utf8(t) {
                Ok((Arg::Text(decode_utf8(t)), next))
            } else {
                Err(DecodeError::InvalidText)
            },
        },
        _ => if pos < 0 || pos + k.spec_width() > b.len() {
            Err(DecodeError::Truncated)
        } else {
            Ok(
                (
                    Arg::Num(le_value(b.subrange(pos, pos + k.spec_width())) as u128),
                    pos + k.spec_width(),
                ),
            )
        },
    }
}

/// Values of the kinds `ks`, read in order from `pos`; bytes after the
/// last value are not looked at.
pub open spec fn read_values(ks: Seq<ArgKind>, b: Seq<u8>, pos: int) -> Result<
    Seq<Arg>,
    DecodeError,
>
    decreases ks.len(),
{
    if ks.len() == 0 {
        Ok(seq![])
    } else {
        match read_arg(ks[0], b, pos) {
            Err(e) => Err(e),
            Ok((a, next)) => match read_values(ks.drop_first(), b, next) {
                Ok(rest) => Ok(seq![a] + rest),
                Err(e) => Err(e),
            },
        }
    }
}

/// The text of a value under a hint: numbers by the hint, text verbatim.
pub open spec fn render_arg(h: DisplayHint, a: Arg) -> Seq<char> {
    match a {
        Arg::Num(n) => render(h, n as nat),
        Arg::Text(t) => t,
    }
}

/// The message: literal fragments verbatim, each parameter the next value
/// rendered under its hint.
pub open spec fn substitute(fs: Seq<FragmentModel>, vs: Seq<Arg>) -> Seq<char>
    decreases fs.len(),
{
    if fs.len() == 0 {
        seq![]
    } else {
        match fs[0] {
            FragmentModel::Literal(t) => t + substitute(fs.drop_first(), vs),
            FragmentModel::Parameter(h) => render_arg(h, vs[0]) + substitute(
                fs.drop_first(),
                vs.drop_first(),
            ),
        }
    }
}

/// What a layout makes of record bytes: the header and the message.
pub open spec fn decode_spec(l: LayoutModel, b: Seq<u8>) -> Result<
    (HeaderModel, Seq<char>),
    DecodeError,
> {
    match decode_header(b) {
        Err(e) => Err(e),
        Ok((h, pos)) => match read_values(l.kinds, b, pos) {
            Err(e) => Err(e),
            Ok(vs) => Ok((h, substitute(l.fragments, vs))),
        },
    }
}

/// The values as the decoder sees them, in order.
pub open spec fn args(vs: Seq<Value>) -> Seq<Arg> {
    vs.map_values(|v: Value| v.spec_arg())
}

/// A value read off the wire.
enum Decoded {
    Num(u128),
    Text(String),
}

impl View for Decoded {
    type V = Arg;

    closed spec fn view(&self) -> Arg {
        match self {
            Decoded::Num(x) => Arg::Num(*x),
            Decoded::Text(t) => Arg::Text(t@),
        }
    }
}

spec fn decoded_view(v: Seq<Decoded>) -> Seq<Arg> {
    v.map_values(|d: Decoded| d@)
}

/// Relies on std's `String::from_utf8`: it succeeds exactly when the bytes
/// are valid UTF-8, and the string then holds the characters they encode.
#[verifier::external_body]
fn text_from_utf8(b: Vec<u8>) -> (r: Option<String>)
    ensures
        r is Some <==> valid_utf8(b@),
        r matches Some(s) ==> s@ == decode_utf8(b@),
{
    String::from_utf8(b).ok()
}

fn copy_bytes(b: &[u8], a: usize, e: usize) -> (r: Vec<u8>)
    requires
        a <= e <= b@.len(),
    ensures
        r@ == b@.subrange(a as int, e as int),
{
    let mut r: Vec<u8> = Vec::new();
    let mut k: usize = a;
    while k < e
        invariant
            a <= k <= e <= b@.len(),
            r@ =~= b@.subrange(a as int, k as int),
        decreases e - k,
    {
        r.push(b[k]);
        k = k + 1;
    }
    r
}

fn read_prefixed_exec(b: &[u8], pos: usize) -> (r: Option<(Vec<u8>, usize)>)
    ensures
        match r {
            Some((v, p)) => read_prefixed(b@, pos as int) == Some((v@, p as int)),
            None => read_prefixed(b@, pos as int) is None,
        },
{
    let n = b.len();
    if pos > n || n - pos < 2 {
        return None;
    }
    let len = read_le(b, pos, 2) as usize;
    proof {
        crate::wire::lemma_le_value_bound(b@.subrange(pos as int, pos + 2));
        reveal_with_fuel(pow256, 3);
    }
    if n - (pos + 2) < len {
        return None;
    }
    let v = copy_bytes(b, pos + 2, pos + 2 + len);
    Some((v, pos + 2 + len))
}

fn decode_header_exec(b: &[u8]) -> (r: Result<(Header, usize), DecodeError>)
    ensures
        match r {
            Ok((h, p)) => decode_header(b@) == Ok::<(HeaderModel, int), DecodeError>(
                (h@, p as int),
            ),
            Err(e) => decode_header(b@) == Err::<(HeaderModel, int), DecodeError>(e),
        },
{
    let n = b.len();
    let (target, p1) = match read_prefixed_exec(b, 0) {
        Some(x) => x,
        None => return Err(DecodeError::Truncated),
    };
    if p1 >= n {
        return Err(DecodeError::Truncated);
    }
    let level = match decode_level(b[p1]) {
        Some(l) => l,
        None => return Err(DecodeError::InvalidLevel),
    };
    let (module, p2) = match read_prefixed_exec(b, p1 + 1) {
        Some(x) => x,
        None => return Err(DecodeError::Truncated),
    };
    let (file, p3) = match read_prefixed_exec(b, p2) {
        Some(x) => x,
        None => return Err(DecodeError::Truncated),
    };
    if n - p3 < 4 {
        return Err(DecodeError::Truncated);
    }
    let line = read_le(b, p3, 4);
    proof {
        crate::wire::lemma_le_value_bound(b@.subrange(p3 as int, p3 + 4));
        reveal_with_fuel(pow256, 5);
    }
    Ok((Header { target, level, module, file, line: line as u32 }, p3 + 4))
}

fn read_arg_exec(k: ArgKind, b: &[u8], pos: usize) -> (r: Result<(Decoded, usize), DecodeError>)
    ensures
        match r {
            Ok((d, next)) => read_arg(k, b@, pos as int) == Ok::<(Arg, int), DecodeError>(
                (d@, next as int),
            ),
            Err(e) => read_arg(k, b@, pos as int) == Err::<(Arg, int), DecodeError>(e),
        },
{
    let n = b.len();
    match k {
        ArgKind::Str => match read_prefixed_exec(b, pos) {
            None => Err(DecodeError::Truncated),
            Some((t, next)) => match text_from_utf8(t) {
                Some(s) => Ok((Decoded::Text(s), next)),
                None => Err(DecodeError::InvalidText),
            },
        },
        _ => {
            let w = k.width();
            if pos > n || n - pos < w {
                return Err(DecodeError::Truncated);
            }
            Ok((Decoded::Num(read_le(b, pos, w)), pos + w))
        },
    }
}

proof fn lemma_param_count_take_monotone(fs: Seq<FragmentModel>, j: int, k: int)
    requires
        0 <= j <= k <= fs.len(),
    ensures
        param_count(fs.take(j)) <= param_count(fs.take(k)),
    decreases k - j,
{
    if j < k {
        lemma_param_count_take_monotone(fs, j, k - 1);
        assert(fs.take(k).drop_last() =~= fs.take(k - 1));
    }
}

fn read_all_values(kinds: &Vec<ArgKind>, bytes: &[u8], start: usize) -> (r: Result<
    Vec<Decoded>,
    DecodeError,
>)
    ensures
        match r {
            Ok(v) => read_values(kinds@, bytes@, start as int) == Ok::<Seq<Arg>, DecodeError>(
                decoded_view(v@),
            ),
            Err(e) => read_values(kinds@, bytes@, start as int) == Err::<Seq<Arg>, DecodeError>(e),
        },
{
    let m = kinds.len();
    let ghost ks = kinds@;
    let mut vals: Vec<Decoded> = Vec::new();
    let mut pos: usize = start;
    let mut k: usize = 0;
    proof {
        assert(ks.subrange(0, m as int) =~= ks);
        assert(decoded_view(vals@) =~= seq![]);
    }
    while k < m
        invariant
            m == ks.len(),
            ks == kinds@,
            k <= m,
            vals@.len() == k,
            read_values(ks, bytes@, start as int) == match read_values(
                ks.subrange(k as int, m as int),
                bytes@,
                pos as int,
            ) {
                Ok(t) => Ok(decoded_view(vals@) + t),
                Err(e) => Err::<Seq<Arg>, DecodeError>(e),
            },
        decreases m - k,
    {
        let ghost rest_k = ks.subrange(k as int, m as int);
        assert(rest_k[0] == kinds@[k as int]);
        assert(rest_k.drop_first() =~= ks.subrange(k + 1, m as int));
        let (d, next) = match read_arg_exec(kinds[k], bytes, pos) {
            Ok(x) => x,
            Err(e) => return Err(e),
        };
        let ghost old_view = decoded_view(vals@);
        vals.push(d);
        proof {
            assert(decoded_view(vals@) =~= old_view.push(d@));
            match read_values(ks.subrange(k + 1, m as int), bytes@, next as int) {
                Ok(t) => {
                    assert(old_view + (seq![d@] + t) =~= decoded_view(vals@) + t);
                },
                Err(_) => {},
            }
        }
        pos = next;
        k = k + 1;
    }
    proof {
        assert(read_values(ks.subrange(m as int, m as int), bytes@, pos as int) == Ok::<
            Seq<Arg>,
            DecodeError,
        >(Seq::<Arg>::empty()));
        assert(decoded_view(vals@) + Seq::<Arg>::empty() =~= decoded_view(vals@));
    }
    Ok(vals)
}

fn push_chars(out: &mut Vec<char>, t: &String)
    ensures
        final(out)@ == old(out)@ + t@,
{
    let ghost before = out@;
    let cs = chars_of(t.as_str());
    let mut j: usize = 0;
    while j < cs.len()
        invariant
            j <= cs@.len(),
            cs@ == t@,
            out@ =~= before + cs@.take(j as int),
        decreases cs@.len() - j,
    {
        out.push(cs[j]);
        j = j + 1;
    }
    assert(cs@.take(cs@.len() as int) =~= cs@);
}

fn render_fragments(frags: &Vec<Fragment>, vals: &Vec<Decoded>) -> (r: Vec<char>)
    requires
        param_count(fragments_view(frags@)) == vals@.len(),
    ensures
        r@ == substitute(fragments_view(frags@), decoded_view(vals@)),
{
    let ghost fs = fragments_view(frags@);
    let ghost dv = decoded_view(vals@);
    let nf = frags.len();
    let m = vals.len();
    let mut out: Vec<char> = Vec::new();
    let mut i: usize = 0;
    let mut vi: usize = 0;
    proof {
        assert(fs.subrange(0, nf as int) =~= fs);
        assert(dv.subrange(0, m as int) =~= dv);
        assert(fs.take(0) =~= seq![]);
        assert(fs.take(nf as int) =~= fs);
    }
    while i < nf
        invariant
            nf == fs.len(),
            fs == fragments_view(frags@),
            m == dv.len(),
            dv == decoded_view(vals@),
            vals@.len() == m,
            param_count(fs) == m,
            i <= nf,
            fs.take(nf as int) == fs,
            vi == param_count(fs.take(i as int)),
            vi <= m,
            out@ + substitute(fs.subrange(i as int, nf as int), dv.subrange(vi as int, m as int))
                == substitute(fs, dv),
        decreases nf - i,
    {
        proof {
            lemma_param_count_take_monotone(fs, i + 1, nf as int);
        }
        let ghost rest_f = fs.subrange(i as int, nf as int);
        let ghost rest_v = dv.subrange(vi as int, m as int);
        assert(rest_f.drop_first() =~= fs.subrange(i + 1, nf as int));
        assert(fs.take(i + 1).drop_last() =~= fs.take(i as int));
        assert(rest_f[0] == frags@[i as int]@);
        let ghost before = out@;
        match &frags[i] {
            Fragment::Literal(t) => {
                push_chars(&mut out, t);
                assert(out@ + substitute(fs.subrange(i + 1, nf as int), rest_v) =~= before
                    + substitute(rest_f, rest_v));
            },
            Fragment::Parameter(h) => {
                assert(fs.take(i + 1).last() == fs[i as int]);
                assert(param_count(fs.take(i + 1)) == vi + 1);
                assert(rest_v[0] == dv[vi as int]);
                assert(rest_v.drop_first() =~= dv.subrange(vi + 1, m as int));
                assert(dv[vi as int] == vals@[vi as int]@);
                match &vals[vi] {
                    Decoded::Num(x) => push_rendered(&mut out, *h, *x),
                    Decoded::Text(t) => push_chars(&mut out, t),
                }
                assert(out@ + substitute(
                    fs.subrange(i + 1, nf as int),
                    dv.subrange(vi + 1, m as int),
                ) =~= before + substitute(rest_f, rest_v));
                vi = vi + 1;
            },
        }
        i = i + 1;
    }
    proof {
        assert(out@ =~= out@ + substitute(
            fs.subrange(nf as int, nf as int),
            dv.subrange(vi as int, m as int),
        ));
    }
    out
}

proof fn lemma_read_values_len(ks: Seq<ArgKind>, b: Seq<u8>, pos: int)
    ensures
        read_values(ks, b, pos) matches Ok(vs) ==> vs.len() == ks.len(),
    decreases ks.len(),
{
    if ks.len() > 0 {
        if let Ok((_, next)) = read_arg(ks[0], b, pos) {
            lemma_read_values_len(ks.drop_first(), b, next);
        }
    }
}

/// Decodes record bytes against the layout that produced them. Walks the
/// fragments once, in order: literal text is copied, each parameter reads
/// the next value of its declared kind and renders it under its hint.
pub fn decode(layout: &Layout, bytes: &[u8]) -> (r: Result<Record, DecodeError>)
    ensures
        match r {
            Ok(rec) => decode_spec(layout@, bytes@) == Ok::<(HeaderModel, Seq<char>), DecodeError>(
                (rec.header@, rec.text@),
            ),
            Err(e) => decode_spec(layout@, bytes@) == Err::<(HeaderModel, Seq<char>), DecodeError>(
                e,
            ),
        },
{
    proof {
        use_type_invariant(layout);
    }
    let (header, start) = match decode_header_exec(bytes) {
        Ok(x) => x,
        Err(e) => return Err(e),
    };
    let vals = match read_all_values(&layout.kinds, bytes, start) {
        Ok(v) => v,
        Err(e) => return Err(e),
    };
    proof {
        lemma_read_values_len(layout.kinds@, bytes@, start as int);
    }
    let out = render_fragments(layout.template.fragments(), &vals);
    Ok(Record { header, text: string_from_chars(&out) })
}

proof fn lemma_read_prefixed(pre: Seq<u8>, t: Seq<u8>, post: Seq<u8>)
    requires
        t.len() <= MAX_FIELD_LEN,
    ensures
        read_prefixed(pre + prefixed(t) + post, pre.len() as int) == Some(
            (t, (pre.len() + 2 + t.len()) as int),
        ),
{
    let b = pre + prefixed(t) + post;
    let pos = pre.len() as int;
    lemma_le_bytes_len(t.len(), 2);
    reveal_with_fuel(pow256, 3);
    lemma_le_round_trip(t.len(), 2);
    assert(b.subrange(pos, pos + 2) =~= le_bytes(t.len(), 2));
    assert(b.subrange(pos + 2, pos + 2 + t.len()) =~= t);
}

proof fn lemma_header_round_trip(h: HeaderModel, rest: Seq<u8>)
    requires
        header_fits(h),
    ensures
        decode_header(header_bytes(h) + rest) == Ok::<(HeaderModel, int), DecodeError>(
            (h, header_bytes(h).len() as int),
        ),
{
    let b = header_bytes(h) + rest;
    let lv = seq![level_code(h.level)];
    let line = le_bytes(h.line as nat, 4);
    lemma_le_bytes_len(h.target.len(), 2);
    lemma_le_bytes_len(h.module.len(), 2);
    lemma_le_bytes_len(h.file.len(), 2);
    lemma_le_bytes_len(h.line as nat, 4);
    let pt = prefixed(h.target);
    let pm = prefixed(h.module);
    let pf = prefixed(h.file);
    assert(b =~= seq![] + pt + (lv + pm + pf + line + rest));
    lemma_read_prefixed(seq![], h.target, lv + pm + pf + line + rest);
    let p1 = pt.len() as int;
    assert(b[p1] == level_code(h.level));
    assert(b =~= (pt + lv) + pm + (pf + line + rest));
    lemma_read_prefixed(pt + lv, h.module, pf + line + rest);
    let p2 = p1 + 1 + pm.len();
    assert(b =~= (pt + lv + pm) + pf + (line + rest));
    lemma_read_prefixed(pt + lv + pm, h.file, line + rest);
    let p3 = p2 + pf.len();
    assert(b.subrange(p3, p3 + 4) =~= line);
    reveal_with_fuel(pow256, 5);
    lemma_le_round_trip(h.line as nat, 4);
}

proof fn lemma_value_round_trip(pre: Seq<u8>, v: Value, post: Seq<u8>)
    requires
        v matches Value::Str(s) ==> encode_utf8(s@).len() <= MAX_FIELD_LEN,
    ensures
        read_arg(v.spec_kind(), pre + value_bytes(v) + post, pre.len() as int) == Ok::<
            (Arg, int),
            DecodeError,
        >((v.spec_arg(), (pre.len() + value_bytes(v).len()) as int)),
{
    let b = pre + value_bytes(v) + post;
    let p = pre.len() as int;
    reveal_with_fuel(pow256, 17);
    match v {
        Value::Str(s) => {
            lemma_read_prefixed(pre, encode_utf8(s@), post);
            lemma_le_bytes_len(encode_utf8(s@).len(), 2);
            vstd::utf8::encode_utf8_valid_utf8(s@);
            vstd::utf8::encode_utf8_decode_utf8(s@);
        },
        _ => {
            let w = v.spec_kind().spec_width();
            let n: nat = match v.spec_arg() {
                Arg::Num(x) => x as nat,
                Arg::Text(_) => 0,
            };
            assert(value_bytes(v) == le_bytes(n, w));
            lemma_le_bytes_len(n, w);
            assert(b.subrange(p, p + w) =~= le_bytes(n, w));
            assert(n < pow256(w));
            lemma_le_round_trip(n, w);
        },
    }
}

proof fn lemma_values_round_trip(pre: Seq<u8>, vs: Seq<Value>, ks: Seq<ArgKind>, extra: Seq<u8>)
    requires
        kinds_match(vs, ks),
        args_fit(vs),
    ensures
        read_values(ks, pre + values_bytes(vs) + extra, pre.len() as int) == Ok::<
            Seq<Arg>,
            DecodeError,
        >(args(vs)),
    decreases vs.len(),
{
    if vs.len() == 0 {
        assert(args(vs) =~= seq![]);
    } else {
        let v = vs[0];
        let rest = vs.drop_first();
        let b = pre + values_bytes(vs) + extra;
        assert(vs[0].spec_kind() == ks[0]);
        assert(b =~= pre + value_bytes(v) + (values_bytes(rest) + extra));
        lemma_value_round_trip(pre, v, values_bytes(rest) + extra);
        assert(b =~= (pre + value_bytes(v)) + values_bytes(rest) + extra);
        assert(kinds_match(rest, ks.drop_first())) by {
            assert forall|i: int| 0 <= i < rest.len() implies #[trigger] rest[i].spec_kind()
                == ks.drop_first()[i] by {
                assert(vs[i + 1].spec_kind() == ks[i + 1]);
            }
        }
        assert(args_fit(rest)) by {
            assert forall|i: int| 0 <= i < rest.len() implies (#[trigger] rest[i] matches Value::Str(
                s,
            ) ==> encode_utf8(s@).len() <= MAX_FIELD_LEN) by {
                assert(rest[i] == vs[i + 1]);
            }
        }
        assert(vs[0] == v);
        lemma_values_round_trip(pre + value_bytes(v), rest, ks.drop_first(), extra);
        assert(args(vs) =~= seq![v.spec_arg()] + args(rest));
    }
}

/// Round trip: the bytes that `encode` writes for a header and values of
/// the layout's kinds decode, under the same layout, to that header and to
/// the message that substitutes each value, rendered under its hint, into
/// the template. Whatever follows the record in the buffer does not matter.
pub proof fn lemma_round_trip(l: LayoutModel, h: HeaderModel, vs: Seq<Value>, extra: Seq<u8>)
    requires
        kinds_match(vs, l.kinds),
        header_fits(h),
        args_fit(vs),
    ensures
        decode_spec(l, record_bytes(h, vs) + extra) == Ok::<(HeaderModel, Seq<char>), DecodeError>(
            (h, substitute(l.fragments, args(vs))),
        ),
{
    let hb = header_bytes(h);
    let b = record_bytes(h, vs) + extra;
    assert(b =~= hb + (values_bytes(vs) + extra));
    lemma_header_round_trip(h, values_bytes(vs) + extra);
    assert(b =~= hb + values_bytes(vs) + extra);
    lemma_values_round_trip(hb, vs, l.kinds, extra);
}

} // verus!
