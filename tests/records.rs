use log_template::catalog::Catalog;
use log_template::record::{
    decode, encode, ArgKind, BindError, DecodeError, EncodeError, Header, Layout, Level, Value,
};
use log_template::template::parse;

fn header() -> Header {
    Header {
        target: b"net".to_vec(),
        level: Level::Info,
        module: b"probe".to_vec(),
        file: b"probe.rs".to_vec(),
        line: 123,
    }
}

fn layout(text: &str, kinds: Vec<ArgKind>) -> Layout {
    Layout::bind(parse(text).unwrap(), kinds).unwrap()
}

fn round_trip(text: &str, values: Vec<Value>) -> String {
    let kinds = values.iter().map(|v| v.kind()).collect();
    let l = layout(text, kinds);
    let mut buf = [0u8; 256];
    let n = encode(&l, &header(), &values, &mut buf).unwrap();
    let rec = decode(&l, &buf[..n]).unwrap();
    assert_eq!(rec.header, header());
    rec.text
}

#[test]
fn literal_only_round_trip() {
    assert_eq!(round_trip("hello", vec![]), "hello");
}

#[test]
fn default_hint_is_decimal() {
    assert_eq!(round_trip("count={}", vec![Value::U32(42)]), "count=42");
}

#[test]
fn ipv4_hint_is_dotted_decimal() {
    assert_eq!(round_trip("addr={:i}", vec![Value::U32(0x7F000001)]), "addr=127.0.0.1");
}

#[test]
fn upper_hex_hint() {
    assert_eq!(round_trip("flags={:X}", vec![Value::U8(0xAB)]), "flags=AB");
}

#[test]
fn lower_hex_hint() {
    assert_eq!(round_trip("v={:x}", vec![Value::U64(0xDEAD_BEEF)]), "v=deadbeef");
}

#[test]
fn ipv6_hint_is_colon_groups() {
    let addr: u128 = 0x2001_0db8_0000_0000_0000_0000_0000_0001;
    assert_eq!(round_trip("{:ipv6}", vec![Value::U128(addr)]), "2001:db8:0:0:0:0:0:1");
}

#[test]
fn zero_and_largest_values() {
    assert_eq!(round_trip("{} {:x}", vec![Value::U16(0), Value::U8(0)]), "0 0");
    assert_eq!(
        round_trip("{}", vec![Value::U128(u128::MAX)]),
        "340282366920938463463374607431768211455"
    );
}

#[test]
fn several_values_keep_their_order() {
    assert_eq!(
        round_trip(
            "{{{}}} {:X}-{}: {:i}",
            vec![Value::U8(7), Value::U16(0xBEEF), Value::U64(9), Value::U32(0x0A000001)]
        ),
        "{7} BEEF-9: 10.0.0.1"
    );
}

#[test]
fn wire_layout_is_header_then_values() {
    let l = layout("a{}b{}", vec![ArgKind::U8, ArgKind::U16]);
    let h = Header { target: b"t".to_vec(), level: Level::Warn, module: vec![], file: b"f".to_vec(), line: 0x01020304 };
    let mut buf = [0xEEu8; 20];
    let n = encode(&l, &h, &[Value::U8(5), Value::U16(0x0102)], &mut buf).unwrap();
    assert_eq!(n, 16);
    assert_eq!(&buf[..n], &[1, 0, b't', 2, 0, 0, 1, 0, b'f', 4, 3, 2, 1, 5, 2, 1]);
    assert_eq!(&buf[n..], &[0xEE; 4]);
}

#[test]
fn count_mismatch_at_bind() {
    let r = Layout::bind(parse("{} {}").unwrap(), vec![ArgKind::U32]);
    assert_eq!(r.unwrap_err(), BindError::ArgumentCountMismatch { expected: 2, found: 1 });
}

#[test]
fn incompatible_hint_at_bind() {
    let r = Layout::bind(parse("{} {:i}").unwrap(), vec![ArgKind::U8, ArgKind::U8]);
    assert_eq!(r.unwrap_err(), BindError::IncompatibleHint { index: 1 });
    let r = Layout::bind(parse("{:ipv6}").unwrap(), vec![ArgKind::U64]);
    assert_eq!(r.unwrap_err(), BindError::IncompatibleHint { index: 0 });
}

#[test]
fn buffer_too_small_writes_nothing() {
    let l = layout("{}", vec![ArgKind::U64]);
    let mut buf = [0x5Au8; 1];
    let r = encode(&l, &header(), &[Value::U64(1)], &mut buf);
    assert_eq!(r, Err(EncodeError::BufferTooSmall));
    assert_eq!(buf, [0x5A]);
}

#[test]
fn value_mismatch_at_encode() {
    let l = layout("{}", vec![ArgKind::U32]);
    let mut buf = [0u8; 64];
    assert_eq!(encode(&l, &header(), &[Value::U16(1)], &mut buf), Err(EncodeError::ArgumentMismatch));
    assert_eq!(encode(&l, &header(), &[], &mut buf), Err(EncodeError::ArgumentMismatch));
    assert_eq!(buf, [0u8; 64]);
}

#[test]
fn overlong_header_field() {
    let l = layout("x", vec![]);
    let mut h = header();
    h.file = vec![b'a'; 0x1_0000];
    let mut buf = [0u8; 16];
    assert_eq!(encode(&l, &h, &[], &mut buf), Err(EncodeError::FieldTooLong));
}

#[test]
fn truncated_record() {
    let l = layout("{} {}", vec![ArgKind::U32, ArgKind::U32]);
    let mut buf = [0u8; 64];
    let n = encode(&l, &header(), &[Value::U32(1), Value::U32(2)], &mut buf).unwrap();
    assert_eq!(decode(&l, &buf[..n - 1]).unwrap_err(), DecodeError::Truncated);
    assert_eq!(decode(&l, &buf[..3]).unwrap_err(), DecodeError::Truncated);
    assert_eq!(decode(&l, &[]).unwrap_err(), DecodeError::Truncated);
}

#[test]
fn invalid_level_byte() {
    let l = layout("x", vec![]);
    let bytes = [0u8, 0, 9, 0, 0, 0, 0, 0, 0, 0, 0];
    assert_eq!(decode(&l, &bytes).unwrap_err(), DecodeError::InvalidLevel);
}

#[test]
fn catalog_decodes_by_identity() {
    let mut c = Catalog::new();
    assert!(c.insert(7, layout("n={}", vec![ArgKind::U8])));
    assert!(!c.insert(7, layout("other", vec![])));
    let mut buf = [0u8; 64];
    let n = encode(c.get(7).unwrap(), &header(), &[Value::U8(3)], &mut buf).unwrap();
    assert_eq!(c.decode_record(7, &buf[..n]).unwrap().text, "n=3");
    assert_eq!(c.decode_record(8, &buf[..n]).unwrap_err(), DecodeError::UnknownTemplate);
}

#[test]
fn malformed_record_does_not_stop_the_stream() {
    let l = layout("v={}", vec![ArgKind::U16]);
    let mut good = [0u8; 64];
    let n = encode(&l, &header(), &[Value::U16(500)], &mut good).unwrap();
    let stream: Vec<&[u8]> = vec![&good[..n], &good[..4], &good[..n]];
    let texts: Vec<Option<String>> = stream.iter().map(|b| decode(&l, b).ok().map(|r| r.text)).collect();
    assert_eq!(texts, vec![Some("v=500".to_string()), None, Some("v=500".to_string())]);
}

#[test]
fn text_values_are_verbatim() {
    assert_eq!(
        round_trip("user={} id={}", vec![Value::Str("alice".to_string()), Value::U16(7)]),
        "user=alice id=7"
    );
    assert_eq!(round_trip("[{}]", vec![Value::Str(String::new())]), "[]");
    assert_eq!(round_trip("{}!", vec![Value::Str("héllo 日本".to_string())]), "héllo 日本!");
}

#[test]
fn text_is_length_prefixed_on_the_wire() {
    let l = layout("{}", vec![ArgKind::Str]);
    let h = Header { target: vec![], level: Level::Error, module: vec![], file: vec![], line: 0 };
    let mut buf = [0u8; 32];
    let n = encode(&l, &h, &[Value::Str("hé".to_string())], &mut buf).unwrap();
    assert_eq!(&buf[..n], &[0, 0, 1, 0, 0, 0, 0, 0, 0, 0, 0, 3, 0, b'h', 0xC3, 0xA9]);
}

#[test]
fn text_takes_only_the_default_hint() {
    let r = Layout::bind(parse("{:x}").unwrap(), vec![ArgKind::Str]);
    assert_eq!(r.unwrap_err(), BindError::IncompatibleHint { index: 0 });
    let r = Layout::bind(parse("{:i}").unwrap(), vec![ArgKind::Str]);
    assert_eq!(r.unwrap_err(), BindError::IncompatibleHint { index: 0 });
}

#[test]
fn invalid_utf8_text_value() {
    let l = layout("{}", vec![ArgKind::Str]);
    let bytes = [0u8, 0, 3, 0, 0, 0, 0, 0, 0, 0, 0, 1, 0, 0xFF];
    assert_eq!(decode(&l, &bytes).unwrap_err(), DecodeError::InvalidText);
}

#[test]
fn overlong_text_value() {
    let l = layout("{}", vec![ArgKind::Str]);
    let mut buf = [0u8; 8];
    let long = "a".repeat(0x1_0000);
    assert_eq!(encode(&l, &header(), &[Value::Str(long)], &mut buf), Err(EncodeError::FieldTooLong));
    assert_eq!(buf, [0u8; 8]);
}
