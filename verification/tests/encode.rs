use cid::Cid;
use ipld_dag::codec::cbor::decode::read_ipld;
use ipld_dag::codec::cbor::encode::{
    encode, push_all, write_byte_string, write_float, write_head, write_integer, write_ipld,
    write_link, write_list, write_map, write_string, write_text, EncodeError,
};
use ipld_dag::ipld::Ipld;
use ipld_dag::link::link_payload;
use ipld_dag::map::StringMap;
use ipld_dag::reader::ByteReader;
use multihash_codetable::{Code, MultihashDigest};

fn sample_cid() -> Cid {
    Cid::new_v1(0x71, Code::Blake2b256.digest(b"sample"))
}

fn map_of(pairs: Vec<(&str, Ipld)>) -> Ipld {
    let mut map = StringMap::new();
    for (key, value) in pairs {
        map.insert(key.to_string(), value);
    }
    Ipld::StringMap(map)
}

fn round_trip(value: &Ipld) {
    let bytes = encode(value).unwrap();
    let mut r = ByteReader::new(&bytes);
    assert_eq!(read_ipld(&mut r).as_ref(), Ok(value));
    assert_eq!(r.remaining(), 0);
}

#[test]
fn scalars_round_trip() {
    round_trip(&Ipld::Null);
    round_trip(&Ipld::Bool(true));
    round_trip(&Ipld::Bool(false));
    for n in [
        0i128,
        1,
        23,
        24,
        255,
        256,
        65535,
        65536,
        u32::MAX as i128,
        u32::MAX as i128 + 1,
        u64::MAX as i128,
        -1,
        -24,
        -25,
        -256,
        -257,
        -65536,
        -65537,
        i64::MIN as i128,
        -(1i128 << 64),
    ] {
        round_trip(&Ipld::Integer(n));
    }
    for x in [0.0f64, -0.0, 1.5, f64::MAX, f64::MIN_POSITIVE, f64::INFINITY, f64::NAN] {
        round_trip(&Ipld::Float(x.to_bits()));
    }
    round_trip(&Ipld::String(String::new()));
    round_trip(&Ipld::String("gr\u{fc}\u{df}e \u{1f600}".to_string()));
    round_trip(&Ipld::String("x".repeat(70_000)));
    round_trip(&Ipld::Bytes(vec![]));
    round_trip(&Ipld::Bytes((0..=255).collect()));
    round_trip(&Ipld::Link(sample_cid()));
}

#[test]
fn containers_round_trip() {
    round_trip(&Ipld::List(vec![]));
    round_trip(&map_of(vec![]));
    round_trip(&Ipld::List((0..30).map(Ipld::Integer).collect()));
    round_trip(&map_of(vec![
        ("root", Ipld::List(vec![map_of(vec![("child", Ipld::Link(sample_cid()))])])),
        ("", Ipld::Null),
        ("\u{e9}", Ipld::Float(2.5f64.to_bits())),
        ("aa", Ipld::List(vec![Ipld::List(vec![Ipld::List(vec![])])])),
        ("a", Ipld::Bytes(vec![0xff; 300])),
    ]));
}

#[test]
fn headers_take_the_shortest_form() {
    let head = |major: u8, n: u64| {
        let mut out = vec![0xee];
        write_head(&mut out, major, n);
        out
    };
    assert_eq!(head(0, 0), vec![0xee, 0x00]);
    assert_eq!(head(0, 23), vec![0xee, 0x17]);
    assert_eq!(head(0, 24), vec![0xee, 0x18, 24]);
    assert_eq!(head(1, 255), vec![0xee, 0x38, 0xff]);
    assert_eq!(head(2, 256), vec![0xee, 0x59, 0x01, 0x00]);
    assert_eq!(head(3, 65535), vec![0xee, 0x79, 0xff, 0xff]);
    assert_eq!(head(4, 65536), vec![0xee, 0x9a, 0x00, 0x01, 0x00, 0x00]);
    assert_eq!(head(5, 0xffff_ffff), vec![0xee, 0xba, 0xff, 0xff, 0xff, 0xff]);
    assert_eq!(head(0, 0x1_0000_0000), vec![0xee, 0x1b, 0, 0, 0, 1, 0, 0, 0, 0]);
    assert_eq!(
        head(7, 0x0102_0304_0506_0708),
        vec![0xee, 0xfb, 1, 2, 3, 4, 5, 6, 7, 8]
    );
}

#[test]
fn exact_encodings() {
    assert_eq!(encode(&Ipld::Null), Ok(vec![0xf6]));
    assert_eq!(encode(&Ipld::Bool(false)), Ok(vec![0xf4]));
    assert_eq!(encode(&Ipld::Bool(true)), Ok(vec![0xf5]));
    assert_eq!(encode(&Ipld::Integer(3)), Ok(vec![0x03]));
    assert_eq!(encode(&Ipld::Integer(-2)), Ok(vec![0x21]));
    assert_eq!(encode(&Ipld::Integer(-257)), Ok(vec![0x39, 0x01, 0x00]));
    assert_eq!(
        encode(&Ipld::Float(1.0f64.to_bits())),
        Ok(vec![0xfb, 0x3f, 0xf0, 0, 0, 0, 0, 0, 0])
    );
    assert_eq!(encode(&Ipld::String("a".to_string())), Ok(vec![0x61, b'a']));
    assert_eq!(encode(&Ipld::Bytes(vec![9, 8])), Ok(vec![0x42, 9, 8]));
    assert_eq!(
        encode(&Ipld::List(vec![Ipld::Integer(1), Ipld::Null])),
        Ok(vec![0x82, 0x01, 0xf6])
    );
    assert_eq!(
        encode(&map_of(vec![("b", Ipld::Integer(2)), ("a", Ipld::Integer(3))])),
        Ok(vec![0xa2, 0x61, b'a', 0x03, 0x61, b'b', 0x02])
    );
    let cid = sample_cid();
    let payload = cid.to_bytes();
    let mut link = vec![0xd8, 42, 0x58, payload.len() as u8];
    link.extend_from_slice(&payload);
    assert_eq!(encode(&Ipld::Link(cid)), Ok(link));
    assert_eq!(link_payload(&cid), Some(payload));
}

#[test]
fn writers_append_to_what_is_there() {
    let mut out = vec![1, 2];
    push_all(&mut out, &[3, 4]);
    write_text(&mut out, "k");
    write_string(&mut out, "v");
    write_byte_string(&mut out, &[5]);
    write_float(&mut out, 0);
    assert_eq!(write_integer(&mut out, 24), Ok(()));
    assert_eq!(write_link(&mut out, &sample_cid()), Ok(()));
    assert_eq!(write_list(&mut out, &vec![Ipld::Null]), Ok(()));
    let mut map = StringMap::new();
    map.insert("a".to_string(), Ipld::Bool(true));
    assert_eq!(write_map(&mut out, &map), Ok(()));
    assert_eq!(write_ipld(&mut out, &Ipld::Null), Ok(()));
    let mut expected = vec![
        1, 2, 3, 4, 0x61, b'k', 0x61, b'v', 0x41, 5, 0xfb, 0, 0, 0, 0, 0, 0, 0, 0, 0x18, 24,
    ];
    expected.extend_from_slice(&encode(&Ipld::Link(sample_cid())).unwrap());
    expected.extend_from_slice(&[0x81, 0xf6, 0xa1, 0x61, b'a', 0xf5, 0xf6]);
    assert_eq!(out, expected);
}

#[test]
fn integers_out_of_range_are_refused() {
    assert_eq!(encode(&Ipld::Integer(1i128 << 64)), Err(EncodeError::IntegerOutOfRange));
    assert_eq!(encode(&Ipld::Integer(-(1i128 << 64) - 1)), Err(EncodeError::IntegerOutOfRange));
    assert_eq!(encode(&Ipld::Integer(i128::MAX)), Err(EncodeError::IntegerOutOfRange));
    assert_eq!(encode(&Ipld::Integer(i128::MIN)), Err(EncodeError::IntegerOutOfRange));
    assert_eq!(
        encode(&map_of(vec![("a", Ipld::List(vec![Ipld::Null, Ipld::Integer(i128::MAX)]))])),
        Err(EncodeError::IntegerOutOfRange)
    );
    let mut out = vec![7];
    assert_eq!(write_integer(&mut out, i128::MAX), Err(EncodeError::IntegerOutOfRange));
    assert_eq!(out, vec![7]);
    let mut out = vec![7];
    assert_eq!(
        write_ipld(&mut out, &Ipld::List(vec![Ipld::Null, Ipld::Integer(i128::MIN)])),
        Err(EncodeError::IntegerOutOfRange)
    );
    assert_eq!(out[0], 7);
}

#[test]
fn clone_is_a_deep_copy() {
    let value = map_of(vec![
        ("list", Ipld::List(vec![Ipld::Integer(1), Ipld::String("s".to_string())])),
        ("link", Ipld::Link(sample_cid())),
        ("bytes", Ipld::Bytes(vec![1, 2, 3])),
    ]);
    assert_eq!(value.clone(), value);
    assert_eq!(value.duplicate(), value);
    assert_eq!(encode(&value.clone()), encode(&value));
}
