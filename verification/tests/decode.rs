use cid::Cid;
use ipld_dag::codec::cbor::decode::{
    read_argument, read_head, read_ipld, read_length, read_link, read_list, read_map, ReadCbor,
};
use ipld_dag::error::CborError;
use ipld_dag::float::{Double, Single};
use ipld_dag::ipld::Ipld;
use ipld_dag::map::StringMap;
use ipld_dag::reader::{
    read_bytes, read_str, read_u16, read_u32, read_u64, read_u8, ByteReader, ReadExt,
};
use multihash_codetable::{Code, MultihashDigest};

fn decode<T: ReadCbor>(bytes: &[u8]) -> Result<T, CborError> {
    let mut r = ByteReader::new(bytes);
    T::read_cbor(&mut r)
}

fn decode_all(bytes: &[u8]) -> (Result<Ipld, CborError>, usize) {
    let mut r = ByteReader::new(bytes);
    let res = read_ipld(&mut r);
    (res, r.position())
}

fn sample_cid() -> Cid {
    Cid::new_v1(0x71, Code::Blake2b256.digest(b"sample"))
}

fn link_bytes(cid: &Cid) -> Vec<u8> {
    let payload = cid.to_bytes();
    let mut bytes = vec![0xd8, 42, 0x58, payload.len() as u8];
    bytes.extend_from_slice(&payload);
    bytes
}

#[test]
fn fixed_width_reads_are_big_endian() {
    let data = [0x01, 0x02, 0x03, 0x04, 0x05, 0x06, 0x07, 0x08, 0x09];
    let mut r = ByteReader::new(&data);
    assert_eq!(read_u8(&mut r), Ok(0x01));
    assert_eq!(read_u16(&mut r), Ok(0x0203));
    assert_eq!(r.position(), 3);
    assert_eq!(r.remaining(), 6);
    assert_eq!(read_u32(&mut r), Ok(0x0405_0607));
    assert_eq!(read_u16(&mut r), Ok(0x0809));
    assert_eq!(read_u8(&mut r), Err(CborError::UnexpectedEof));
    let mut r = ByteReader::new(&data);
    assert_eq!(read_u64(&mut r), Ok(0x0102_0304_0506_0708));
    assert_eq!(read_u64(&mut r), Err(CborError::UnexpectedEof));
    assert_eq!(r.position(), 8);
}

#[test]
fn short_reads_fail_and_leave_the_reader_in_place() {
    let data = [0xaa, 0xbb, 0xcc];
    let mut r = ByteReader::new(&data);
    assert_eq!(read_u32(&mut r), Err(CborError::UnexpectedEof));
    assert_eq!(read_bytes(&mut r, 4), Err(CborError::UnexpectedEof));
    assert_eq!(r.read_n(4), Err(CborError::UnexpectedEof));
    assert_eq!(r.position(), 0);
    assert_eq!(read_bytes(&mut r, 2), Ok(vec![0xaa, 0xbb]));
    assert_eq!(r.read_n(1), Ok(vec![0xcc]));
    assert_eq!(read_bytes(&mut r, 0), Ok(vec![]));
}

#[test]
fn text_must_be_utf8() {
    let data = [0x68, 0xc3, 0xa9, 0xff];
    let mut r = ByteReader::new(&data);
    assert_eq!(read_str(&mut r, 3), Ok("h\u{e9}".to_string()));
    assert_eq!(read_str(&mut r, 1), Err(CborError::InvalidUtf8));
    let mut r = ByteReader::new(&data);
    assert_eq!(read_str(&mut r, 2), Err(CborError::InvalidUtf8));
    let mut r = ByteReader::new(&data);
    assert_eq!(read_str(&mut r, 5), Err(CborError::UnexpectedEof));
    assert_eq!(decode::<Ipld>(&[0x62, 0xc3, 0x28]), Err(CborError::InvalidUtf8));
}

#[test]
fn header_byte_zero_is_integer_zero() {
    assert_eq!(decode_all(&[0x00]), (Ok(Ipld::Integer(0)), 1));
}

#[test]
fn one_byte_argument_is_read() {
    assert_eq!(decode_all(&[0x18, 0xff]), (Ok(Ipld::Integer(255)), 2));
}

#[test]
fn negative_integer_is_minus_one_minus_magnitude() {
    assert_eq!(decode_all(&[0x3a, 0x00, 0x00, 0x00, 0x01]), (Ok(Ipld::Integer(-2)), 5));
    assert_eq!(decode::<Ipld>(&[0x20]), Ok(Ipld::Integer(-1)));
    assert_eq!(decode::<Ipld>(&[0x37]), Ok(Ipld::Integer(-24)));
    assert_eq!(
        decode::<Ipld>(&[0x3b, 0xff, 0xff, 0xff, 0xff, 0xff, 0xff, 0xff, 0xff]),
        Ok(Ipld::Integer(-(1i128 << 64)))
    );
}

#[test]
fn both_null_bytes_decode_to_null() {
    let a = decode::<Ipld>(&[0xf6]);
    let b = decode::<Ipld>(&[0xf7]);
    assert_eq!(a, Ok(Ipld::Null));
    assert_eq!(a, b);
    assert_eq!(decode::<Option<u8>>(&[0xf6]), Ok(None));
    assert_eq!(decode::<Option<u8>>(&[0xf7]), Ok(None));
    assert_eq!(decode::<Option<String>>(&[0xf6]), decode::<Option<String>>(&[0xf7]));
}

#[test]
fn option_does_not_read_a_present_value() {
    assert_eq!(decode::<Option<u8>>(&[0x05]), Err(CborError::UnexpectedCode));
    assert_eq!(decode::<Option<bool>>(&[0xf5]), Err(CborError::UnexpectedCode));
    assert_eq!(decode::<Option<u8>>(&[]), Err(CborError::UnexpectedEof));
}

#[test]
fn byte_ff_is_unexpected_for_every_target() {
    let bytes = [0xff];
    assert_eq!(decode::<Ipld>(&bytes), Err(CborError::UnexpectedCode));
    assert_eq!(decode::<bool>(&bytes), Err(CborError::UnexpectedCode));
    assert_eq!(decode::<u8>(&bytes), Err(CborError::UnexpectedCode));
    assert_eq!(decode::<u16>(&bytes), Err(CborError::UnexpectedCode));
    assert_eq!(decode::<u32>(&bytes), Err(CborError::UnexpectedCode));
    assert_eq!(decode::<u64>(&bytes), Err(CborError::UnexpectedCode));
    assert_eq!(decode::<i8>(&bytes), Err(CborError::UnexpectedCode));
    assert_eq!(decode::<i16>(&bytes), Err(CborError::UnexpectedCode));
    assert_eq!(decode::<i32>(&bytes), Err(CborError::UnexpectedCode));
    assert_eq!(decode::<i64>(&bytes), Err(CborError::UnexpectedCode));
    assert_eq!(decode::<Single>(&bytes), Err(CborError::UnexpectedCode));
    assert_eq!(decode::<Double>(&bytes), Err(CborError::UnexpectedCode));
    assert_eq!(decode::<String>(&bytes), Err(CborError::UnexpectedCode));
    assert_eq!(decode::<Cid>(&bytes), Err(CborError::UnexpectedCode));
    assert_eq!(decode::<Option<u8>>(&bytes), Err(CborError::UnexpectedCode));
    assert_eq!(decode::<Vec<u8>>(&bytes), Err(CborError::UnexpectedCode));
    assert_eq!(decode::<StringMap<u8>>(&bytes), Err(CborError::UnexpectedCode));
}

#[test]
fn every_tier_gives_the_same_integer() {
    let forms: [&[u8]; 5] = [
        &[0x17],
        &[0x18, 0x17],
        &[0x19, 0x00, 0x17],
        &[0x1a, 0x00, 0x00, 0x00, 0x17],
        &[0x1b, 0x00, 0x00, 0x00, 0x00, 0x00, 0x00, 0x00, 0x17],
    ];
    for form in forms {
        assert_eq!(decode_all(form), (Ok(Ipld::Integer(23)), form.len()));
        assert_eq!(decode::<u64>(form), Ok(23));
        let mut negative = form.to_vec();
        negative[0] += 0x20;
        assert_eq!(decode::<Ipld>(&negative), Ok(Ipld::Integer(-24)));
        assert_eq!(decode::<i64>(&negative), Ok(-24));
    }
}

#[test]
fn every_tier_gives_the_same_length() {
    let forms: [&[u8]; 5] = [
        &[0x02],
        &[0x18, 0x02],
        &[0x19, 0x00, 0x02],
        &[0x1a, 0x00, 0x00, 0x00, 0x02],
        &[0x1b, 0x00, 0x00, 0x00, 0x00, 0x00, 0x00, 0x00, 0x02],
    ];
    for form in forms {
        let with_major = |major: u8, body: &[u8]| {
            let mut bytes = form.to_vec();
            bytes[0] += major << 5;
            bytes.extend_from_slice(body);
            bytes
        };
        assert_eq!(decode::<Ipld>(&with_major(2, &[7, 8])), Ok(Ipld::Bytes(vec![7, 8])));
        assert_eq!(decode::<Ipld>(&with_major(3, b"hi")), Ok(Ipld::String("hi".to_string())));
        assert_eq!(decode::<String>(&with_major(3, b"hi")), Ok("hi".to_string()));
        assert_eq!(
            decode::<Ipld>(&with_major(4, &[0x01, 0xf5])),
            Ok(Ipld::List(vec![Ipld::Integer(1), Ipld::Bool(true)]))
        );
        assert_eq!(decode::<Vec<u8>>(&with_major(4, &[0x01, 0x02])), Ok(vec![1, 2]));
        let mut map = StringMap::new();
        map.insert("a".to_string(), Ipld::Integer(1));
        map.insert("b".to_string(), Ipld::Null);
        assert_eq!(
            decode::<Ipld>(&with_major(5, &[0x61, b'a', 0x01, 0x61, b'b', 0xf6])),
            Ok(Ipld::StringMap(map))
        );
    }
}

#[test]
fn read_argument_takes_the_width_that_the_minor_value_asks_for() {
    let data = [0x01, 0x02, 0x03, 0x04, 0x05, 0x06, 0x07, 0x08];
    let at = |minor: u8| {
        let mut r = ByteReader::new(&data);
        (read_argument(&mut r, minor), r.position())
    };
    assert_eq!(at(0), (Ok(0), 0));
    assert_eq!(at(23), (Ok(23), 0));
    assert_eq!(at(24), (Ok(0x01), 1));
    assert_eq!(at(25), (Ok(0x0102), 2));
    assert_eq!(at(26), (Ok(0x0102_0304), 4));
    assert_eq!(at(27), (Ok(0x0102_0304_0506_0708), 8));
    assert_eq!(at(28), (Err(CborError::UnexpectedCode), 0));
    assert_eq!(at(31), (Err(CborError::UnexpectedCode), 0));
    let mut r = ByteReader::new(&data[..3]);
    assert_eq!(read_argument(&mut r, 26), Err(CborError::UnexpectedEof));
    let mut r = ByteReader::new(&data);
    assert_eq!(read_length(&mut r, 25), Ok(0x0102));
    let mut r = ByteReader::new(&[0x43]);
    assert_eq!(read_head(&mut r, 2, 27), Ok(3));
    let mut r = ByteReader::new(&[0x43]);
    assert_eq!(read_head(&mut r, 3, 27), Err(CborError::UnexpectedCode));
    let mut r = ByteReader::new(&[0x59, 0, 1]);
    assert_eq!(read_head(&mut r, 2, 24), Err(CborError::UnexpectedCode));
}

#[test]
fn a_length_beyond_the_host_is_out_of_range() {
    let huge = [0x5b, 0xff, 0xff, 0xff, 0xff, 0xff, 0xff, 0xff, 0xff, 0x00];
    if usize::BITS < 64 {
        assert_eq!(decode::<Ipld>(&huge), Err(CborError::LengthOutOfRange));
    } else {
        assert_eq!(decode::<Ipld>(&huge), Err(CborError::UnexpectedEof));
    }
    let mut r = ByteReader::new(&huge[1..]);
    if usize::BITS < 64 {
        assert_eq!(read_length(&mut r, 27), Err(CborError::LengthOutOfRange));
    } else {
        assert_eq!(read_length(&mut r, 27), Ok(usize::MAX));
    }
}

#[test]
fn a_declared_length_beyond_the_input_is_an_early_end() {
    assert_eq!(decode::<Ipld>(&[0x45, 1, 2, 3]), Err(CborError::UnexpectedEof));
    assert_eq!(decode::<Ipld>(&[0x63, b'a']), Err(CborError::UnexpectedEof));
    assert_eq!(decode::<Ipld>(&[0x83, 0x01, 0x02]), Err(CborError::UnexpectedEof));
    assert_eq!(decode::<Ipld>(&[0xa1, 0x61, b'a']), Err(CborError::UnexpectedEof));
    assert_eq!(
        decode::<Ipld>(&[0x9b, 0x00, 0xff, 0xff, 0xff, 0xff, 0xff, 0xff, 0xff]),
        Err(CborError::UnexpectedEof)
    );
    assert_eq!(decode::<Ipld>(&[]), Err(CborError::UnexpectedEof));
    assert_eq!(decode::<Ipld>(&[0x19, 0x01]), Err(CborError::UnexpectedEof));
}

#[test]
fn unsigned_targets_refuse_wider_forms() {
    assert_eq!(decode::<u8>(&[0x17]), Ok(23));
    assert_eq!(decode::<u8>(&[0x18, 0xff]), Ok(255));
    assert_eq!(decode::<u8>(&[0x19, 0x00, 0x01]), Err(CborError::UnexpectedCode));
    assert_eq!(decode::<u8>(&[0x1a, 0, 0, 0, 1]), Err(CborError::UnexpectedCode));
    assert_eq!(decode::<u8>(&[0x1b, 0, 0, 0, 0, 0, 0, 0, 1]), Err(CborError::UnexpectedCode));
    assert_eq!(decode::<u16>(&[0x18, 0xff]), Ok(255));
    assert_eq!(decode::<u16>(&[0x19, 0xff, 0xfe]), Ok(0xfffe));
    assert_eq!(decode::<u16>(&[0x1a, 0, 0, 0, 1]), Err(CborError::UnexpectedCode));
    assert_eq!(decode::<u32>(&[0x19, 0x01, 0x00]), Ok(256));
    assert_eq!(decode::<u32>(&[0x1a, 0xff, 0xff, 0xff, 0xff]), Ok(u32::MAX));
    assert_eq!(decode::<u32>(&[0x1b, 0, 0, 0, 0, 0, 0, 0, 1]), Err(CborError::UnexpectedCode));
    assert_eq!(decode::<u64>(&[0x1a, 0, 0, 1, 0]), Ok(256));
    assert_eq!(
        decode::<u64>(&[0x1b, 0xff, 0xff, 0xff, 0xff, 0xff, 0xff, 0xff, 0xff]),
        Ok(u64::MAX)
    );
    assert_eq!(decode::<u64>(&[0x1c]), Err(CborError::UnexpectedCode));
    assert_eq!(decode::<u64>(&[0x20]), Err(CborError::UnexpectedCode));
    assert_eq!(decode::<u8>(&[0x18]), Err(CborError::UnexpectedEof));
    assert_eq!(decode::<u8>(&[]), Err(CborError::UnexpectedEof));
}

#[test]
fn signed_targets_read_negative_integers_that_fit() {
    assert_eq!(decode::<i8>(&[0x20]), Ok(-1));
    assert_eq!(decode::<i8>(&[0x37]), Ok(-24));
    assert_eq!(decode::<i8>(&[0x38, 0x7f]), Ok(i8::MIN));
    assert_eq!(decode::<i8>(&[0x38, 0x80]), Err(CborError::LengthOutOfRange));
    assert_eq!(decode::<i8>(&[0x38, 0xff]), Err(CborError::LengthOutOfRange));
    assert_eq!(decode::<i8>(&[0x39, 0x00, 0x01]), Err(CborError::UnexpectedCode));
    assert_eq!(decode::<i8>(&[0x05]), Err(CborError::UnexpectedCode));
    assert_eq!(decode::<i16>(&[0x38, 0xff]), Ok(-256));
    assert_eq!(decode::<i16>(&[0x39, 0x7f, 0xff]), Ok(i16::MIN));
    assert_eq!(decode::<i16>(&[0x39, 0x80, 0x00]), Err(CborError::LengthOutOfRange));
    assert_eq!(decode::<i16>(&[0x3a, 0, 0, 0, 1]), Err(CborError::UnexpectedCode));
    assert_eq!(decode::<i32>(&[0x3a, 0x00, 0x00, 0x00, 0x01]), Ok(-2));
    assert_eq!(decode::<i32>(&[0x3a, 0x7f, 0xff, 0xff, 0xff]), Ok(i32::MIN));
    assert_eq!(decode::<i32>(&[0x3a, 0x80, 0x00, 0x00, 0x00]), Err(CborError::LengthOutOfRange));
    assert_eq!(decode::<i32>(&[0x3b, 0, 0, 0, 0, 0, 0, 0, 1]), Err(CborError::UnexpectedCode));
    assert_eq!(decode::<i64>(&[0x39, 0x01, 0x00]), Ok(-257));
    assert_eq!(
        decode::<i64>(&[0x3b, 0x7f, 0xff, 0xff, 0xff, 0xff, 0xff, 0xff, 0xff]),
        Ok(i64::MIN)
    );
    assert_eq!(
        decode::<i64>(&[0x3b, 0x80, 0, 0, 0, 0, 0, 0, 0]),
        Err(CborError::LengthOutOfRange)
    );
}

#[test]
fn booleans() {
    assert_eq!(decode::<bool>(&[0xf4]), Ok(false));
    assert_eq!(decode::<bool>(&[0xf5]), Ok(true));
    assert_eq!(decode::<bool>(&[0xf6]), Err(CborError::UnexpectedCode));
    assert_eq!(decode::<bool>(&[]), Err(CborError::UnexpectedEof));
    assert_eq!(decode::<Ipld>(&[0xf4]), Ok(Ipld::Bool(false)));
    assert_eq!(decode::<Ipld>(&[0xf5]), Ok(Ipld::Bool(true)));
}

#[test]
fn simple_values_outside_the_grammar_are_refused() {
    for byte in [0xe0u8, 0xf3, 0xf8, 0xf9, 0xfc, 0xfd, 0xfe, 0xff] {
        assert_eq!(decode::<Ipld>(&[byte, 0, 0, 0, 0]), Err(CborError::UnexpectedCode));
    }
    for byte in [0x1cu8, 0x1f, 0x3c, 0x5f, 0x7f, 0x9f, 0xbf] {
        assert_eq!(decode::<Ipld>(&[byte, 0, 0, 0, 0]), Err(CborError::UnexpectedCode));
    }
    for byte in [0xc0u8, 0xd7, 0xd9, 0xda, 0xdb, 0xdf] {
        assert_eq!(decode::<Ipld>(&[byte, 42, 0x58, 0]), Err(CborError::UnexpectedCode));
    }
}

#[test]
fn floats_are_read_as_bits_and_singles_are_widened() {
    let double = 1.1f64;
    let mut bytes = vec![0xfb];
    bytes.extend_from_slice(&double.to_be_bytes());
    assert_eq!(decode::<Ipld>(&bytes), Ok(Ipld::Float(double.to_bits())));
    assert_eq!(decode::<Double>(&bytes), Ok(Double { bits: double.to_bits() }));
    assert_eq!(decode::<Single>(&bytes), Err(CborError::UnexpectedCode));
    let single = -0.15625f32;
    let mut bytes = vec![0xfa];
    bytes.extend_from_slice(&single.to_be_bytes());
    assert_eq!(decode::<Ipld>(&bytes), Ok(Ipld::Float((single as f64).to_bits())));
    assert_eq!(decode::<Double>(&bytes), Ok(Double { bits: (single as f64).to_bits() }));
    assert_eq!(decode::<Single>(&bytes), Ok(Single { bits: single.to_bits() }));
    assert_eq!(decode::<Ipld>(&bytes[..4]), Err(CborError::UnexpectedEof));
    assert_eq!(decode::<Ipld>(&[0xf9, 0x3c, 0x00]), Err(CborError::UnexpectedCode));
}

#[test]
fn links() {
    let cid = sample_cid();
    let bytes = link_bytes(&cid);
    assert_eq!(decode_all(&bytes), (Ok(Ipld::Link(cid)), bytes.len()));
    assert_eq!(decode::<Cid>(&bytes), Ok(cid));
    let mut r = ByteReader::new(&bytes[1..]);
    assert_eq!(read_link(&mut r), Ok(cid));
    assert_eq!(r.remaining(), 0);
}

#[test]
fn other_tags_and_other_payload_headers_are_unknown() {
    let cid = sample_cid();
    let mut bytes = link_bytes(&cid);
    bytes[1] = 43;
    assert_eq!(decode::<Ipld>(&bytes), Err(CborError::UnknownTag));
    assert_eq!(decode::<Cid>(&bytes), Err(CborError::UnknownTag));
    let mut bytes = link_bytes(&cid);
    bytes[2] = 0x59;
    assert_eq!(decode::<Ipld>(&bytes), Err(CborError::UnknownTag));
    bytes[2] = 0x44;
    assert_eq!(decode::<Ipld>(&bytes), Err(CborError::UnknownTag));
    assert_eq!(decode::<Cid>(&[0x58, 0x00]), Err(CborError::UnexpectedCode));
}

#[test]
fn malformed_link_payloads() {
    let cid = sample_cid();
    let bytes = link_bytes(&cid);
    assert_eq!(decode::<Ipld>(&bytes[..bytes.len() - 1]), Err(CborError::UnexpectedEof));
    assert_eq!(decode::<Ipld>(&[0xd8]), Err(CborError::UnexpectedEof));
    assert_eq!(decode::<Ipld>(&[0xd8, 42]), Err(CborError::UnexpectedEof));
    assert_eq!(decode::<Ipld>(&[0xd8, 42, 0x58]), Err(CborError::UnexpectedEof));
    assert_eq!(decode::<Ipld>(&[0xd8, 42, 0x58, 0x00]), Err(CborError::InvalidCid));
    assert_eq!(decode::<Ipld>(&[0xd8, 42, 0x58, 0x02, 0x07, 0x71]), Err(CborError::InvalidCid));
    let mut cut = bytes.clone();
    cut[3] -= 1;
    cut.pop();
    assert_eq!(decode::<Ipld>(&cut), Err(CborError::InvalidCid));
}

#[test]
fn nested_containers() {
    let bytes = [
        0xa2, 0x64, b'l', b'i', b's', b't', 0x83, 0x01, 0x20, 0x82, 0xf6, 0x40, 0x63, b'm', b'a',
        b'p', 0xa1, 0x60, 0xa0, 0x00,
    ];
    let mut inner = StringMap::new();
    inner.insert(String::new(), Ipld::StringMap(StringMap::new()));
    let mut outer = StringMap::new();
    outer.insert(
        "list".to_string(),
        Ipld::List(vec![
            Ipld::Integer(1),
            Ipld::Integer(-1),
            Ipld::List(vec![Ipld::Null, Ipld::Bytes(vec![])]),
        ]),
    );
    outer.insert("map".to_string(), Ipld::StringMap(inner));
    assert_eq!(decode_all(&bytes), (Ok(Ipld::StringMap(outer)), bytes.len() - 1));
}

#[test]
fn a_failure_inside_fails_the_whole() {
    assert_eq!(decode::<Ipld>(&[0x82, 0x01, 0xff]), Err(CborError::UnexpectedCode));
    assert_eq!(decode::<Ipld>(&[0xa1, 0x01, 0x01]), Err(CborError::UnexpectedCode));
    assert_eq!(decode::<Ipld>(&[0xa1, 0x61, b'a', 0xd8, 41]), Err(CborError::UnknownTag));
    assert_eq!(
        decode::<Ipld>(&[0x81, 0x81, 0x81, 0x62, 0xff, 0xff]),
        Err(CborError::InvalidUtf8)
    );
    assert_eq!(decode::<Vec<u8>>(&[0x82, 0x01, 0x19, 0, 1]), Err(CborError::UnexpectedCode));
    assert_eq!(decode::<StringMap<bool>>(&[0xa1, 0x61, b'a', 0x01]), Err(CborError::UnexpectedCode));
}

#[test]
fn of_two_pairs_with_one_key_the_later_stays() {
    let bytes = [0xa3, 0x61, b'k', 0x01, 0x61, b'j', 0x02, 0x61, b'k', 0x03];
    let mut expected = StringMap::new();
    expected.insert("j".to_string(), Ipld::Integer(2));
    expected.insert("k".to_string(), Ipld::Integer(3));
    let decoded = decode::<Ipld>(&bytes).unwrap();
    assert_eq!(decoded, Ipld::StringMap(expected));
    match decoded {
        Ipld::StringMap(map) => {
            assert_eq!(map.len(), 2);
            assert_eq!(map.get("k"), Some(&Ipld::Integer(3)));
        }
        other => panic!("not a map: {:?}", other),
    }
    let typed = decode::<StringMap<u8>>(&bytes).unwrap();
    assert_eq!(typed.len(), 2);
    assert_eq!(typed.get("k"), Some(&3));
    assert_eq!(typed.get("j"), Some(&2));
}

#[test]
fn maps_are_held_in_key_order_whatever_the_order_on_the_wire() {
    let bytes = [0xa3, 0x62, b'b', b'b', 0x01, 0x61, b'c', 0x02, 0x61, b'a', 0x03];
    let map = decode::<StringMap<u8>>(&bytes).unwrap();
    let keys: Vec<&str> = (0..map.len()).map(|i| map.entry(i).0.as_str()).collect();
    assert_eq!(keys, vec!["a", "bb", "c"]);
    let values: Vec<u8> = (0..map.len()).map(|i| *map.entry(i).1).collect();
    assert_eq!(values, vec![3, 1, 2]);
}

#[test]
fn typed_lists_and_maps() {
    let mut r = ByteReader::new(&[0x01, 0x18, 0x64, 0x17]);
    assert_eq!(read_list::<u8>(&mut r, 3), Ok(vec![1, 100, 23]));
    let mut r = ByteReader::new(&[0x01, 0x02]);
    assert_eq!(read_list::<u8>(&mut r, 3), Err(CborError::UnexpectedEof));
    let mut r = ByteReader::new(&[]);
    assert_eq!(read_list::<Ipld>(&mut r, 0), Ok(vec![]));
    let mut r = ByteReader::new(&[0x61, b'x', 0xf5, 0x61, b'y', 0xf4]);
    let map = read_map::<bool>(&mut r, 2).unwrap();
    assert_eq!(map.get("x"), Some(&true));
    assert_eq!(map.get("y"), Some(&false));
    assert_eq!(map.get("z"), None);
    assert_eq!(
        decode::<Vec<Vec<String>>>(&[0x82, 0x81, 0x61, b'a', 0x80]),
        Ok(vec![vec!["a".to_string()], vec![]])
    );
    assert_eq!(decode::<Vec<i8>>(&[0x82, 0x20, 0x38, 0x7f]), Ok(vec![-1, -128]));
    assert_eq!(decode::<Vec<u8>>(&[0x41, 0x01]), Err(CborError::UnexpectedCode));
    assert_eq!(decode::<String>(&[0x41, 0x01]), Err(CborError::UnexpectedCode));
}
