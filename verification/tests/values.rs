use ipld_dag::float::{widen_single, Double, Single};
use ipld_dag::map::{rank_bytes, Rank, StringMap};
use ipld_dag::path::{parse_index, Path};

#[test]
fn widening_keeps_the_number() {
    let samples = [
        0.0f32,
        -0.0,
        1.0,
        -1.0,
        1.5,
        -0.15625,
        0.1,
        3.4028235e38,
        -3.4028235e38,
        1.17549435e-38,
        1.17549421e-38,
        -1.17549421e-38,
        1e-40,
        1.4e-45,
        -1.4e-45,
        f32::INFINITY,
        f32::NEG_INFINITY,
        f32::EPSILON,
        16777216.0,
        std::f32::consts::PI,
    ];
    for x in samples {
        assert_eq!(widen_single(x.to_bits()), (x as f64).to_bits(), "{}", x);
    }
    for exponent in 0..255u32 {
        for fraction in [0u32, 1, 2, 3, 0x40_0000, 0x40_0001, 0x55_5555, 0x7f_ffff] {
            for sign in [0u32, 1] {
                let bits = (sign << 31) | (exponent << 23) | fraction;
                let x = f32::from_bits(bits);
                assert_eq!(widen_single(bits), (x as f64).to_bits(), "{:#x}", bits);
            }
        }
    }
    for shift in 0..23 {
        let bits = 1u32 << shift;
        assert_eq!(widen_single(bits), (f32::from_bits(bits) as f64).to_bits());
        let bits = (1u32 << shift) | 1;
        assert_eq!(widen_single(bits), (f32::from_bits(bits) as f64).to_bits());
    }
}

#[test]
fn widening_a_nan_gives_a_quiet_nan_with_the_same_sign() {
    for bits in [0x7fc0_0000u32, 0x7f80_0001, 0xffc0_0000, 0xff80_0001, 0x7fff_ffff] {
        let wide = widen_single(bits);
        assert!(f64::from_bits(wide).is_nan());
        assert_eq!(wide >> 63, (bits >> 31) as u64);
        assert_eq!((wide >> 51) & 1, 1);
    }
    assert_eq!(widen_single(0x7f80_0001), 0x7ff8_0000_2000_0000);
    assert_eq!(widen_single(0xffc0_0000), 0xfff8_0000_0000_0000);
}

#[test]
fn float_bits_are_plain_values() {
    assert_eq!(Single { bits: 1 }, Single { bits: 1 });
    assert_ne!(Double { bits: 0 }, Double { bits: (-0.0f64).to_bits() });
}

#[test]
fn byte_order_is_lexicographic() {
    assert!(matches!(rank_bytes(b"", b""), Rank::Same));
    assert!(matches!(rank_bytes(b"", b"a"), Rank::Below));
    assert!(matches!(rank_bytes(b"a", b""), Rank::Above));
    assert!(matches!(rank_bytes(b"ab", b"b"), Rank::Below));
    assert!(matches!(rank_bytes(b"b", b"ab"), Rank::Above));
    assert!(matches!(rank_bytes(b"abc", b"abd"), Rank::Below));
    assert!(matches!(rank_bytes(b"abc", b"abc"), Rank::Same));
    assert!(matches!(rank_bytes(b"abc", b"ab"), Rank::Above));
    assert!(matches!(rank_bytes(&[0xff], &[0x00, 0x00]), Rank::Above));
}

#[test]
fn map_keeps_keys_sorted_and_unique() {
    let mut map = StringMap::new();
    assert_eq!(map.len(), 0);
    assert_eq!(map.insert("m".to_string(), 1), None);
    assert_eq!(map.insert("a".to_string(), 2), None);
    assert_eq!(map.insert("z".to_string(), 3), None);
    assert_eq!(map.insert("mm".to_string(), 4), None);
    assert_eq!(map.insert("\u{e9}".to_string(), 5), None);
    assert_eq!(map.insert("m".to_string(), 6), Some(1));
    assert_eq!(map.len(), 5);
    let keys: Vec<String> = (0..map.len()).map(|i| map.entry(i).0.clone()).collect();
    let mut sorted = keys.clone();
    sorted.sort();
    assert_eq!(keys, sorted);
    assert_eq!(keys, vec!["a", "m", "mm", "z", "\u{e9}"]);
    assert_eq!(map.get("m"), Some(&6));
    assert_eq!(map.get("mm"), Some(&4));
    assert_eq!(map.get("b"), None);
    assert_eq!(map.get(""), None);
    assert!(map.contains_key("z"));
    assert!(!map.contains_key("zz"));
    let copy = map.clone();
    assert_eq!(copy, map);
    assert_eq!(copy.into_value("\u{e9}"), Some(5));
    assert_eq!(map.into_value("nothing"), None);
}

#[test]
fn map_with_many_keys() {
    let mut map = StringMap::new();
    for i in (0..200u32).rev() {
        map.insert(format!("{:03}", (i * 37) % 200), i);
    }
    assert_eq!(map.len(), 200);
    for i in 0..200u32 {
        assert_eq!(map.entry(i as usize).0, &format!("{:03}", i));
        assert_eq!(map.get(&format!("{:03}", (i * 37) % 200)), Some(&i));
    }
}

#[test]
fn paths_split_on_slashes_and_drop_empty_segments() {
    let segments = |text: &str| {
        let path = Path::parse(text);
        (0..path.len()).map(|i| path.segment(i).to_string()).collect::<Vec<String>>()
    };
    assert_eq!(segments("root/0/child/a"), vec!["root", "0", "child", "a"]);
    assert_eq!(segments(""), Vec::<String>::new());
    assert_eq!(segments("/"), Vec::<String>::new());
    assert_eq!(segments("a"), vec!["a"]);
    assert_eq!(segments("/a//b/"), vec!["a", "b"]);
    assert_eq!(segments("\u{e9}/\u{1f600}x"), vec!["\u{e9}", "\u{1f600}x"]);
    assert_eq!(Path::parse("///"), Path::new());
    assert_eq!(Path::new().len(), 0);
}

#[test]
fn list_indices() {
    assert_eq!(parse_index("0"), Some(0));
    assert_eq!(parse_index("7"), Some(7));
    assert_eq!(parse_index("007"), Some(7));
    assert_eq!(parse_index("+12"), Some(12));
    assert_eq!(parse_index("1234567890"), Some(1234567890));
    assert_eq!(parse_index(&usize::MAX.to_string()), Some(usize::MAX));
    assert_eq!(parse_index(&format!("{}0", usize::MAX)), None);
    assert_eq!(parse_index("18446744073709551616"), "18446744073709551616".parse::<usize>().ok());
    assert_eq!(parse_index("99999999999999999999999"), None);
    assert_eq!(parse_index(""), None);
    assert_eq!(parse_index("+"), None);
    assert_eq!(parse_index("-1"), None);
    assert_eq!(parse_index("++1"), None);
    assert_eq!(parse_index("1+"), None);
    assert_eq!(parse_index(" 1"), None);
    assert_eq!(parse_index("1 "), None);
    assert_eq!(parse_index("a"), None);
    assert_eq!(parse_index("1a"), None);
    assert_eq!(parse_index("\u{661}"), None);
    for text in ["0", "+0", "42", "0042", "x", "", "+", "4 2", "-0"] {
        assert_eq!(parse_index(text), text.parse::<usize>().ok(), "{:?}", text);
    }
}
