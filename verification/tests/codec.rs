use anondb::key::LexicographicKey;
use anondb::lexicographic::{encode_be, filled, AssertSize, SerializeLexicographic};
use anondb::order::{bytes_eq, bytes_le, bytes_lt};
use anondb::sort::SortDirection;

fn ordered<T: SerializeLexicographic + PartialOrd>(values: &[T]) {
    for x in values {
        for y in values {
            let (ex, ey) = (x.serialize_lex(), y.serialize_lex());
            assert_eq!(bytes_lt(&ex, &ey), x < y);
            assert_eq!(bytes_eq(&ex, &ey), x == y);
            assert_eq!(ex.cmp(&ey), x.partial_cmp(y).unwrap());
        }
        let e = x.serialize_lex();
        assert!(bytes_le(&T::min(), &e));
        if let Some(max) = T::max() {
            assert!(bytes_le(&e, &max));
        }
        if let Some(width) = T::fixed_width() {
            assert_eq!(e.len(), width as usize);
        }
    }
}

#[test]
fn encoding_preserves_the_order_of_integers() {
    ordered(&[0u8, 1, 2, 127, 128, 254, 255]);
    ordered(&[0u16, 1, 255, 256, 257, 65534, 65535]);
    ordered(&[0u32, 1, 2, 100, 101, 65535, 65536, u32::MAX]);
    ordered(&[0u64, 1, 255, 256, 1 << 32, u64::MAX - 1, u64::MAX]);
    ordered(&[0u128, 1, 1 << 64, (1 << 64) + 1, u128::MAX - 1, u128::MAX]);
}

#[test]
fn encoding_preserves_the_order_of_other_types() {
    ordered(&[false, true]);
    ordered(&[
        "".to_string(),
        "a".to_string(),
        "ab".to_string(),
        "ac".to_string(),
        "b".to_string(),
        "\u{0}".to_string(),
        "a\u{0}b".to_string(),
        "é".to_string(),
    ]);
    ordered(&["", "a", "ab", "b", "zz"]);
    ordered(&[[0u8, 0], [0, 1], [1, 0], [255, 255]]);
    ordered(&[None, Some(0u16), Some(1), Some(u16::MAX)]);
    ordered(&[None, Some("".to_string()), Some("a".to_string())]);
}

fn rand_utf8(len: usize) -> String {
    vec![char::default(); len]
        .into_iter()
        .map(|_| rand::random::<char>())
        .collect()
}

#[test]
fn should_sort_strings() {
    // test variable length strings
    for _ in 0..100 {
        let s0 = rand_utf8(rand::random::<u16>().into());
        let s1 = rand_utf8(rand::random::<u16>().into());
        let s0_bytes = s0.serialize_lex();
        let s1_bytes = s1.serialize_lex();
        assert_eq!(s0_bytes.cmp(&s1_bytes), s0.cmp(&s1));
    }
    // test equal length strings
    for _ in 0..100 {
        let len: usize = rand::random::<u16>().into();
        let s0 = rand_utf8(len);
        let s1 = rand_utf8(len);
        let s0_bytes = s0.serialize_lex();
        let s1_bytes = s1.serialize_lex();
        assert_eq!(s0_bytes.cmp(&s1_bytes), s0.cmp(&s1));
    }
}

#[test]
fn strings_of_every_encoded_width_sort_as_their_text() {
    // one, two, three and four bytes to the character
    let texts = ["", "a", "ab", "b", "\u{7f}", "\u{80}", "\u{7ff}", "\u{800}", "\u{ffff}", "\u{10000}", "\u{10ffff}", "a\u{10000}", "a\u{800}"];
    for s0 in texts {
        for s1 in texts {
            assert_eq!(s0.serialize_lex().cmp(&s1.serialize_lex()), s0.cmp(s1));
        }
    }
}

#[test]
fn encodings_have_the_documented_shape() {
    assert_eq!(true.serialize_lex(), vec![1]);
    assert_eq!(false.serialize_lex(), vec![0]);
    assert_eq!(<bool as SerializeLexicographic>::max(), Some(vec![1]));
    assert_eq!("ab".to_string().serialize_lex(), vec![b'a', b'b', 0]);
    assert_eq!("ab".serialize_lex(), vec![b'a', b'b', 0]);
    assert_eq!(<String as SerializeLexicographic>::min(), vec![0]);
    assert_eq!(<String as SerializeLexicographic>::max(), None);
    assert_eq!(<String as SerializeLexicographic>::fixed_width(), None);
    assert_eq!([7u8, 8, 9].serialize_lex(), vec![7, 8, 9]);
    assert_eq!(<[u8; 3] as SerializeLexicographic>::min(), vec![0, 0, 0]);
    assert_eq!(<[u8; 3] as SerializeLexicographic>::max(), Some(vec![255, 255, 255]));
    assert_eq!(<[u8; 3] as SerializeLexicographic>::fixed_width(), Some(3));
    assert!(AssertSize::<3>::ok());
    assert_eq!(None::<u8>.serialize_lex(), vec![0]);
    assert_eq!(Some(5u8).serialize_lex(), vec![1, 5]);
    assert_eq!(<Option<u8> as SerializeLexicographic>::min(), vec![0]);
    assert_eq!(<Option<u8> as SerializeLexicographic>::max(), Some(vec![1, 255]));
    assert_eq!(<Option<String> as SerializeLexicographic>::max(), None);
    assert_eq!(<u8 as SerializeLexicographic>::fixed_width(), Some(1));
    assert_eq!(<u16 as SerializeLexicographic>::fixed_width(), Some(2));
    assert_eq!(<u128 as SerializeLexicographic>::fixed_width(), Some(16));
    assert_eq!(encode_be(0x0102, 3), vec![0, 1, 2]);
    assert_eq!(filled(9, 2), vec![9, 9]);
}

#[test]
fn byte_order_is_lexicographic() {
    assert!(bytes_lt(b"", b"a"));
    assert!(bytes_lt(b"a", b"ab"));
    assert!(bytes_lt(b"ab", b"b"));
    assert!(!bytes_lt(b"b", b"ab"));
    assert!(!bytes_lt(b"a", b"a"));
    assert!(bytes_le(b"a", b"a"));
    assert!(!bytes_le(b"b", b"a"));
    assert!(bytes_eq(b"", b""));
    assert!(!bytes_eq(b"a", b"ab"));
}

#[test]
fn keys_are_joined_by_separators() {
    let mut key = LexicographicKey::default();
    assert!(key.is_empty());
    key.append_key_slice(&[5, 6]);
    assert_eq!(key.bytes, vec![5, 6]);
    key.append_key_slice(&[7]);
    assert_eq!(key.bytes, vec![5, 6, 0, 7]);
    key.append_separator();
    key.append_upper_inclusive_byte();
    assert_eq!(key.to_vec(), vec![5, 6, 0, 7, 0, 1]);
    assert!(!key.is_empty());
    assert_eq!(key.take(), vec![5, 6, 0, 7, 0, 1]);
    assert!(key.is_empty());
    assert_eq!(key.take(), Vec::<u8>::new());
}

#[test]
fn upper_inclusive_bound_lies_between_extensions_and_other_keys() {
    let prefix = vec![b'a', 0];
    let mut upper = prefix.clone();
    upper.push(1);
    let mut extension = prefix.clone();
    extension.extend_from_slice(&[0, 255, 255]);
    let mut other = prefix.clone();
    other.extend_from_slice(&[2]);
    assert!(bytes_lt(&prefix, &upper));
    assert!(bytes_lt(&extension, &upper));
    assert!(bytes_lt(&upper, &other));
}

#[test]
fn sort_directions_have_names() {
    assert_eq!(SortDirection::default(), SortDirection::Asc);
    assert_eq!(SortDirection::Asc.to_string(), "asc");
    assert_eq!(SortDirection::Desc.to_string(), "desc");
}

#[test]
fn unsigned_integers_are_big_endian() {
    assert_eq!(0x0102u16.serialize_lex(), vec![1, 2]);
    assert_eq!(0x01020304u32.serialize_lex(), vec![1, 2, 3, 4]);
    assert_eq!(1u64.serialize_lex(), vec![0, 0, 0, 0, 0, 0, 0, 1]);
    assert_eq!(u128::MAX.serialize_lex(), vec![255u8; 16]);
    assert_eq!(<u32 as SerializeLexicographic>::min(), vec![0u8; 4]);
    assert_eq!(<u32 as SerializeLexicographic>::max(), Some(vec![255u8; 4]));
    assert_eq!(<u64 as SerializeLexicographic>::fixed_width(), Some(8));
    assert!(bytes_lt(&255u32.serialize_lex(), &256u32.serialize_lex()));
}
