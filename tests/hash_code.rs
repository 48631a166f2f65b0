use java_utils::object::{hash_elements, hash_f32_bits, hash_f64_bits};
use java_utils::HashCode;

const STRINGS_TO_TEST: [(&str, i32); 4] = [
    ("", 0),
    ("hello", 99162322),
    ("Þɪs ɪn jʉ͡u tiː ɛf eɪt", 1666277289),
    ("Здразтвуйте", 1364145635),
];

#[test]
fn test_strings() {
    for (s, n) in STRINGS_TO_TEST.iter() {
        assert_eq!(s.hash_code(), *n, "string {:?}", s);
    }
}

#[test]
fn test_ints() {
    // java.lang.Byte
    assert_eq!((127u8).hash_code(), 127);
    assert_eq!((-1i8).hash_code(), -1);
    assert_eq!((255u8).hash_code(), -1, "{}", (255u8).hash_code());
    // java.lang.Short
    assert_eq!((32767i16).hash_code(), 32767);
    assert_eq!((-1i16).hash_code(), -1);
    assert_eq!((65535u16).hash_code(), -1);
    // java.lang.Integer
    assert_eq!((2_147_483_647i32).hash_code(), 2_147_483_647);
    assert_eq!((-1i32).hash_code(), -1);
    assert_eq!((4_294_967_295u32).hash_code(), -1);
    // java.lang.Long
    assert_eq!((9_223_372_036_854_775_807i64).hash_code(), -2_147_483_648);
    assert_eq!((-1i64).hash_code(), 0);
    assert_eq!((18_446_744_073_709_551_615u64).hash_code(), 0);
}

#[test]
fn test_bools() {
    assert_eq!(true.hash_code(), 1231);
    assert_eq!(false.hash_code(), 1237);
}

#[test]
fn test_floats() {
    assert_eq!(hash_f32_bits(4124.012f32.to_bits()), 1_166_073_881);
    assert_eq!(hash_f64_bits(4_124.041_241_235_123f64.to_bits()), -830_930_928);
    assert_eq!(hash_f32_bits(f32::NAN.to_bits()), 2_143_289_344);
    assert_eq!(hash_f64_bits(f64::NAN.to_bits()), 2_146_959_360);
    assert_eq!(hash_f32_bits(f32::NEG_INFINITY.to_bits()), -8_388_608);
    assert_eq!(hash_f64_bits(f64::NEG_INFINITY.to_bits()), -1_048_576);
}

#[test]
fn nan_payloads_are_canonicalised() {
    assert_eq!(hash_f32_bits(0x7F80_0001), 2_143_289_344);
    assert_eq!(hash_f32_bits(0xFFFF_FFFF), 2_143_289_344);
    assert_eq!(hash_f64_bits(0x7FF0_0000_0000_0001), 2_146_959_360);
    assert_eq!(hash_f64_bits(0xFFF8_0000_0000_0000), 2_146_959_360);
    // Infinity is no NaN and keeps its bits.
    assert_eq!(hash_f32_bits(0x7F80_0000), 0x7F80_0000);
}

#[test]
fn empty_string_hashes_to_zero_but_not_only_it() {
    assert_eq!("".hash_code(), 0);
    assert_eq!("\0".hash_code(), 0);
    assert_eq!(String::from("hello").hash_code(), 99_162_322);
    assert_eq!("ab".hash_code(), 3105);
}

#[test]
fn unsigned_byte_hashes_as_signed_byte() {
    for b in 0u8..=255 {
        assert_eq!(b.hash_code(), (b as i8).hash_code());
    }
}

#[test]
fn hash_is_pure() {
    let v = vec![String::from("a"), String::from("bc")];
    assert_eq!(v.hash_code(), v.hash_code());
    assert_eq!("hello".hash_code(), "hello".hash_code());
}

#[test]
fn order_of_elements_matters() {
    assert_eq!(vec![1i32, 2].hash_code(), 994);
    assert_eq!(vec![2i32, 1].hash_code(), 1024);
    let empty: Vec<i32> = Vec::new();
    assert_eq!(empty.hash_code(), 1);
    assert_eq!(hash_elements(&[1i32, 2][..]), 994);
    let s: &[i32] = &[2, 1];
    assert_eq!(s.hash_code(), 1024);
}

#[test]
fn wrappers_pass_hash_through() {
    assert_eq!(Box::new(7i32).hash_code(), 7);
    assert_eq!((&&'a').hash_code(), 97);
    let mut x = 5i64;
    assert_eq!((&mut x).hash_code(), 5);
    assert_eq!(Some(&true).hash_code(), 1231);
    let none: Option<&bool> = None;
    assert_eq!(none.hash_code(), 0);
    assert_eq!(().hash_code(), 0);
}

#[test]
fn pairs_hash_to_xor() {
    assert_eq!((3i32, 5i32).hash_code(), 6);
    assert_eq!((true, false).hash_code(), 1231 ^ 1237);
}

#[test]
fn long_words_are_folded() {
    assert_eq!(0x1_0000_0001u64.hash_code(), 0);
    assert_eq!(0x1_0000_0000i64.hash_code(), 1);
    assert_eq!((-1isize).hash_code(), if usize::BITS == 64 { 0 } else { -1 });
    assert_eq!(usize::MAX.hash_code(), if usize::BITS == 64 { 0 } else { -1 });
    assert_eq!('Ж'.hash_code(), 0x416);
}
