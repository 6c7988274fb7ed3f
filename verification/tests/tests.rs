use based::{Base, BaseError, DuplicateCharacterError, Integer, NumeralSystem, StrError};

const BASE57: &str = "23456789abcdefghijkmnpqrstuvwxyzABCDEFGHIJKLMNPQRSTUVWXYZ";

fn base57() -> Base {
    Base::new(BASE57).unwrap()
}

fn duplicate(r: Result<Base, BaseError>) -> DuplicateCharacterError {
    match r {
        Err(BaseError::DuplicateCharacter(e)) => e,
        Err(BaseError::Empty) => panic!("the string is empty"),
        Ok(_) => panic!("the string has no duplicate"),
    }
}

#[test]
fn check() {
    let base = base57();
    let val: i8 = -1;

    assert_eq!(base.encode(val).unwrap(), "6v");

    let failure: Result<i8, StrError> = base.decode("6v");
    assert!(failure.is_err());
}

#[test]
fn check_usize() {
    let base = base57();
    let val: usize = 60;
    assert_eq!(base.encode(val).unwrap(), "35");
    let target: usize = base.decode("35").unwrap();
    assert_eq!(target, val);
    let failure: Result<usize, StrError> = base.decode("35[");
    assert!(failure.is_err());
}

#[test]
fn check_u8() {
    let base = base57();
    let val: u8 = 60;
    assert_eq!(base.encode(val).unwrap(), "35");
    let target: u8 = base.decode("35").unwrap();
    assert_eq!(target, val);
    let failure: Result<u8, StrError> = base.decode("35[");
    assert!(failure.is_err());
}

#[test]
fn check_u16() {
    let base = base57();
    let val: u16 = 60;
    assert_eq!(base.encode(val).unwrap(), "35");
    let target: u16 = base.decode("35").unwrap();
    assert_eq!(target, val);
    let failure: Result<u16, StrError> = base.decode("35[");
    assert!(failure.is_err());
}

#[test]
fn check_u32() {
    let base = base57();
    let val: u32 = 60;
    assert_eq!(base.encode(val).unwrap(), "35");
    let target: u32 = base.decode("35").unwrap();
    assert_eq!(target, val);
    let failure: Result<u32, StrError> = base.decode("35[");
    assert!(failure.is_err());
}

#[test]
fn check_u64() {
    let base = base57();
    let val: u64 = 60;
    assert_eq!(base.encode(val).unwrap(), "35");
    let target: u64 = base.decode("35").unwrap();
    assert_eq!(target, val);
    let failure: Result<u64, StrError> = base.decode("35[");
    assert!(failure.is_err());
}

#[test]
fn check_u128() {
    let base = base57();
    let val: u128 = 60;
    assert_eq!(base.encode(val).unwrap(), "35");
    let target: u128 = base.decode("35").unwrap();
    assert_eq!(target, val);
    let failure: Result<u128, StrError> = base.decode("35[");
    assert!(failure.is_err());
}

#[test]
fn check_isize() {
    let base = base57();
    let val: isize = 60;
    assert_eq!(base.encode(val).unwrap(), "35");
    let target: isize = base.decode("35").unwrap();
    assert_eq!(target, val);
    let failure: Result<isize, StrError> = base.decode("35[");
    assert!(failure.is_err());
}

#[test]
fn check_i8() {
    let base = base57();
    let val: i8 = 60;
    assert_eq!(base.encode(val).unwrap(), "35");
    let target: i8 = base.decode("35").unwrap();
    assert_eq!(target, val);
    let failure: Result<i8, StrError> = base.decode("35[");
    assert!(failure.is_err());
}

#[test]
fn check_i16() {
    let base = base57();
    let val: i16 = 60;
    assert_eq!(base.encode(val).unwrap(), "35");
    let target: i16 = base.decode("35").unwrap();
    assert_eq!(target, val);
    let failure: Result<i16, StrError> = base.decode("35[");
    assert!(failure.is_err());
}

#[test]
fn check_i32() {
    let base = base57();
    let val: i32 = 60;
    assert_eq!(base.encode(val).unwrap(), "35");
    let target: i32 = base.decode("35").unwrap();
    assert_eq!(target, val);
    let failure: Result<i32, StrError> = base.decode("35[");
    assert!(failure.is_err());
}

#[test]
fn check_i64() {
    let base = base57();
    let val: i64 = 60;
    assert_eq!(base.encode(val).unwrap(), "35");
    let target: i64 = base.decode("35").unwrap();
    assert_eq!(target, val);
    let failure: Result<i64, StrError> = base.decode("35[");
    assert!(failure.is_err());
}

#[test]
fn check_i128() {
    let base = base57();
    let val: i128 = 60;
    assert_eq!(base.encode(val).unwrap(), "35");
    let target: i128 = base.decode("35").unwrap();
    assert_eq!(target, val);
    let failure: Result<i128, StrError> = base.decode("35[");
    assert!(failure.is_err());
}

#[test]
fn unknown_char_is_carried() {
    let base = base57();
    let r: Result<u32, StrError> = base.decode("35[");
    assert!(matches!(r, Err(StrError::UnknownChar('['))));
    let r: Result<u32, StrError> = base.decode("[35");
    assert!(matches!(r, Err(StrError::UnknownChar('['))));
    let r: Result<u32, StrError> = base.decode("3]5[");
    assert!(matches!(r, Err(StrError::UnknownChar(']'))));
    let r: Result<i128, StrError> = base.decode("0");
    assert!(matches!(r, Err(StrError::UnknownChar('0'))));
}

#[test]
fn overflowing_byte_pattern() {
    let base = base57();
    let r: Result<u8, StrError> = base.decode("6v");
    assert_eq!(r.unwrap(), 255);
    let r: Result<i8, StrError> = base.decode("6v");
    assert!(matches!(r, Err(StrError::Try(_))));
    let r: Result<i16, StrError> = base.decode("6v");
    assert_eq!(r.unwrap(), 255);
}

#[test]
fn duplicate_is_named_with_both_positions() {
    let e = duplicate(Base::new("abcdbe"));
    assert_eq!((e.dup, e.first, e.second), ('b', 1, 4));
    let e = duplicate(Base::new("aa"));
    assert_eq!((e.dup, e.first, e.second), ('a', 0, 1));
    let e = duplicate(Base::new("xyzzyx"));
    assert_eq!((e.dup, e.first, e.second), ('z', 2, 3));
    let e = duplicate(Base::new("\u{e9}t\u{e9}"));
    assert_eq!((e.dup, e.first, e.second), ('\u{e9}', 0, 2));
}

#[test]
fn parse_makes_the_same_base() {
    let base: Base = "0123456789abcdef".parse().unwrap();
    assert_eq!(base.encode(10u8).unwrap(), "a");
    assert_eq!(base.to_string(), "0123456789abcdef");
    let e = duplicate("010".parse::<Base>());
    assert_eq!((e.dup, e.first, e.second), ('0', 0, 2));
}

#[test]
fn to_string_and_radix_give_the_digits_back() {
    let base = base57();
    assert_eq!(base.to_string(), BASE57);
    assert_eq!(base.radix(), 57);
}

#[test]
fn empty_alphabet_is_rejected() {
    assert!(matches!(Base::new(""), Err(BaseError::Empty)));
    assert!(matches!("".parse::<Base>(), Err(BaseError::Empty)));
    assert!(Base::new("a").is_ok());
}

#[test]
fn hexadecimal() {
    let hex = Base::new("0123456789abcdef").unwrap();
    let val: usize = hex.decode("10").unwrap();
    assert_eq!(val, 16);
    assert_eq!(hex.encode(16usize).unwrap(), "10");
    assert_eq!(hex.encode(0xdead_beefu32).unwrap(), "deadbeef");
    assert_eq!(hex.encode(u16::MAX).unwrap(), "ffff");
    assert_eq!(hex.encode(u64::MAX).unwrap(), "ffffffffffffffff");
    let val: u64 = hex.decode("ffffffffffffffff").unwrap();
    assert_eq!(val, u64::MAX);
    let r: Result<u64, StrError> = hex.decode("10000000000000000");
    assert!(matches!(r, Err(StrError::Try(_))));
}

#[test]
fn zero_is_the_first_digit() {
    let base = base57();
    assert_eq!(base.encode(0u8).unwrap(), "2");
    assert_eq!(base.encode(0u16).unwrap(), "2");
    assert_eq!(base.encode(0u32).unwrap(), "2");
    assert_eq!(base.encode(0u64).unwrap(), "2");
    assert_eq!(base.encode(0u128).unwrap(), "2");
    assert_eq!(base.encode(0usize).unwrap(), "2");
    assert_eq!(base.encode(0i8).unwrap(), "2");
    assert_eq!(base.encode(0i16).unwrap(), "2");
    assert_eq!(base.encode(0i32).unwrap(), "2");
    assert_eq!(base.encode(0i64).unwrap(), "2");
    assert_eq!(base.encode(0i128).unwrap(), "2");
    assert_eq!(base.encode(0isize).unwrap(), "2");
}

#[test]
fn empty_string_reads_as_zero() {
    let base = base57();
    let v: u8 = base.decode("").unwrap();
    assert_eq!(v, 0);
    let v: i128 = base.decode("").unwrap();
    assert_eq!(v, 0);
    let unary = Base::new("|").unwrap();
    let v: u32 = unary.decode("").unwrap();
    assert_eq!(v, 0);
}

#[test]
fn single_digit_system() {
    let unary = Base::new("|").unwrap();
    assert_eq!(unary.radix(), 1);
    assert_eq!(unary.encode(0u64).unwrap(), "|");
    assert_eq!(unary.encode(0i8).unwrap(), "|");
    let v: u8 = unary.decode("||||").unwrap();
    assert_eq!(v, 0);
}

#[test]
fn wide_values_are_written_in_128_bits() {
    let hex = Base::new("0123456789abcdef").unwrap();
    assert_eq!(hex.encode(u128::MAX).unwrap(), "f".repeat(32));
    assert_eq!(hex.encode(1u128 << 64).unwrap(), format!("1{}", "0".repeat(16)));
    assert_eq!(hex.encode(0x1234_5678_9abc_def0_0fed_cba9_8765_4321u128).unwrap(), "123456789abcdef00fedcba987654321");
    let v: u128 = hex.decode("123456789abcdef00fedcba987654321").unwrap();
    assert_eq!(v, 0x1234_5678_9abc_def0_0fed_cba9_8765_4321u128);
    let v: u128 = hex.decode(&"f".repeat(32)).unwrap();
    assert_eq!(v, u128::MAX);
    let dec = Base::new("0123456789").unwrap();
    assert_eq!(dec.encode(u128::MAX).unwrap(), "340282366920938463463374607431768211455");
    let v: u128 = dec.decode("340282366920938463463374607431768211455").unwrap();
    assert_eq!(v, u128::MAX);
}

#[test]
fn numbers_above_128_bits_are_out_of_range() {
    let hex = Base::new("0123456789abcdef").unwrap();
    let r: Result<u128, StrError> = hex.decode(&format!("1{}", "0".repeat(32)));
    assert!(matches!(r, Err(StrError::Try(_))));
    let dec = Base::new("0123456789").unwrap();
    let r: Result<u128, StrError> = dec.decode("340282366920938463463374607431768211456");
    assert!(matches!(r, Err(StrError::Try(_))));
    let r: Result<i128, StrError> = dec.decode("340282366920938463463374607431768211456");
    assert!(matches!(r, Err(StrError::Try(_))));
    let r: Result<u8, StrError> = dec.decode(&"9".repeat(100));
    assert!(matches!(r, Err(StrError::Try(_))));
}

#[test]
fn unknown_char_wins_over_range() {
    let dec = Base::new("0123456789").unwrap();
    let r: Result<u8, StrError> = dec.decode("256x");
    assert!(matches!(r, Err(StrError::UnknownChar('x'))));
    let r: Result<u128, StrError> = dec.decode(&format!("{}x9", "9".repeat(60)));
    assert!(matches!(r, Err(StrError::UnknownChar('x'))));
}

#[test]
fn range_limits_of_each_width() {
    let dec = Base::new("0123456789").unwrap();
    let v: u8 = dec.decode("255").unwrap();
    assert_eq!(v, u8::MAX);
    assert!(matches!(NumeralSystem::<u8>::decode(&dec, "256"), Err(StrError::Try(_))));
    let v: i8 = dec.decode("127").unwrap();
    assert_eq!(v, i8::MAX);
    assert!(matches!(NumeralSystem::<i8>::decode(&dec, "128"), Err(StrError::Try(_))));
    let v: u16 = dec.decode("65535").unwrap();
    assert_eq!(v, u16::MAX);
    assert!(matches!(NumeralSystem::<u16>::decode(&dec, "65536"), Err(StrError::Try(_))));
    let v: i16 = dec.decode("32767").unwrap();
    assert_eq!(v, i16::MAX);
    assert!(matches!(NumeralSystem::<i16>::decode(&dec, "32768"), Err(StrError::Try(_))));
    let v: u32 = dec.decode("4294967295").unwrap();
    assert_eq!(v, u32::MAX);
    assert!(matches!(NumeralSystem::<u32>::decode(&dec, "4294967296"), Err(StrError::Try(_))));
    let v: i32 = dec.decode("2147483647").unwrap();
    assert_eq!(v, i32::MAX);
    assert!(matches!(NumeralSystem::<i32>::decode(&dec, "2147483648"), Err(StrError::Try(_))));
    let v: u64 = dec.decode("18446744073709551615").unwrap();
    assert_eq!(v, u64::MAX);
    assert!(matches!(NumeralSystem::<u64>::decode(&dec, "18446744073709551616"), Err(StrError::Try(_))));
    let v: i64 = dec.decode("9223372036854775807").unwrap();
    assert_eq!(v, i64::MAX);
    assert!(matches!(NumeralSystem::<i64>::decode(&dec, "9223372036854775808"), Err(StrError::Try(_))));
    let v: i128 = dec.decode("170141183460469231731687303715884105727").unwrap();
    assert_eq!(v, i128::MAX);
    assert!(matches!(
        NumeralSystem::<i128>::decode(&dec, "170141183460469231731687303715884105728"),
        Err(StrError::Try(_))
    ));
    let v: usize = dec.decode(&usize::MAX.to_string()).unwrap();
    assert_eq!(v, usize::MAX);
    let v: isize = dec.decode(&isize::MAX.to_string()).unwrap();
    assert_eq!(v, isize::MAX);
    assert!(matches!(
        NumeralSystem::<isize>::decode(&dec, &usize::MAX.to_string()),
        Err(StrError::Try(_))
    ));
}

#[test]
fn signed_values_are_written_by_their_bits() {
    let hex = Base::new("0123456789abcdef").unwrap();
    assert_eq!(hex.encode(-1i8).unwrap(), "ff");
    assert_eq!(hex.encode(i8::MIN).unwrap(), "80");
    assert_eq!(hex.encode(-2i16).unwrap(), "fffe");
    assert_eq!(hex.encode(i16::MIN).unwrap(), "8000");
    assert_eq!(hex.encode(-1i32).unwrap(), "ffffffff");
    assert_eq!(hex.encode(i32::MIN).unwrap(), "80000000");
    assert_eq!(hex.encode(-1i64).unwrap(), "ffffffffffffffff");
    assert_eq!(hex.encode(i64::MIN).unwrap(), "8000000000000000");
    assert_eq!(hex.encode(-1i128).unwrap(), "f".repeat(32));
    assert_eq!(hex.encode(i128::MIN).unwrap(), format!("8{}", "0".repeat(31)));
    assert_eq!(hex.encode(-1isize).unwrap(), hex.encode(usize::MAX).unwrap());
    assert_eq!(hex.encode(isize::MIN).unwrap(), hex.encode(1usize << (usize::BITS - 1)).unwrap());
    assert_eq!(hex.encode(i8::MAX).unwrap(), "7f");
    assert_eq!(hex.encode(i128::MAX).unwrap(), format!("7{}", "f".repeat(31)));
}

#[test]
fn what_is_written_for_a_negative_reads_as_out_of_range() {
    let base = base57();
    let s = base.encode(-5i32).unwrap();
    assert!(matches!(NumeralSystem::<i32>::decode(&base, &s), Err(StrError::Try(_))));
    let v: u32 = base.decode(&s).unwrap();
    assert_eq!(v, u32::MAX - 4);
    let s = base.encode(i128::MIN).unwrap();
    assert!(matches!(NumeralSystem::<i128>::decode(&base, &s), Err(StrError::Try(_))));
    let v: u128 = base.decode(&s).unwrap();
    assert_eq!(v, 1u128 << 127);
}

#[test]
fn decode_of_encode_is_the_value() {
    let base = base57();
    for v in [0u8, 1, 56, 57, 58, 200, u8::MAX] {
        let back: u8 = base.decode(&base.encode(v).unwrap()).unwrap();
        assert_eq!(back, v);
    }
    for v in [0u64, 56, 57, 3248, 3249, 1 << 40, u64::MAX] {
        let back: u64 = base.decode(&base.encode(v).unwrap()).unwrap();
        assert_eq!(back, v);
    }
    for v in [0u128, 57, u64::MAX as u128, (u64::MAX as u128) + 1, u128::MAX] {
        let back: u128 = base.decode(&base.encode(v).unwrap()).unwrap();
        assert_eq!(back, v);
    }
    for v in [0i64, 1, 57, i64::MAX] {
        let back: i64 = base.decode(&base.encode(v).unwrap()).unwrap();
        assert_eq!(back, v);
    }
    for v in [0i128, 1, i128::MAX] {
        let back: i128 = base.decode(&base.encode(v).unwrap()).unwrap();
        assert_eq!(back, v);
    }
    let two = Base::new("ab").unwrap();
    for v in 0u16..=300 {
        let back: u16 = two.decode(&two.encode(v).unwrap()).unwrap();
        assert_eq!(back, v);
    }
}

#[test]
fn encode_of_decode_is_the_string() {
    let base = base57();
    for s in ["2", "3", "Z", "32", "ZZ", "abc", "8jKpQ", "3222222222"] {
        let v: u64 = base.decode(s).unwrap();
        assert_eq!(base.encode(v).unwrap(), s);
        let v: u128 = base.decode(s).unwrap();
        assert_eq!(base.encode(v).unwrap(), s);
    }
    let v: u32 = base.decode("223").unwrap();
    assert_eq!(v, 1);
    assert_eq!(base.encode(v).unwrap(), "3");
}

#[test]
fn digits_beyond_ascii() {
    let base = Base::new("\u{3b1}\u{3b2}\u{3b3}").unwrap();
    assert_eq!(base.radix(), 3);
    assert_eq!(base.encode(5u8).unwrap(), "\u{3b2}\u{3b3}");
    let v: u8 = base.decode("\u{3b2}\u{3b3}").unwrap();
    assert_eq!(v, 5);
    let r: Result<u8, StrError> = base.decode("\u{3b2}b");
    assert!(matches!(r, Err(StrError::UnknownChar('b'))));
}

#[test]
fn range_error_converts_into_str_error() {
    let e = u8::try_from(300u16).err().unwrap();
    assert!(matches!(StrError::from(e), StrError::Try(_)));
}

#[test]
fn bits_of_each_width() {
    assert_eq!(200u8.to_bits(), 200);
    assert_eq!(u64::MAX.to_bits(), u64::MAX as u128);
    assert_eq!(u128::MAX.to_bits(), u128::MAX);
    assert_eq!(usize::MAX.to_bits(), usize::MAX as u128);
    assert_eq!(5i8.to_bits(), 5);
    assert_eq!((-1i8).to_bits(), 0xff);
    assert_eq!(i8::MIN.to_bits(), 0x80);
    assert_eq!((-2i16).to_bits(), 0xfffe);
    assert_eq!(i32::MIN.to_bits(), 0x8000_0000);
    assert_eq!((-1i64).to_bits(), u64::MAX as u128);
    assert_eq!((-1i128).to_bits(), u128::MAX);
    assert_eq!(i128::MIN.to_bits(), 1u128 << 127);
    assert_eq!((-1isize).to_bits(), usize::MAX as u128);
}

#[test]
fn narrowing_keeps_the_number_or_fails() {
    assert_eq!(u8::narrow(255).unwrap(), 255);
    assert!(u8::narrow(256).is_err());
    assert_eq!(i8::narrow(127).unwrap(), 127);
    assert!(i8::narrow(128).is_err());
    assert_eq!(u128::narrow(u128::MAX).unwrap(), u128::MAX);
    assert_eq!(i128::narrow(i128::MAX as u128).unwrap(), i128::MAX);
    assert!(i128::narrow(1u128 << 127).is_err());
    assert!(i128::narrow(u128::MAX).is_err());
    assert_eq!(usize::narrow(usize::MAX as u128).unwrap(), usize::MAX);
    assert!(isize::narrow(usize::MAX as u128).is_err());
}

#[test]
fn read_gives_the_number_in_128_bits() {
    let base = base57();
    assert_eq!(base.read("35").unwrap(), 60);
    assert_eq!(base.read("").unwrap(), 0);
    assert_eq!(base.read("6v").unwrap(), 255);
    assert!(matches!(base.read("3 5"), Err(StrError::UnknownChar(' '))));
    assert!(matches!(base.read(&"Z".repeat(22)), Err(StrError::Try(_))));
    assert_eq!(base.read(&"2".repeat(40)).unwrap(), 0);
}

#[test]
fn try_encode_tests_the_radix_first() {
    let base = base57();
    assert_eq!(base.try_encode(60u8).unwrap(), "35");
    assert_eq!(base.try_encode(-1i8).unwrap(), "6v");
    assert_eq!(base.try_encode(0u64).unwrap(), "2");
    assert_eq!(base.try_encode(u128::MAX).unwrap(), base.encode(u128::MAX).unwrap());
    let unary = Base::new("|").unwrap();
    assert_eq!(unary.try_encode(0u8).unwrap(), "|");
    assert_eq!(unary.try_encode(0i128).unwrap(), "|");
    assert!(unary.try_encode(1u8).is_none());
    assert!(unary.try_encode(-1i64).is_none());
    assert!(unary.try_encode(u128::MAX).is_none());
    let two = Base::new("ab").unwrap();
    assert_eq!(two.try_encode(5u16).unwrap(), "bab");
}
