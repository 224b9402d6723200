use rc5::Word;

#[test]
fn test_overflow() {
    assert_eq!(255u8.wrapping_add(1u8), 0u8);
    assert_eq!(0u8.wrapping_sub(1u8), 255u8);
}

#[test]
fn word_addition_wraps() {
    assert_eq!(Word::wrapping_add(&255u8, &1u8), 0u8);
    assert_eq!(Word::wrapping_add(&200u8, &100u8), 44u8);
    assert_eq!(Word::wrapping_add(&3u8, &4u8), 7u8);
    assert_eq!(Word::wrapping_add(&u32::MAX, &1u32), 0u32);
    assert_eq!(Word::wrapping_add(&0xffff_fff0u32, &0x20u32), 0x10u32);
    assert_eq!(Word::wrapping_add(&5u32, &6u32), 11u32);
}

#[test]
fn word_subtraction_wraps() {
    assert_eq!(Word::wrapping_sub(&0u8, &1u8), 255u8);
    assert_eq!(Word::wrapping_sub(&44u8, &100u8), 200u8);
    assert_eq!(Word::wrapping_sub(&9u8, &4u8), 5u8);
    assert_eq!(Word::wrapping_sub(&0u32, &1u32), u32::MAX);
    assert_eq!(Word::wrapping_sub(&0x10u32, &0x20u32), 0xffff_fff0u32);
    assert_eq!(Word::wrapping_sub(&11u32, &6u32), 5u32);
}

#[test]
fn word_subtraction_undoes_addition() {
    for a in 0..=255u8 {
        for b in 0..=255u8 {
            let sum = Word::wrapping_add(&a, &b);
            assert_eq!(Word::wrapping_sub(&sum, &b), a);
        }
    }
}

#[test]
fn word_constants() {
    assert_eq!(<u8 as Word>::ZERO, 0);
    assert_eq!(<u8 as Word>::ONE, 1);
    assert_eq!(<u8 as Word>::BYTES, 1);
    assert_eq!(<u8 as Word>::P, 0xB8);
    assert_eq!(<u8 as Word>::Q, 0x9E);
    assert_eq!(<u32 as Word>::ZERO, 0);
    assert_eq!(<u32 as Word>::ONE, 1);
    assert_eq!(<u32 as Word>::BYTES, 4);
    assert_eq!(<u32 as Word>::P, 0xB7E15163);
    assert_eq!(<u32 as Word>::Q, 0x9E3779B9);
}

#[test]
fn word_from_small_integers() {
    assert_eq!(<u8 as Word>::from_u8(0xfe), 0xfeu8);
    assert_eq!(<u32 as Word>::from_u8(0xfe), 0xfeu32);
    assert_eq!(<u8 as Word>::from_usize(8), 8u8);
    assert_eq!(<u8 as Word>::from_usize(0x1234), 0x34u8);
    assert_eq!(<u32 as Word>::from_usize(32), 32u32);
    assert_eq!(<u32 as Word>::from_usize(0x1234), 0x1234u32);
}

#[test]
fn word_bitwise_operations() {
    assert_eq!(Word::bitxor(0b1100u8, 0b1010u8), 0b0110);
    assert_eq!(Word::bitor(0b1100u8, 0b1010u8), 0b1110);
    assert_eq!(Word::bitand(0b1100u8, 0b1010u8), 0b1000);
    assert_eq!(Word::bitxor(0xffff_0000u32, 0x0ff0_0ff0u32), 0xf00f_0ff0);
    assert_eq!(Word::bitor(0xffff_0000u32, 0x0ff0_0ff0u32), 0xffff_0ff0);
    assert_eq!(Word::bitand(0xffff_0000u32, 0x0ff0_0ff0u32), 0x0ff0_0000);
    assert!(Word::is_zero(&0u8));
    assert!(!Word::is_zero(&1u8));
    assert!(Word::is_zero(&0u32));
    assert!(!Word::is_zero(&0x8000_0000u32));
}

#[test]
fn word_shifts_drop_what_leaves() {
    assert_eq!(Word::shl(0b1100_0011u8, 1u8), 0b1000_0110);
    assert_eq!(Word::shl(0b1100_0011u8, 7u8), 0b1000_0000);
    assert_eq!(Word::shl(0b1100_0011u8, 0u8), 0b1100_0011);
    assert_eq!(Word::shr(0b1100_0011u8, 1u8), 0b0110_0001);
    assert_eq!(Word::shr(0b1100_0011u8, 7u8), 1);
    assert_eq!(Word::shl(0x8000_0001u32, 4u32), 0x10);
    assert_eq!(Word::shl(0x8000_0001u32, 31u32), 0x8000_0000);
    assert_eq!(Word::shr(0x8000_0001u32, 4u32), 0x0800_0000);
    assert_eq!(Word::shr(0x8000_0001u32, 31u32), 1);
}
