use rc5::{rsl, rsr};

#[test]
fn main_test_rotate_shift_left() {
    let a: u8 = 0x75; // 0111 0101
    assert_eq!(rsl(a, 1u8), 0xEA); // 1110 1010
    assert_eq!(rsl(a, 2u8), 0xD5); // 1101 0101
    assert_eq!(rsl(a, 3u8), 0xAB); // 1010 1011
    assert_eq!(rsl(a, 4u8), 0x57); // 0101 0111
    assert_eq!(rsl(a, 5u8), 0xAE); // 1010 1110
    assert_eq!(rsl(a, 8u8), a); // 0111 0101
    assert_eq!(rsl(a, 9u8), rsl(a, 1u8)); // 1110 1010
    assert_eq!(rsl(a, 17u8), rsl(a, 1u8)); // 1110 1010
}

#[test]
fn main_test_rotate_shift_right() {
    let a: u8 = 0xBB; // 1011 1011

    assert_eq!(rsr(a, 1u8), 0xDD); // 1101 1101
    assert_eq!(rsr(a, 2u8), 0xEE); // 1110 1110
    assert_eq!(rsr(a, 3u8), 0x77); // 0111 0111
    assert_eq!(rsr(a, 8u8), a);
    assert_eq!(rsr(a, 9u8), rsr(a, 1u8));
}

#[test]
fn word_test_rotate_shift_left() {
    let a: u8 = 0x75; // 0111 0101
    assert_eq!(rsl(a, 1u8), 0xEA); // 1110 1010
    assert_eq!(rsl(a, 2u8), 0xD5); // 1101 0101
    assert_eq!(rsl(a, 3u8), 0xAB); // 1010 1011
    assert_eq!(rsl(a, 4u8), 0x57); // 0101 0111
    assert_eq!(rsl(a, 5u8), 0xAE); // 1010 1110
    assert_eq!(rsl(a, 8u8), a); // 0111 0101
    assert_eq!(rsl(a, 9u8), rsl(a, 1u8)); // 1110 1010
    assert_eq!(rsl(a, 17u8), rsl(a, 1u8)); // 1110 1010
}

#[test]
fn word_test_rotate_shift_right() {
    let a: u8 = 0xBB; // 1011 1011

    assert_eq!(rsr(a, 1u8), 0xDD); // 1101 1101
    assert_eq!(rsr(a, 2u8), 0xEE); // 1110 1110
    assert_eq!(rsr(a, 3u8), 0x77); // 0111 0111
    assert_eq!(rsr(a, 8u8), a);
    assert_eq!(rsr(a, 9u8), rsr(a, 1u8));
}

#[test]
fn rotation_by_zero_or_full_width_is_identity() {
    for x in 0..=255u8 {
        assert_eq!(rsl(x, 0u8), x);
        assert_eq!(rsl(x, 8u8), x);
        assert_eq!(rsr(x, 0u8), x);
        assert_eq!(rsr(x, 8u8), x);
    }
    for x in [0u32, 1, 0x8000_0000, 0xdead_beef, u32::MAX] {
        assert_eq!(rsl(x, 0u32), x);
        assert_eq!(rsl(x, 32u32), x);
        assert_eq!(rsr(x, 0u32), x);
        assert_eq!(rsr(x, 32u32), x);
    }
}

#[test]
fn rotation_left_is_right_by_the_rest() {
    for x in 0..=255u8 {
        for n in 0..8u8 {
            assert_eq!(rsl(x, n), rsr(x, 8 - n));
        }
    }
    for x in [1u32, 0x8000_0001, 0x1234_5678, u32::MAX - 1] {
        for n in 0..32u32 {
            assert_eq!(rsl(x, n), rsr(x, 32 - n));
        }
    }
}

#[test]
fn rotation_left_then_by_the_rest_restores() {
    for x in 0..=255u8 {
        for n in 0..8u8 {
            assert_eq!(rsl(rsl(x, n), 8 - n), x);
            assert_eq!(rsr(rsl(x, n), n), x);
        }
    }
}

#[test]
fn rotation_agrees_with_the_native_one() {
    for x in 0..=255u8 {
        for n in 0..=255u8 {
            assert_eq!(rsl(x, n), x.rotate_left(u32::from(n)));
            assert_eq!(rsr(x, n), x.rotate_right(u32::from(n)));
        }
    }
}

#[test]
fn rotation_of_wide_words() {
    assert_eq!(rsl(0x8000_0001u32, 33u32), 3);
    assert_eq!(rsr(0x8000_0001u32, 1u32), 0xC000_0000);
    assert_eq!(rsl(0x1234_5678u32, 8u32), 0x3456_7812);
    assert_eq!(rsr(0x1234_5678u32, 40u32), 0x7812_3456);
    assert_eq!(rsl(0x1234_5678u32, u32::MAX), 0x1234_5678u32.rotate_left(31));
}
