//! The machine word the cipher computes on, given as a capability set that
//! each supported width implements, and the two variable rotations.
use crate::arith::{
    add_mod, bit_and, bit_or, bit_xor, is_word_bits, lemma_mask_is_mod, lemma_or_of_parts,
    lemma_shift_left_keeps_low, rot_left, rot_right, sub_mod,
};
use vstd::arithmetic::div_mod::{lemma_fundamental_div_mod, lemma_mod_bound, lemma_small_mod};
use vstd::arithmetic::power2::{lemma2_to64, lemma2_to64_rest, lemma_pow2_adds, lemma_pow2_pos, pow2};
use vstd::prelude::*;

verus! {

/// The width in bits of a word of `bytes` bytes.
pub open spec fn bits_of(bytes: usize) -> nat {
    8 * (bytes as nat)
}

/// A fixed-width unsigned word: wrapping addition and subtraction, the
/// bitwise operations and the two shifts, and the constants that seed the
/// key schedule. Every operation is stated over the number the word stands
/// for, its value, which lies below `2^w` for the width `w` in bits.
pub trait Word: Clone + Copy + std::fmt::Debug + PartialEq + Sized {
    /// The number that this word stands for.
    spec fn val(self) -> nat;

    /// The word of value zero.
    const ZERO: Self;

    /// The word of value one.
    const ONE: Self;

    /// The width in bytes.
    const BYTES: usize;

    /// First seed of the key schedule.
    const P: Self;

    /// Step of the key schedule's seed progression.
    const Q: Self;

    /// The width is one of the supported ones, and the two small constants
    /// are what their names say. An implementation adds the values of its
    /// own constants.
    proof fn lemma_constants()
        ensures
            is_word_bits(bits_of(Self::BYTES)),
            Self::ZERO.val() == 0,
            Self::ONE.val() == 1,
    ;

    /// A value fits the width.
    proof fn lemma_val_bound(self)
        ensures
            self.val() < pow2(bits_of(Self::BYTES)),
    ;

    /// Two words with the same value are the same word.
    proof fn lemma_val_injective(self, other: Self)
        requires
            self.val() == other.val(),
        ensures
            self == other,
    ;

    /// The word that holds one byte.
    fn from_u8(byte: u8) -> (r: Self)
        ensures
            r.val() == byte,
    ;

    /// The word that holds the low bits of `n`.
    fn from_usize(n: usize) -> (r: Self)
        ensures
            r.val() == n as nat % pow2(bits_of(Self::BYTES)),
    ;

    /// Whether this is the word `ZERO`.
    fn is_zero(&self) -> (r: bool)
        ensures
            r == (self.val() == 0),
    ;

    /// The sum, wrapping at the width.
    fn wrapping_add(&self, v: &Self) -> (r: Self)
        ensures
            r.val() == add_mod(self.val(), v.val(), bits_of(Self::BYTES)),
    ;

    /// The difference, wrapping at the width.
    fn wrapping_sub(&self, v: &Self) -> (r: Self)
        ensures
            r.val() == sub_mod(self.val(), v.val(), bits_of(Self::BYTES)),
    ;

    /// Bitwise exclusive or.
    fn bitxor(self, rhs: Self) -> (r: Self)
        ensures
            r.val() == bit_xor(self.val(), rhs.val()),
    ;

    /// Bitwise or.
    fn bitor(self, rhs: Self) -> (r: Self)
        ensures
            r.val() == bit_or(self.val(), rhs.val()),
    ;

    /// Bitwise and.
    fn bitand(self, rhs: Self) -> (r: Self)
        ensures
            r.val() == bit_and(self.val(), rhs.val()),
    ;

    /// Shift towards the high end by less than the width; the bits that
    /// leave the word are lost.
    fn shl(self, n: Self) -> (r: Self)
        requires
            n.val() < bits_of(Self::BYTES),
        ensures
            r.val() == (self.val() * pow2(n.val())) % pow2(bits_of(Self::BYTES)),
    ;

    /// Shift towards the low end by less than the width.
    fn shr(self, n: Self) -> (r: Self)
        requires
            n.val() < bits_of(Self::BYTES),
        ensures
            r.val() == self.val() / pow2(n.val()),
    ;
}

/// The width in bits of the word type `W`.
pub open spec fn word_bits<W: Word>() -> nat {
    bits_of(W::BYTES)
}

/// `num::traits::WrappingAdd::wrapping_add` on `u8`, which hands the
/// operands to `u8::wrapping_add`: the sum, reduced modulo `2^8`.
#[verifier::external_body]
fn num_wrapping_add_u8(a: &u8, b: &u8) -> (r: u8)
    ensures
        r == (*a + *b) % 0x100,
{
    num::traits::WrappingAdd::wrapping_add(a, b)
}

/// `num::traits::WrappingSub::wrapping_sub` on `u8`, which hands the
/// operands to `u8::wrapping_sub`: the difference, reduced modulo `2^8`.
#[verifier::external_body]
fn num_wrapping_sub_u8(a: &u8, b: &u8) -> (r: u8)
    ensures
        r == (*a - *b) % 0x100,
{
    num::traits::WrappingSub::wrapping_sub(a, b)
}

impl Word for u8 {
    open spec fn val(self) -> nat {
        self as nat
    }

    const ZERO: u8 = 0;

    const ONE: u8 = 1;

    const BYTES: usize = 1;

    const P: u8 = 0xB8;

    const Q: u8 = 0x9E;

    proof fn lemma_constants()
        ensures
            Self::BYTES == 1,
            Self::ZERO == 0,
            Self::ONE == 1,
            Self::P == 0xB8,
            Self::Q == 0x9E,
    {
    }

    proof fn lemma_val_bound(self) {
        lemma2_to64();
    }

    proof fn lemma_val_injective(self, other: Self) {
    }

    fn from_u8(byte: u8) -> (r: u8) {
        byte
    }

    fn from_usize(n: usize) -> (r: u8) {
        proof {
            lemma2_to64();
            assert(n as u8 == n % 0x100) by (bit_vector);
        }
        #[verifier::truncate]
        (n as u8)
    }

    fn is_zero(&self) -> (r: bool) {
        *self == 0
    }

    fn wrapping_add(&self, v: &u8) -> (r: u8) {
        proof {
            lemma2_to64();
        }
        num_wrapping_add_u8(self, v)
    }

    fn wrapping_sub(&self, v: &u8) -> (r: u8) {
        proof {
            lemma2_to64();
        }
        num_wrapping_sub_u8(self, v)
    }

    fn bitxor(self, rhs: u8) -> (r: u8) {
        proof {
            let x = self;
            let y = rhs;
            assert(((x as u64) ^ (y as u64)) == (x ^ y) as u64) by (bit_vector);
        }
        self ^ rhs
    }

    fn bitor(self, rhs: u8) -> (r: u8) {
        proof {
            let x = self;
            let y = rhs;
            assert(((x as u64) | (y as u64)) == (x | y) as u64) by (bit_vector);
        }
        self | rhs
    }

    fn bitand(self, rhs: u8) -> (r: u8) {
        proof {
            let x = self;
            let y = rhs;
            assert(((x as u64) & (y as u64)) == (x & y) as u64) by (bit_vector);
        }
        self & rhs
    }

    fn shl(self, n: u8) -> (r: u8) {
        proof {
            let x = self;
            lemma2_to64();
            lemma_pow2_pos(n as nat);
            assert(x * pow2(n as nat) <= 0xff * pow2(7)) by (nonlinear_arith)
                requires
                    x <= 0xff,
                    pow2(n as nat) <= pow2(7),
            ;
            assert((x << n) as u64 == ((x as u64) << (n as u64)) % 0x100) by (bit_vector)
                requires
                    n < 8,
            ;
            vstd::bits::lemma_u64_shl_is_mul(x as u64, n as u64);
        }
        self << n
    }

    fn shr(self, n: u8) -> (r: u8) {
        proof {
            vstd::bits::lemma_u8_shr_is_div(self, n);
        }
        self >> n
    }
}

/// `num::traits::WrappingAdd::wrapping_add` on `u32`, which hands the
/// operands to `u32::wrapping_add`: the sum, reduced modulo `2^32`.
#[verifier::external_body]
fn num_wrapping_add_u32(a: &u32, b: &u32) -> (r: u32)
    ensures
        r == (*a + *b) % 0x1_0000_0000,
{
    num::traits::WrappingAdd::wrapping_add(a, b)
}

/// `num::traits::WrappingSub::wrapping_sub` on `u32`, which hands the
/// operands to `u32::wrapping_sub`: the difference, reduced modulo `2^32`.
#[verifier::external_body]
fn num_wrapping_sub_u32(a: &u32, b: &u32) -> (r: u32)
    ensures
        r == (*a - *b) % 0x1_0000_0000,
{
    num::traits::WrappingSub::wrapping_sub(a, b)
}

impl Word for u32 {
    open spec fn val(self) -> nat {
        self as nat
    }

    const ZERO: u32 = 0;

    const ONE: u32 = 1;

    const BYTES: usize = 4;

    const P: u32 = 0xB7E15163;

    const Q: u32 = 0x9E3779B9;

    proof fn lemma_constants()
        ensures
            Self::BYTES == 4,
            Self::ZERO == 0,
            Self::ONE == 1,
            Self::P == 0xB7E15163,
            Self::Q == 0x9E3779B9,
    {
    }

    proof fn lemma_val_bound(self) {
        lemma2_to64();
    }

    proof fn lemma_val_injective(self, other: Self) {
    }

    fn from_u8(byte: u8) -> (r: u32) {
        byte as u32
    }

    fn from_usize(n: usize) -> (r: u32) {
        proof {
            lemma2_to64();
            assert((n as u32) as u64 == (n as u64) % 0x1_0000_0000u64) by (bit_vector);
        }
        #[verifier::truncate]
        (n as u32)
    }

    fn is_zero(&self) -> (r: bool) {
        *self == 0
    }

    fn wrapping_add(&self, v: &u32) -> (r: u32) {
        proof {
            lemma2_to64();
        }
        num_wrapping_add_u32(self, v)
    }

    fn wrapping_sub(&self, v: &u32) -> (r: u32) {
        proof {
            lemma2_to64();
        }
        num_wrapping_sub_u32(self, v)
    }

    fn bitxor(self, rhs: u32) -> (r: u32) {
        proof {
            let x = self;
            let y = rhs;
            assert(((x as u64) ^ (y as u64)) == (x ^ y) as u64) by (bit_vector);
        }
        self ^ rhs
    }

    fn bitor(self, rhs: u32) -> (r: u32) {
        proof {
            let x = self;
            let y = rhs;
            assert(((x as u64) | (y as u64)) == (x | y) as u64) by (bit_vector);
        }
        self | rhs
    }

    fn bitand(self, rhs: u32) -> (r: u32) {
        proof {
            let x = self;
            let y = rhs;
            assert(((x as u64) & (y as u64)) == (x & y) as u64) by (bit_vector);
        }
        self & rhs
    }

    fn shl(self, n: u32) -> (r: u32) {
        proof {
            let x = self;
            lemma2_to64();
            lemma_pow2_pos(n as nat);
            assert(x * pow2(n as nat) <= 0xffff_ffff * pow2(31)) by (nonlinear_arith)
                requires
                    x <= 0xffff_ffff,
                    pow2(n as nat) <= pow2(31),
            ;
            assert((x << n) as u64 == ((x as u64) << (n as u64)) % 0x1_0000_0000) by (bit_vector)
                requires
                    n < 32,
            ;
            vstd::bits::lemma_u64_shl_is_mul(x as u64, n as u64);
        }
        self << n
    }

    fn shr(self, n: u32) -> (r: u32) {
        proof {
            vstd::bits::lemma_u32_shr_is_div(self, n);
        }
        self >> n
    }
}

/// `operand` rotated left by `shift` positions, the amount taken modulo the
/// width.
pub fn rsl<W: Word>(operand: W, shift: W) -> (r: W)
    ensures
        r.val() == rot_left(operand.val(), shift.val(), word_bits::<W>()),
{
    proof {
        W::lemma_constants();
    }
    let bits: W = W::from_usize(W::BYTES * 8);
    let bits_not_rolled = bits.wrapping_sub(&W::ONE).bitand(shift);
    proof {
        lemma_rotation_amount::<W>(bits, bits_not_rolled, shift);
    }
    if bits_not_rolled.is_zero() {
        proof {
            operand.lemma_val_bound();
            crate::arith::lemma_rotation_identity(operand.val(), word_bits::<W>());
        }
        operand
    } else {
        let back = bits.wrapping_sub(&bits_not_rolled);
        proof {
            lemma_rotation_parts::<W>(operand, bits_not_rolled.val());
            lemma_small_mod(
                (word_bits::<W>() - bits_not_rolled.val()) as nat,
                pow2(word_bits::<W>()),
            );
        }
        operand.shl(bits_not_rolled).bitor(operand.shr(back))
    }
}

/// `operand` rotated right by `shift` positions, the amount taken modulo the
/// width.
pub fn rsr<W: Word>(operand: W, shift: W) -> (r: W)
    ensures
        r.val() == rot_right(operand.val(), shift.val(), word_bits::<W>()),
{
    proof {
        W::lemma_constants();
    }
    let bits: W = W::from_usize(W::BYTES * 8);
    let bits_not_rolled = bits.wrapping_sub(&W::ONE).bitand(shift);
    proof {
        lemma_rotation_amount::<W>(bits, bits_not_rolled, shift);
    }
    if bits_not_rolled.is_zero() {
        proof {
            operand.lemma_val_bound();
            crate::arith::lemma_rotation_identity(operand.val(), word_bits::<W>());
        }
        operand
    } else {
        let back = bits.wrapping_sub(&bits_not_rolled);
        proof {
            let w = word_bits::<W>();
            let s = bits_not_rolled.val();
            lemma_rotation_parts::<W>(operand, (w - s) as nat);
            lemma_small_mod((w - s) as nat, pow2(w));
        }
        operand.shr(bits_not_rolled).bitor(operand.shl(back))
    }
}

/// What the two rotations compute before they shift: the width as a word,
/// and the amount reduced modulo the width.
proof fn lemma_rotation_amount<W: Word>(bits: W, masked: W, shift: W)
    requires
        bits.val() == (8 * W::BYTES) as nat % pow2(word_bits::<W>()),
        masked.val() == bit_and(sub_mod(bits.val(), 1, word_bits::<W>()), shift.val()),
    ensures
        bits.val() == word_bits::<W>(),
        masked.val() == shift.val() % word_bits::<W>(),
        masked.val() < word_bits::<W>(),
        word_bits::<W>() < pow2(word_bits::<W>()),
{
    let w = word_bits::<W>();
    W::lemma_constants();
    shift.lemma_val_bound();
    lemma2_to64();
    lemma2_to64_rest();
    lemma_small_mod(w, pow2(w));
    lemma_small_mod((w - 1) as nat, pow2(w));
    lemma_mask_is_mod(shift.val(), w);
}

/// The two shifted parts of a rotation by `s` positions, `0 < s < w`, do
/// not overlap, so their bitwise or is the rotated value.
proof fn lemma_rotation_parts<W: Word>(operand: W, s: nat)
    requires
        0 < s < word_bits::<W>(),
    ensures
        bit_or(
            (operand.val() * pow2(s)) % pow2(word_bits::<W>()),
            operand.val() / pow2((word_bits::<W>() - s) as nat),
        ) == rot_left(operand.val(), s, word_bits::<W>()),
        bit_or(
            operand.val() / pow2((word_bits::<W>() - s) as nat),
            (operand.val() * pow2(s)) % pow2(word_bits::<W>()),
        ) == rot_left(operand.val(), s, word_bits::<W>()),
        rot_left(operand.val(), s, word_bits::<W>()) == rot_right(
            operand.val(),
            (word_bits::<W>() - s) as nat,
            word_bits::<W>(),
        ),
{
    let w = word_bits::<W>();
    let x = operand.val();
    let low = (w - s) as nat;
    W::lemma_constants();
    operand.lemma_val_bound();
    lemma2_to64_rest();
    lemma_small_mod(s, w);
    lemma_shift_left_keeps_low(x, s, w);
    let m = x % pow2(low);
    let lo = x / pow2(low);
    lemma_pow2_pos(low);
    lemma_pow2_pos(s);
    lemma_pow2_adds(low, s);
    lemma_fundamental_div_mod(x as int, pow2(low) as int);
    lemma_mod_bound(x as int, pow2(low) as int);
    assert(lo < pow2(s)) by (nonlinear_arith)
        requires
            x == pow2(low) * lo + m,
            x < pow2(low) * pow2(s),
            0 <= m,
            0 < pow2(low),
    ;
    assert(m * pow2(s) + lo < pow2(low) * pow2(s)) by (nonlinear_arith)
        requires
            m < pow2(low),
            lo < pow2(s),
    ;
    crate::arith::lemma_pow2_monotone(w, 64);
    lemma_or_of_parts(m, lo, s);
    let hi = (m * pow2(s)) as u64;
    let l = lo as u64;
    assert((hi | l) == (l | hi)) by (bit_vector);
    crate::arith::lemma_rot_left_is_rot_right(x, s, w);
}

} // verus!
