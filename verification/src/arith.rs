//! Arithmetic on word values: the mathematical model of a machine word is a
//! natural number below `2^w`, where `w` is the word's width in bits.
use vstd::arithmetic::div_mod::{
    lemma_fundamental_div_mod, lemma_fundamental_div_mod_converse, lemma_mod_bound,
    lemma_small_mod, lemma_sub_mod_noop, lemma_sub_mod_noop_right, lemma_truncate_middle,
};
use vstd::arithmetic::mul::lemma_mul_is_commutative;
use vstd::arithmetic::power2::{
    lemma2_to64, lemma2_to64_rest, lemma_pow2_adds, lemma_pow2_pos, pow2,
};
use vstd::bits::lemma_u64_shl_is_mul;
use vstd::prelude::*;

verus! {

/// The widths, in bits, that a word may have.
pub open spec fn is_word_bits(w: nat) -> bool {
    w == 8 || w == 16 || w == 32 || w == 64
}

/// Sum of two values, wrapping at `2^w`.
pub open spec fn add_mod(a: nat, b: nat, w: nat) -> nat {
    (a + b) % pow2(w)
}

/// Difference of two values, wrapping at `2^w`.
pub open spec fn sub_mod(a: nat, b: nat, w: nat) -> nat {
    ((a - b) % (pow2(w) as int)) as nat
}

/// Bitwise exclusive or of two values below `2^64`.
pub open spec fn bit_xor(a: nat, b: nat) -> nat {
    ((a as u64) ^ (b as u64)) as nat
}

/// Bitwise or of two values below `2^64`.
pub open spec fn bit_or(a: nat, b: nat) -> nat {
    ((a as u64) | (b as u64)) as nat
}

/// Bitwise and of two values below `2^64`.
pub open spec fn bit_and(a: nat, b: nat) -> nat {
    ((a as u64) & (b as u64)) as nat
}

/// The `w`-bit value `x` rotated left by `k mod w` positions: the low
/// `w - s` bits move up by `s`, and the high `s` bits come back in below them.
pub open spec fn rot_left(x: nat, k: nat, w: nat) -> nat {
    let s = k % w;
    let low = (w - s) as nat;
    (x % pow2(low)) * pow2(s) + x / pow2(low)
}

/// The `w`-bit value `x` rotated right by `k mod w` positions: the low `s`
/// bits move to the top, and the rest moves down by `s`.
pub open spec fn rot_right(x: nat, k: nat, w: nat) -> nat {
    let s = k % w;
    let high = (w - s) as nat;
    (x % pow2(s)) * pow2(high) + x / pow2(s)
}

/// Splitting a `w`-bit value at bit `n` and swapping the two parts gives a
/// `w`-bit value whose own parts, split at bit `w - n`, are those of `x`.
proof fn lemma_swap_parts(x: nat, n: nat, w: nat)
    requires
        n <= w,
        x < pow2(w),
    ensures
        (x % pow2(n)) * pow2((w - n) as nat) + x / pow2(n) < pow2(w),
        ((x % pow2(n)) * pow2((w - n) as nat) + x / pow2(n)) % pow2((w - n) as nat) == x / pow2(n),
        ((x % pow2(n)) * pow2((w - n) as nat) + x / pow2(n)) / pow2((w - n) as nat) == x % pow2(n),
{
    let m = (w - n) as nat;
    let lo = x % pow2(n);
    let hi = x / pow2(n);
    lemma_pow2_pos(n);
    lemma_pow2_pos(m);
    lemma_pow2_adds(n, m);
    lemma_fundamental_div_mod(x as int, pow2(n) as int);
    lemma_mod_bound(x as int, pow2(n) as int);
    assert(hi < pow2(m)) by (nonlinear_arith)
        requires
            x == pow2(n) * hi + lo,
            x < pow2(n) * pow2(m),
            0 <= lo,
            0 < pow2(n),
    ;
    lemma_fundamental_div_mod_converse(
        (lo * pow2(m) + hi) as int,
        pow2(m) as int,
        lo as int,
        hi as int,
    );
    assert(lo * pow2(m) + hi < pow2(n) * pow2(m)) by (nonlinear_arith)
        requires
            lo < pow2(n),
            hi < pow2(m),
    ;
}

/// A rotation keeps the value below `2^w`.
pub proof fn lemma_rot_left_bound(x: nat, k: nat, w: nat)
    requires
        0 < w,
        x < pow2(w),
    ensures
        rot_left(x, k, w) < pow2(w),
{
    let s = k % w;
    lemma_swap_parts(x, (w - s) as nat, w);
}

/// Rotating by nothing, or by the full width, changes nothing.
pub proof fn lemma_rotation_identity(x: nat, w: nat)
    requires
        0 < w,
        x < pow2(w),
    ensures
        rot_left(x, 0, w) == x,
        rot_left(x, w, w) == x,
        rot_right(x, 0, w) == x,
        rot_right(x, w, w) == x,
{
    lemma2_to64();
    lemma_pow2_pos(w);
    lemma_small_mod(x, pow2(w));
    assert(w % w == 0) by (nonlinear_arith)
        requires
            0 < w,
    ;
    assert(0nat % w == 0);
    assert(x / pow2(w) == 0) by (nonlinear_arith)
        requires
            x < pow2(w),
            0 < pow2(w),
    ;
    assert(x % 1 == 0);
    assert(x / 1 == x);
}

/// Rotating left by `n` is rotating right by what is left of the width.
pub proof fn lemma_rot_left_is_rot_right(x: nat, n: nat, w: nat)
    requires
        0 < w,
        n < w,
        x < pow2(w),
    ensures
        rot_left(x, n, w) == rot_right(x, (w - n) as nat, w),
{
    if n == 0 {
        lemma_rotation_identity(x, w);
    } else {
        lemma_small_mod(n, w);
        lemma_small_mod((w - n) as nat, w);
    }
}

/// Rotating left by `n` and then by what is left of the width gives the
/// value back.
pub proof fn lemma_rot_left_full_turn(x: nat, n: nat, w: nat)
    requires
        0 < w,
        n < w,
        x < pow2(w),
    ensures
        rot_left(rot_left(x, n, w), (w - n) as nat, w) == x,
{
    let y = rot_left(x, n, w);
    lemma_rot_left_bound(x, n, w);
    if n == 0 {
        lemma_rotation_identity(x, w);
    } else {
        lemma_rot_left_is_rot_right(y, (w - n) as nat, w);
        lemma_rot_right_undoes_rot_left(x, n, w);
    }
}

/// Rotating right undoes rotating left by the same amount.
pub proof fn lemma_rot_right_undoes_rot_left(x: nat, k: nat, w: nat)
    requires
        0 < w,
        x < pow2(w),
    ensures
        rot_right(rot_left(x, k, w), k, w) == x,
{
    let s = k % w;
    let low = (w - s) as nat;
    lemma_swap_parts(x, low, w);
    assert((w - low) as nat == s);
    lemma_pow2_pos(low);
    lemma_fundamental_div_mod(x as int, pow2(low) as int);
    lemma_mul_is_commutative(pow2(low) as int, (x / pow2(low)) as int);
}

/// A wrapped sum is a `w`-bit value.
pub proof fn lemma_add_mod_bound(a: nat, b: nat, w: nat)
    ensures
        add_mod(a, b, w) < pow2(w),
{
    lemma_pow2_pos(w);
    lemma_mod_bound((a + b) as int, pow2(w) as int);
}

/// Subtracting what was added gives the value back.
pub proof fn lemma_sub_undoes_add(a: nat, b: nat, w: nat)
    requires
        a < pow2(w),
    ensures
        sub_mod(add_mod(a, b, w), b, w) == a,
{
    let m = pow2(w) as int;
    let sum = (a + b) as int;
    lemma_pow2_pos(w);
    lemma_sub_mod_noop_right(sum % m, b as int, m);
    lemma_sub_mod_noop(sum, b as int, m);
    lemma_small_mod(a, pow2(w));
}

/// The largest value and one more wrap to zero; zero less one wraps to the
/// largest value.
pub proof fn lemma_wrap_around(w: nat)
    ensures
        add_mod((pow2(w) - 1) as nat, 1, w) == 0,
        sub_mod(0, 1, w) == pow2(w) - 1,
{
    let m = pow2(w) as int;
    lemma_pow2_pos(w);
    assert(m % m == 0) by (nonlinear_arith)
        requires
            0 < m,
    ;
    assert((-1int) % m == m - 1) by {
        lemma_fundamental_div_mod_converse(-1, m, -1, m - 1);
    }
}

/// `2^w` as a shift of one, for a width below 64.
proof fn lemma_one_shl(w: nat)
    requires
        w < 64,
    ensures
        (1u64 << (w as u64)) == pow2(w),
        pow2(w) <= u64::MAX,
{
    vstd::bits::lemma_u64_pow2_no_overflow(w);
    lemma_u64_shl_is_mul(1u64, w as u64);
}

/// `2^64` is one more than the largest 64-bit value.
proof fn lemma_pow2_64()
    ensures
        pow2(64) == u64::MAX + 1,
{
    lemma2_to64_rest();
}

/// The exclusive or of two `w`-bit values is a `w`-bit value.
pub proof fn lemma_xor_bound(a: nat, b: nat, w: nat)
    requires
        w <= 64,
        a < pow2(w),
        b < pow2(w),
    ensures
        bit_xor(a, b) < pow2(w),
{
    lemma_pow2_64();
    if w < 64 {
        lemma_one_shl(w);
        let x = a as u64;
        let y = b as u64;
        let n = w as u64;
        assert((x ^ y) < (1u64 << n)) by (bit_vector)
            requires
                n < 64,
                x < (1u64 << n),
                y < (1u64 << n),
        ;
    }
}

/// Exclusive or with the same value twice gives the first value back.
pub proof fn lemma_xor_cancel(a: nat, b: nat)
    requires
        a < pow2(64),
    ensures
        bit_xor(bit_xor(a, b), b) == a,
{
    lemma_pow2_64();
    let x = a as u64;
    let y = b as u64;
    assert(((x ^ y) ^ y) == x) by (bit_vector);
}

/// Where the low `s` bits of one value are clear and the other value has
/// only those, the bitwise or of the two is their sum.
pub proof fn lemma_or_of_parts(m: nat, lo: nat, s: nat)
    requires
        s < 64,
        lo < pow2(s),
        m * pow2(s) + lo < pow2(64),
    ensures
        bit_or(m * pow2(s), lo) == m * pow2(s) + lo,
{
    lemma_pow2_64();
    lemma_one_shl(s);
    lemma_pow2_pos(s);
    assert(m <= m * pow2(s)) by (nonlinear_arith)
        requires
            0 < pow2(s),
    ;
    let x = m as u64;
    let y = lo as u64;
    let n = s as u64;
    lemma_u64_shl_is_mul(x, n);
    let hi = x << n;
    assert(hi == m * pow2(s));
    assert((hi | y) == hi + y) by (bit_vector)
        requires
            n < 64,
            y < (1u64 << n),
            hi == x << n,
    ;
}

/// Multiplying by `2^s` and wrapping at `2^w` keeps the low `w - s` bits,
/// moved up by `s`.
pub proof fn lemma_shift_left_keeps_low(x: nat, s: nat, w: nat)
    requires
        s <= w,
    ensures
        (x * pow2(s)) % pow2(w) == (x % pow2((w - s) as nat)) * pow2(s),
{
    let low = (w - s) as nat;
    lemma_pow2_pos(s);
    lemma_pow2_pos(low);
    lemma_pow2_adds(s, low);
    lemma_truncate_middle(x as int, pow2(s) as int, pow2(low) as int);
    lemma_mul_is_commutative(x as int, pow2(s) as int);
    lemma_mul_is_commutative((x % pow2(low)) as int, pow2(s) as int);
}

/// For a word width, which is a power of two, masking with the width less
/// one reduces modulo the width.
pub proof fn lemma_mask_is_mod(k: nat, w: nat)
    requires
        is_word_bits(w),
        k < pow2(64),
    ensures
        bit_and((w - 1) as nat, k) == k % w,
{
    lemma_pow2_64();
    let x = k as u64;
    assert((7u64 & x) == x % 8) by (bit_vector);
    assert((15u64 & x) == x % 16) by (bit_vector);
    assert((31u64 & x) == x % 32) by (bit_vector);
    assert((63u64 & x) == x % 64) by (bit_vector);
}

/// A larger exponent gives no smaller power of two.
pub proof fn lemma_pow2_monotone(a: nat, b: nat)
    requires
        a <= b,
    ensures
        pow2(a) <= pow2(b),
{
    if a < b {
        vstd::arithmetic::power2::lemma_pow2_strictly_increases(a, b);
    }
}

} // verus!
