//! The two block transforms: encryption of a block of two words under a
//! key's subkeys, and the decryption that undoes it.
use crate::arith::{
    add_mod, bit_xor, lemma_add_mod_bound, lemma_pow2_monotone, lemma_rot_left_bound, lemma_rot_right_undoes_rot_left,
    lemma_sub_undoes_add, lemma_xor_bound, lemma_xor_cancel, rot_left, rot_right, sub_mod,
};
use crate::key::{schedule, word_vals, Key};
use crate::word::{rsl, rsr, word_bits, Word};
use vstd::arithmetic::power2::pow2;
use vstd::prelude::*;

verus! {

/// The values of the two words of a block.
pub open spec fn block_vals<W: Word>(block: [W; 2]) -> (nat, nat) {
    (block[0].val(), block[1].val())
}

/// The first step of encryption: each half takes up one of the first two
/// subkeys.
pub open spec fn whiten(st: (nat, nat), s: Seq<nat>, w: nat) -> (nat, nat) {
    (add_mod(st.0, s[0], w), add_mod(st.1, s[1], w))
}

/// The last step of decryption, which undoes `whiten`.
pub open spec fn unwhiten(st: (nat, nat), s: Seq<nat>, w: nat) -> (nat, nat) {
    (sub_mod(st.0, s[0], w), sub_mod(st.1, s[1], w))
}

/// Round `i` of encryption. Each half in turn is mixed into the other, is
/// turned left by as much as the other half says, and takes up a subkey.
pub open spec fn round(st: (nat, nat), s: Seq<nat>, i: nat, w: nat) -> (nat, nat) {
    let a = add_mod(rot_left(bit_xor(st.0, st.1), st.1, w), s[(2 * i) as int], w);
    let b = add_mod(rot_left(bit_xor(st.1, a), a, w), s[(2 * i + 1) as int], w);
    (a, b)
}

/// Round `i` of decryption, which undoes `round`: the second half first,
/// then the first half with the second one as just recovered.
pub open spec fn unround(st: (nat, nat), s: Seq<nat>, i: nat, w: nat) -> (nat, nat) {
    let b = bit_xor(rot_right(sub_mod(st.1, s[(2 * i + 1) as int], w), st.0, w), st.0);
    let a = bit_xor(rot_right(sub_mod(st.0, s[(2 * i) as int], w), b, w), b);
    (a, b)
}

/// The block after rounds `1` to `n` of encryption, in that order.
pub open spec fn encrypt_rounds(st: (nat, nat), s: Seq<nat>, n: nat, w: nat) -> (nat, nat)
    decreases n,
{
    if n == 0 {
        st
    } else {
        round(encrypt_rounds(st, s, (n - 1) as nat, w), s, n, w)
    }
}

/// The block after rounds `n` down to `1` of decryption, in that order.
pub open spec fn decrypt_rounds(st: (nat, nat), s: Seq<nat>, n: nat, w: nat) -> (nat, nat)
    decreases n,
{
    if n == 0 {
        st
    } else {
        decrypt_rounds(unround(st, s, n, w), s, (n - 1) as nat, w)
    }
}

/// A block encrypted under the subkeys `s`: the first two subkeys go in,
/// then the rounds from `1` up to `rounds - 1` run.
pub open spec fn encrypt_block(pt: (nat, nat), s: Seq<nat>, rounds: nat, w: nat) -> (nat, nat) {
    encrypt_rounds(whiten(pt, s, w), s, (rounds - 1) as nat, w)
}

/// A block decrypted under the subkeys `s`: the rounds from `rounds - 1`
/// down to `1` run, then the first two subkeys come out.
pub open spec fn decrypt_block(ct: (nat, nat), s: Seq<nat>, rounds: nat, w: nat) -> (nat, nat) {
    unwhiten(decrypt_rounds(ct, s, (rounds - 1) as nat, w), s, w)
}

/// What a block of words of type `W` encrypts to under a secret.
pub open spec fn encrypted<W: Word>(pt: [W; 2], secret: Seq<u8>, rounds: nat) -> (nat, nat) {
    encrypt_block(
        block_vals(pt),
        schedule(secret, rounds, word_bits::<W>(), W::P.val(), W::Q.val()),
        rounds,
        word_bits::<W>(),
    )
}

/// What a block of words of type `W` decrypts to under a secret.
pub open spec fn decrypted<W: Word>(ct: [W; 2], secret: Seq<u8>, rounds: nat) -> (nat, nat) {
    decrypt_block(
        block_vals(ct),
        schedule(secret, rounds, word_bits::<W>(), W::P.val(), W::Q.val()),
        rounds,
        word_bits::<W>(),
    )
}

/// Both halves of a block are `w`-bit values.
pub open spec fn fits(st: (nat, nat), w: nat) -> bool {
    st.0 < pow2(w) && st.1 < pow2(w)
}

/// A round of decryption undoes the same round of encryption, and a round
/// of encryption gives `w`-bit values.
pub proof fn lemma_unround_undoes_round(st: (nat, nat), s: Seq<nat>, i: nat, w: nat)
    requires
        0 < w <= 64,
        fits(st, w),
    ensures
        fits(round(st, s, i, w), w),
        unround(round(st, s, i, w), s, i, w) == st,
{
    lemma_pow2_monotone(w, 64);
    let x = bit_xor(st.0, st.1);
    lemma_xor_bound(st.0, st.1, w);
    let rx = rot_left(x, st.1, w);
    lemma_rot_left_bound(x, st.1, w);
    let a = add_mod(rx, s[(2 * i) as int], w);
    lemma_add_mod_bound(rx, s[(2 * i) as int], w);
    let y = bit_xor(st.1, a);
    lemma_xor_bound(st.1, a, w);
    let ry = rot_left(y, a, w);
    lemma_rot_left_bound(y, a, w);
    let b = add_mod(ry, s[(2 * i + 1) as int], w);
    lemma_add_mod_bound(ry, s[(2 * i + 1) as int], w);
    assert(round(st, s, i, w) == (a, b));

    lemma_sub_undoes_add(ry, s[(2 * i + 1) as int], w);
    lemma_rot_right_undoes_rot_left(y, a, w);
    lemma_xor_cancel(st.1, a);
    lemma_sub_undoes_add(rx, s[(2 * i) as int], w);
    lemma_rot_right_undoes_rot_left(x, st.1, w);
    lemma_xor_cancel(st.0, st.1);
}

/// The rounds of decryption undo the rounds of encryption.
pub proof fn lemma_rounds_undone(st: (nat, nat), s: Seq<nat>, n: nat, w: nat)
    requires
        0 < w <= 64,
        fits(st, w),
    ensures
        fits(encrypt_rounds(st, s, n, w), w),
        decrypt_rounds(encrypt_rounds(st, s, n, w), s, n, w) == st,
    decreases n,
{
    if n > 0 {
        let before = encrypt_rounds(st, s, (n - 1) as nat, w);
        lemma_rounds_undone(st, s, (n - 1) as nat, w);
        lemma_unround_undoes_round(before, s, n, w);
    }
}

/// Decrypting what was encrypted under the same subkeys gives the block
/// back, whatever the subkeys are.
pub proof fn lemma_decrypt_undoes_encrypt(pt: (nat, nat), s: Seq<nat>, rounds: nat, w: nat)
    requires
        0 < w <= 64,
        fits(pt, w),
        rounds >= 1,
    ensures
        decrypt_block(encrypt_block(pt, s, rounds, w), s, rounds, w) == pt,
{
    let st = whiten(pt, s, w);
    lemma_add_mod_bound(pt.0, s[0], w);
    lemma_add_mod_bound(pt.1, s[1], w);
    lemma_rounds_undone(st, s, (rounds - 1) as nat, w);
    lemma_sub_undoes_add(pt.0, s[0], w);
    lemma_sub_undoes_add(pt.1, s[1], w);
}

/// A block that decrypts what a block encrypted to, under the same secret
/// and the same number of rounds, at least one, is that block.
pub proof fn lemma_round_trip<W: Word>(
    pt: [W; 2],
    ct: [W; 2],
    back: [W; 2],
    secret: Seq<u8>,
    rounds: nat,
)
    requires
        rounds >= 1,
        block_vals(ct) == encrypted(pt, secret, rounds),
        block_vals(back) == decrypted(ct, secret, rounds),
    ensures
        back == pt,
{
    let w = word_bits::<W>();
    let s = schedule(secret, rounds, w, W::P.val(), W::Q.val());
    W::lemma_constants();
    pt[0].lemma_val_bound();
    pt[1].lemma_val_bound();
    lemma_decrypt_undoes_encrypt(block_vals(pt), s, rounds, w);
    back[0].lemma_val_injective(pt[0]);
    back[1].lemma_val_injective(pt[1]);
    assert(back =~= pt);
}

/// Encrypts a block of two words under the subkeys that the key expands
/// to. The key has at least one round, so that the first two subkeys exist.
pub fn encrypt<W: Word>(pt: [W; 2], key: Key) -> (ct: [W; 2])
    requires
        key.rounds >= 1,
        2 * key.rounds + 1 <= usize::MAX,
    ensures
        block_vals(ct) == encrypted(pt, key.key@, key.rounds as nat),
{
    let s: Vec<W> = key.expand_key();
    let ghost w = word_bits::<W>();
    let ghost sv = word_vals(s@);
    let ghost start = whiten(block_vals(pt), sv, w);

    let mut a = pt[0];
    let mut b = pt[1];

    a = a.wrapping_add(&s[0]);
    b = b.wrapping_add(&s[1]);

    let mut i: usize = 1;
    while i < key.rounds
        invariant
            1 <= i <= key.rounds,
            2 * key.rounds + 1 <= usize::MAX,
            s.len() == 2 * key.rounds + 1,
            w == word_bits::<W>(),
            sv == word_vals(s@),
            (a.val(), b.val()) == encrypt_rounds(start, sv, (i - 1) as nat, w),
        decreases key.rounds - i,
    {
        a = rsl(a.bitxor(b), b).wrapping_add(&s[2 * i]);
        b = rsl(b.bitxor(a), a).wrapping_add(&s[2 * i + 1]);
        i += 1;
    }

    [a, b]
}

/// Decrypts a block of two words under the subkeys that the key expands
/// to. The key has at least one round, so that the first two subkeys exist.
pub fn decrypt<W: Word>(ct: [W; 2], key: Key) -> (pt: [W; 2])
    requires
        key.rounds >= 1,
        2 * key.rounds + 1 <= usize::MAX,
    ensures
        block_vals(pt) == decrypted(ct, key.key@, key.rounds as nat),
{
    let s: Vec<W> = key.expand_key();
    let ghost w = word_bits::<W>();
    let ghost sv = word_vals(s@);
    let ghost all = decrypt_rounds(block_vals(ct), sv, (key.rounds - 1) as nat, w);

    let mut a = ct[0];
    let mut b = ct[1];

    let mut i: usize = key.rounds;
    while i > 1
        invariant
            1 <= i <= key.rounds,
            2 * key.rounds + 1 <= usize::MAX,
            s.len() == 2 * key.rounds + 1,
            w == word_bits::<W>(),
            sv == word_vals(s@),
            decrypt_rounds((a.val(), b.val()), sv, (i - 1) as nat, w) == all,
        decreases i,
    {
        i -= 1;
        b = rsr(b.wrapping_sub(&s[2 * i + 1]), a).bitxor(a);
        a = rsr(a.wrapping_sub(&s[2 * i]), b).bitxor(b);
    }

    a = a.wrapping_sub(&s[0]);
    b = b.wrapping_sub(&s[1]);

    [a, b]
}

} // verus!
