//! The secret key and its expansion into round subkeys.
use crate::arith::{add_mod, is_word_bits, rot_left};
use crate::word::{rsl, word_bits, Word};
use vstd::arithmetic::div_mod::{lemma_add_mod_noop, lemma_small_mod};
use vstd::arithmetic::power2::{lemma_pow2_pos, pow2};
use vstd::prelude::*;

verus! {

/// The values of a sequence of words.
pub open spec fn word_vals<W: Word>(words: Seq<W>) -> Seq<nat> {
    Seq::new(words.len(), |k: int| words[k].val())
}

/// How many words of `w` bits it takes to hold `b` secret bytes, and never
/// fewer than one.
pub open spec fn key_words(b: nat, w: nat) -> nat {
    let c = (8 * b + (w - 1)) / (w as int);
    if c < 1 {
        1
    } else {
        c as nat
    }
}

/// The key buffer once the secret bytes from index `from` up to the last
/// have gone in, last byte first: the buffer starts as `key_words` zero
/// words, and each byte turns the word it falls into left by eight plus
/// the byte's value, that sum taken as a word.
pub open spec fn packed(secret: Seq<u8>, from: nat, w: nat) -> Seq<nat>
    decreases secret.len() - from,
{
    if from >= secret.len() {
        Seq::new(key_words(secret.len(), w), |k: int| 0nat)
    } else {
        let rest = packed(secret, from + 1, w);
        let ix = (from / (w / 8)) as int;
        rest.update(ix, rot_left(rest[ix], add_mod(8, secret[from as int] as nat, w), w))
    }
}

/// The subkey buffer before mixing: `t` values that start at `p` and go up
/// by `q`, wrapping at `2^w`.
pub open spec fn seeds(t: nat, p: nat, q: nat, w: nat) -> Seq<nat> {
    Seq::new(t, |k: int| ((p + k * q) % (pow2(w) as int)) as nat)
}

/// The state of the mixing loop: the two buffers, a position in each, and
/// the two running values.
pub struct MixState {
    pub s: Seq<nat>,
    pub l: Seq<nat>,
    pub i: nat,
    pub j: nat,
    pub a: nat,
    pub b: nat,
}

/// One iteration of mixing. The subkey at `i` takes up both running values
/// and turns left by three; the key word at `j` takes up both and turns
/// left by their sum. Then `i` moves on by `j`, and `j` by the new `i`.
pub open spec fn mix_step(st: MixState, w: nat) -> MixState {
    let a = rot_left(add_mod(add_mod(st.s[st.i as int], st.a, w), st.b, w), 3, w);
    let b = rot_left(add_mod(add_mod(st.l[st.j as int], a, w), st.b, w), add_mod(a, st.b, w), w);
    let i = (st.i + st.j) % st.s.len();
    let j = (st.j + i) % st.l.len();
    MixState { s: st.s.update(st.i as int, a), l: st.l.update(st.j as int, b), i, j, a, b }
}

/// The state after `n` iterations of mixing.
pub open spec fn mix(st: MixState, n: nat, w: nat) -> MixState
    decreases n,
{
    if n == 0 {
        st
    } else {
        mix_step(mix(st, (n - 1) as nat, w), w)
    }
}

/// The state that mixing starts from.
pub open spec fn mix_start(secret: Seq<u8>, rounds: nat, w: nat, p: nat, q: nat) -> MixState {
    MixState { s: seeds(2 * rounds + 1, p, q, w), l: packed(secret, 0, w), i: 0, j: 0, a: 0, b: 0 }
}

/// How many iterations of mixing a key takes: three passes over the longer
/// of the two buffers.
pub open spec fn mix_count(b: nat, rounds: nat, w: nat) -> nat {
    let c = key_words(b, w);
    let t = 2 * rounds + 1;
    if c > t {
        3 * c
    } else {
        3 * t
    }
}

/// The subkeys, as values, that a secret gives for a number of rounds, a
/// width `w` in bits and the two seeds `p` and `q`.
pub open spec fn schedule(secret: Seq<u8>, rounds: nat, w: nat, p: nat, q: nat) -> Seq<nat> {
    mix(mix_start(secret, rounds, w, p, q), mix_count(secret.len(), rounds, w), w).s
}

/// A secret and the number of rounds to run with it.
#[derive(Debug, Clone)]
pub struct Key {
    pub key: Vec<u8>,
    pub rounds: usize,
}

/// `n` words of zero.
fn zero_words<W: Word>(n: usize) -> (v: Vec<W>)
    ensures
        v.len() == n,
        forall|k: int| 0 <= k < n ==> (#[trigger] v[k]).val() == 0,
{
    let mut v: Vec<W> = Vec::new();
    let mut k: usize = 0;
    proof {
        W::lemma_constants();
    }
    while k < n
        invariant
            k <= n,
            v.len() == k,
            W::ZERO.val() == 0,
            forall|m: int| 0 <= m < k ==> (#[trigger] v[m]).val() == 0,
        decreases n - k,
    {
        v.push(W::ZERO);
        k += 1;
    }
    v
}

/// `(i + j) mod n`, for a position `i` below `n`.
fn step_index(i: usize, j: usize, n: usize) -> (r: usize)
    requires
        i < n,
    ensures
        r == (i + j) % (n as int),
        r < n,
{
    let d = j % n;
    proof {
        lemma_add_mod_noop(i as int, j as int, n as int);
        lemma_small_mod(i as nat, n as nat);
        if i >= n - d {
            vstd::arithmetic::div_mod::lemma_fundamental_div_mod_converse(
                i + d,
                n as int,
                1,
                i + d - n,
            );
        } else {
            lemma_small_mod((i + d) as nat, n as nat);
        }
    }
    if i >= n - d {
        i - (n - d)
    } else {
        i + d
    }
}

/// Counting the key words by whole words of bytes agrees with counting
/// them by bits.
proof fn lemma_key_words(b: nat, bytes: nat)
    requires
        bytes == 1 || bytes == 2 || bytes == 4 || bytes == 8,
    ensures
        key_words(b, 8 * bytes) == if b == 0 {
            1
        } else if b % bytes == 0 {
            b / bytes
        } else {
            b / bytes + 1
        },
        b > 0 ==> (b - 1) / (bytes as int) < key_words(b, 8 * bytes),
{
    if bytes == 1 {
        assert((8 * b + 7) / 8 == b);
    } else if bytes == 2 {
        assert((8 * b + 15) / 16 == (b + 1) / 2);
    } else if bytes == 4 {
        assert((8 * b + 31) / 32 == (b + 3) / 4);
    } else {
        assert((8 * b + 63) / 64 == (b + 7) / 8);
    }
}

/// One more seed: the next value of the progression is the last one plus
/// `q`, wrapped.
proof fn lemma_next_seed(k: int, p: nat, q: nat, w: nat)
    requires
        0 <= k,
    ensures
        add_mod(((p + k * q) % (pow2(w) as int)) as nat, q, w) == (p + (k + 1) * q) % (pow2(w) as int),
{
    let m = pow2(w) as int;
    lemma_pow2_pos(w);
    assert((k + 1) * q == k * q + q) by (nonlinear_arith);
    vstd::arithmetic::div_mod::lemma_add_mod_noop_right(q as int, p + k * q, m);
}

impl Key {
    pub fn new(key: Vec<u8>, rounds: usize) -> (r: Self)
        ensures
            r.key == key,
            r.rounds == rounds,
    {
        Self { key, rounds }
    }

    /// The round subkeys for words of type `W`: `2 * rounds + 1` of them,
    /// with the values that `schedule` gives.
    pub fn expand_key<W: Word>(&self) -> (key_s: Vec<W>)
        requires
            2 * self.rounds + 1 <= usize::MAX,
        ensures
            key_s.len() == 2 * self.rounds + 1,
            word_vals(key_s@) == schedule(
                self.key@,
                self.rounds as nat,
                word_bits::<W>(),
                W::P.val(),
                W::Q.val(),
            ),
    {
        let ghost bits = word_bits::<W>();
        let ghost p = W::P.val();
        let ghost q = W::Q.val();
        proof {
            W::lemma_constants();
            lemma_key_words(self.key@.len(), W::BYTES as nat);
        }
        let b = self.key.len();
        let w = W::BYTES;
        let c: usize = if b == 0 {
            1
        } else if b % w == 0 {
            b / w
        } else {
            b / w + 1
        };
        let t: usize = 2 * self.rounds + 1;

        let mut key_l = zero_words::<W>(c);
        assert(word_vals(key_l@) =~= packed(self.key@, b as nat, bits));
        let mut i: usize = b;
        while i > 0
            invariant
                i <= b,
                b == self.key@.len(),
                w == W::BYTES,
                bits == word_bits::<W>(),
                is_word_bits(bits),
                c == key_words(b as nat, bits),
                key_l.len() == c,
                word_vals(key_l@) == packed(self.key@, i as nat, bits),
            decreases i,
        {
            i -= 1;
            proof {
                lemma_key_words(b as nat, w as nat);
            }
            let ix = i / w;
            let turn = W::from_u8(8u8).wrapping_add(&W::from_u8(self.key[i]));
            let ghost before = key_l@;
            let word = rsl(key_l[ix], turn);
            key_l.set(ix, word);
            assert(word_vals(key_l@) =~= packed(self.key@, i as nat, bits)) by {
                assert(word_vals(before)[ix as int] == before[ix as int].val());
                assert(bits / 8 == w);
            }
        }

        let mut key_s = zero_words::<W>(t);
        key_s.set(0, W::P);
        proof {
            lemma_pow2_pos(bits);
            W::P.lemma_val_bound();
            lemma_small_mod(p, pow2(bits));
            assert(p + 0 * q == p);
        }
        let mut n: usize = 1;
        while n < t
            invariant
                1 <= n <= t,
                key_s.len() == t,
                bits == word_bits::<W>(),
                p == W::P.val(),
                q == W::Q.val(),
                forall|k: int| 0 <= k < n ==> (#[trigger] key_s[k]).val() == seeds(t as nat, p, q, bits)[k],
            decreases t - n,
        {
            proof {
                lemma_next_seed(n - 1, p, q, bits);
            }
            let next = key_s[n - 1].wrapping_add(&W::Q);
            key_s.set(n, next);
            n += 1;
        }
        assert(word_vals(key_s@) =~= seeds(t as nat, p, q, bits));

        let mut i: usize = 0;
        let mut j: usize = 0;
        let mut a = W::ZERO;
        let mut b = W::ZERO;
        let ghost start = mix_start(self.key@, self.rounds as nat, bits, p, q);
        let iters: u128 = 3 * (if c > t {
            c as u128
        } else {
            t as u128
        });
        let mut done: u128 = 0;
        while done < iters
            invariant
                done <= iters,
                bits == word_bits::<W>(),
                key_s.len() == t,
                key_l.len() == c,
                i < t,
                j < c,
                mix(start, done as nat, bits) == (MixState {
                    s: word_vals(key_s@),
                    l: word_vals(key_l@),
                    i: i as nat,
                    j: j as nat,
                    a: a.val(),
                    b: b.val(),
                }),
            decreases iters - done,
        {
            let ghost before_s = key_s@;
            let ghost before_l = key_l@;
            let ghost before = mix(start, done as nat, bits);
            let mixed = rsl(key_s[i].wrapping_add(&a).wrapping_add(&b), W::from_u8(3u8));
            key_s.set(i, mixed);
            a = key_s[i];
            let fed = rsl(key_l[j].wrapping_add(&a).wrapping_add(&b), a.wrapping_add(&b));
            key_l.set(j, fed);
            b = key_l[j];
            proof {
                assert(word_vals(before_s)[i as int] == before_s[i as int].val());
                assert(word_vals(before_l)[j as int] == before_l[j as int].val());
                assert(word_vals(key_s@) =~= word_vals(before_s).update(i as int, a.val()));
                assert(word_vals(key_l@) =~= word_vals(before_l).update(j as int, b.val()));
            }
            i = step_index(i, j, t);
            j = step_index(j, i, c);
            done += 1;
            assert(mix(start, done as nat, bits) == mix_step(before, bits));
        }
        key_s
    }
}

/// Two expansions of one secret, for one number of rounds and one word
/// type, are the same subkeys.
pub proof fn lemma_expand_key_deterministic<W: Word>(
    first: Seq<W>,
    second: Seq<W>,
    secret: Seq<u8>,
    rounds: nat,
)
    requires
        word_vals(first) == schedule(secret, rounds, word_bits::<W>(), W::P.val(), W::Q.val()),
        word_vals(second) == schedule(secret, rounds, word_bits::<W>(), W::P.val(), W::Q.val()),
    ensures
        first == second,
{
    assert(first.len() == word_vals(first).len());
    assert(second.len() == word_vals(second).len());
    assert forall|k: int| 0 <= k < first.len() implies first[k] == second[k] by {
        assert(first[k].val() == word_vals(first)[k]);
        assert(second[k].val() == word_vals(second)[k]);
        first[k].lemma_val_injective(second[k]);
    }
    assert(first =~= second);
}

} // verus!
