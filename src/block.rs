//! The mathematical model of one XTEA block transform.
//!
//! A round state is `(v0, v1, sum)`; all arithmetic wraps modulo 2^32.
use vstd::prelude::*;

use vstd::arithmetic::div_mod::lemma_add_mod_noop;

verus! {

/// The magic constant of the key schedule.
pub const DELTA: u32 = 0x9E37_79B9;

/// The word of `key` selected by the two low bits of `sel`.
pub open spec fn round_key(key: Seq<u32>, sel: u32) -> u32 {
    key[(sel & 3u32) as int]
}

/// The mixing function applied to one half of the block.
pub open spec fn mix(v: u32) -> u32 {
    ((v << 4u32) ^ (v >> 5u32)).wrapping_add(v)
}

/// One full enciphering round.
pub open spec fn encipher_round(key: Seq<u32>, s: (u32, u32, u32)) -> (u32, u32, u32) {
    let v0 = s.0.wrapping_add(mix(s.1) ^ s.2.wrapping_add(round_key(key, s.2)));
    let sum = s.2.wrapping_add(DELTA);
    let v1 = s.1.wrapping_add(mix(v0) ^ sum.wrapping_add(round_key(key, sum >> 11u32)));
    (v0, v1, sum)
}

/// One full deciphering round: the inverse of `encipher_round`.
pub open spec fn decipher_round(key: Seq<u32>, s: (u32, u32, u32)) -> (u32, u32, u32) {
    let v1 = s.1.wrapping_sub(mix(s.0) ^ s.2.wrapping_add(round_key(key, s.2 >> 11u32)));
    let sum = s.2.wrapping_sub(DELTA);
    let v0 = s.0.wrapping_sub(mix(v1) ^ sum.wrapping_add(round_key(key, sum)));
    (v0, v1, sum)
}

/// The state after `n` enciphering rounds from `s`.
pub open spec fn encipher_rounds(key: Seq<u32>, n: nat, s: (u32, u32, u32)) -> (u32, u32, u32)
    decreases n,
{
    if n == 0 {
        s
    } else {
        encipher_round(key, encipher_rounds(key, (n - 1) as nat, s))
    }
}

/// The state after `n` deciphering rounds from `s`.
pub open spec fn decipher_rounds(key: Seq<u32>, n: nat, s: (u32, u32, u32)) -> (u32, u32, u32)
    decreases n,
{
    if n == 0 {
        s
    } else {
        decipher_round(key, decipher_rounds(key, (n - 1) as nat, s))
    }
}

/// The enciphered block: `rounds` rounds with `sum` starting at zero.
pub open spec fn encipher_block(key: Seq<u32>, rounds: u32, b: (u32, u32)) -> (u32, u32) {
    let s = encipher_rounds(key, rounds as nat, (b.0, b.1, 0u32));
    (s.0, s.1)
}

/// The deciphered block: `rounds` rounds with `sum` starting at `DELTA * rounds`.
pub open spec fn decipher_block(key: Seq<u32>, rounds: u32, b: (u32, u32)) -> (u32, u32) {
    let s = decipher_rounds(key, rounds as nat, (b.0, b.1, DELTA.wrapping_mul(rounds)));
    (s.0, s.1)
}

/// The block transform in the chosen direction.
pub open spec fn transform_block(key: Seq<u32>, rounds: u32, encipher: bool, b: (u32, u32)) -> (
    u32,
    u32,
) {
    if encipher {
        encipher_block(key, rounds, b)
    } else {
        decipher_block(key, rounds, b)
    }
}

/// A deciphering round undoes an enciphering round, wraparound included.
pub proof fn lemma_round_inverse(key: Seq<u32>, s: (u32, u32, u32))
    ensures
        decipher_round(key, encipher_round(key, s)) == s,
{
}

/// Deciphering `n + 1` rounds is one round followed by `n` rounds.
proof fn lemma_decipher_rounds_unfold_first(key: Seq<u32>, n: nat, s: (u32, u32, u32))
    ensures
        decipher_rounds(key, n + 1, s) == decipher_rounds(key, n, decipher_round(key, s)),
    decreases n,
{
    let d = decipher_round(key, s);
    if n > 0 {
        let m: nat = (n - 1) as nat;
        lemma_decipher_rounds_unfold_first(key, m, s);
        assert(decipher_rounds(key, n + 1, s) == decipher_round(key, decipher_rounds(key, n, s)));
        assert(decipher_rounds(key, n, d) == decipher_round(key, decipher_rounds(key, m, d)));
    } else {
        assert(decipher_rounds(key, 1, s) == decipher_round(key, decipher_rounds(key, 0, s)));
    }
}

/// After `n` enciphering rounds from a zero sum, the sum is `DELTA * n` modulo 2^32.
proof fn lemma_encipher_sum(key: Seq<u32>, n: nat, v0: u32, v1: u32)
    ensures
        encipher_rounds(key, n, (v0, v1, 0u32)).2 == ((DELTA as nat * n) % 0x1_0000_0000) as u32,
    decreases n,
{
    if n > 0 {
        lemma_encipher_sum(key, (n - 1) as nat, v0, v1);
        let m: nat = (n - 1) as nat;
        assert(DELTA as nat * m + DELTA as nat == DELTA as nat * n) by (nonlinear_arith)
            requires
                m + 1 == n,
        ;
        lemma_add_mod_noop(DELTA as nat * m as int, DELTA as int, 0x1_0000_0000int);
    }
}

/// `n` deciphering rounds undo `n` enciphering rounds.
proof fn lemma_rounds_inverse(key: Seq<u32>, n: nat, s: (u32, u32, u32))
    ensures
        decipher_rounds(key, n, encipher_rounds(key, n, s)) == s,
    decreases n,
{
    if n > 0 {
        let m: nat = (n - 1) as nat;
        let t = encipher_rounds(key, m, s);
        lemma_decipher_rounds_unfold_first(key, m, encipher_round(key, t));
        lemma_round_inverse(key, t);
        lemma_rounds_inverse(key, m, s);
    }
}

/// Deciphering an enciphered block with the same key and round count gives the
/// block back, for every key, every round count and every block.
pub proof fn lemma_block_round_trip(key: Seq<u32>, rounds: u32, b: (u32, u32))
    ensures
        decipher_block(key, rounds, encipher_block(key, rounds, b)) == b,
{
    lemma_encipher_sum(key, rounds as nat, b.0, b.1);
    lemma_rounds_inverse(key, rounds as nat, (b.0, b.1, 0u32));
}

} // verus!
