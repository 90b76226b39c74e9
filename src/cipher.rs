//! The cipher instance and its block operations.
use vstd::prelude::*;

use crate::block::{decipher_block, decipher_rounds, encipher_block, encipher_rounds, DELTA};

verus! {

/// Rounds used by `XTEA::new`.
pub const DEFAULT_ROUNDS: u32 = 32;

/// An XTEA cipher: a 128-bit key and an even number of rounds.
#[derive(Debug)]
pub struct XTEA {
    key: [u32; 4],
    num_rounds: u32,
}

impl XTEA {
    #[verifier::type_invariant]
    spec fn rounds_even(self) -> bool {
        self.num_rounds % 2 == 0
    }

    /// The four key words.
    pub closed spec fn key(&self) -> Seq<u32> {
        self.key@
    }

    /// The number of full Feistel rounds applied in each direction.
    pub closed spec fn rounds(&self) -> u32 {
        self.num_rounds
    }

    /// Creates a cipher with the given key and the default round count.
    pub fn new(key: [u32; 4]) -> (r: Self)
        ensures
            r.key() == key@,
            r.rounds() == DEFAULT_ROUNDS,
            r.rounds() % 2 == 0,
    {
        Self::new_with_rounds(key, DEFAULT_ROUNDS)
    }

    /// Creates a cipher with the given key and round count, which must be even.
    pub fn new_with_rounds(key: [u32; 4], num_rounds: u32) -> (r: Self)
        requires
            num_rounds % 2 == 0,
        ensures
            r.key() == key@,
            r.rounds() == num_rounds,
            r.rounds() % 2 == 0,
    {
        XTEA { key, num_rounds }
    }

    /// Enciphers the block `input` into `output`.
    pub fn encipher(&self, input: &[u32; 2], output: &mut [u32; 2])
        ensures
            (final(output)@[0], final(output)@[1]) == encipher_block(
                self.key(),
                self.rounds(),
                (input@[0], input@[1]),
            ),
    {
        let mut v0: u32 = input[0];
        let mut v1: u32 = input[1];
        let mut sum: u32 = 0;
        let ghost start = (v0, v1, sum);
        let mut i: u32 = 0;
        while i < self.num_rounds
            invariant
                i <= self.num_rounds,
                (v0, v1, sum) == encipher_rounds(self.key@, i as nat, start),
            decreases self.num_rounds - i,
        {
            assert(sum & 3 < 4) by (bit_vector);
            v0 = v0.wrapping_add(
                (((v1 << 4u32) ^ (v1 >> 5u32)).wrapping_add(v1)) ^ sum.wrapping_add(
                    self.key[(sum & 3) as usize],
                ),
            );
            sum = sum.wrapping_add(DELTA);
            assert((sum >> 11u32) & 3 < 4) by (bit_vector);
            v1 = v1.wrapping_add(
                (((v0 << 4u32) ^ (v0 >> 5u32)).wrapping_add(v0)) ^ sum.wrapping_add(
                    self.key[((sum >> 11u32) & 3) as usize],
                ),
            );
            i = i + 1;
        }
        output[0] = v0;
        output[1] = v1;
    }

    /// Deciphers the block `input` into `output`.
    pub fn decipher(&self, input: &[u32; 2], output: &mut [u32; 2])
        ensures
            (final(output)@[0], final(output)@[1]) == decipher_block(
                self.key(),
                self.rounds(),
                (input@[0], input@[1]),
            ),
    {
        let mut v0: u32 = input[0];
        let mut v1: u32 = input[1];
        let mut sum: u32 = DELTA.wrapping_mul(self.num_rounds);
        let ghost start = (v0, v1, sum);
        let mut i: u32 = 0;
        while i < self.num_rounds
            invariant
                i <= self.num_rounds,
                (v0, v1, sum) == decipher_rounds(self.key@, i as nat, start),
            decreases self.num_rounds - i,
        {
            assert((sum >> 11u32) & 3 < 4) by (bit_vector);
            v1 = v1.wrapping_sub(
                (((v0 << 4u32) ^ (v0 >> 5u32)).wrapping_add(v0)) ^ sum.wrapping_add(
                    self.key[((sum >> 11u32) & 3) as usize],
                ),
            );
            sum = sum.wrapping_sub(DELTA);
            assert(sum & 3 < 4) by (bit_vector);
            v0 = v0.wrapping_sub(
                (((v1 << 4u32) ^ (v1 >> 5u32)).wrapping_add(v1)) ^ sum.wrapping_add(
                    self.key[(sum & 3) as usize],
                ),
            );
            i = i + 1;
        }
        output[0] = v0;
        output[1] = v1;
    }
}

} // verus!
