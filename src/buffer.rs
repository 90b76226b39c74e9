//! Applying the cipher block by block to byte buffers.
use vstd::prelude::*;

use vstd::arithmetic::div_mod::{lemma_fundamental_div_mod, lemma_fundamental_div_mod_converse};

use crate::block::{encipher_block, lemma_block_round_trip, transform_block};
use crate::cipher::XTEA;
use crate::words::{
    decode_word, encode_word, lemma_bytes_word_bytes, lemma_word_bytes_word, word_from_bytes,
    word_to_bytes, Endian,
};

verus! {

/// Block `j` of `s` (bytes `8 * j` to `8 * j + 8`) as two words.
pub open spec fn block_at(order: Endian, s: Seq<u8>, j: int) -> (u32, u32) {
    (
        word_from_bytes(order, s.subrange(8 * j, 8 * j + 4)),
        word_from_bytes(order, s.subrange(8 * j + 4, 8 * j + 8)),
    )
}

/// The eight bytes of a block.
pub open spec fn block_to_bytes(order: Endian, b: (u32, u32)) -> Seq<u8> {
    word_to_bytes(order, b.0) + word_to_bytes(order, b.1)
}

/// The first `n` blocks of `s`, each transformed on its own, in order.
pub open spec fn cipher_blocks(
    key: Seq<u32>,
    rounds: u32,
    encipher: bool,
    order: Endian,
    s: Seq<u8>,
    n: nat,
) -> Seq<u8> {
    Seq::new(
        8 * n,
        |i: int|
            block_to_bytes(order, transform_block(key, rounds, encipher, block_at(order, s, i / 8)))[i
                % 8],
    )
}

/// Byte `8 * j + r` of a transformed buffer is byte `r` of transformed block `j`.
pub(crate) proof fn lemma_cipher_blocks_at(
    key: Seq<u32>,
    rounds: u32,
    encipher: bool,
    order: Endian,
    s: Seq<u8>,
    n: nat,
    j: int,
    r: int,
)
    requires
        0 <= j < n,
        0 <= r < 8,
    ensures
        cipher_blocks(key, rounds, encipher, order, s, n)[8 * j + r] == block_to_bytes(
            order,
            transform_block(key, rounds, encipher, block_at(order, s, j)),
        )[r],
{
    lemma_fundamental_div_mod_converse(8 * j + r, 8, j, r);
}

/// A block read back from its own bytes is the block.
proof fn lemma_block_bytes_block(order: Endian, t: Seq<u8>, j: int, b: (u32, u32))
    requires
        0 <= j,
        8 * j + 8 <= t.len(),
        t.subrange(8 * j, 8 * j + 8) == block_to_bytes(order, b),
    ensures
        block_at(order, t, j) == b,
{
    lemma_word_bytes_word(order, b.0);
    lemma_word_bytes_word(order, b.1);
    assert(t.subrange(8 * j, 8 * j + 4) =~= t.subrange(8 * j, 8 * j + 8).subrange(0, 4));
    assert(t.subrange(8 * j + 4, 8 * j + 8) =~= t.subrange(8 * j, 8 * j + 8).subrange(4, 8));
    assert(block_to_bytes(order, b).subrange(0, 4) =~= word_to_bytes(order, b.0));
    assert(block_to_bytes(order, b).subrange(4, 8) =~= word_to_bytes(order, b.1));
}

/// The bytes of a block read from a buffer are that buffer's bytes.
proof fn lemma_block_at_bytes(order: Endian, s: Seq<u8>, j: int)
    requires
        0 <= j,
        8 * j + 8 <= s.len(),
    ensures
        block_to_bytes(order, block_at(order, s, j)) == s.subrange(8 * j, 8 * j + 8),
{
    lemma_bytes_word_bytes(order, s.subrange(8 * j, 8 * j + 4));
    lemma_bytes_word_bytes(order, s.subrange(8 * j + 4, 8 * j + 8));
    assert(block_to_bytes(order, block_at(order, s, j)) =~= s.subrange(8 * j, 8 * j + 8));
}

/// Deciphering an enciphered buffer whose length is a multiple of eight, with
/// the same key, round count and byte order, gives the buffer back.
pub proof fn lemma_buffer_round_trip(key: Seq<u32>, rounds: u32, order: Endian, s: Seq<u8>)
    requires
        s.len() % 8 == 0,
    ensures
        cipher_blocks(
            key,
            rounds,
            false,
            order,
            cipher_blocks(key, rounds, true, order, s, s.len() / 8),
            s.len() / 8,
        ) == s,
{
    let n: nat = s.len() / 8;
    let t = cipher_blocks(key, rounds, true, order, s, n);
    let u = cipher_blocks(key, rounds, false, order, t, n);
    lemma_fundamental_div_mod(s.len() as int, 8);
    assert forall|i: int| 0 <= i < s.len() implies u[i] == s[i] by {
        let j = i / 8;
        let r = i % 8;
        lemma_fundamental_div_mod(i, 8);
        let e = encipher_block(key, rounds, block_at(order, s, j));
        assert(t.subrange(8 * j, 8 * j + 8) =~= block_to_bytes(order, e)) by {
            assert forall|q: int| 0 <= q < 8 implies t.subrange(8 * j, 8 * j + 8)[q]
                == block_to_bytes(order, e)[q] by {
                lemma_cipher_blocks_at(key, rounds, true, order, s, n, j, q);
            }
        }
        lemma_block_bytes_block(order, t, j, e);
        lemma_block_round_trip(key, rounds, block_at(order, s, j));
        lemma_cipher_blocks_at(key, rounds, false, order, t, n, j, r);
        lemma_block_at_bytes(order, s, j);
    }
    assert(u =~= s);
}

impl XTEA {
    /// One block transformed in the chosen direction.
    pub fn transform(&self, encipher: bool, input: &[u32; 2]) -> (r: [u32; 2])
        ensures
            (r@[0], r@[1]) == transform_block(
                self.key(),
                self.rounds(),
                encipher,
                (input@[0], input@[1]),
            ),
    {
        let mut out = [0u32; 2];
        if encipher {
            self.encipher(input, &mut out);
        } else {
            self.decipher(input, &mut out);
        }
        out
    }

    /// Enciphers `input` into `output`, block by block, reading and writing
    /// words in byte order `order`.
    pub fn encipher_u8slice(&self, order: Endian, input: &[u8], output: &mut [u8])
        requires
            old(output)@.len() == input@.len(),
            input@.len() % 8 == 0,
        ensures
            final(output)@ == cipher_blocks(
                self.key(),
                self.rounds(),
                true,
                order,
                input@,
                input@.len() / 8,
            ),
    {
        self.cipher_u8slice(order, input, output, true)
    }

    /// Deciphers `input` into `output`, block by block, reading and writing
    /// words in byte order `order`.
    pub fn decipher_u8slice(&self, order: Endian, input: &[u8], output: &mut [u8])
        requires
            old(output)@.len() == input@.len(),
            input@.len() % 8 == 0,
        ensures
            final(output)@ == cipher_blocks(
                self.key(),
                self.rounds(),
                false,
                order,
                input@,
                input@.len() / 8,
            ),
    {
        self.cipher_u8slice(order, input, output, false)
    }

    /// Transforms `input` into `output` in the chosen direction.
    fn cipher_u8slice(&self, order: Endian, input: &[u8], output: &mut [u8], encipher: bool)
        requires
            old(output)@.len() == input@.len(),
            input@.len() % 8 == 0,
        ensures
            final(output)@ == cipher_blocks(
                self.key(),
                self.rounds(),
                encipher,
                order,
                input@,
                input@.len() / 8,
            ),
    {
        let len = input.len();
        let ghost m: int = len as int / 8;
        proof {
            lemma_fundamental_div_mod(len as int, 8);
        }
        let mut at: usize = 0;
        let ghost mut k: int = 0;
        while at < len
            invariant
                len == input@.len(),
                output@.len() == len,
                len == 8 * m,
                0 <= k <= m,
                at == 8 * k,
                output@.subrange(0, at as int) == cipher_blocks(
                    self.key(),
                    self.rounds(),
                    encipher,
                    order,
                    input@,
                    k as nat,
                ),
            decreases len - at,
        {
            let w0: [u8; 4] = [input[at], input[at + 1], input[at + 2], input[at + 3]];
            let w1: [u8; 4] = [input[at + 4], input[at + 5], input[at + 6], input[at + 7]];
            assert(w0@ =~= input@.subrange(at as int, at + 4));
            assert(w1@ =~= input@.subrange(at + 4, at + 8));
            let blk = self.transform(encipher, &[decode_word(order, &w0), decode_word(order, &w1)]);
            let e0 = encode_word(order, blk[0]);
            let e1 = encode_word(order, blk[1]);
            let ghost prev = output@;
            output[at] = e0[0];
            output[at + 1] = e0[1];
            output[at + 2] = e0[2];
            output[at + 3] = e0[3];
            output[at + 4] = e1[0];
            output[at + 5] = e1[1];
            output[at + 6] = e1[2];
            output[at + 7] = e1[3];
            proof {
                let done = cipher_blocks(self.key(), self.rounds(), encipher, order, input@, k as nat);
                let next = cipher_blocks(
                    self.key(),
                    self.rounds(),
                    encipher,
                    order,
                    input@,
                    (k + 1) as nat,
                );
                lemma_word_bytes_word(order, blk[0]);
                lemma_word_bytes_word(order, blk[1]);
                assert forall|i: int| 0 <= i < at + 8 implies output@[i] == next[i] by {
                    if i < at {
                        assert(prev.subrange(0, at as int)[i] == done[i]);
                    } else {
                        lemma_cipher_blocks_at(
                            self.key(),
                            self.rounds(),
                            encipher,
                            order,
                            input@,
                            (k + 1) as nat,
                            k,
                            i - at,
                        );
                    }
                }
                assert(output@.subrange(0, at + 8) =~= next);
                k = k + 1;
            }
            at = at + 8;
        }
        assert(output@.subrange(0, len as int) =~= output@);
    }
}

} // verus!
