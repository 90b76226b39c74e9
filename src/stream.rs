//! Applying the cipher to a byte stream, four bytes (one word) per read.
//!
//! The decisions of a stream pass are made by `XTEA::stream_step`: given
//! where the pass stands and what the last read gave, it says what to do next.
//! A read that fails at the start of a block ends the pass cleanly; one that
//! fails between the two words of a block fails it.
use vstd::prelude::*;

use vstd::arithmetic::div_mod::lemma_fundamental_div_mod_converse;

use crate::block::transform_block;
use crate::buffer::{block_to_bytes, cipher_blocks, lemma_cipher_blocks_at};
use crate::cipher::XTEA;
use crate::words::{decode_word, encode_word, lemma_word_bytes_word, word_from_bytes, Endian};

verus! {

/// Where a stream pass stands between two reads.
#[derive(Clone, Copy, Debug, PartialEq, Eq)]
pub enum StreamState {
    /// The next read is the first word of a block.
    BlockStart,
    /// The first word of a block has been read; the next read is the second.
    HalfBlock(u32),
}

/// What one read of four bytes from the source gave.
#[derive(Clone, Copy, Debug)]
pub enum ReadOutcome {
    /// Four bytes were read.
    Word([u8; 4]),
    /// The read failed, at the end of the source or otherwise.
    Failed,
}

/// What the driver of a stream pass does next.
#[derive(Clone, Copy, Debug)]
pub enum StreamAction {
    /// Read the next four bytes.
    Read,
    /// Write these eight bytes to the sink, then read the next four.
    Write([u8; 8]),
    /// End the pass successfully.
    Finish,
    /// End the pass with the failure of the last read.
    Fail,
}

/// The failure of a pass over an in-memory source.
#[derive(Clone, Copy, Debug, PartialEq, Eq, Structural)]
pub enum StreamError {
    /// The source ended between the two words of a block.
    Truncated,
}

impl XTEA {
    /// Decides the next step of a stream pass from its state and the outcome
    /// of the last read.
    pub fn stream_step(
        &self,
        order: Endian,
        encipher: bool,
        state: StreamState,
        outcome: ReadOutcome,
    ) -> (r: (StreamState, StreamAction))
        ensures
            match (state, outcome) {
                (StreamState::BlockStart, ReadOutcome::Failed) => r.0 == StreamState::BlockStart
                    && r.1 is Finish,
                (StreamState::BlockStart, ReadOutcome::Word(b)) => r.0 == StreamState::HalfBlock(
                    word_from_bytes(order, b@),
                ) && r.1 is Read,
                (StreamState::HalfBlock(_), ReadOutcome::Failed) => r.0 == state && r.1 is Fail,
                (StreamState::HalfBlock(w0), ReadOutcome::Word(b)) => r.0 == StreamState::BlockStart
                    && r.1 is Write && r.1->Write_0@ == block_to_bytes(
                    order,
                    transform_block(
                        self.key(),
                        self.rounds(),
                        encipher,
                        (w0, word_from_bytes(order, b@)),
                    ),
                ),
            },
    {
        match (state, outcome) {
            (StreamState::BlockStart, ReadOutcome::Failed) => (
                StreamState::BlockStart,
                StreamAction::Finish,
            ),
            (StreamState::BlockStart, ReadOutcome::Word(b)) => (
                StreamState::HalfBlock(decode_word(order, &b)),
                StreamAction::Read,
            ),
            (StreamState::HalfBlock(w0), ReadOutcome::Failed) => (
                StreamState::HalfBlock(w0),
                StreamAction::Fail,
            ),
            (StreamState::HalfBlock(w0), ReadOutcome::Word(b)) => {
                let blk = self.transform(encipher, &[w0, decode_word(order, &b)]);
                let e0 = encode_word(order, blk[0]);
                let e1 = encode_word(order, blk[1]);
                let out: [u8; 8] = [e0[0], e0[1], e0[2], e0[3], e1[0], e1[1], e1[2], e1[3]];
                proof {
                    lemma_word_bytes_word(order, blk[0]);
                    lemma_word_bytes_word(order, blk[1]);
                    assert(out@ =~= e0@ + e1@);
                }
                (StreamState::BlockStart, StreamAction::Write(out))
            },
        }
    }

    /// Enciphers the stream read from `source` onto the end of `sink`; see
    /// `cipher_slice_stream`.
    pub fn encipher_slice_stream(&self, order: Endian, source: &[u8], sink: &mut Vec<u8>) -> (r:
        Result<(), StreamError>)
        ensures
            final(sink)@ == old(sink)@ + cipher_blocks(
                self.key(),
                self.rounds(),
                true,
                order,
                source@,
                source@.len() / 8,
            ),
            r is Ok <==> source@.len() % 8 < 4,
            r is Err ==> r == Err::<(), StreamError>(StreamError::Truncated),
    {
        self.cipher_slice_stream(order, true, source, sink)
    }

    /// Deciphers the stream read from `source` onto the end of `sink`; see
    /// `cipher_slice_stream`.
    pub fn decipher_slice_stream(&self, order: Endian, source: &[u8], sink: &mut Vec<u8>) -> (r:
        Result<(), StreamError>)
        ensures
            final(sink)@ == old(sink)@ + cipher_blocks(
                self.key(),
                self.rounds(),
                false,
                order,
                source@,
                source@.len() / 8,
            ),
            r is Ok <==> source@.len() % 8 < 4,
            r is Err ==> r == Err::<(), StreamError>(StreamError::Truncated),
    {
        self.cipher_slice_stream(order, false, source, sink)
    }

    /// Runs a stream pass over the bytes of `source`, each read taking the next
    /// four bytes, and appends what it writes to `sink`. Every whole block is
    /// transformed and written. The pass succeeds when fewer than four bytes
    /// are left after the last whole block, and fails as truncated otherwise.
    fn cipher_slice_stream(
        &self,
        order: Endian,
        encipher: bool,
        source: &[u8],
        sink: &mut Vec<u8>,
    ) -> (r: Result<(), StreamError>)
        ensures
            final(sink)@ == old(sink)@ + cipher_blocks(
                self.key(),
                self.rounds(),
                encipher,
                order,
                source@,
                source@.len() / 8,
            ),
            r is Ok <==> source@.len() % 8 < 4,
            r is Err ==> r == Err::<(), StreamError>(StreamError::Truncated),
    {
        let len = source.len();
        let mut pos: usize = 0;
        let mut state = StreamState::BlockStart;
        let ghost mut k: int = 0;
        loop
            invariant
                len == source@.len(),
                0 <= k,
                pos <= len,
                sink@ == old(sink)@ + cipher_blocks(
                    self.key(),
                    self.rounds(),
                    encipher,
                    order,
                    source@,
                    k as nat,
                ),
                match state {
                    StreamState::BlockStart => pos == 8 * k,
                    StreamState::HalfBlock(w0) => pos == 8 * k + 4 && w0 == word_from_bytes(
                        order,
                        source@.subrange(8 * k, 8 * k + 4),
                    ),
                },
            decreases len - pos,
        {
            let outcome = if len - pos >= 4 {
                let b: [u8; 4] = [source[pos], source[pos + 1], source[pos + 2], source[pos + 3]];
                assert(b@ =~= source@.subrange(pos as int, pos + 4));
                pos = pos + 4;
                ReadOutcome::Word(b)
            } else {
                ReadOutcome::Failed
            };
            let ghost before = state;
            let (next, action) = self.stream_step(order, encipher, state, outcome);
            state = next;
            match action {
                StreamAction::Read => {},
                StreamAction::Write(bytes) => {
                    let ghost prev = sink@;
                    let mut q: usize = 0;
                    while q < 8
                        invariant
                            q <= 8,
                            sink@ == prev + bytes@.subrange(0, q as int),
                        decreases 8 - q,
                    {
                        sink.push(bytes[q]);
                        assert(bytes@.subrange(0, q + 1) =~= bytes@.subrange(0, q as int).push(
                            bytes[q as int],
                        ));
                        q = q + 1;
                    }
                    proof {
                        let done = cipher_blocks(
                            self.key(),
                            self.rounds(),
                            encipher,
                            order,
                            source@,
                            k as nat,
                        );
                        let next_done = cipher_blocks(
                            self.key(),
                            self.rounds(),
                            encipher,
                            order,
                            source@,
                            (k + 1) as nat,
                        );
                        assert(bytes@.subrange(0, 8) =~= bytes@);
                        assert(done + bytes@ =~= next_done) by {
                            assert forall|i: int| 0 <= i < 8 * k + 8 implies (done + bytes@)[i]
                                == next_done[i] by {
                                if i >= 8 * k {
                                    lemma_cipher_blocks_at(
                                        self.key(),
                                        self.rounds(),
                                        encipher,
                                        order,
                                        source@,
                                        (k + 1) as nat,
                                        k,
                                        i - 8 * k,
                                    );
                                }
                            }
                        }
                        assert(sink@ =~= old(sink)@ + next_done);
                        k = k + 1;
                    }
                },
                StreamAction::Finish => {
                    proof {
                        lemma_fundamental_div_mod_converse(len as int, 8, k, len - 8 * k);
                    }
                    return Ok(());
                },
                StreamAction::Fail => {
                    proof {
                        lemma_fundamental_div_mod_converse(len as int, 8, k, len - 8 * k);
                    }
                    return Err(StreamError::Truncated);
                },
            }
        }
    }
}

} // verus!
