//! Streaming decoder for `Transfer-Encoding: chunked`.
//!
//! The decoder is a byte-at-a-time state machine; `decode` folds it over an
//! input slice and is proved to match the functional model `spec_run`
//! exactly: same bytes consumed, same bytes emitted, same final state.

use crate::err::{Error, ErrorKind};
use vstd::prelude::*;

verus! {

/// The largest chunk size accepted, `2^32 - 1`.
pub const MAX_CHUNK_SIZE: u64 = 0xFFFF_FFFF;

/// Decoder position in the chunked framing. `ReadSize` accumulates the hex
/// size (`seen` says whether any digit arrived); the two `*Lf` states carry
/// whether the `\r` of their `\r\n` has been seen.
pub enum ChunkState {
    ReadSize { size: u64, seen: bool },
    ReadSizeLf { size: u64 },
    ReadChunk { remaining: u64 },
    ReadChunkLf { seen_cr: bool },
    ReadTrailerCr { seen_cr: bool },
    End,
}

impl ChunkState {
    /// Size accumulators stay within the accepted chunk-size bound.
    pub open spec fn wf(self) -> bool {
        match self {
            ChunkState::ReadSize { size, .. } => size <= MAX_CHUNK_SIZE,
            ChunkState::ReadSizeLf { size } => size <= MAX_CHUNK_SIZE,
            ChunkState::ReadChunk { remaining } => 1 <= remaining <= MAX_CHUNK_SIZE,
            _ => true,
        }
    }
}

/// Value of an ASCII hex digit, 16 for any other byte.
pub open spec fn hex_val(b: u8) -> u64 {
    if 48 <= b <= 57 {
        (b - 48) as u64
    } else if 97 <= b <= 102 {
        (b - 87) as u64
    } else if 65 <= b <= 70 {
        (b - 55) as u64
    } else {
        16
    }
}

/// One transition: the next state and the byte emitted, or `None` on
/// malformed input (bad hex size, an oversized size, a missing CR or LF).
pub open spec fn spec_step(s: ChunkState, b: u8) -> Option<(ChunkState, Option<u8>)> {
    match s {
        ChunkState::ReadSize { size, seen } => {
            if hex_val(b) < 16 {
                if size * 16 + hex_val(b) > MAX_CHUNK_SIZE {
                    None
                } else {
                    Some((ChunkState::ReadSize { size: (size * 16 + hex_val(b)) as u64, seen: true }, None))
                }
            } else if b == 13 && seen {
                Some((ChunkState::ReadSizeLf { size }, None))
            } else {
                None
            }
        },
        ChunkState::ReadSizeLf { size } => {
            if b == 10 {
                if size == 0 {
                    Some((ChunkState::ReadTrailerCr { seen_cr: false }, None))
                } else {
                    Some((ChunkState::ReadChunk { remaining: size }, None))
                }
            } else {
                None
            }
        },
        ChunkState::ReadChunk { remaining } => {
            if remaining == 1 {
                Some((ChunkState::ReadChunkLf { seen_cr: false }, Some(b)))
            } else {
                Some((ChunkState::ReadChunk { remaining: (remaining - 1) as u64 }, Some(b)))
            }
        },
        ChunkState::ReadChunkLf { seen_cr } => {
            if !seen_cr && b == 13 {
                Some((ChunkState::ReadChunkLf { seen_cr: true }, None))
            } else if seen_cr && b == 10 {
                Some((ChunkState::ReadSize { size: 0, seen: false }, None))
            } else {
                None
            }
        },
        ChunkState::ReadTrailerCr { seen_cr } => {
            if !seen_cr && b == 13 {
                Some((ChunkState::ReadTrailerCr { seen_cr: true }, None))
            } else if seen_cr && b == 10 {
                Some((ChunkState::End, None))
            } else {
                None
            }
        },
        ChunkState::End => None,
    }
}

/// The fold of `spec_step` over `input`: the final state and every emitted
/// byte, or `None` if any step rejects.
pub open spec fn spec_run(s: ChunkState, input: Seq<u8>) -> Option<(ChunkState, Seq<u8>)>
    decreases input.len(),
{
    if input.len() == 0 {
        Some((s, Seq::<u8>::empty()))
    } else {
        match spec_step(s, input[0]) {
            None => None,
            Some((s1, o)) => match spec_run(s1, input.drop_first()) {
                None => None,
                Some((s2, rest)) => {
                    let head = match o {
                        Some(x) => seq![x],
                        None => Seq::<u8>::empty(),
                    };
                    Some((s2, head + rest))
                },
            },
        }
    }
}

/// Running over one more byte at the end is one more step.
pub proof fn lemma_run_snoc(s: ChunkState, xs: Seq<u8>, b: u8)
    ensures
        spec_run(s, xs.push(b)) == (match spec_run(s, xs) {
            None => None::<(ChunkState, Seq<u8>)>,
            Some((s1, out)) => match spec_step(s1, b) {
                None => None::<(ChunkState, Seq<u8>)>,
                Some((s2, o)) => {
                    let tail = match o {
                        Some(x) => seq![x],
                        None => Seq::<u8>::empty(),
                    };
                    Some((s2, out + tail))
                },
            },
        }),
    decreases xs.len(),
{
    if xs.len() == 0 {
        reveal_with_fuel(spec_run, 3);
        assert(xs.push(b)[0] == b);
        assert(xs.push(b).drop_first() =~= Seq::<u8>::empty());
        match spec_step(s, b) {
            None => {},
            Some((s2, o)) => {
                let tail = match o {
                    Some(x) => seq![x],
                    None => Seq::<u8>::empty(),
                };
                assert(spec_run(s, xs.push(b)) == Some((s2, tail)));
                assert(tail + Seq::<u8>::empty() =~= tail);
            },
        }
    } else {
        assert(xs.push(b)[0] == xs[0]);
        assert(xs.push(b).drop_first() =~= xs.drop_first().push(b));
        match spec_step(s, xs[0]) {
            None => {},
            Some((s1, o)) => {
                lemma_run_snoc(s1, xs.drop_first(), b);
                let head = match o {
                    Some(x) => seq![x],
                    None => Seq::<u8>::empty(),
                };
                match spec_run(s1, xs.drop_first()) {
                    None => {},
                    Some((s2, rest)) => {
                        match spec_step(s2, b) {
                            None => {},
                            Some((s3, o2)) => {
                                let tail = match o2 {
                                    Some(x) => seq![x],
                                    None => Seq::<u8>::empty(),
                                };
                                assert(head + (rest + tail) =~= (head + rest) + tail);
                            },
                        }
                    },
                }
            },
        }
    }
}

/// A decoder never emits more bytes than it consumes.
pub proof fn lemma_run_output_len(s: ChunkState, input: Seq<u8>)
    ensures
        match spec_run(s, input) {
            Some((_, out)) => out.len() <= input.len(),
            None => true,
        },
    decreases input.len(),
{
    if input.len() > 0 {
        match spec_step(s, input[0]) {
            None => {},
            Some((s1, o)) => {
                lemma_run_output_len(s1, input.drop_first());
            },
        }
    }
}

/// Pull-based chunked-transfer decoder.
pub struct ChunkedDecoder {
    pub state: ChunkState,
}

impl ChunkedDecoder {
    pub fn new() -> (r: Self)
        ensures
            r.state == (ChunkState::ReadSize { size: 0u64, seen: false }),
            r.state.wf(),
    {
        ChunkedDecoder { state: ChunkState::ReadSize { size: 0, seen: false } }
    }

    /// Whether the terminating `0\r\n\r\n` has been fully consumed.
    pub fn is_end(&self) -> (r: bool)
        ensures
            r == (self.state is End),
    {
        match self.state {
            ChunkState::End => true,
            _ => false,
        }
    }

    /// Feed `input`, appending decoded payload bytes to `out`.
    ///
    /// Consumes input up to its end or to the end of the stream, exactly as
    /// the functional model does; on malformed input the decoder emits what
    /// preceded the first offending byte, rejects it, and is left at `End`.
    pub fn decode(&mut self, input: &[u8], out: &mut Vec<u8>) -> (r: Result<usize, Error>)
        requires
            old(self).state.wf(),
        ensures
            final(self).state.wf(),
            match r {
                Ok(k) => {
                    &&& k <= input@.len()
                    &&& match spec_run(old(self).state, input@.take(k as int)) {
                        Some((s2, emitted)) => final(self).state == s2 && final(out)@ == old(out)@
                            + emitted,
                        None => false,
                    }
                    &&& (k < input@.len() ==> final(self).state is End)
                },
                Err(e) => {
                    &&& e.kind() == ErrorKind::BadHeader
                    &&& final(self).state is End
                    &&& exists|k: int|
                        0 <= k < input@.len() && match #[trigger] spec_run(
                            old(self).state,
                            input@.take(k),
                        ) {
                            Some((s2, emitted)) => final(out)@ == old(out)@ + emitted
                                && spec_step(s2, input@[k]) is None && !(s2 is End),
                            None => false,
                        }
                },
            },
    {
        let ghost s0 = self.state;
        let n = input.len();
        let mut i: usize = 0;
        proof {
            assert(input@.take(0) =~= Seq::<u8>::empty());
        }
        while i < n
            invariant
                s0 == old(self).state,
                self.state.wf(),
                n == input@.len(),
                i <= n,
                match spec_run(s0, input@.take(i as int)) {
                    Some((s2, emitted)) => self.state == s2 && out@ == old(out)@ + emitted,
                    None => false,
                },
            decreases n - i,
        {
            let b = input[i];
            proof {
                assert(input@.take(i + 1) =~= input@.take(i as int).push(input@[i as int]));
                lemma_run_snoc(s0, input@.take(i as int), b);
            }
            let stop = match self.state {
                ChunkState::End => true,
                _ => false,
            };
            if stop {
                proof {
                    assert(spec_run(s0, input@.take(i as int)) is Some);
                }
                return Ok(i);
            }
            let mut emitted_byte: Option<u8> = None;
            let fail: bool;
            match self.state {
                ChunkState::ReadSize { size, seen } => {
                    let hv: u64 = if 48 <= b && b <= 57 {
                        (b - 48) as u64
                    } else if 97 <= b && b <= 102 {
                        (b - 87) as u64
                    } else if 65 <= b && b <= 70 {
                        (b - 55) as u64
                    } else {
                        16
                    };
                    proof {
                        assert(hv == hex_val(b));
                    }
                    if hv < 16 {
                        if size > (MAX_CHUNK_SIZE - hv) / 16 {
                            fail = true;
                        } else {
                            self.state = ChunkState::ReadSize { size: size * 16 + hv, seen: true };
                            fail = false;
                        }
                    } else if b == 13 && seen {
                        self.state = ChunkState::ReadSizeLf { size };
                        fail = false;
                    } else {
                        fail = true;
                    }
                },
                ChunkState::ReadSizeLf { size } => {
                    if b == 10 {
                        if size == 0 {
                            self.state = ChunkState::ReadTrailerCr { seen_cr: false };
                        } else {
                            self.state = ChunkState::ReadChunk { remaining: size };
                        }
                        fail = false;
                    } else {
                        fail = true;
                    }
                },
                ChunkState::ReadChunk { remaining } => {
                    emitted_byte = Some(b);
                    if remaining == 1 {
                        self.state = ChunkState::ReadChunkLf { seen_cr: false };
                    } else {
                        self.state = ChunkState::ReadChunk { remaining: remaining - 1 };
                    }
                    fail = false;
                },
                ChunkState::ReadChunkLf { seen_cr } => {
                    if !seen_cr && b == 13 {
                        self.state = ChunkState::ReadChunkLf { seen_cr: true };
                        fail = false;
                    } else if seen_cr && b == 10 {
                        self.state = ChunkState::ReadSize { size: 0, seen: false };
                        fail = false;
                    } else {
                        fail = true;
                    }
                },
                ChunkState::ReadTrailerCr { seen_cr } => {
                    if !seen_cr && b == 13 {
                        self.state = ChunkState::ReadTrailerCr { seen_cr: true };
                        fail = false;
                    } else if seen_cr && b == 10 {
                        self.state = ChunkState::End;
                        fail = false;
                    } else {
                        fail = true;
                    }
                },
                ChunkState::End => {
                    fail = true;
                },
            }
            if fail {
                self.state = ChunkState::End;
                proof {
                    let k = i as int;
                    assert(0 <= k < input@.len() && match spec_run(s0, input@.take(k)) {
                        Some((s2, emitted)) => out@ == old(out)@ + emitted && spec_step(
                            s2,
                            input@[k],
                        ) is None && !(s2 is End),
                        None => false,
                    });
                }
                return Err(Error::BadHeader);
            }
            match emitted_byte {
                Some(x) => {
                    out.push(x);
                },
                None => {},
            }
            i = i + 1;
        }
        proof {
            assert(input@.take(n as int) =~= input@);
        }
        Ok(n)
    }
}

/// Once a run rejects a prefix, every longer prefix is rejected too.
pub proof fn lemma_run_none_extend(s: ChunkState, input: Seq<u8>, m: int, m2: int)
    requires
        0 <= m <= m2 <= input.len(),
        spec_run(s, input.take(m)) is None,
    ensures
        spec_run(s, input.take(m2)) is None,
    decreases m2 - m,
{
    if m < m2 {
        assert(input.take(m + 1) =~= input.take(m).push(input[m]));
        lemma_run_snoc(s, input.take(m), input[m]);
        lemma_run_none_extend(s, input, m + 1, m2);
    }
}

} // verus!

