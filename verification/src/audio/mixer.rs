//! The mixer's chunking: how an output buffer of any length is mixed through
//! a scratch buffer of a fixed length.

use crate::audio::redoxsynth::CHANNELS;
use vstd::prelude::*;

verus! {

/// One stretch of the output buffer that is mixed in one go: the `len`
/// samples from index `start` on, which sound from the output sample
/// `sample` on.
#[derive(Clone, Copy, Debug, PartialEq, Eq, Structural)]
pub struct MixChunk {
    pub start: usize,
    pub len: usize,
    pub sample: usize,
}

/// A mixer's scratch buffer, by its length. Each source renders into the
/// scratch buffer and is summed from there into the output, so the output
/// is mixed in chunks no longer than the scratch buffer.
#[derive(Clone, Copy, Debug)]
pub struct Mixer {
    buffer_len: usize,
}

/// How many chunks an output of `output_len` samples takes.
pub open spec fn chunk_count(buffer_len: int, output_len: int) -> int {
    (output_len + buffer_len - 1) / buffer_len
}

/// The `i`-th chunk of an output of `output_len` samples that starts at the
/// output sample `sample`: every chunk but the last fills the scratch
/// buffer, and each starts as many frames later as the chunks before it
/// hold.
pub open spec fn chunk_at(buffer_len: int, sample: int, output_len: int, i: int) -> MixChunk {
    let start = i * buffer_len;
    let left = output_len - start;
    MixChunk {
        start: start as usize,
        len: (if left < buffer_len {
            left
        } else {
            buffer_len
        }) as usize,
        sample: (sample + i * (buffer_len / CHANNELS as int)) as usize,
    }
}

impl Mixer {
    /// The scratch buffer holds at least one sample.
    #[verifier::type_invariant]
    pub closed spec fn well_formed(self) -> bool {
        self.buffer_len > 0
    }

    /// The length of the scratch buffer.
    pub closed spec fn spec_buffer_len(self) -> int {
        self.buffer_len as int
    }

    /// A mixer with a scratch buffer of `buflen` samples. The scratch
    /// buffer should be as long as the output buffers are; a shorter one
    /// makes the mixer go through the output in several chunks.
    pub fn new(buflen: usize) -> (mixer: Mixer)
        requires
            buflen > 0,
        ensures
            mixer.spec_buffer_len() == buflen,
    {
        Mixer { buffer_len: buflen }
    }

    /// The length of the scratch buffer.
    pub fn buffer_len(&self) -> (len: usize)
        ensures
            len == self.spec_buffer_len(),
            len > 0,
    {
        proof {
            use_type_invariant(self);
        }
        self.buffer_len
    }

    /// The chunks in which an output buffer of `output_len` samples that
    /// starts at the output sample `sample` is mixed. They cover the output
    /// from its first sample to its last, each sample once.
    pub fn chunks(&self, sample: usize, output_len: usize) -> (chunks: Vec<MixChunk>)
        requires
            sample + chunk_count(self.spec_buffer_len(), output_len as int) * (
            self.spec_buffer_len() / CHANNELS as int) <= usize::MAX,
        ensures
            chunks.len() == chunk_count(self.spec_buffer_len(), output_len as int),
            forall|i: int|
                0 <= i < chunks.len() ==> #[trigger] chunks[i] == chunk_at(
                    self.spec_buffer_len(),
                    sample as int,
                    output_len as int,
                    i,
                ),
            forall|i: int|
                0 <= i < chunks.len() ==> 0 < (#[trigger] chunks[i]).len <= self.spec_buffer_len()
                    && chunks[i].start + chunks[i].len == (if i + 1 < chunks.len() {
                    chunks[i + 1].start as int
                } else {
                    output_len as int
                }),
            chunks.len() > 0 ==> chunks[0].start == 0,
    {
        proof {
            use_type_invariant(self);
        }
        let size = self.buffer_len;
        let step = size / CHANNELS;
        let ghost count = chunk_count(size as int, output_len as int);
        let mut chunks: Vec<MixChunk> = Vec::new();
        let mut start: usize = 0;
        let mut at: usize = sample;
        proof {
            lemma_chunk_count(size as int, output_len as int, 0);
        }
        while start < output_len
            invariant
                size > 0,
                size == self.spec_buffer_len(),
                step == size / CHANNELS,
                count == chunk_count(size as int, output_len as int),
                sample + count * step <= usize::MAX,
                0 <= chunks.len() <= count,
                start <= output_len,
                start < output_len ==> start == chunks.len() * size,
                start == output_len ==> chunks.len() == count,
                at == sample + chunks.len() * step,
                forall|i: int|
                    0 <= i < chunks.len() ==> #[trigger] chunks[i] == chunk_at(
                        size as int,
                        sample as int,
                        output_len as int,
                        i,
                    ),
            decreases output_len - start,
        {
            let ghost i = chunks.len() as int;
            let left = output_len - start;
            let len = if left < size {
                left
            } else {
                size
            };
            proof {
                lemma_chunk_count(size as int, output_len as int, i);
                lemma_chunk_count(size as int, output_len as int, i + 1);
                assert((i + 1) * size == i * size + size) by (nonlinear_arith);
                assert((i + 1) * step == i * step + step) by (nonlinear_arith);
                assert((i + 1) * step <= count * step) by (nonlinear_arith)
                    requires
                        i + 1 <= count,
                        step >= 0,
                ;
            }
            chunks.push(MixChunk { start, len, sample: at });
            at = at + step;
            start = start + len;
        }
        proof {
            assert forall|i: int| 0 <= i < chunks.len() implies 0 < (#[trigger] chunks[i]).len
                <= size && chunks[i].start + chunks[i].len == (if i + 1 < chunks.len() {
                chunks[i + 1].start as int
            } else {
                output_len as int
            }) by {
                lemma_chunk_count(size as int, output_len as int, i);
                lemma_chunk_count(size as int, output_len as int, i + 1);
                assert((i + 1) * size == i * size + size) by (nonlinear_arith);
                assert(chunks[i] == chunk_at(size as int, sample as int, output_len as int, i));
                if i + 1 < chunks.len() {
                    assert(chunks[i + 1] == chunk_at(
                        size as int,
                        sample as int,
                        output_len as int,
                        i + 1,
                    ));
                }
            }
            if chunks.len() > 0 {
                assert(chunks[0] == chunk_at(size as int, sample as int, output_len as int, 0));
            }
        }
        chunks
    }
}

/// The `i`-th chunk starts inside the output exactly when `i` is below the
/// number of chunks.
proof fn lemma_chunk_count(buffer_len: int, output_len: int, i: int)
    requires
        buffer_len > 0,
        output_len >= 0,
        i >= 0,
    ensures
        i * buffer_len < output_len <==> i < chunk_count(buffer_len, output_len),
        chunk_count(buffer_len, output_len) >= 0,
{
    let count = chunk_count(buffer_len, output_len);
    assert(count * buffer_len >= output_len && (count - 1) * buffer_len < output_len && count >= 0)
        by (nonlinear_arith)
        requires
            count == (output_len + buffer_len - 1) / buffer_len,
            buffer_len > 0,
            output_len >= 0,
    ;
    if i < count {
        assert(i * buffer_len <= (count - 1) * buffer_len) by (nonlinear_arith)
            requires
                i <= count - 1,
                buffer_len > 0,
        ;
    } else {
        assert(i * buffer_len >= count * buffer_len) by (nonlinear_arith)
            requires
                i >= count,
                buffer_len > 0,
        ;
    }
}

} // verus!
