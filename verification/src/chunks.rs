//! Cuts a string into the chunks that become leaves of the index: pieces of
//! about `METRIC_SIZE` bytes that end on character boundaries.
use crate::metric::{
    describes, is_chunk, lemma_describes_concat, lemma_describes_push, valid_leaf, valid_leaves,
    Metric,
};
use crate::text::{
    char_count, is_boundary, lemma_between, lemma_count_bounds, lemma_first_is_leading,
    lemma_snap_back, snap_back,
};
use crate::wrappers::{count_chars, str_from_utf8};
use vstd::prelude::*;
use vstd::slice::slice_subrange;
use vstd::string::StringSliceAdditionalSpecFns;
use vstd::utf8::{is_continuation_byte, valid_utf8};

verus! {

/// The distance between the places where chunks are cut, before the cut moves
/// back to a character boundary.
pub const METRIC_SIZE: usize = 32;

/// Whether `byte` starts a character: it is not of the form `10xxxxxx`.
pub fn is_char_boundary(byte: u8) -> (b: bool)
    ensures
        b == !is_continuation_byte(byte),
{
    byte < 128 || byte >= 192
}

/// The size of `slice` in bytes and in characters.
pub fn metrics(slice: &str) -> (m: Metric)
    ensures
        m.bytes == slice.spec_bytes().len(),
        m.chars == slice@.len(),
        is_chunk(slice.spec_bytes(), m),
{
    proof {
        vstd::utf8::encode_utf8_valid_utf8(slice@);
        vstd::utf8::encode_utf8_decode_utf8(slice@);
    }
    let chars = count_chars(slice);
    Metric { bytes: slice.as_bytes().len(), chars }
}

/// The size of the piece `bytes[start..end]`.
pub open spec fn chunk_metric(bytes: Seq<u8>, start: int, end: int) -> Metric {
    Metric {
        bytes: (end - start) as usize,
        chars: char_count(bytes.subrange(start, end)) as usize,
    }
}

/// Where the cut after `end` is aimed: `METRIC_SIZE` further, or at the end
/// of the text.
pub open spec fn next_end(bytes: Seq<u8>, end: int) -> int {
    if bytes.len() - end > METRIC_SIZE {
        end + METRIC_SIZE
    } else {
        bytes.len() as int
    }
}

/// The sizes of the chunks of `bytes` from `start` on, where the first cut is
/// aimed at `end`: each cut falls on the last character boundary at or before
/// its aim.
pub open spec fn chunks_from(bytes: Seq<u8>, start: int, end: int) -> Seq<Metric>
    decreases bytes.len() - start,
{
    let cut = snap_back(bytes, end);
    if 0 <= start < cut <= bytes.len() {
        seq![chunk_metric(bytes, start, cut)] + chunks_from(bytes, cut, next_end(bytes, end))
    } else {
        Seq::empty()
    }
}

/// The sizes of the chunks of a whole text.
pub open spec fn chunks_of(bytes: Seq<u8>) -> Seq<Metric> {
    chunks_from(bytes, 0, if bytes.len() < METRIC_SIZE {
        bytes.len() as int
    } else {
        METRIC_SIZE as int
    })
}

/// Whether `start` and `end` can be the state of a builder over `bytes`: the
/// chunk in progress starts on a boundary and is neither too short to hold a
/// cut nor too long for a leaf.
pub open spec fn chunking(bytes: Seq<u8>, start: int, end: int) -> bool {
    &&& valid_utf8(bytes)
    &&& 0 <= start <= end <= bytes.len()
    &&& is_boundary(bytes, start)
    &&& end - start <= METRIC_SIZE + 3
    &&& (end == bytes.len() || end - start >= METRIC_SIZE - 3)
}

/// The chunks are valid leaves, and together they describe the text from
/// `start` on.
pub proof fn lemma_chunks(bytes: Seq<u8>, start: int, end: int)
    requires
        chunking(bytes, start, end),
    ensures
        valid_leaves(chunks_from(bytes, start, end)),
        describes(chunks_from(bytes, start, end), bytes.subrange(start, bytes.len() as int)),
    decreases bytes.len() - start,
{
    let n = bytes.len() as int;
    let cut = snap_back(bytes, end);
    lemma_snap_back(bytes, end);
    if start < n {
        assert(start < cut);
        let m = chunk_metric(bytes, start, cut);
        let piece = bytes.subrange(start, cut);
        let rest = chunks_from(bytes, cut, next_end(bytes, end));
        lemma_between(bytes, start, cut);
        lemma_count_bounds(piece);
        lemma_chunks(bytes, cut, next_end(bytes, end));
        assert(valid_leaf(m));
        assert(describes(Seq::<Metric>::empty(), Seq::<u8>::empty()));
        lemma_describes_push(Seq::empty(), Seq::empty(), m, piece);
        assert(Seq::<Metric>::empty().push(m) =~= seq![m]);
        assert(Seq::<u8>::empty() + piece =~= piece);
        lemma_describes_concat(seq![m], piece, rest, bytes.subrange(cut, n));
        assert(piece + bytes.subrange(cut, n) =~= bytes.subrange(start, n));
    } else {
        assert(bytes.subrange(start, n).len() == 0);
    }
}

/// The chunks of a whole string are valid leaves that describe it.
pub proof fn lemma_chunks_of(bytes: Seq<u8>)
    requires
        valid_utf8(bytes),
    ensures
        valid_leaves(chunks_of(bytes)),
        describes(chunks_of(bytes), bytes),
{
    if bytes.len() > 0 {
        lemma_first_is_leading(bytes);
    }
    let end = if bytes.len() < METRIC_SIZE {
        bytes.len() as int
    } else {
        METRIC_SIZE as int
    };
    lemma_chunks(bytes, 0, end);
    assert(bytes.subrange(0, bytes.len() as int) =~= bytes);
}

/// Hands out the chunks of a string one by one.
pub struct MetricBuilder<'a> {
    slice: &'a str,
    start: usize,
    end: usize,
}

impl<'a> MetricBuilder<'a> {
    /// The bytes of the string that is being cut.
    pub closed spec fn bytes(&self) -> Seq<u8> {
        self.slice.spec_bytes()
    }

    /// The sizes of the chunks that are still to come.
    pub closed spec fn remaining(&self) -> Seq<Metric> {
        chunks_from(self.slice.spec_bytes(), self.start as int, self.end as int)
    }

    /// The state of the builder is one that `chunking` allows.
    pub closed spec fn wf(&self) -> bool {
        chunking(self.slice.spec_bytes(), self.start as int, self.end as int)
    }

    /// A builder at the start of `slice`.
    pub fn new(slice: &'a str) -> (builder: Self)
        ensures
            builder.wf(),
            builder.bytes() == slice.spec_bytes(),
            builder.remaining() == chunks_of(slice.spec_bytes()),
    {
        proof {
            vstd::utf8::encode_utf8_valid_utf8(slice@);
            if slice.spec_bytes().len() > 0 {
                lemma_first_is_leading(slice.spec_bytes());
            }
        }
        let len = slice.as_bytes().len();
        let end = if len < METRIC_SIZE {
            len
        } else {
            METRIC_SIZE
        };
        Self { slice, start: 0, end }
    }

    /// The size of the next chunk, or `None` when the string is used up.
    pub fn next(&mut self) -> (item: Option<Metric>)
        requires
            old(self).wf(),
        ensures
            final(self).wf(),
            final(self).bytes() == old(self).bytes(),
            match item {
                Some(m) => {
                    &&& old(self).remaining() == seq![m] + final(self).remaining()
                    &&& old(self).spec_start() < final(self).spec_start()
                },
                None => old(self).remaining() == Seq::<Metric>::empty() && *final(self) == *old(
                    self,
                ),
            },
    {
        let bytes = self.slice.as_bytes();
        let len = bytes.len();
        if self.start == len {
            return None;
        }
        let mut end = self.end;
        proof {
            lemma_snap_back(bytes@, self.end as int);
            lemma_first_is_leading(bytes@);
        }
        while end < len && !is_char_boundary(bytes[end])
            invariant
                end <= self.end <= len == bytes@.len(),
                valid_utf8(bytes@),
                !is_continuation_byte(bytes@[0]),
                snap_back(bytes@, end as int) == snap_back(bytes@, self.end as int),
            decreases end,
        {
            end -= 1;
        }
        proof {
            lemma_between(bytes@, self.start as int, end as int);
        }
        let chunk = match str_from_utf8(slice_subrange(bytes, self.start, end)) {
            Some(s) => s,
            None => vstd::pervasive::unreached(),
        };
        let m = metrics(chunk);
        self.start = end;
        self.end = if len - self.end > METRIC_SIZE {
            self.end + METRIC_SIZE
        } else {
            len
        };
        Some(m)
    }

    /// The number of chunks still to come, were every cut to fall on its aim.
    pub fn size_hint(&self) -> (hint: (usize, Option<usize>))
        requires
            self.wf(),
        ensures
            hint.1 is None,
            hint.0 == (self.bytes().len() - self.spec_start()) / (METRIC_SIZE as int) + if (
            self.bytes().len() - self.spec_start()) % (METRIC_SIZE as int) != 0 {
                1int
            } else {
                0int
            },
    {
        let len = self.slice.as_bytes().len() - self.start;
        let extra: usize = if len % METRIC_SIZE != 0 {
            1
        } else {
            0
        };
        let size = len / METRIC_SIZE;
        (size + extra, None)
    }

    /// The byte offset at which the next chunk starts.
    pub closed spec fn spec_start(&self) -> int {
        self.start as int
    }

    /// All the chunks that are still to come.
    pub fn collect(self) -> (chunks: Vec<Metric>)
        requires
            self.wf(),
        ensures
            chunks@ == self.remaining(),
    {
        let mut builder = self;
        let mut chunks: Vec<Metric> = Vec::new();
        loop
            invariant
                builder.wf(),
                self.remaining() == chunks@ + builder.remaining(),
            ensures
                chunks@ == self.remaining(),
            decreases builder.bytes().len() - builder.spec_start(),
        {
            match builder.next() {
                Some(m) => {
                    proof {
                        assert(chunks@.push(m) + builder.remaining() =~= chunks@ + (seq![m]
                            + builder.remaining()));
                    }
                    chunks.push(m);
                },
                None => {
                    assert(chunks@ + builder.remaining() =~= chunks@);
                    break ;
                },
            }
        }
        chunks
    }
}

} // verus!
