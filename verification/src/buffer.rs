//! The gap buffer: the text as bytes with a gap at the point of editing, a
//! cursor, and the index that finds the byte offset of a character.
use crate::chunks::{is_char_boundary, lemma_chunks_of, metrics, MetricBuilder};
use crate::index::BufferMetrics;
use crate::metric::{
    describes, lemma_describes_search, lemma_describes_total, total, valid_leaves, Metric,
};
use crate::text::{
    byte_of_char, char_count, is_boundary, is_position, lemma_between, lemma_concat,
    lemma_position_decode, lemma_position_ends, lemma_position_order, lemma_scan, lemma_split,
};
use crate::wrappers::{char_to_byte_idx, str_from_utf8};
use vstd::prelude::*;
use vstd::slice::slice_subrange;
use vstd::string::StringSliceAdditionalSpecFns;
use vstd::utf8::{decode_utf8, is_continuation_byte, valid_utf8};

mod compare;
mod delete;
mod gap;
mod insert;
mod read;

pub use compare::bytes_equal;
pub use insert::write_bytes;

verus! {

/// The size of the gap of a new buffer, and of the gap that is left after the
/// storage has grown, unless the buffer was made with another.
pub const GAP_SIZE: usize = 2000;

/// A gap buffer over UTF-8 text.
#[derive(Debug)]
pub struct Buffer {
    /// The text before the gap, the gap, and the text after the gap.
    data: Vec<u8>,
    /// The first byte of the gap.
    gap_start: usize,
    /// The first byte after the gap.
    gap_end: usize,
    /// The number of characters before the gap.
    gap_chars: usize,
    /// The cursor: a byte offset into `data` and the number of characters of
    /// the text before it.
    cursor: Metric,
    /// The size of the text.
    total: Metric,
    /// The index over the text.
    metrics: BufferMetrics,
    /// The size of the gap that growing leaves behind.
    gap_size: usize,
}

impl View for Buffer {
    type V = Seq<char>;

    /// The text.
    open spec fn view(&self) -> Seq<char> {
        decode_utf8(self.bytes())
    }
}

impl Buffer {
    /// The whole byte array, gap and all.
    pub closed spec fn storage(&self) -> Seq<u8> {
        self.data@
    }

    /// The offset in the storage of the first byte of the gap.
    pub closed spec fn spec_gap_start(&self) -> int {
        self.gap_start as int
    }

    /// The offset in the storage of the first byte after the gap.
    pub closed spec fn spec_gap_end(&self) -> int {
        self.gap_end as int
    }

    /// The number of characters that the buffer counts before the gap.
    pub closed spec fn spec_gap_chars(&self) -> int {
        self.gap_chars as int
    }

    /// The cursor: its offset in the storage and its character position.
    pub closed spec fn spec_cursor(&self) -> Metric {
        self.cursor
    }

    /// The size of the text as the buffer counts it.
    pub closed spec fn spec_total(&self) -> Metric {
        self.total
    }

    /// The leaves of the index.
    pub closed spec fn spec_index(&self) -> Seq<Metric> {
        self.metrics@
    }

    /// Whether the index is a balanced, consistent tree.
    pub closed spec fn index_wf(&self) -> bool {
        self.metrics.wf()
    }

    /// The size of the gap that is left when the storage grows.
    pub closed spec fn spec_gap_size(&self) -> int {
        self.gap_size as int
    }

    /// The length of the gap in bytes.
    pub open spec fn spec_gap_len(&self) -> int {
        self.spec_gap_end() - self.spec_gap_start()
    }

    /// The bytes before the gap.
    pub open spec fn front(&self) -> Seq<u8> {
        self.storage().subrange(0, self.spec_gap_start())
    }

    /// The bytes after the gap.
    pub open spec fn back(&self) -> Seq<u8> {
        self.storage().subrange(self.spec_gap_end(), self.storage().len() as int)
    }

    /// The text as bytes: the storage without the gap.
    pub open spec fn bytes(&self) -> Seq<u8> {
        self.front() + self.back()
    }

    /// The character position of the cursor.
    pub open spec fn cursor_chars(&self) -> int {
        self.spec_cursor().chars as int
    }

    /// The offset in the text of the byte at offset `p` of the storage.
    pub open spec fn to_abs(&self, p: int) -> int {
        if p < self.spec_gap_start() {
            p
        } else {
            p - self.spec_gap_len()
        }
    }

    /// The offset in the storage of the byte at offset `b` of the text. The
    /// place of the gap itself goes to the gap's end.
    pub open spec fn to_gapped(&self, b: int) -> int {
        if b < self.spec_gap_start() {
            b
        } else {
            b + self.spec_gap_len()
        }
    }

    /// Whether `p` is an offset into the storage that does not lie in the gap.
    pub open spec fn outside_gap(&self, p: int) -> bool {
        &&& 0 <= p <= self.storage().len()
        &&& p < self.spec_gap_start() || p >= self.spec_gap_end()
    }

    /// Whether `pos` names a place of the text by its offset in the storage
    /// and the number of characters before it.
    pub open spec fn is_place(&self, pos: Metric) -> bool {
        &&& self.outside_gap(pos.bytes as int)
        &&& is_position(self.bytes(), self.to_abs(pos.bytes as int), pos.chars as int)
    }

    /// The gap lies in the storage, and the bytes on its two sides are valid
    /// UTF-8 with `gap_chars` characters before the gap.
    pub open spec fn layout_ok(&self) -> bool {
        &&& 0 <= self.spec_gap_start() <= self.spec_gap_end() <= self.storage().len()
        &&& valid_utf8(self.front())
        &&& valid_utf8(self.back())
        &&& self.spec_gap_chars() == char_count(self.front())
    }

    /// What holds of the storage, the counts and the cursor between any two
    /// operations.
    pub open spec fn wf_storage(&self) -> bool {
        &&& self.layout_ok()
        &&& valid_utf8(self.bytes())
        &&& self.spec_total().bytes + self.spec_gap_len() == self.storage().len()
        &&& self.spec_total().chars == char_count(self.bytes())
        &&& self.is_place(self.spec_cursor())
        &&& self.spec_cursor().bytes < self.spec_gap_start() <==> self.cursor_chars()
            < self.spec_gap_chars()
    }

    /// What holds of a buffer between any two operations: the storage is
    /// well formed, and the index describes the text.
    pub open spec fn wf(&self) -> bool {
        &&& self.wf_storage()
        &&& self.index_wf()
        &&& valid_leaves(self.spec_index())
        &&& describes(self.spec_index(), self.bytes())
        &&& total(self.spec_index()) == self.spec_total()@
    }

    /// The storage can be addressed.
    proof fn lemma_capacity(&self)
        ensures
            self.storage().len() <= usize::MAX,
    {
        assert(self.data@.len() == self.data.len());
    }

    /// The gap is a place of the text.
    pub proof fn lemma_gap_position(&self)
        requires
            self.layout_ok(),
        ensures
            valid_utf8(self.bytes()),
            self.bytes().len() == self.storage().len() - self.spec_gap_len(),
            is_position(self.bytes(), self.spec_gap_start(), self.spec_gap_chars()),
            self.bytes().subrange(0, self.spec_gap_start()) == self.front(),
            self.bytes().subrange(self.spec_gap_start(), self.bytes().len() as int)
                == self.back(),
            char_count(self.bytes()) == self.spec_gap_chars() + char_count(self.back()),
    {
        lemma_concat(self.front(), self.back());
        assert(self.bytes().subrange(0, self.spec_gap_start()) =~= self.front());
        assert(self.bytes().subrange(self.spec_gap_start(), self.bytes().len() as int)
            =~= self.back());
    }

    /// A place is fixed by its character count: its offset in the text is
    /// where that character starts, its offset in the storage follows from
    /// that, and it lies before the gap just when its count is below the
    /// gap's.
    pub proof fn lemma_place(&self, pos: Metric)
        requires
            self.layout_ok(),
            self.is_place(pos),
        ensures
            self.to_abs(pos.bytes as int) == byte_of_char(self.bytes(), pos.chars as int),
            self.to_gapped(self.to_abs(pos.bytes as int)) == pos.bytes,
            pos.bytes < self.spec_gap_start() <==> pos.chars < self.spec_gap_chars(),
            0 <= pos.chars <= char_count(self.bytes()),
    {
        self.lemma_gap_position();
        let abs = self.to_abs(pos.bytes as int);
        lemma_position_decode(self.bytes(), abs, pos.chars as int);
        lemma_position_order(
            self.bytes(),
            abs,
            pos.chars as int,
            self.spec_gap_start(),
            self.spec_gap_chars(),
        );
    }

    /// A place lies on a character boundary of the storage, or at the start
    /// of the gap. So does every boundary of the text, taken to the storage.
    pub proof fn lemma_place_is_char_boundary(&self, pos: Metric)
        requires
            self.layout_ok(),
            self.is_place(pos),
        ensures
            pos.bytes == self.spec_gap_start() || self.spec_is_char_boundary(pos.bytes as int),
    {
        self.lemma_gap_position();
        let abs = self.to_abs(pos.bytes as int);
        if abs < self.bytes().len() {
            assert(self.bytes()[abs] == self.storage()[pos.bytes as int]);
        }
    }

    /// An empty buffer without storage. Its storage comes with the first
    /// insertion, with a gap of `GAP_SIZE` bytes.
    pub fn new() -> (buffer: Buffer)
        ensures
            buffer.wf(),
            buffer@ == Seq::<char>::empty(),
            buffer.cursor_chars() == 0,
            buffer.storage().len() == 0,
            buffer.spec_gap_start() == 0,
            buffer.spec_gap_end() == 0,
            buffer.spec_gap_size() == GAP_SIZE,
    {
        let buffer = Buffer::new_with_gap_size(GAP_SIZE);
        buffer
    }

    /// An empty buffer without storage, whose storage will grow with gaps of
    /// `gap_size` bytes.
    pub fn new_with_gap_size(gap_size: usize) -> (buffer: Buffer)
        ensures
            buffer.wf(),
            buffer@ == Seq::<char>::empty(),
            buffer.cursor_chars() == 0,
            buffer.storage().len() == 0,
            buffer.spec_gap_start() == 0,
            buffer.spec_gap_end() == 0,
            buffer.spec_gap_size() == gap_size,
    {
        let buffer = Buffer {
            data: Vec::new(),
            gap_start: 0,
            gap_end: 0,
            gap_chars: 0,
            cursor: Metric::zero(),
            total: Metric::zero(),
            metrics: BufferMetrics::new(),
            gap_size,
        };
        proof {
            assert(buffer.front() =~= Seq::<u8>::empty());
            assert(buffer.back() =~= Seq::<u8>::empty());
            assert(buffer.bytes() =~= Seq::<u8>::empty());
            lemma_position_ends(buffer.bytes());
        }
        buffer
    }

    /// A buffer that holds `text`, with a gap of `gap_size` bytes before the
    /// text and the cursor at the start. Where the text leaves less room than
    /// that in the address space, the gap takes what is left.
    pub fn with_gap_size(text: &str, gap_size: usize) -> (buffer: Buffer)
        ensures
            buffer.wf(),
            buffer@ == text@,
            buffer.bytes() == text.spec_bytes(),
            buffer.cursor_chars() == 0,
            buffer.storage().len() == text.spec_bytes().len() + buffer.spec_gap_end(),
            buffer.spec_gap_start() == 0,
            buffer.spec_gap_end() == if text.spec_bytes().len() + gap_size <= usize::MAX {
                gap_size as int
            } else {
                usize::MAX - text.spec_bytes().len()
            },
            buffer.spec_gap_chars() == 0,
            buffer.spec_gap_size() == gap_size,
    {
        let bytes = text.as_bytes();
        let gap = if gap_size <= usize::MAX - bytes.len() {
            gap_size
        } else {
            usize::MAX - bytes.len()
        };
        let capacity = bytes.len() + gap;
        let mut storage: Vec<u8> = Vec::with_capacity(capacity);
        storage.resize(gap, 0);
        storage.extend_from_slice(bytes);
        let chunks = MetricBuilder::new(text).collect();
        proof {
            vstd::utf8::encode_utf8_valid_utf8(text@);
            vstd::utf8::encode_utf8_decode_utf8(text@);
            lemma_chunks_of(bytes@);
            lemma_describes_total(chunks@, bytes@);
        }
        let metrics = BufferMetrics::build(&chunks);
        let total = metrics.len();
        let buffer = Buffer {
            data: storage,
            gap_start: 0,
            gap_end: gap,
            gap_chars: 0,
            cursor: Metric { bytes: gap, chars: 0 },
            total,
            metrics,
            gap_size,
        };
        proof {
            assert(buffer.front() =~= Seq::<u8>::empty());
            assert(buffer.back() =~= bytes@);
            assert(buffer.bytes() =~= bytes@);
            lemma_position_ends(bytes@);
        }
        buffer
    }

    /// The length of the text in bytes.
    pub fn len(&self) -> (n: usize)
        requires
            self.wf(),
        ensures
            n == self.bytes().len(),
    {
        proof {
            self.lemma_gap_position();
        }
        self.total.bytes
    }

    /// The length of the text in characters.
    pub fn len_chars(&self) -> (n: usize)
        requires
            self.wf(),
        ensures
            n == self@.len(),
    {
        self.total.chars
    }

    /// Whether the text is empty.
    pub fn is_empty(&self) -> (b: bool)
        requires
            self.wf(),
        ensures
            b == (self@.len() == 0),
    {
        self.total.chars == 0
    }

    /// The length of the gap in bytes.
    pub fn gap_len(&self) -> (n: usize)
        requires
            self.spec_gap_start() <= self.spec_gap_end(),
        ensures
            n == self.spec_gap_len(),
    {
        self.gap_end - self.gap_start
    }

    /// The offset in the storage at which the gap starts.
    pub fn gap_start(&self) -> (n: usize)
        ensures
            n == self.spec_gap_start(),
    {
        self.gap_start
    }

    /// The offset in the storage at which the text goes on after the gap.
    pub fn gap_end(&self) -> (n: usize)
        ensures
            n == self.spec_gap_end(),
    {
        self.gap_end
    }

    /// The number of characters before the gap.
    pub fn gap_chars(&self) -> (n: usize)
        ensures
            n == self.spec_gap_chars(),
    {
        self.gap_chars
    }

    /// The size of the gap that is left when the storage grows.
    pub fn gap_size(&self) -> (n: usize)
        ensures
            n == self.spec_gap_size(),
    {
        self.gap_size
    }

    /// The size of the storage in bytes, gap and all.
    pub fn capacity(&self) -> (n: usize)
        ensures
            n == self.storage().len(),
    {
        self.data.len()
    }

    /// The cursor: its offset in the storage and its character position.
    pub fn cursor(&self) -> (pos: Metric)
        ensures
            pos == self.spec_cursor(),
    {
        self.cursor
    }

    /// Turns a place given by its offset in the storage into the position in
    /// the text, which the index counts in.
    pub fn to_abs_pos(&self, pos: Metric) -> (abs: Metric)
        requires
            self.spec_gap_start() <= self.spec_gap_end(),
            self.outside_gap(pos.bytes as int),
        ensures
            abs.bytes == self.to_abs(pos.bytes as int),
            abs.chars == pos.chars,
    {
        let bytes = if pos.bytes < self.gap_start {
            pos.bytes
        } else {
            pos.bytes - self.gap_len()
        };
        Metric { bytes, chars: pos.chars }
    }

    /// Turns a position in the text into the place in the storage.
    pub fn to_gapped_pos(&self, pos: Metric) -> (gapped: Metric)
        requires
            self.spec_gap_start() <= self.spec_gap_end(),
            pos.bytes + self.spec_gap_len() <= usize::MAX,
        ensures
            gapped.bytes == self.to_gapped(pos.bytes as int),
            gapped.chars == pos.chars,
    {
        let bytes = if pos.bytes < self.gap_start {
            pos.bytes
        } else {
            pos.bytes + self.gap_len()
        };
        Metric { bytes, chars: pos.chars }
    }

    /// What `is_char_boundary` computes: the byte at `pos` of the storage
    /// starts a character, or `pos` is the end of the storage.
    pub open spec fn spec_is_char_boundary(&self, pos: int) -> bool {
        if 0 <= pos < self.storage().len() {
            !is_continuation_byte(self.storage()[pos])
        } else {
            pos == self.storage().len()
        }
    }

    /// Whether offset `pos` of the storage is the start of a character, or
    /// the end of the storage.
    pub fn is_char_boundary(&self, pos: usize) -> (b: bool)
        ensures
            b == self.spec_is_char_boundary(pos as int),
    {
        if pos < self.data.len() {
            is_char_boundary(self.data[pos])
        } else {
            pos == self.data.len()
        }
    }

    /// States that `pos` is the start of the gap or the start of a character:
    /// a caller has to prove it.
    pub fn assert_char_boundary(&self, pos: usize)
        requires
            pos == self.spec_gap_start() || self.spec_is_char_boundary(pos as int),
    {
    }

    /// The string in the bytes `start..end` of the storage.
    pub fn to_str(&self, start: usize, end: usize) -> (text: &str)
        requires
            start <= end <= self.storage().len(),
            valid_utf8(self.storage().subrange(start as int, end as int)),
        ensures
            text.spec_bytes() == self.storage().subrange(start as int, end as int),
            text@ == decode_utf8(self.storage().subrange(start as int, end as int)),
    {
        let text = match str_from_utf8(slice_subrange(self.data.as_slice(), start, end)) {
            Some(s) => s,
            None => vstd::pervasive::unreached(),
        };
        proof {
            vstd::utf8::encode_utf8_decode_utf8(text@);
        }
        text
    }

    /// The offset in the storage at which character number `pos` starts. For
    /// the character at the gap this is the gap's end, and for the end of the
    /// text it is the end of the storage.
    pub fn char_to_byte(&self, pos: usize) -> (place: usize)
        requires
            self.wf(),
            pos <= self@.len(),
        ensures
            place == self.to_gapped(byte_of_char(self.bytes(), pos as int)),
            self.is_place(Metric { bytes: place, chars: pos }),
    {
        let ghost text = self.bytes();
        let ghost front = self.front();
        let ghost back = self.back();
        let ghost gs = self.spec_gap_start();
        proof {
            self.lemma_gap_position();
            lemma_position_ends(text);
        }
        if pos == 0 {
            let place = if self.gap_start == 0 {
                self.gap_end
            } else {
                0
            };
            proof {
                self.lemma_place(Metric { bytes: place, chars: pos });
            }
            return place;
        }
        if pos == self.total.chars {
            proof {
                self.lemma_place(Metric { bytes: self.data.len(), chars: pos });
            }
            return self.data.len();
        }
        if pos == self.gap_chars {
            proof {
                self.lemma_place(Metric { bytes: self.gap_end, chars: pos });
            }
            return self.gap_end;
        }
        let (base, offset) = self.metrics.search_char(pos);
        proof {
            lemma_describes_search(self.spec_index(), text, pos as int);
            lemma_position_order(
                text,
                base.bytes as int,
                base.chars as int,
                gs,
                self.spec_gap_chars(),
            );
            lemma_position_order(
                text,
                base.bytes as int,
                base.chars as int,
                text.len() as int,
                char_count(text) as int,
            );
        }
        let ghost abs = base;
        let base = self.to_gapped_pos(base);
        if offset == 0 {
            proof {
                self.lemma_place(Metric { bytes: base.bytes, chars: pos });
            }
            return base.bytes;
        }
        self.assert_char_boundary(base.bytes);
        if base.chars < self.gap_chars {
            if pos < self.gap_chars {
                proof {
                    assert(self.storage().subrange(base.bytes as int, gs) =~= text.subrange(
                        abs.bytes as int,
                        gs,
                    ));
                    lemma_between(text, abs.bytes as int, gs);
                    lemma_scan(text, abs.bytes as int, abs.chars as int, gs, offset as int);
                }
                let string = self.to_str(base.bytes, self.gap_start);
                let idx = char_to_byte_idx(string, offset);
                proof {
                    self.lemma_place(Metric { bytes: (idx + base.bytes) as usize, chars: pos });
                }
                idx + base.bytes
            } else {
                proof {
                    lemma_scan(
                        text,
                        gs,
                        self.spec_gap_chars(),
                        text.len() as int,
                        pos - self.spec_gap_chars(),
                    );
                }
                let string = self.to_str(self.gap_end, self.data.len());
                let idx = char_to_byte_idx(string, pos - self.gap_chars);
                proof {
                    self.lemma_place(Metric { bytes: (self.gap_end + idx) as usize, chars: pos });
                }
                self.gap_end + idx
            }
        } else {
            proof {
                assert(self.storage().subrange(base.bytes as int, self.storage().len() as int)
                    =~= text.subrange(abs.bytes as int, text.len() as int));
                lemma_between(text, abs.bytes as int, text.len() as int);
                lemma_scan(
                    text,
                    abs.bytes as int,
                    abs.chars as int,
                    text.len() as int,
                    offset as int,
                );
            }
            let string = self.to_str(base.bytes, self.data.len());
            let idx = char_to_byte_idx(string, offset);
            proof {
                self.lemma_place(Metric { bytes: (idx + base.bytes) as usize, chars: pos });
            }
            idx + base.bytes
        }
    }

    /// Moves the cursor to character `pos`, or to the end of the text where
    /// `pos` lies beyond it. The gap stays where it is.
    pub fn set_cursor(&mut self, pos: usize)
        requires
            old(self).wf(),
        ensures
            final(self).wf(),
            final(self)@ == old(self)@,
            final(self).cursor_chars() == if pos <= old(self)@.len() {
                pos as int
            } else {
                old(self)@.len() as int
            },
            final(self).storage() == old(self).storage(),
            final(self).spec_gap_start() == old(self).spec_gap_start(),
            final(self).spec_gap_end() == old(self).spec_gap_end(),
            final(self).spec_gap_chars() == old(self).spec_gap_chars(),
            final(self).spec_gap_size() == old(self).spec_gap_size(),
    {
        let pos = if pos <= self.total.chars {
            pos
        } else {
            self.total.chars
        };
        let byte_pos = self.char_to_byte(pos);
        proof {
            self.lemma_place(Metric { bytes: byte_pos, chars: pos });
        }
        self.cursor = Metric { bytes: byte_pos, chars: pos };
    }
    /// A state whose two sides of the gap are the two sides of `text` at a
    /// boundary, whose counts are those of `text`, and whose cursor is a place
    /// of `text`, is well formed and holds `text`.
    proof fn lemma_wf_storage(&self, text: Seq<u8>, a: int)
        requires
            valid_utf8(text),
            is_boundary(text, a),
            0 <= self.spec_gap_start() <= self.spec_gap_end() <= self.storage().len(),
            self.front() == text.subrange(0, a),
            self.back() == text.subrange(a, text.len() as int),
            self.spec_gap_chars() == char_count(text.subrange(0, a)),
            self.spec_total().bytes == text.len(),
            self.spec_total().chars == char_count(text),
            self.outside_gap(self.spec_cursor().bytes as int),
            is_position(
                text,
                self.to_abs(self.spec_cursor().bytes as int),
                self.spec_cursor().chars as int,
            ),
        ensures
            self.wf_storage(),
            self.bytes() == text,
    {
        lemma_split(text, a);
        assert(self.bytes() =~= text);
        self.lemma_gap_position();
        self.lemma_place(self.spec_cursor());
    }

    /// A cursor with as many characters before it as the gap stands at the
    /// gap's end.
    proof fn lemma_cursor_at_gap(&self)
        requires
            self.wf_storage(),
            self.cursor_chars() == self.spec_gap_chars(),
        ensures
            self.spec_cursor().bytes == self.spec_gap_end(),
            self.to_abs(self.spec_cursor().bytes as int) == self.spec_gap_start(),
    {
        self.lemma_gap_position();
        self.lemma_place(self.spec_cursor());
        lemma_position_decode(self.bytes(), self.spec_gap_start(), self.spec_gap_chars());
    }
}

} // verus!
