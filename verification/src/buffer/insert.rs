//! Insertion at the cursor.
use crate::buffer::Buffer;
use crate::chunks::{chunks_of, lemma_chunks_of, metrics, MetricBuilder};
use crate::edit::{inserted, lemma_insert_bytes, lemma_insert_index, lemma_insert_position};
use crate::metric::{lemma_describes_total, Extent};
use crate::text::lemma_count_bounds;
use crate::wrappers::encode_char;
use vstd::prelude::*;
use vstd::slice::slice_subrange;
use vstd::string::StringSliceAdditionalSpecFns;
use vstd::utf8::encode_utf8;

verus! {

impl Buffer {
    /// What `grow` and `fill` do: the piece stands where the gap started, and
    /// the gap and the cursor follow it.
    spec fn filled(&self, before: &Buffer, piece: &str) -> bool {
        &&& self.wf_storage()
        &&& self.bytes() == inserted(before.bytes(), before.spec_gap_start(), piece.spec_bytes())
        &&& self.cursor_chars() == before.spec_gap_chars() + piece@.len()
        &&& self.spec_gap_chars() == before.spec_gap_chars() + piece@.len()
        &&& self.spec_gap_start() == before.spec_gap_start() + piece.spec_bytes().len()
        &&& self.spec_total()@ == before.spec_total()@.plus(
            Extent { bytes: piece.spec_bytes().len() as int, chars: piece@.len() as int },
        )
        &&& self.spec_index() == before.spec_index()
        &&& self.index_wf() == before.index_wf()
        &&& self.spec_gap_size() == before.spec_gap_size()
    }

    /// A state that holds the piece between the two sides of an earlier one,
    /// with the counts and the cursor moved on by the piece, is what `grow`
    /// and `fill` promise.
    proof fn lemma_filled(&self, before: &Buffer, piece: &str)
        requires
            before.wf_storage(),
            before.cursor_chars() == before.spec_gap_chars(),
            0 <= self.spec_gap_start() <= self.spec_gap_end() <= self.storage().len(),
            self.front() == before.front() + piece.spec_bytes(),
            self.back() == before.back(),
            self.spec_gap_start() == before.spec_gap_start() + piece.spec_bytes().len(),
            self.spec_cursor().bytes == self.spec_gap_end(),
            self.cursor_chars() == before.spec_gap_chars() + piece@.len(),
            self.spec_gap_chars() == before.spec_gap_chars() + piece@.len(),
            self.spec_total()@ == before.spec_total()@.plus(
                Extent { bytes: piece.spec_bytes().len() as int, chars: piece@.len() as int },
            ),
            self.spec_index() == before.spec_index(),
            self.index_wf() == before.index_wf(),
            self.spec_gap_size() == before.spec_gap_size(),
        ensures
            self.filled(before, piece),
    {
        let text = before.bytes();
        let gs = before.spec_gap_start();
        let added = piece.spec_bytes();
        before.lemma_gap_position();
        vstd::utf8::encode_utf8_valid_utf8(piece@);
        vstd::utf8::encode_utf8_decode_utf8(piece@);
        lemma_insert_bytes(text, gs, before.spec_gap_chars(), added);
        lemma_insert_position(
            text,
            gs,
            before.spec_gap_chars(),
            added,
            gs,
            before.spec_gap_chars(),
        );
        let after = inserted(text, gs, added);
        let a = gs + added.len();
        assert(after.subrange(0, a) =~= before.front() + added);
        assert(after.subrange(a, after.len() as int) =~= before.back());
        self.lemma_wf_storage(after, a);
    }

    /// The counts of a piece that fits beside the text fit too.
    proof fn lemma_room(&self, piece: &str)
        requires
            self.wf_storage(),
            self.bytes().len() + piece.spec_bytes().len() <= usize::MAX,
        ensures
            self.spec_gap_chars() + piece@.len() <= usize::MAX,
            self.cursor_chars() + piece@.len() <= usize::MAX,
            self.spec_total().chars + piece@.len() <= usize::MAX,
            self.spec_total().bytes + piece.spec_bytes().len() <= usize::MAX,
            self.spec_gap_start() + piece.spec_bytes().len() <= usize::MAX,
    {
        self.lemma_gap_position();
        self.lemma_place(self.spec_cursor());
        lemma_count_bounds(self.bytes());
        lemma_count_bounds(self.back());
        vstd::utf8::encode_utf8_valid_utf8(piece@);
        vstd::utf8::encode_utf8_decode_utf8(piece@);
        lemma_count_bounds(piece.spec_bytes());
    }

    /// Replaces the storage by one that holds `slice` where the gap started,
    /// followed by a fresh gap.
    fn grow(&mut self, slice: &str)
        requires
            old(self).wf_storage(),
            old(self).cursor_chars() == old(self).spec_gap_chars(),
            old(self).bytes().len() + slice.spec_bytes().len() + old(self).spec_gap_size()
                <= usize::MAX,
        ensures
            final(self).filled(old(self), slice),
            final(self).spec_gap_len() == old(self).spec_gap_size(),
    {
        let ghost before = *self;
        proof {
            self.lemma_gap_position();
            self.lemma_room(slice);
        }
        let bytes = slice.as_bytes();
        let new_capacity = {
            let pre_gap = self.gap_start;
            let post_gap = self.data.len() - self.gap_end;
            pre_gap + bytes.len() + self.gap_size + post_gap
        };
        let mut buffer: Vec<u8> = Vec::with_capacity(new_capacity);
        buffer.extend_from_slice(slice_subrange(self.data.as_slice(), 0, self.gap_start));
        assert(buffer@ =~= before.front());
        buffer.extend_from_slice(bytes);
        assert(buffer@ =~= before.front() + bytes@);
        let filled = buffer.len();
        buffer.resize(filled + self.gap_size, 0);
        assert(buffer@.subrange(0, filled as int) =~= before.front() + bytes@);
        let ghost with_gap = buffer@;
        buffer.extend_from_slice(
            slice_subrange(self.data.as_slice(), self.gap_end, self.data.len()),
        );
        assert(buffer@.subrange(0, filled as int) =~= with_gap.subrange(0, filled as int));
        assert(buffer@.subrange(filled + self.gap_size, buffer@.len() as int) =~= before.back());
        self.data = buffer;
        self.gap_start += bytes.len();
        self.gap_end = self.gap_start + self.gap_size;
        self.cursor.bytes = self.gap_end;
        let new = metrics(slice);
        self.gap_chars += new.chars;
        self.cursor.chars = self.gap_chars;
        self.total = self.total.plus(new);
        proof {
            self.lemma_filled(&before, slice);
        }
    }

    /// Writes `slice` into the start of the gap, which is large enough.
    fn fill(&mut self, slice: &str)
        requires
            old(self).wf_storage(),
            old(self).cursor_chars() == old(self).spec_gap_chars(),
            slice.spec_bytes().len() <= old(self).spec_gap_len(),
        ensures
            final(self).filled(old(self), slice),
            final(self).storage().len() == old(self).storage().len(),
            final(self).spec_gap_end() == old(self).spec_gap_end(),
    {
        let ghost before = *self;
        proof {
            self.lemma_capacity();
            self.lemma_gap_position();
            self.lemma_cursor_at_gap();
            self.lemma_room(slice);
        }
        let bytes = slice.as_bytes();
        write_bytes(&mut self.data, self.gap_start, bytes);
        self.gap_start += bytes.len();
        let new = metrics(slice);
        self.gap_chars += new.chars;
        self.cursor.chars += new.chars;
        self.total = self.total.plus(new);
        proof {
            assert(self.front() =~= before.front() + slice.spec_bytes());
            assert(self.back() =~= before.back());
            self.lemma_filled(&before, slice);
        }
    }

    /// After the index has taken the leaves of a piece at the cursor, the gap
    /// has come to the cursor and the piece has been written there, the
    /// buffer is well formed and holds the text with the piece inserted.
    proof fn lemma_insert_done(&self, before: &Buffer, moved: &Buffer, piece: &str)
        requires
            before.wf(),
            moved.wf_storage(),
            moved.bytes() == before.bytes(),
            moved.spec_gap_start() == before.to_abs(before.spec_cursor().bytes as int),
            moved.spec_gap_chars() == before.cursor_chars(),
            moved.index_wf(),
            moved.spec_index() == crate::metric::spliced(
                before.spec_index(),
                Extent { bytes: moved.spec_gap_start(), chars: moved.spec_gap_chars() },
                chunks_of(piece.spec_bytes()),
            ),
            self.filled(moved, piece),
        ensures
            self.wf(),
            self@ == inserted(before@, before.cursor_chars(), piece@),
            self.bytes() == inserted(
                before.bytes(),
                before.to_abs(before.spec_cursor().bytes as int),
                piece.spec_bytes(),
            ),
    {
        let text = before.bytes();
        let b = moved.spec_gap_start();
        let c = moved.spec_gap_chars();
        let added = piece.spec_bytes();
        vstd::utf8::encode_utf8_valid_utf8(piece@);
        vstd::utf8::encode_utf8_decode_utf8(piece@);
        lemma_chunks_of(added);
        lemma_describes_total(chunks_of(added), added);
        lemma_describes_total(before.spec_index(), text);
        lemma_insert_index(before.spec_index(), text, b, c, chunks_of(added), added);
        lemma_insert_bytes(text, b, c, added);
    }

    /// Inserts `slice` at the cursor, and leaves the cursor and the gap
    /// after it.
    pub fn insert(&mut self, slice: &str)
        requires
            old(self).wf(),
            old(self).spec_gap_len() < slice.spec_bytes().len() ==> old(self).bytes().len()
                + slice.spec_bytes().len() + old(self).spec_gap_size() <= usize::MAX,
        ensures
            final(self).wf(),
            final(self)@ == inserted(old(self)@, old(self).cursor_chars(), slice@),
            final(self).bytes() == inserted(
                old(self).bytes(),
                old(self).to_abs(old(self).spec_cursor().bytes as int),
                slice.spec_bytes(),
            ),
            final(self).cursor_chars() == old(self).cursor_chars() + slice@.len(),
            final(self).spec_gap_chars() == final(self).cursor_chars(),
            final(self).spec_gap_start() == old(self).to_abs(old(self).spec_cursor().bytes as int)
                + slice.spec_bytes().len(),
            final(self).spec_gap_len() == if old(self).spec_gap_len() < slice.spec_bytes().len() {
                old(self).spec_gap_size()
            } else {
                old(self).spec_gap_len() - slice.spec_bytes().len()
            },
            final(self).spec_gap_size() == old(self).spec_gap_size(),
    {
        let ghost before = *self;
        proof {
            self.lemma_capacity();
        }
        let at = self.to_abs_pos(self.cursor);
        let chunks = MetricBuilder::new(slice).collect();
        proof {
            self.lemma_gap_position();
            vstd::utf8::encode_utf8_valid_utf8(slice@);
            lemma_chunks_of(slice.spec_bytes());
            lemma_describes_total(chunks@, slice.spec_bytes());
            crate::metric::lemma_describes_cut(
                self.spec_index(),
                self.bytes(),
                at.bytes as int,
                at.chars as int,
            );
        }
        self.metrics.insert(at, &chunks);
        if self.gap_chars != self.cursor.chars {
            let cursor = self.cursor;
            self.move_gap(cursor);
        } else {
            proof {
                self.lemma_cursor_at_gap();
            }
        }
        let ghost moved = *self;
        if self.gap_len() < slice.as_bytes().len() {
            self.grow(slice);
        } else {
            self.fill(slice);
        }
        proof {
            self.lemma_insert_done(&before, &moved, slice);
        }
    }

    /// Inserts `slice` at the cursor as `insert` does, unless the storage
    /// would have to grow beyond what can be addressed: then the buffer stays
    /// as it is, and the result is `false`.
    pub fn try_insert(&mut self, slice: &str) -> (done: bool)
        requires
            old(self).wf(),
        ensures
            final(self).wf(),
            done == (slice.spec_bytes().len() <= old(self).spec_gap_len() || old(
                self,
            ).bytes().len() + slice.spec_bytes().len() + old(self).spec_gap_size() <= usize::MAX),
            done ==> {
                &&& final(self)@ == inserted(old(self)@, old(self).cursor_chars(), slice@)
                &&& final(self).cursor_chars() == old(self).cursor_chars() + slice@.len()
                &&& final(self).spec_gap_chars() == final(self).cursor_chars()
            },
            !done ==> {
                &&& final(self)@ == old(self)@
                &&& final(self).cursor_chars() == old(self).cursor_chars()
                &&& final(self).storage() == old(self).storage()
                &&& final(self).spec_gap_start() == old(self).spec_gap_start()
                &&& final(self).spec_gap_end() == old(self).spec_gap_end()
            },
            final(self).spec_gap_size() == old(self).spec_gap_size(),
    {
        proof {
            self.lemma_gap_position();
        }
        let needed = slice.as_bytes().len();
        let fits = needed <= self.gap_len() || (needed <= usize::MAX - self.total.bytes
            && self.gap_size <= usize::MAX - self.total.bytes - needed);
        if fits {
            self.insert(slice);
        }
        fits
    }

    /// Inserts the character `chr` at the cursor.
    pub fn insert_char(&mut self, chr: char)
        requires
            old(self).wf(),
            old(self).bytes().len() + 4 + old(self).spec_gap_size() <= usize::MAX,
        ensures
            final(self).wf(),
            final(self)@ == inserted(old(self)@, old(self).cursor_chars(), seq![chr]),
            final(self).cursor_chars() == old(self).cursor_chars() + 1,
            final(self).spec_gap_chars() == final(self).cursor_chars(),
            final(self).spec_gap_start() == old(self).to_abs(old(self).spec_cursor().bytes as int)
                + encode_utf8(seq![chr]).len(),
            final(self).spec_gap_len() == if old(self).spec_gap_len() < encode_utf8(
                seq![chr],
            ).len() {
                old(self).spec_gap_size()
            } else {
                old(self).spec_gap_len() - encode_utf8(seq![chr]).len()
            },
            final(self).spec_gap_size() == old(self).spec_gap_size(),
    {
        let mut buf = [0u8;4];
        let text = encode_char(chr, &mut buf);
        proof {
            vstd::utf8::encode_utf8_valid_utf8(text@);
            vstd::utf8::encode_utf8_decode_utf8(text@);
            lemma_count_bounds(text.spec_bytes());
        }
        self.insert(text);
    }
}

/// Overwrites the bytes of `data` from offset `at` on with `src`, and leaves
/// the rest as it was.
pub fn write_bytes(data: &mut Vec<u8>, at: usize, src: &[u8])
    requires
        at + src@.len() <= old(data)@.len(),
    ensures
        final(data)@ == old(data)@.subrange(0, at as int) + src@ + old(data)@.subrange(
            at + src@.len(),
            old(data)@.len() as int,
        ),
{
    let capacity = data.len();
    let mut i: usize = 0;
    while i < src.len()
        invariant
            i <= src@.len(),
            at + src@.len() <= old(data)@.len() == capacity,
            data@ == old(data)@.subrange(0, at as int) + src@.subrange(0, i as int) + old(
                data,
            )@.subrange(at + i, old(data)@.len() as int),
        decreases src@.len() - i,
    {
        data[at + i] = src[i];
        i += 1;
        assert(data@ =~= old(data)@.subrange(0, at as int) + src@.subrange(0, i as int) + old(
            data,
        )@.subrange(at + i, old(data)@.len() as int));
    }
    assert(src@.subrange(0, src@.len() as int) =~= src@);
}

} // verus!
