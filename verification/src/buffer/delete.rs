//! Removal of a range of characters.
use crate::buffer::Buffer;
use crate::buffer::gap::{lemma_shift_back, lemma_shift_forward};
use crate::edit::{
    cursor_after_removal, lemma_remove_bytes, lemma_remove_index, lemma_remove_position, range_hi,
    range_lo, removed,
};
use crate::metric::{lemma_describes_total, Extent, Metric};
use crate::text::{byte_of_char, lemma_position_order};
use crate::wrappers::copy_within;
use vstd::prelude::*;

verus! {

impl Buffer {
    /// What `delete_byte_range` does to a buffer `before`: the text between
    /// the two places is gone, the gap stands where it was, and the cursor
    /// has moved with the text.
    spec fn cut(&self, before: &Buffer, beg: Metric, end: Metric) -> bool {
        let b = before.to_abs(beg.bytes as int);
        let e = before.to_abs(end.bytes as int);
        &&& self.wf_storage()
        &&& self.bytes() == removed(before.bytes(), b, e)
        &&& self.cursor_chars() == cursor_after_removal(
            before.cursor_chars(),
            beg.chars as int,
            end.chars as int,
        )
        &&& self.spec_gap_chars() == beg.chars
        &&& self.spec_gap_start() == b
        &&& self.spec_gap_len() == before.spec_gap_len() + (e - b)
        &&& self.storage().len() == before.storage().len()
        &&& self.spec_total()@ == before.spec_total()@.minus(
            Extent { bytes: e - b, chars: end.chars - beg.chars },
        )
        &&& self.spec_index() == before.spec_index()
        &&& self.index_wf() == before.index_wf()
        &&& self.spec_gap_size() == before.spec_gap_size()
    }

    /// A state whose two sides of the gap are the text before and after a
    /// removed range, with the counts taken down and the cursor moved with
    /// the text, is what `delete_byte_range` promises.
    proof fn lemma_cut(&self, before: &Buffer, beg: Metric, end: Metric)
        requires
            before.wf_storage(),
            before.is_place(beg),
            before.is_place(end),
            beg.bytes <= end.bytes,
            0 <= self.spec_gap_start() <= self.spec_gap_end() <= self.storage().len(),
            self.storage().len() == before.storage().len(),
            self.spec_gap_start() == before.to_abs(beg.bytes as int),
            self.front() == before.bytes().subrange(0, before.to_abs(beg.bytes as int)),
            self.back() == before.bytes().subrange(
                before.to_abs(end.bytes as int),
                before.bytes().len() as int,
            ),
            self.spec_gap_chars() == beg.chars,
            self.spec_total()@ == before.spec_total()@.minus(
                Extent {
                    bytes: before.to_abs(end.bytes as int) - before.to_abs(beg.bytes as int),
                    chars: end.chars - beg.chars,
                },
            ),
            self.cursor_chars() == cursor_after_removal(
                before.cursor_chars(),
                beg.chars as int,
                end.chars as int,
            ),
            self.spec_cursor().bytes == self.to_gapped(
                cursor_after_removal(
                    before.to_abs(before.spec_cursor().bytes as int),
                    before.to_abs(beg.bytes as int),
                    before.to_abs(end.bytes as int),
                ),
            ),
            self.spec_index() == before.spec_index(),
            self.index_wf() == before.index_wf(),
            self.spec_gap_size() == before.spec_gap_size(),
        ensures
            self.cut(before, beg, end),
    {
        let text = before.bytes();
        let b = before.to_abs(beg.bytes as int);
        let e = before.to_abs(end.bytes as int);
        let c = before.to_abs(before.spec_cursor().bytes as int);
        before.lemma_gap_position();
        before.lemma_place(beg);
        before.lemma_place(end);
        before.lemma_place(before.spec_cursor());
        lemma_position_order(text, b, beg.chars as int, e, end.chars as int);
        lemma_position_order(text, c, before.cursor_chars(), b, beg.chars as int);
        lemma_position_order(text, c, before.cursor_chars(), e, end.chars as int);
        lemma_remove_bytes(text, b, beg.chars as int, e, end.chars as int);
        lemma_remove_position(
            text,
            b,
            beg.chars as int,
            e,
            end.chars as int,
            c,
            before.cursor_chars(),
        );
        let after = removed(text, b, e);
        assert(after.subrange(0, b) =~= text.subrange(0, b));
        assert(after.subrange(b, after.len() as int) =~= text.subrange(e, text.len() as int));
        self.lemma_wf_storage(after, b);
    }

    /// Widens the gap over the bytes between the offsets `beg` and `end`
    /// of the storage, moving the text that lies between them and the gap
    /// to the other side of the gap.
    fn widen_gap(&mut self, beg: usize, end: usize)
        requires
            0 <= old(self).spec_gap_start() <= old(self).spec_gap_end() <= old(
                self,
            ).storage().len(),
            old(self).outside_gap(beg as int),
            old(self).outside_gap(end as int),
            beg <= end,
        ensures
            final(self).storage().len() == old(self).storage().len(),
            final(self).spec_gap_start() == old(self).to_abs(beg as int),
            final(self).spec_gap_len() == old(self).spec_gap_len() + (old(self).to_abs(end as int)
                - old(self).to_abs(beg as int)),
            final(self).front() == old(self).bytes().subrange(0, old(self).to_abs(beg as int)),
            final(self).back() == old(self).bytes().subrange(
                old(self).to_abs(end as int),
                old(self).bytes().len() as int,
            ),
            final(self).spec_gap_chars() == old(self).spec_gap_chars(),
            final(self).spec_cursor() == old(self).spec_cursor(),
            final(self).spec_total() == old(self).spec_total(),
            final(self).spec_index() == old(self).spec_index(),
            final(self).index_wf() == old(self).index_wf(),
            final(self).spec_gap_size() == old(self).spec_gap_size(),
    {
        let ghost before = *self;
        let ghost text = self.bytes();
        let ghost from = self.to_abs(beg as int);
        let ghost to = self.to_abs(end as int);
        proof {
            self.lemma_capacity();
        }
        if end < self.gap_start {
            // Both before the gap: the text from `end` to the gap moves to
            // the end of the gap.
            let new_end = self.gap_end - (self.gap_start - end);
            copy_within(&mut self.data, end, self.gap_start, new_end);
            self.gap_end = new_end;
            self.gap_start = beg;
            proof {
                lemma_shift_back(
                    before.storage(),
                    end as int,
                    before.spec_gap_start(),
                    before.spec_gap_end(),
                );
                assert(self.front() =~= self.storage().subrange(0, end as int).subrange(
                    0,
                    beg as int,
                ));
                assert(self.front() =~= text.subrange(0, from));
            }
        } else if beg >= self.gap_end {
            // Both after the gap: the text from the gap to `beg` moves to
            // the start of the gap.
            copy_within(&mut self.data, self.gap_end, beg, self.gap_start);
            self.gap_start += beg - self.gap_end;
            self.gap_end = end;
            proof {
                lemma_shift_forward(
                    before.storage(),
                    before.spec_gap_start(),
                    before.spec_gap_end(),
                    beg as int,
                );
                let rest = self.storage().subrange(beg as int, self.storage().len() as int);
                assert(self.back() =~= rest.subrange(end - beg, rest.len() as int));
                assert(self.back() =~= text.subrange(to, text.len() as int));
            }
        } else {
            // The range spans the gap: the gap widens to cover it.
            self.gap_start = beg;
            self.gap_end = end;
            proof {
                assert(self.front() =~= text.subrange(0, from));
                assert(self.back() =~= text.subrange(to, text.len() as int));
            }
        }
    }

    /// Takes the bytes between the places `beg` and `end` out of the text.
    /// The gap ends up where they were.
    fn delete_byte_range(&mut self, beg: Metric, end: Metric)
        requires
            old(self).wf_storage(),
            old(self).is_place(beg),
            old(self).is_place(end),
            beg.bytes <= end.bytes,
        ensures
            final(self).cut(old(self), beg, end),
    {
        let ghost before = *self;
        proof {
            self.lemma_gap_position();
            self.lemma_place(beg);
            self.lemma_place(end);
            self.lemma_place(self.cursor);
            lemma_position_order(
                self.bytes(),
                self.to_abs(beg.bytes as int),
                beg.chars as int,
                self.to_abs(end.bytes as int),
                end.chars as int,
            );
            lemma_position_order(
                self.bytes(),
                self.to_abs(self.spec_cursor().bytes as int),
                self.cursor_chars(),
                self.to_abs(beg.bytes as int),
                beg.chars as int,
            );
            lemma_position_order(
                self.bytes(),
                self.to_abs(self.spec_cursor().bytes as int),
                self.cursor_chars(),
                self.to_abs(end.bytes as int),
                end.chars as int,
            );
        }
        proof {
            self.lemma_place_is_char_boundary(beg);
            self.lemma_place_is_char_boundary(end);
        }
        self.assert_char_boundary(beg.bytes);
        self.assert_char_boundary(end.bytes);
        let from = self.to_abs_pos(beg);
        let to = self.to_abs_pos(end);
        let at = self.to_abs_pos(self.cursor);
        let deleted = to.minus(from);
        self.gap_chars = beg.chars;
        self.total = self.total.minus(deleted);
        self.update_cursor_chars(beg.bytes, end.bytes, deleted.chars);
        self.widen_gap(beg.bytes, end.bytes);
        let moved = if at.bytes <= from.bytes {
            at.bytes
        } else if at.bytes >= to.bytes {
            at.bytes - deleted.bytes
        } else {
            from.bytes
        };
        self.cursor = self.to_gapped_pos(Metric { bytes: moved, chars: self.cursor.chars });
        proof {
            self.lemma_cut(&before, beg, end);
        }
    }

    /// The cursor's character position after `update_cursor_chars`.
    spec fn updated_cursor_chars(&self, beg: int, end: int, size: int) -> int {
        if self.spec_cursor().bytes > beg {
            if self.spec_cursor().bytes > end {
                self.cursor_chars() - size
            } else {
                self.spec_gap_chars()
            }
        } else {
            self.cursor_chars()
        }
    }

    /// Sets the cursor's character position after a removal of `size`
    /// characters between the offsets `beg` and `end` of the storage, when
    /// the gap has already gone to the start of the removed range: a cursor
    /// past `end` moves back by `size`, and one past `beg` falls to the gap.
    fn update_cursor_chars(&mut self, beg: usize, end: usize, size: usize)
        requires
            old(self).spec_cursor().bytes > end ==> size <= old(self).cursor_chars(),
        ensures
            final(self).cursor_chars() == old(self).updated_cursor_chars(
                beg as int,
                end as int,
                size as int,
            ),
            final(self).spec_cursor().bytes == old(self).spec_cursor().bytes,
            final(self).storage() == old(self).storage(),
            final(self).spec_gap_start() == old(self).spec_gap_start(),
            final(self).spec_gap_end() == old(self).spec_gap_end(),
            final(self).spec_gap_chars() == old(self).spec_gap_chars(),
            final(self).spec_total() == old(self).spec_total(),
            final(self).spec_index() == old(self).spec_index(),
            final(self).index_wf() == old(self).index_wf(),
            final(self).spec_gap_size() == old(self).spec_gap_size(),
    {
        if self.cursor.bytes > beg {
            if self.cursor.bytes > end {
                self.cursor.chars -= size;
            } else {
                self.cursor.chars = self.gap_chars;
            }
        }
    }

    /// The two ends of a range to remove are places that the index admits,
    /// in order, with no more characters than bytes between them.
    proof fn lemma_delete_ready(&self, beg: Metric, end: Metric)
        requires
            self.wf(),
            self.is_place(beg),
            self.is_place(end),
            beg.chars <= end.chars,
        ensures
            beg.bytes <= end.bytes,
            beg.bytes == end.bytes <==> beg.chars == end.chars,
            self.to_abs(beg.bytes as int) <= self.to_abs(end.bytes as int),
            end.chars - beg.chars <= self.to_abs(end.bytes as int) - self.to_abs(beg.bytes as int),
            crate::metric::admits(
                self.spec_index(),
                Extent { bytes: self.to_abs(beg.bytes as int), chars: beg.chars as int },
            ),
            crate::metric::admits(
                self.spec_index(),
                Extent { bytes: self.to_abs(end.bytes as int), chars: end.chars as int },
            ),
    {
        let text = self.bytes();
        let b = self.to_abs(beg.bytes as int);
        let e = self.to_abs(end.bytes as int);
        self.lemma_gap_position();
        self.lemma_place(beg);
        self.lemma_place(end);
        lemma_position_order(text, b, beg.chars as int, e, end.chars as int);
        crate::metric::lemma_describes_cut(self.spec_index(), text, b, beg.chars as int);
        crate::metric::lemma_describes_cut(self.spec_index(), text, e, end.chars as int);
    }

    /// After the index and the storage have both lost what lies between two
    /// places, the buffer is well formed and holds the text without it.
    proof fn lemma_delete_done(&self, before: &Buffer, middle: &Buffer, beg: Metric, end: Metric)
        requires
            before.wf(),
            before.is_place(beg),
            before.is_place(end),
            beg.bytes <= end.bytes,
            middle.wf_storage(),
            middle.storage() == before.storage(),
            middle.spec_gap_start() == before.spec_gap_start(),
            middle.spec_gap_end() == before.spec_gap_end(),
            middle.spec_cursor() == before.spec_cursor(),
            middle.index_wf(),
            middle.spec_index() == crate::metric::excised(
                before.spec_index(),
                Extent { bytes: before.to_abs(beg.bytes as int), chars: beg.chars as int },
                Extent { bytes: before.to_abs(end.bytes as int), chars: end.chars as int },
            ),
            self.cut(middle, beg, end),
        ensures
            self.wf(),
            self@ == removed(before@, beg.chars as int, end.chars as int),
            self.cursor_chars() == cursor_after_removal(
                before.cursor_chars(),
                beg.chars as int,
                end.chars as int,
            ),
            self.storage().len() == before.storage().len(),
            self.spec_gap_size() == middle.spec_gap_size(),
            self.spec_gap_chars() == beg.chars,
            self.spec_gap_start() == byte_of_char(before.bytes(), beg.chars as int),
    {
        let text = before.bytes();
        let b = before.to_abs(beg.bytes as int);
        let e = before.to_abs(end.bytes as int);
        before.lemma_gap_position();
        before.lemma_place(beg);
        before.lemma_place(end);
        lemma_position_order(text, b, beg.chars as int, e, end.chars as int);
        lemma_describes_total(before.spec_index(), text);
        lemma_remove_index(before.spec_index(), text, b, beg.chars as int, e, end.chars as int);
        lemma_remove_bytes(text, b, beg.chars as int, e, end.chars as int);
    }

    /// Removes the characters from `beg` up to, not including, `end`. The
    /// two are put in order, and each is brought down to the length of the
    /// text where it lies beyond it.
    pub fn delete_range(&mut self, beg: usize, end: usize)
        requires
            old(self).wf(),
        ensures
            final(self).wf(),
            final(self)@ == removed(
                old(self)@,
                range_lo(beg as int, end as int, old(self)@.len() as int),
                range_hi(beg as int, end as int, old(self)@.len() as int),
            ),
            final(self).cursor_chars() == cursor_after_removal(
                old(self).cursor_chars(),
                range_lo(beg as int, end as int, old(self)@.len() as int),
                range_hi(beg as int, end as int, old(self)@.len() as int),
            ),
            final(self).storage().len() == old(self).storage().len(),
            final(self).spec_gap_size() == old(self).spec_gap_size(),
            range_lo(beg as int, end as int, old(self)@.len() as int) == range_hi(
                beg as int,
                end as int,
                old(self)@.len() as int,
            ) ==> {
                &&& final(self).storage() == old(self).storage()
                &&& final(self).spec_gap_start() == old(self).spec_gap_start()
                &&& final(self).spec_gap_end() == old(self).spec_gap_end()
            },
            range_lo(beg as int, end as int, old(self)@.len() as int) < range_hi(
                beg as int,
                end as int,
                old(self)@.len() as int,
            ) ==> {
                &&& final(self).spec_gap_chars() == range_lo(
                    beg as int,
                    end as int,
                    old(self)@.len() as int,
                )
                &&& final(self).spec_gap_start() == byte_of_char(
                    old(self).bytes(),
                    range_lo(beg as int, end as int, old(self)@.len() as int),
                )
            },
    {
        let ghost before = *self;
        let ghost lo = range_lo(beg as int, end as int, self@.len() as int);
        let ghost hi = range_hi(beg as int, end as int, self@.len() as int);
        let (mut beg_chars, mut end_chars) = (beg, end);
        if beg_chars > end_chars {
            beg_chars = end;
            end_chars = beg;
        }
        if end_chars > self.total.chars {
            end_chars = self.total.chars;
        }
        if beg_chars > self.total.chars {
            beg_chars = self.total.chars;
        }
        assert(beg_chars == lo && end_chars == hi);
        let end_bytes = self.char_to_byte(end_chars);
        let beg_bytes = self.char_to_byte(beg_chars);
        let beg = Metric { bytes: beg_bytes, chars: beg_chars };
        let end = Metric { bytes: end_bytes, chars: end_chars };
        proof {
            self.lemma_delete_ready(beg, end);
        }
        if end_bytes != beg_bytes {
            let from = self.to_abs_pos(beg);
            let to = self.to_abs_pos(end);
            self.metrics.delete(from, to);
            let ghost middle = *self;
            self.delete_byte_range(beg, end);
            proof {
                self.lemma_delete_done(&before, &middle, beg, end);
            }
        } else {
            proof {
                assert(removed(self@, lo, hi) =~= self@);
            }
        }
    }

    /// Removes the `size` characters before the cursor, or all of them where
    /// there are fewer.
    pub fn delete_backwards(&mut self, size: usize)
        requires
            old(self).wf(),
        ensures
            final(self).wf(),
            final(self)@ == removed(
                old(self)@,
                old(self).cursor_chars() - if size <= old(self).cursor_chars() {
                    size as int
                } else {
                    old(self).cursor_chars()
                },
                old(self).cursor_chars(),
            ),
            final(self).cursor_chars() == old(self).cursor_chars() - if size <= old(
                self,
            ).cursor_chars() {
                size as int
            } else {
                old(self).cursor_chars()
            },
            final(self).storage().len() == old(self).storage().len(),
            final(self).spec_gap_size() == old(self).spec_gap_size(),
            size > 0 && old(self).cursor_chars() > 0 ==> final(self).spec_gap_chars() == final(self).cursor_chars(),
            size == 0 || old(self).cursor_chars() == 0 ==> {
                &&& final(self).storage() == old(self).storage()
                &&& final(self).spec_gap_start() == old(self).spec_gap_start()
                &&& final(self).spec_gap_end() == old(self).spec_gap_end()
            },
    {
        proof {
            self.lemma_place(self.cursor);
        }
        let size = if size <= self.cursor.chars {
            size
        } else {
            self.cursor.chars
        };
        self.delete_range(self.cursor.chars - size, self.cursor.chars);
    }

    /// Removes the `size` characters after the cursor, or all of them where
    /// there are fewer. The cursor stays.
    pub fn delete_forwards(&mut self, size: usize)
        requires
            old(self).wf(),
        ensures
            final(self).wf(),
            final(self)@ == removed(
                old(self)@,
                old(self).cursor_chars(),
                if old(self).cursor_chars() + size <= old(self)@.len() {
                    old(self).cursor_chars() + size
                } else {
                    old(self)@.len() as int
                },
            ),
            final(self).cursor_chars() == old(self).cursor_chars(),
            final(self).storage().len() == old(self).storage().len(),
            final(self).spec_gap_size() == old(self).spec_gap_size(),
            size > 0 && old(self).cursor_chars() < old(self)@.len() ==> final(self).spec_gap_chars() == final(self).cursor_chars(),
            size == 0 || old(self).cursor_chars() == old(self)@.len() ==> {
                &&& final(self).storage() == old(self).storage()
                &&& final(self).spec_gap_start() == old(self).spec_gap_start()
                &&& final(self).spec_gap_end() == old(self).spec_gap_end()
            },
    {
        proof {
            self.lemma_place(self.cursor);
        }
        let end = if size <= usize::MAX - self.cursor.chars {
            self.cursor.chars + size
        } else {
            usize::MAX
        };
        self.delete_range(self.cursor.chars, end);
    }
}

} // verus!
