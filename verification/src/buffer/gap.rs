//! Moving the gap.
use crate::buffer::Buffer;
use crate::metric::Metric;
use crate::text::{byte_of_char, lemma_position_decode};
use crate::wrappers::copy_within;
use vstd::prelude::*;

verus! {

impl Buffer {
    /// Moves the gap to the place `pos`. The text and the cursor stay as
    /// they are.
    pub fn move_gap(&mut self, pos: Metric)
        requires
            old(self).wf_storage(),
            old(self).is_place(pos),
        ensures
            final(self).wf_storage(),
            old(self).wf() ==> final(self).wf(),
            final(self).bytes() == old(self).bytes(),
            final(self).cursor_chars() == old(self).cursor_chars(),
            final(self).spec_gap_chars() == pos.chars,
            final(self).spec_gap_start() == old(self).to_abs(pos.bytes as int),
            final(self).spec_gap_len() == old(self).spec_gap_len(),
            final(self).storage().len() == old(self).storage().len(),
            final(self).spec_total() == old(self).spec_total(),
            final(self).spec_index() == old(self).spec_index(),
            final(self).index_wf() == old(self).index_wf(),
            final(self).spec_gap_size() == old(self).spec_gap_size(),
    {
        let ghost text = self.bytes();
        let ghost a = self.to_abs(pos.bytes as int);
        let ghost before = *self;
        proof {
            self.lemma_gap_position();
        }
        let gap_len = self.gap_len();
        if pos.bytes < self.gap_start {
            let shift = self.gap_start - pos.bytes;
            copy_within(&mut self.data, pos.bytes, self.gap_start, self.gap_end - shift);
            if self.cursor.bytes < self.gap_start && self.cursor.bytes >= pos.bytes {
                self.cursor.bytes += gap_len;
            }
            self.gap_chars = pos.chars;
            self.gap_start = pos.bytes;
            self.gap_end -= shift;
            proof {
                lemma_shift_back(
                    before.storage(),
                    a,
                    before.spec_gap_start(),
                    before.spec_gap_end(),
                );
            }
        } else {
            let size = pos.bytes - self.gap_end;
            copy_within(&mut self.data, self.gap_end, pos.bytes, self.gap_start);
            if self.cursor.bytes >= self.gap_end && self.cursor.bytes < pos.bytes {
                self.cursor.bytes -= gap_len;
            }
            self.gap_chars = pos.chars;
            self.gap_start += size;
            self.gap_end = pos.bytes;
            proof {
                lemma_shift_forward(
                    before.storage(),
                    before.spec_gap_start(),
                    before.spec_gap_end(),
                    pos.bytes as int,
                );
            }
        }
        proof {
            self.lemma_wf_storage(text, a);
        }
    }

    /// Where `move_gap_out_of` leaves a gap that stands before character
    /// `gap` of `len`: a gap inside the range, and not at its start, goes to
    /// the nearer end of the range, and to the start where both are equally
    /// near. Without a start the range starts at 0, where the gap may stand
    /// too, and without an end it ends at `len`.
    pub open spec fn gap_target(gap: int, len: int, start: Option<usize>, end: Option<usize>) -> int {
        let lo = match start {
            Some(s) => s as int,
            None => 0,
        };
        let hi = match end {
            Some(e) => e as int,
            None => len,
        };
        let inside = match start {
            Some(s) => s < gap,
            None => true,
        } && match end {
            Some(e) => gap < e,
            None => true,
        };
        if !inside {
            gap
        } else if gap - lo <= hi - gap {
            lo
        } else {
            hi
        }
    }

    /// Moves the gap out of a range of characters, to the nearer of its two
    /// ends. The range starts at character `start`, or at the start of the
    /// text, and ends before character `end`, or at the end of the text.
    pub fn move_gap_out_of(&mut self, start: Option<usize>, end: Option<usize>)
        requires
            old(self).wf(),
            end matches Some(e) ==> e <= old(self)@.len(),
        ensures
            final(self).wf(),
            final(self)@ == old(self)@,
            final(self).bytes() == old(self).bytes(),
            final(self).cursor_chars() == old(self).cursor_chars(),
            final(self).spec_gap_chars() == Self::gap_target(
                old(self).spec_gap_chars(),
                old(self)@.len() as int,
                start,
                end,
            ),
            final(self).spec_gap_start() == byte_of_char(
                final(self).bytes(),
                final(self).spec_gap_chars(),
            ),
            final(self).spec_gap_len() == old(self).spec_gap_len(),
            final(self).storage().len() == old(self).storage().len(),
            final(self).spec_gap_size() == old(self).spec_gap_size(),
    {
        proof {
            self.lemma_gap_position();
            lemma_position_decode(self.bytes(), self.spec_gap_start(), self.spec_gap_chars());
        }
        let gap = self.gap_chars;
        let after_start = match start {
            Some(s) => s < gap,
            None => true,
        };
        let before_end = match end {
            Some(e) => gap < e,
            None => true,
        };
        if !(after_start && before_end) {
            return ;
        }
        let low = match start {
            Some(s) => s,
            None => 0,
        };
        let high = match end {
            Some(e) => e,
            None => self.total.chars,
        };
        let pos = if gap - low <= high - gap {
            Metric { bytes: self.char_to_byte(low), chars: low }
        } else {
            Metric { bytes: self.char_to_byte(high), chars: high }
        };
        proof {
            self.lemma_place(pos);
        }
        self.move_gap(pos);
    }

    /// Moving the gap out of a range a second time changes nothing: the
    /// place that the first move led to is the place that the second leads to.
    pub proof fn lemma_move_gap_out_of_twice(
        gap: int,
        len: int,
        start: Option<usize>,
        end: Option<usize>,
    )
        requires
            0 <= gap <= len,
            end matches Some(e) ==> e <= len,
        ensures
            Self::gap_target(Self::gap_target(gap, len, start, end), len, start, end)
                == Self::gap_target(gap, len, start, end),
    {
    }
}

/// Copying the last bytes before a gap to the end of the gap moves the gap
/// back over them: the text stays, cut at the new place.
pub(crate) proof fn lemma_shift_back(s: Seq<u8>, p: int, gs: int, ge: int)
    requires
        0 <= p <= gs <= ge <= s.len(),
    ensures
        ({
            let text = s.subrange(0, gs) + s.subrange(ge, s.len() as int);
            let dest = ge - (gs - p);
            let moved = s.subrange(0, dest) + s.subrange(p, gs) + s.subrange(ge, s.len() as int);
            &&& moved.len() == s.len()
            &&& moved.subrange(0, p) == text.subrange(0, p)
            &&& moved.subrange(dest, moved.len() as int) == text.subrange(p, text.len() as int)
        }),
{
    let text = s.subrange(0, gs) + s.subrange(ge, s.len() as int);
    let dest = ge - (gs - p);
    let moved = s.subrange(0, dest) + s.subrange(p, gs) + s.subrange(ge, s.len() as int);
    assert(moved.subrange(0, p) =~= text.subrange(0, p));
    assert(moved.subrange(dest, moved.len() as int) =~= text.subrange(p, text.len() as int));
}

/// Copying the first bytes after a gap to the start of the gap moves the gap
/// forward over them: the text stays, cut at the new place.
pub(crate) proof fn lemma_shift_forward(s: Seq<u8>, gs: int, ge: int, p: int)
    requires
        0 <= gs <= ge <= p <= s.len(),
    ensures
        ({
            let text = s.subrange(0, gs) + s.subrange(ge, s.len() as int);
            let size = p - ge;
            let moved = s.subrange(0, gs) + s.subrange(ge, p) + s.subrange(
                gs + size,
                s.len() as int,
            );
            &&& moved.len() == s.len()
            &&& moved.subrange(0, gs + size) == text.subrange(0, gs + size)
            &&& moved.subrange(p, moved.len() as int) == text.subrange(
                gs + size,
                text.len() as int,
            )
        }),
{
    let text = s.subrange(0, gs) + s.subrange(ge, s.len() as int);
    let size = p - ge;
    let moved = s.subrange(0, gs) + s.subrange(ge, p) + s.subrange(gs + size, s.len() as int);
    assert(moved.subrange(0, gs + size) =~= text.subrange(0, gs + size));
    assert(moved.subrange(p, moved.len() as int) =~= text.subrange(gs + size, text.len() as int));
}

} // verus!
