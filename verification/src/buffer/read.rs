//! Reading the text out of the buffer.
use crate::buffer::Buffer;
use crate::chunks::is_char_boundary;
use crate::text::{
    is_boundary, lemma_between, lemma_concat, lemma_position_ends, lemma_snap_back,
    lemma_snap_forward, snap_back, snap_forward,
};
use crate::wrappers::push_char;
use std::borrow::Cow;
use std::ops::Range;
use vstd::prelude::*;
use vstd::string::StringExecFns;
use vstd::utf8::decode_utf8;

verus! {

impl Buffer {
    /// The byte of the text at offset `i`.
    fn byte_at(&self, i: usize) -> (byte: u8)
        requires
            self.wf(),
            i < self.bytes().len(),
        ensures
            byte == self.bytes()[i as int],
    {
        proof {
            self.lemma_gap_position();
            self.lemma_capacity();
        }
        if i < self.gap_start {
            self.data[i]
        } else {
            self.data[i + (self.gap_end - self.gap_start)]
        }
    }

    /// The last character boundary of the text at or before offset `end`.
    fn snap_end(&self, end: usize) -> (e: usize)
        requires
            self.wf(),
            end <= self.bytes().len(),
        ensures
            e == snap_back(self.bytes(), end as int),
    {
        proof {
            self.lemma_gap_position();
        }
        let mut e = end;
        while e > 0 && e < self.total.bytes && !is_char_boundary(self.byte_at(e))
            invariant
                self.wf(),
                e <= end <= self.bytes().len() == self.spec_total().bytes,
                snap_back(self.bytes(), e as int) == snap_back(self.bytes(), end as int),
            decreases e,
        {
            e -= 1;
        }
        e
    }

    /// The first character boundary of the text at or after offset `start`.
    fn snap_start(&self, start: usize) -> (s: usize)
        requires
            self.wf(),
            start <= self.bytes().len(),
        ensures
            s == snap_forward(self.bytes(), start as int),
    {
        proof {
            self.lemma_gap_position();
        }
        let mut s = start;
        while s < self.total.bytes && !is_char_boundary(self.byte_at(s))
            invariant
                self.wf(),
                start <= s <= self.bytes().len() == self.spec_total().bytes,
                snap_forward(self.bytes(), s as int) == snap_forward(self.bytes(), start as int),
            decreases self.bytes().len() - s,
        {
            s += 1;
        }
        s
    }

    /// Where the bytes of the text between two offsets lie in the storage.
    proof fn lemma_range_in_storage(&self, s: int, e: int)
        requires
            0 <= self.spec_gap_start() <= self.spec_gap_end() <= self.storage().len(),
            0 <= s <= e <= self.bytes().len(),
        ensures
            e <= self.spec_gap_start() ==> self.storage().subrange(s, e) == self.bytes().subrange(
                s,
                e,
            ),
            s >= self.spec_gap_start() ==> self.storage().subrange(
                s + self.spec_gap_len(),
                e + self.spec_gap_len(),
            ) == self.bytes().subrange(s, e),
            s <= self.spec_gap_start() <= e ==> {
                &&& self.storage().subrange(s, self.spec_gap_start()) == self.bytes().subrange(
                    s,
                    self.spec_gap_start(),
                )
                &&& self.storage().subrange(self.spec_gap_end(), e + self.spec_gap_len())
                    == self.bytes().subrange(self.spec_gap_start(), e)
            },
    {
        let gs = self.spec_gap_start();
        let gl = self.spec_gap_len();
        if e <= gs {
            assert(self.storage().subrange(s, e) =~= self.bytes().subrange(s, e));
        }
        if s >= gs {
            assert(self.storage().subrange(s + gl, e + gl) =~= self.bytes().subrange(s, e));
        }
        if s <= gs <= e {
            assert(self.storage().subrange(s, gs) =~= self.bytes().subrange(s, gs));
            assert(self.storage().subrange(self.spec_gap_end(), e + gl) =~= self.bytes().subrange(
                gs,
                e,
            ));
        }
    }

    /// The text between two character boundaries, given as byte offsets into
    /// the text.
    fn read_between(&self, start: usize, end: usize) -> (text: Cow<'_, str>)
        requires
            self.wf(),
            start <= end,
            is_boundary(self.bytes(), start as int),
            is_boundary(self.bytes(), end as int),
        ensures
            text@ == decode_utf8(self.bytes().subrange(start as int, end as int)),
            (text matches Cow::Owned(_)) <==> start < self.spec_gap_start() < end,
    {
        let ghost bytes = self.bytes();
        let ghost gs = self.spec_gap_start();
        proof {
            self.lemma_capacity();
        }
        let gap_len = self.gap_len();
        proof {
            self.lemma_gap_position();
            self.lemma_range_in_storage(start as int, end as int);
            lemma_between(bytes, start as int, end as int);
        }
        if start < self.gap_start && self.gap_start < end {
            proof {
                lemma_between(bytes, start as int, gs);
                lemma_between(bytes, gs, end as int);
                lemma_concat(bytes.subrange(start as int, gs), bytes.subrange(gs, end as int));
                assert(bytes.subrange(start as int, gs) + bytes.subrange(gs, end as int)
                    =~= bytes.subrange(start as int, end as int));
            }
            let first = self.to_str(start, self.gap_start);
            let second = self.to_str(self.gap_end, end + gap_len);
            let mut string = String::from_str(first);
            string.append(second);
            Cow::Owned(string)
        } else if end <= self.gap_start {
            Cow::Borrowed(self.to_str(start, end))
        } else {
            Cow::Borrowed(self.to_str(start + gap_len, end + gap_len))
        }
    }

    /// The text between the byte offsets `byte_range.start` and
    /// `byte_range.end` of the text. An offset inside a character moves to a
    /// boundary first: the start forward, the end back. The result borrows
    /// from the buffer unless the range has text on both sides of the gap.
    pub fn read(&self, byte_range: Range<usize>) -> (text: Cow<'_, str>)
        requires
            self.wf(),
            byte_range.start <= byte_range.end <= self.bytes().len(),
            snap_forward(self.bytes(), byte_range.start as int) <= snap_back(
                self.bytes(),
                byte_range.end as int,
            ),
        ensures
            text@ == decode_utf8(
                self.bytes().subrange(
                    snap_forward(self.bytes(), byte_range.start as int),
                    snap_back(self.bytes(), byte_range.end as int),
                ),
            ),
            byte_range.start == 0 && byte_range.end == self.bytes().len() ==> text@ == self@,
            (text matches Cow::Owned(_)) <==> snap_forward(self.bytes(), byte_range.start as int)
                < self.spec_gap_start() < snap_back(self.bytes(), byte_range.end as int),
    {
        let ghost bytes = self.bytes();
        let start = self.snap_start(byte_range.start);
        let end = self.snap_end(byte_range.end);
        proof {
            lemma_snap_forward(bytes, byte_range.start as int);
            lemma_snap_back(bytes, byte_range.end as int);
            if byte_range.start == 0 && byte_range.end == bytes.len() {
                lemma_position_ends(bytes);
                assert(bytes.subrange(0, bytes.len() as int) =~= bytes);
            }
        }
        self.read_between(start, end)
    }

    /// The text that `read` gives for `byte_range`, and `None` for a range
    /// that `read` does not take: one that ends before it starts or beyond
    /// the text, or one that lies inside a single character.
    pub fn try_read(&self, byte_range: Range<usize>) -> (text: Option<Cow<'_, str>>)
        requires
            self.wf(),
        ensures
            text is Some <==> {
                &&& byte_range.start <= byte_range.end <= self.bytes().len()
                &&& snap_forward(self.bytes(), byte_range.start as int) <= snap_back(
                    self.bytes(),
                    byte_range.end as int,
                )
            },
            text matches Some(t) ==> t@ == decode_utf8(
                self.bytes().subrange(
                    snap_forward(self.bytes(), byte_range.start as int),
                    snap_back(self.bytes(), byte_range.end as int),
                ),
            ),
    {
        proof {
            self.lemma_gap_position();
        }
        if byte_range.start > byte_range.end || byte_range.end > self.total.bytes {
            return None;
        }
        let start = self.snap_start(byte_range.start);
        let end = self.snap_end(byte_range.end);
        if start > end {
            return None;
        }
        proof {
            lemma_snap_forward(self.bytes(), byte_range.start as int);
            lemma_snap_back(self.bytes(), byte_range.end as int);
        }
        Some(self.read_between(start, end))
    }

    /// The text as a string of its own.
    pub fn to_string(&self) -> (text: String)
        requires
            self.wf(),
        ensures
            text@ == self@,
    {
        proof {
            self.lemma_gap_position();
            lemma_concat(self.front(), self.back());
        }
        let first = self.to_str(0, self.gap_start);
        let second = self.to_str(self.gap_end, self.data.len());
        let mut string = String::from_str(first);
        string.append(second);
        string
    }

    /// The text with the gap shown: the text before the gap, one `_` for
    /// each byte of the gap, and the text after the gap.
    pub fn rendering(&self) -> (text: String)
        requires
            self.wf(),
        ensures
            text@ == decode_utf8(self.front()) + Seq::new(
                self.spec_gap_len() as nat,
                |i: int| '_',
            ) + decode_utf8(self.back()),
    {
        let first = self.to_str(0, self.gap_start);
        let second = self.to_str(self.gap_end, self.data.len());
        let mut string = String::from_str(first);
        let gap_len = self.gap_len();
        let mut i: usize = 0;
        while i < gap_len
            invariant
                i <= gap_len,
                string@ == first@ + Seq::new(i as nat, |i: int| '_'),
            decreases gap_len - i,
        {
            push_char(&mut string, '_');
            i += 1;
            assert(string@ =~= first@ + Seq::new(i as nat, |i: int| '_'));
        }
        string.append(second);
        string
    }
}

} // verus!
