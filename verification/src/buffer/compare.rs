//! Comparison of the text with a string.
use crate::buffer::Buffer;
use vstd::prelude::*;
use vstd::slice::slice_subrange;
use vstd::string::StringSliceAdditionalSpecFns;
use vstd::utf8::encode_utf8;

verus! {

impl Buffer {
    /// What `equals` computes: the gap lies in the storage, and the bytes
    /// outside it are the UTF-8 encoding of `other`.
    pub open spec fn spec_equals(&self, other: Seq<char>) -> bool {
        &&& self.spec_gap_start() <= self.spec_gap_end() <= self.storage().len()
        &&& self.bytes() == encode_utf8(other)
    }

    /// Whether the text is `other`: the two have the same length, and the
    /// bytes on each side of the gap are those at the same place in `other`.
    pub fn equals(&self, other: &str) -> (same: bool)
        ensures
            same == self.spec_equals(other@),
            self.wf() ==> same == (self@ == other@),
    {
        proof {
            if self.wf() {
                self.lemma_equals(other);
            }
        }
        if self.gap_start > self.gap_end || self.gap_end > self.data.len() {
            return false;
        }
        let bytes = other.as_bytes();
        let data = self.data.as_slice();
        let back_len = self.data.len() - self.gap_end;
        if bytes.len() < self.gap_start || bytes.len() - self.gap_start != back_len {
            return false;
        }
        let front_same = bytes_equal(
            slice_subrange(data, 0, self.gap_start),
            slice_subrange(bytes, 0, self.gap_start),
        );
        let back_same = bytes_equal(
            slice_subrange(data, self.gap_end, self.data.len()),
            slice_subrange(bytes, self.gap_start, bytes.len()),
        );
        proof {
            let gs = self.spec_gap_start();
            let theirs = other.spec_bytes();
            assert(theirs.subrange(0, gs) + theirs.subrange(gs, theirs.len() as int) =~= theirs);
            assert(self.bytes().subrange(0, gs) =~= self.front());
            assert(self.bytes().subrange(gs, self.bytes().len() as int) =~= self.back());
        }
        front_same && back_same
    }

    /// For a well-formed buffer, the bytes are those of a string just when
    /// the text is that string.
    pub proof fn lemma_equals(&self, other: &str)
        requires
            self.wf(),
        ensures
            self.spec_equals(other@) <==> self@ == other@,
    {
        vstd::utf8::encode_utf8_decode_utf8(other@);
        vstd::utf8::decode_utf8_encode_utf8(self.bytes());
    }
}

/// Whether two byte slices hold the same bytes.
pub fn bytes_equal(a: &[u8], b: &[u8]) -> (same: bool)
    ensures
        same == (a@ == b@),
{
    if a.len() != b.len() {
        return false;
    }
    let mut i: usize = 0;
    while i < a.len()
        invariant
            i <= a.len() == b.len(),
            a@.subrange(0, i as int) == b@.subrange(0, i as int),
        decreases a.len() - i,
    {
        if a[i] != b[i] {
            return false;
        }
        assert(a@.subrange(0, i + 1) =~= a@.subrange(0, i as int).push(a@[i as int]));
        assert(b@.subrange(0, i + 1) =~= b@.subrange(0, i as int).push(b@[i as int]));
        i += 1;
    }
    assert(a@.subrange(0, a@.len() as int) =~= a@);
    assert(b@.subrange(0, b@.len() as int) =~= b@);
    true
}

} // verus!
