//! A buffer from a string, `Buffer::from("text")`, and the empty buffer,
//! `Buffer::default()`.
use crate::buffer::{Buffer, GAP_SIZE};
use vstd::prelude::*;
use vstd::std_specs::convert::FromSpecImpl;
use vstd::string::StringSliceAdditionalSpecFns;

verus! {

impl<'a> From<&'a str> for Buffer {
    /// A buffer that holds `data`, with a gap of `GAP_SIZE` bytes before the
    /// text and the cursor at the start.
    fn from(data: &'a str) -> (buffer: Buffer)
        ensures
            buffer.wf(),
            buffer@ == data@,
            buffer.cursor_chars() == 0,
            buffer.spec_gap_start() == 0,
            buffer.spec_gap_chars() == 0,
            buffer.spec_gap_end() == if data.spec_bytes().len() + GAP_SIZE <= usize::MAX {
                GAP_SIZE as int
            } else {
                usize::MAX - data.spec_bytes().len()
            },
            buffer.storage().len() == data.spec_bytes().len() + buffer.spec_gap_end(),
            buffer.spec_gap_size() == GAP_SIZE,
    {
        Buffer::with_gap_size(data, GAP_SIZE)
    }
}

impl Default for Buffer {
    /// An empty buffer without storage.
    fn default() -> (buffer: Buffer)
        ensures
            buffer.wf(),
            buffer@ == Seq::<char>::empty(),
            buffer.cursor_chars() == 0,
            buffer.storage().len() == 0,
            buffer.spec_gap_start() == 0,
            buffer.spec_gap_end() == 0,
            buffer.spec_gap_size() == GAP_SIZE,
    {
        Buffer::new()
    }
}

impl<'a> FromSpecImpl<&'a str> for Buffer {
    /// The buffer that `from` makes is stated by `from` itself, over its
    /// view: no value of the type can be written down here.
    open spec fn obeys_from_spec() -> bool {
        false
    }

    /// Left open, as `obeys_from_spec` says.
    open spec fn from_spec(data: &'a str) -> Buffer {
        arbitrary()
    }
}

} // verus!
