//! Comparison of a buffer with a string: `buffer == "text"`.
use crate::buffer::Buffer;
use vstd::prelude::*;
use vstd::std_specs::cmp::PartialEqSpecImpl;

verus! {

impl PartialEq<str> for Buffer {
    /// Whether the text is `other`.
    fn eq(&self, other: &str) -> (same: bool) {
        self.equals(other)
    }
}

impl PartialEqSpecImpl<str> for Buffer {
    /// `==` means what `eq_spec` says.
    open spec fn obeys_eq_spec() -> bool {
        true
    }

    /// The bytes outside the gap are the UTF-8 encoding of `other`.
    open spec fn eq_spec(&self, other: &str) -> bool {
        self.spec_equals(other@)
    }
}

impl<'a> PartialEq<&'a str> for Buffer {
    /// Whether the text is `other`.
    fn eq(&self, other: &&'a str) -> (same: bool) {
        self.equals(*other)
    }
}

impl<'a> PartialEqSpecImpl<&'a str> for Buffer {
    /// `==` means what `eq_spec` says.
    open spec fn obeys_eq_spec() -> bool {
        true
    }

    /// The bytes outside the gap are the UTF-8 encoding of `other`.
    open spec fn eq_spec(&self, other: &&'a str) -> bool {
        self.spec_equals(other@)
    }
}

impl PartialEq<String> for Buffer {
    /// Whether the text is `other`.
    fn eq(&self, other: &String) -> (same: bool) {
        self.equals(other.as_str())
    }
}

impl PartialEqSpecImpl<String> for Buffer {
    /// `==` means what `eq_spec` says.
    open spec fn obeys_eq_spec() -> bool {
        true
    }

    /// The bytes outside the gap are the UTF-8 encoding of `other`.
    open spec fn eq_spec(&self, other: &String) -> bool {
        self.spec_equals(other@)
    }
}

} // verus!
