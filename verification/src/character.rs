//! Strings of single bytes.
use vstd::prelude::*;

verus! {

/// Whether `value` is the value of a byte.
pub open spec fn is_byte(value: i64) -> bool {
    0 <= value <= 255
}

/// The bytes with the given values. Where one of the values is no byte, the
/// result is the index of the first such value.
pub fn unibyte_string(bytes: &[i64]) -> (result: Result<Vec<u8>, usize>)
    ensures
        match result {
            Ok(unibyte) => {
                &&& unibyte@.len() == bytes@.len()
                &&& forall|i: int| 0 <= i < bytes@.len() ==> unibyte@[i] as int == bytes@[i]
            },
            Err(at) => {
                &&& at < bytes@.len()
                &&& !is_byte(bytes@[at as int])
                &&& forall|i: int| 0 <= i < at ==> is_byte(#[trigger] bytes@[i])
            },
        },
{
    let mut unibyte: Vec<u8> = Vec::new();
    let mut i: usize = 0;
    while i < bytes.len()
        invariant
            i <= bytes@.len(),
            unibyte@.len() == i,
            forall|j: int| 0 <= j < i ==> is_byte(#[trigger] bytes@[j]),
            forall|j: int| 0 <= j < i ==> unibyte@[j] as int == bytes@[j],
        decreases bytes@.len() - i,
    {
        let value = bytes[i];
        if value < 0 || value > 255 {
            return Err(i);
        }
        unibyte.push(value as u8);
        i += 1;
    }
    Ok(unibyte)
}

} // verus!
