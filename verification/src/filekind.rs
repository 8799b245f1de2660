//! Whether a file is text or binary.
use vstd::prelude::*;

use crate::text::utf8_text;

verus! {

#[derive(Debug, Clone, Copy, PartialEq, Eq, Structural)]
pub enum FileKind {
    Text,
    Binary,
}

/// How many bytes at the start of a file are looked at.
pub const SAMPLE_SIZE: usize = 8192;

/// What the start of a file says of it: with a zero byte, or not in UTF-8, it
/// is binary.
pub open spec fn kind_of(sample: Seq<u8>) -> FileKind {
    if sample.contains(0) || !vstd::utf8::valid_utf8(sample) {
        FileKind::Binary
    } else {
        FileKind::Text
    }
}

fn has_nul(sample: &[u8]) -> (r: bool)
    ensures
        r == sample@.contains(0),
{
    let mut i: usize = 0;
    while i < sample.len()
        invariant
            i <= sample@.len(),
            forall|k: int| 0 <= k < i ==> sample@[k] != 0,
        decreases sample@.len() - i,
    {
        if sample[i] == 0 {
            assert(sample@[i as int] == 0);
            return true;
        }
        i = i + 1;
    }
    false
}

/// Tells text from binary by the first bytes of a file.
pub fn detect(sample: &[u8]) -> (r: FileKind)
    ensures
        r == kind_of(sample@),
{
    if has_nul(sample) || utf8_text(sample).is_err() {
        FileKind::Binary
    } else {
        FileKind::Text
    }
}

} // verus!
