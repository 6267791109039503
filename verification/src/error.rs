use vstd::prelude::*;

verus! {

/// Why reading or writing a record failed.
#[derive(Clone, Copy, PartialEq, Eq, Structural, Debug)]
pub enum Error {
    /// A record has a different number of fields than the first record, and
    /// the reader or writer is not flexible.
    UnequalLengths { expected_len: u64, len: u64 },
}

} // verus!
