//! Modification times as plain values.

use vstd::prelude::*;

verus! {

/// A modification time: whole seconds since the Unix epoch, and the
/// nanoseconds that follow them.
#[derive(Clone, Copy, Debug, PartialEq, Eq, Structural)]
pub struct Timestamp {
    pub seconds: i64,
    pub nanoseconds: u32,
}

impl Timestamp {
    /// The instant as a count of nanoseconds since the Unix epoch.
    pub open spec fn instant(self) -> int {
        self.seconds * 1_000_000_000 + self.nanoseconds
    }

    /// Whether `self` lies strictly after `other`.
    pub fn is_after(&self, other: &Timestamp) -> (after: bool)
        ensures
            after == (self.instant() > other.instant()),
    {
        let mine: i128 = (self.seconds as i128) * 1_000_000_000i128 + (self.nanoseconds as i128);
        let theirs: i128 = (other.seconds as i128) * 1_000_000_000i128 + (other.nanoseconds as i128);
        mine > theirs
    }
}

} // verus!
