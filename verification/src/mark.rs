//! The two opposed marks a bug can carry.

use vstd::prelude::*;

verus! {

/// One of the two mutually exclusive marks.
#[derive(Copy, Clone, Debug, PartialEq, Eq, Structural)]
pub enum Mark {
    /// The male mark.
    M,
    /// The female mark.
    F,
}

/// The mark opposed to `tag`, as a mathematical function.
pub open spec fn opposed(tag: Mark) -> Mark {
    match tag {
        Mark::M => Mark::F,
        Mark::F => Mark::M,
    }
}

/// The printed name of a mark.
pub open spec fn mark_name(tag: Mark) -> Seq<char> {
    match tag {
        Mark::M => "male"@,
        Mark::F => "female"@,
    }
}

impl Mark {
    /// Whether two marks are the same mark.
    pub fn equals(self, other: Mark) -> (same: bool)
        ensures
            same == (self == other),
    {
        match (self, other) {
            (Mark::M, Mark::M) => true,
            (Mark::F, Mark::F) => true,
            _ => false,
        }
    }

    /// The printed name of the mark: `male` or `female`.
    pub fn name(self) -> (text: String)
        ensures
            text@ == mark_name(self),
    {
        match self {
            Mark::M => "male".to_owned(),
            Mark::F => "female".to_owned(),
        }
    }
}

/// The mark opposed to `tag`.
pub fn opposed_mark(tag: Mark) -> (other: Mark)
    ensures
        other == opposed(tag),
{
    match tag {
        Mark::M => Mark::F,
        Mark::F => Mark::M,
    }
}

/// Opposing a mark twice gives the mark back, and a mark is never its own
/// opposite.
pub proof fn lemma_opposed_involutive(tag: Mark)
    ensures
        opposed(opposed(tag)) == tag,
        opposed(tag) != tag,
{
}

} // verus!
