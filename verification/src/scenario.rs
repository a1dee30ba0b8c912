//! One scenario: a colony of a given size, a list of observed interactions
//! between bugs numbered from one, and the verdict on it.

use vstd::prelude::*;
use crate::bug::BugView;
use crate::coloring::bipartite;
use crate::colony::{Colony, fresh_colony, linked, relations_of};
use crate::error::ColonyError;

verus! {

/// Both bugs of the pair exist in a colony of `size` bugs numbered from one.
pub open spec fn pair_in_range(size: usize, pair: (usize, usize)) -> bool {
    1 <= pair.0 <= size && 1 <= pair.1 <= size
}

/// The colony of `size` fresh bugs after the interactions `pairs` have been
/// recorded in their order. The bug numbered `n` has the id `n - 1`.
pub open spec fn colony_of(size: usize, pairs: Seq<(usize, usize)>) -> Seq<BugView>
    decreases pairs.len(),
{
    if pairs.len() == 0 {
        fresh_colony(size)
    } else {
        linked(colony_of(size, pairs.drop_last()), pairs.last().0 - 1, pairs.last().1 - 1)
    }
}

/// The line that tells a verdict.
pub open spec fn verdict_text(suspicious: bool) -> Seq<char> {
    if suspicious {
        "Suspicious bugs found!"@
    } else {
        "No suspicious bugs found!"@
    }
}

/// The verdict on a colony of `size` bugs with the interactions `pairs`, each
/// a pair of bug numbers counted from one: whether the bugs can be split into
/// two groups such that every interaction is between bugs of different groups.
/// A pair that names a bug the colony does not have is refused.
pub fn inspect(size: usize, pairs: &Vec<(usize, usize)>) -> (verdict: Result<bool, ColonyError>)
    ensures
        match verdict {
            Ok(suspicious) => {
                &&& forall|k: int|
                    0 <= k < pairs@.len() ==> pair_in_range(size, #[trigger] pairs@[k])
                &&& suspicious == bipartite(relations_of(colony_of(size, pairs@)))
            },
            Err(error) => {
                &&& exists|k: int|
                    0 <= k < pairs@.len() && !pair_in_range(size, #[trigger] pairs@[k])
                &&& error == ColonyError::OutOfRange
            },
        },
{
    let mut colony = Colony::new(size);
    let mut index: usize = 0;
    assert(pairs@.take(0) =~= Seq::empty());
    while index < pairs.len()
        invariant
            index <= pairs@.len(),
            colony.wf(),
            colony@ == colony_of(size, pairs@.take(index as int)),
            colony@.len() == size,
            forall|k: int| 0 <= k < index ==> pair_in_range(size, #[trigger] pairs@[k]),
        decreases pairs@.len() - index,
    {
        let (a_number, b_number) = pairs[index];
        if a_number == 0 || b_number == 0 {
            return Err(ColonyError::OutOfRange);
        }
        match colony.add_relation(a_number - 1, b_number - 1) {
            Ok(_) => {},
            Err(error) => {
                return Err(error);
            },
        }
        proof {
            let recorded = pairs@.take(index + 1);
            assert(recorded.drop_last() =~= pairs@.take(index as int));
            assert(recorded.last() == pairs@[index as int]);
        }
        index += 1;
    }
    assert(pairs@.take(index as int) =~= pairs@);
    Ok(colony.is_suspicious())
}

/// The line that tells a verdict, in the words of `verdict_text`.
pub fn verdict_line(suspicious: bool) -> (line: String)
    ensures
        line@ == verdict_text(suspicious),
{
    if suspicious {
        "Suspicious bugs found!".to_owned()
    } else {
        "No suspicious bugs found!".to_owned()
    }
}

} // verus!
