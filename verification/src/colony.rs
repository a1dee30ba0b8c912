//! A colony: the bugs with ids `0..size`, their mutual relations, and the
//! question whether the bugs can be marked such that related bugs always carry
//! opposed marks.

use vstd::prelude::*;
use crate::bug::{Bug, BugView};
use crate::coloring::{all_marked, anchored, bipartite, closed, completes, extends, first_proper,
    in_range, least_completion, lemma_anchored_is_first, lemma_closed_is_proper,
    lemma_completion_anchored, lemma_completion_closed, lemma_stuck_not_bipartite, marks_of,
    mutual, proper, related, unmarked};
use crate::error::ColonyError;
use crate::mark::{Mark, opposed_mark};
use crate::path::{Visit, advanced, lemma_conflict, lemma_enter, lemma_finish, lemma_leave,
    lemma_pass, lemma_start, remaining, walking};

verus! {

/// A colony of bugs. The bug with id `i` is the `i`-th bug of the colony.
#[derive(Debug)]
pub struct Colony {
    bugs: Vec<Bug>,
}

impl View for Colony {
    type V = Seq<BugView>;

    closed spec fn view(&self) -> Seq<BugView> {
        self.bugs@.map_values(|bug: Bug| bug@)
    }
}

/// A bug as it is when it joins a colony.
pub open spec fn fresh_bug(id: usize) -> BugView {
    BugView { id: id, tag: None, relations: Seq::empty() }
}

/// The bugs of a new colony: `size` fresh bugs with ids `0..size`.
pub open spec fn fresh_colony(size: usize) -> Seq<BugView> {
    Seq::new(size as nat, |i: int| fresh_bug(i as usize))
}

/// The bugs after a relation between `a_id` and `b_id` has been recorded: first
/// `b_id` at the end of the relations of `a_id`, then `a_id` at the end of the
/// relations of `b_id`.
pub open spec fn linked(bugs: Seq<BugView>, a_id: int, b_id: int) -> Seq<BugView> {
    let half = bugs.update(
        a_id,
        BugView { relations: bugs[a_id].relations.push(b_id as usize), ..bugs[a_id] },
    );
    half.update(
        b_id,
        BugView { relations: half[b_id].relations.push(a_id as usize), ..half[b_id] },
    )
}

/// The relations of each of `bugs`, in their order.
pub open spec fn relations_of(bugs: Seq<BugView>) -> Seq<Seq<usize>> {
    Seq::new(bugs.len(), |i: int| bugs[i].relations)
}

impl Colony {
    /// The relations of each bug, by id.
    pub open spec fn relations(&self) -> Seq<Seq<usize>> {
        relations_of(self@)
    }

    /// The mark of each bug, by id.
    pub open spec fn tags(&self) -> Seq<Option<Mark>> {
        Seq::new(self@.len(), |i: int| self@[i].tag)
    }

    /// The colony's invariant: ids count up from zero, every relation leads
    /// to a bug of the colony, and every relation is recorded at both ends.
    pub open spec fn wf(&self) -> bool {
        &&& forall|i: int| 0 <= i < self@.len() ==> (#[trigger] self@[i]).id == i
        &&& in_range(self.relations())
        &&& mutual(self.relations())
    }

    /// A colony of `size` fresh bugs with ids `0..size`.
    pub fn new(size: usize) -> (colony: Colony)
        ensures
            colony.wf(),
            colony@ == fresh_colony(size),
    {
        let mut this = Colony { bugs: Vec::new() };
        let mut remaining: usize = size;
        while remaining > 0
            invariant
                remaining <= size,
                this@ == fresh_colony((size - remaining) as usize),
            decreases remaining,
        {
            this.new_bug();
            remaining = remaining - 1;
            assert(this@ =~= fresh_colony((size - remaining) as usize));
        }
        proof {
            lemma_fresh_wf(this, size);
        }
        this
    }

    /// Adds a fresh bug, whose id is the colony's size so far, and returns the
    /// new size.
    pub fn new_bug(&mut self) -> (size: usize)
        ensures
            final(self)@ == old(self)@.push(fresh_bug(old(self)@.len() as usize)),
            size == old(self)@.len() + 1,
            old(self).wf() ==> final(self).wf(),
    {
        let bug_id = self.bugs.len();
        let bug = Bug::new(bug_id);
        self.bugs.push(bug);
        proof {
            assert(self@ =~= old(self)@.push(fresh_bug(bug_id)));
            if old(self).wf() {
                lemma_joined_wf(*old(self), *self);
            }
        }
        self.bugs.len()
    }

    /// How many bugs the colony has.
    pub fn size(&self) -> (size: usize)
        ensures
            size == self@.len(),
    {
        self.bugs.len()
    }

    /// The bug with id `id`, or `OutOfRange` if the colony has no such bug.
    pub fn bug(&self, id: usize) -> (found: Result<&Bug, ColonyError>)
        ensures
            match found {
                Ok(bug) => id < self@.len() && bug@ == self@[id as int],
                Err(error) => id >= self@.len() && error == ColonyError::OutOfRange,
            },
    {
        if id < self.bugs.len() {
            Ok(&self.bugs[id])
        } else {
            Err(ColonyError::OutOfRange)
        }
    }

    /// Records a relation between the bugs `a_id` and `b_id`, at both ends, and
    /// returns how many relations each of the two then has: the count of
    /// `a_id` after its end was recorded, and the count of `b_id` after both
    /// ends were. If either id is not below the colony's size, nothing
    /// changes and the answer is `OutOfRange`.
    pub fn add_relation(&mut self, a_id: usize, b_id: usize) -> (counts: Result<
        (usize, usize),
        ColonyError,
    >)
        requires
            old(self).wf(),
        ensures
            final(self).wf(),
            match counts {
                Ok((a_count, b_count)) => {
                    &&& a_id < old(self)@.len()
                    &&& b_id < old(self)@.len()
                    &&& final(self)@ == linked(old(self)@, a_id as int, b_id as int)
                    &&& a_count == old(self)@[a_id as int].relations.len() + 1
                    &&& b_count == final(self)@[b_id as int].relations.len()
                    &&& final(self)@[a_id as int].relations.contains(b_id)
                    &&& final(self)@[b_id as int].relations.contains(a_id)
                },
                Err(error) => {
                    &&& a_id >= old(self)@.len() || b_id >= old(self)@.len()
                    &&& final(self)@ == old(self)@
                    &&& error == ColonyError::OutOfRange
                },
            },
    {
        if a_id >= self.bugs.len() || b_id >= self.bugs.len() {
            return Err(ColonyError::OutOfRange);
        }
        let a_count = self.bugs[a_id].add_relation_to(b_id);
        let b_count = self.bugs[b_id].add_relation_to(a_id);
        proof {
            assert(self@ =~= linked(old(self)@, a_id as int, b_id as int));
            lemma_linked_wf(*old(self), *self, a_id as int, b_id as int);
        }
        Ok((a_count, b_count))
    }

    /// What an inspection of this colony leaves and answers: the colony
    /// `after` it has the same bugs and relations, the `verdict` says
    /// whether the relations are bipartite, and where they are, every bug is
    /// left with a mark, and these marks are the first proper marking.
    pub open spec fn inspected(&self, after: &Colony, verdict: bool) -> bool {
        &&& after.wf()
        &&& after.relations() == self.relations()
        &&& verdict == bipartite(self.relations())
        &&& verdict ==> all_marked(after.tags()) && first_proper(
            after.relations(),
            marks_of(after.tags()),
        )
    }

    /// Whether the bugs can be marked such that related bugs always carry
    /// opposed marks. On success such a marking is left on the bugs.
    ///
    /// All marks are removed first. Then the bugs are taken in the order of
    /// their ids, and each one that has no mark yet is marked `M`, and its
    /// whole component from there. The first conflict ends the inspection.
    pub fn is_suspicious(&mut self) -> (suspicious: bool)
        requires
            old(self).wf(),
        ensures
            old(self).inspected(final(self), suspicious),
    {
        self.clear_tags();
        proof {
            assert(self.tags() =~= Seq::new(self@.len(), |i: int| None::<Mark>));
        }
        let colony_size = self.size();
        let mut index: usize = 0;
        while index < colony_size
            invariant
                index <= colony_size == self@.len(),
                self.wf(),
                self.relations() == old(self).relations(),
                closed(self.relations(), self.tags()),
                anchored(self.relations(), self.tags()),
                forall|i: int| 0 <= i < index ==> (#[trigger] self.tags()[i]).is_some(),
            decreases colony_size - index,
        {
            let ghost relations = self.relations();
            let ghost tags = self.tags();
            if !self.bugs[index].has_mark() {
                if !self.is_consistent(index, Mark::M) {
                    proof {
                        lemma_stuck_not_bipartite(relations, tags, index as int, Mark::M);
                    }
                    return false;
                }
                proof {
                    lemma_completion_closed(
                        relations,
                        tags,
                        index as int,
                        Mark::M,
                        self.tags(),
                    );
                    lemma_completion_anchored(relations, tags, index as int, self.tags());
                }
            }
            assert(self.tags()[index as int].is_some());
            index += 1;
        }
        proof {
            lemma_closed_is_proper(self.relations(), self.tags());
            lemma_anchored_is_first(self.relations(), self.tags());
        }
        true
    }

    /// Tries to mark `bug_id` with `expected_mark`, and from there every bug
    /// that can be reached through bugs without a mark, such that related bugs
    /// carry opposed marks. Marks that are already there are kept and
    /// checked against.
    ///
    /// The walk is depth first and follows each bug's relations in the order
    /// in which they were added. It stops at the first relation that joins two
    /// bugs of the same mark, and then leaves the marks it has given so far.
    pub fn is_consistent(&mut self, bug_id: usize, expected_mark: Mark) -> (consistent: bool)
        requires
            old(self).wf(),
            bug_id < old(self)@.len(),
        ensures
            final(self).wf(),
            final(self).relations() == old(self).relations(),
            extends(old(self).tags(), final(self).tags()),
            consistent <==> exists|after: Seq<Option<Mark>>|
                completes(
                    old(self).relations(),
                    old(self).tags(),
                    bug_id as int,
                    expected_mark,
                    after,
                ),
            consistent ==> least_completion(
                old(self).relations(),
                old(self).tags(),
                bug_id as int,
                expected_mark,
                final(self).tags(),
            ),
            old(self).tags()[bug_id as int].is_some() ==> final(self)@ == old(self)@,
            old(self).tags()[bug_id as int].is_none() ==> final(self).tags()[bug_id as int]
                == Some(expected_mark),
    {
        let ghost relations = self.relations();
        let ghost before = self.tags();
        if self.bugs[bug_id].has_mark() {
            let carries = self.bugs[bug_id].check(expected_mark);
            proof {
                if carries {
                    assert(completes(relations, before, bug_id as int, expected_mark, before));
                }
            }
            return carries;
        }
        self.mark_bug(bug_id, expected_mark);
        let mut path: Vec<Visit> = Vec::new();
        path.push(Visit { bug: bug_id, mark: expected_mark, next: 0 });
        proof {
            lemma_start(relations, before, bug_id, expected_mark);
            assert(path@ =~= seq![Visit { bug: bug_id, mark: expected_mark, next: 0 }]);
        }
        while path.len() > 0
            invariant
                self.wf(),
                relations == old(self).relations(),
                before == old(self).tags(),
                before[bug_id as int].is_none(),
                self.relations() == relations,
                self.tags()[bug_id as int] == Some(expected_mark),
                walking(relations, before, bug_id as int, expected_mark, self.tags(), path@),
            decreases unmarked(self.tags()), path.len(), remaining(relations, path@),
        {
            let ghost walked = path@;
            let last = path.len() - 1;
            let visit = path[last];
            if visit.next >= self.bugs[visit.bug].relation_count() {
                path.pop();
                proof {
                    assert(path@ =~= walked.drop_last());
                    lemma_leave(
                        relations,
                        before,
                        bug_id as int,
                        expected_mark,
                        self.tags(),
                        walked,
                    );
                }
            } else {
                let other = self.bugs[visit.bug].relation(visit.next);
                let wanted = opposed_mark(visit.mark);
                assert(relations[visit.bug as int] == self@[visit.bug as int].relations);
                assert(self.tags()[other as int] == self@[other as int].tag);
                path.set(last, Visit { bug: visit.bug, mark: visit.mark, next: visit.next + 1 });
                assert(path@ =~= advanced(walked));
                if self.bugs[other].has_mark() {
                    if !self.bugs[other].check(wanted) {
                        proof {
                            assert(self.tags()[other as int] == Some(visit.mark));
                            lemma_conflict(
                                relations,
                                before,
                                bug_id as int,
                                expected_mark,
                                self.tags(),
                                walked,
                            );
                        }
                        return false;
                    }
                    proof {
                        lemma_pass(
                            relations,
                            before,
                            bug_id as int,
                            expected_mark,
                            self.tags(),
                            walked,
                        );
                    }
                } else {
                    proof {
                        lemma_enter(
                            relations,
                            before,
                            bug_id as int,
                            expected_mark,
                            self.tags(),
                            walked,
                        );
                    }
                    self.mark_bug(other, wanted);
                    path.push(Visit { bug: other, mark: wanted, next: 0 });
                }
            }
        }
        proof {
            assert(path@ =~= Seq::empty());
            lemma_finish(relations, before, bug_id as int, expected_mark, self.tags());
        }
        true
    }

    /// Gives the bug `id` the mark `mark`.
    fn mark_bug(&mut self, id: usize, mark: Mark)
        requires
            old(self).wf(),
            id < old(self)@.len(),
        ensures
            final(self).wf(),
            final(self).relations() == old(self).relations(),
            final(self).tags() == old(self).tags().update(id as int, Some(mark)),
    {
        self.bugs[id].set_tag(mark);
        proof {
            assert(self@ =~= old(self)@.update(
                id as int,
                BugView { tag: Some(mark), ..old(self)@[id as int] },
            ));
            assert(self.relations() =~= old(self).relations());
            assert(self.tags() =~= old(self).tags().update(id as int, Some(mark)));
        }
    }

    /// Removes the mark of every bug.
    pub fn clear_tags(&mut self)
        ensures
            final(self)@.len() == old(self)@.len(),
            forall|i: int|
                0 <= i < old(self)@.len() ==> #[trigger] final(self)@[i] == (BugView {
                    tag: None,
                    ..old(self)@[i]
                }),
            final(self).relations() == old(self).relations(),
            old(self).wf() ==> final(self).wf(),
    {
        let mut index: usize = 0;
        while index < self.bugs.len()
            invariant
                index <= self.bugs.len(),
                self@.len() == old(self)@.len(),
                forall|i: int|
                    0 <= i < index ==> #[trigger] self@[i] == (BugView {
                        tag: None,
                        ..old(self)@[i]
                    }),
                forall|i: int| index <= i < self@.len() ==> #[trigger] self@[i] == old(self)@[i],
            decreases self.bugs.len() - index,
        {
            let ghost before = self@;
            self.bugs[index].clear();
            assert(self@ =~= before.update(
                index as int,
                BugView { tag: None, ..before[index as int] },
            ));
            index += 1;
        }
        proof {
            assert(self.relations() =~= old(self).relations());
            if old(self).wf() {
                assert forall|i: int| 0 <= i < self@.len() implies (#[trigger] self@[i]).id
                    == i by {
                    assert(old(self)@[i].id == i);
                }
            }
        }
    }
}

/// Relations are mutual: in a colony, bug `a_id` has a relation to bug `b_id`
/// exactly if bug `b_id` has one to bug `a_id`. So a pair of bugs is related
/// from both sides or from neither.
pub proof fn lemma_relations_mutual(colony: Colony, a_id: usize, b_id: usize)
    requires
        colony.wf(),
        a_id < colony@.len(),
        b_id < colony@.len(),
    ensures
        colony@[a_id as int].relations.contains(b_id) == colony@[b_id as int].relations.contains(
            a_id,
        ),
{
    let relations = colony.relations();
    let a_relations = colony@[a_id as int].relations;
    let b_relations = colony@[b_id as int].relations;
    assert(relations[a_id as int] == a_relations);
    assert(relations[b_id as int] == b_relations);
    if a_relations.contains(b_id) {
        let k = choose|k: int| 0 <= k < a_relations.len() && a_relations[k] == b_id;
        assert(related(relations, relations[a_id as int][k] as int, a_id as int));
        let back = choose|back: int|
            0 <= back < b_relations.len() && #[trigger] relations[b_id as int][back] == a_id;
        assert(b_relations[back] == a_id);
    }
    if b_relations.contains(a_id) {
        let k = choose|k: int| 0 <= k < b_relations.len() && b_relations[k] == a_id;
        assert(related(relations, relations[b_id as int][k] as int, b_id as int));
        let back = choose|back: int|
            0 <= back < a_relations.len() && #[trigger] relations[a_id as int][back] == b_id;
        assert(a_relations[back] == b_id);
    }
}

/// Inspecting a colony twice, with no relation added in between, gives the
/// same verdict both times, whatever marks the first inspection left.
pub proof fn lemma_verdict_repeats(
    colony: Colony,
    once: Colony,
    twice: Colony,
    first: bool,
    second: bool,
)
    requires
        colony.inspected(&once, first),
        once.inspected(&twice, second),
    ensures
        first == second,
        colony.inspected(&twice, second),
{
}

/// A colony whose one relation joins two different bugs is bipartite.
pub proof fn lemma_single_relation_bipartite(size: usize, a_id: usize, b_id: usize)
    requires
        a_id < size,
        b_id < size,
        a_id != b_id,
    ensures
        bipartite(relations_of(linked(fresh_colony(size), a_id as int, b_id as int))),
{
    let relations = relations_of(linked(fresh_colony(size), a_id as int, b_id as int));
    let marks = Seq::new(
        size as nat,
        |i: int|
            if i == a_id {
                Mark::M
            } else {
                Mark::F
            },
    );
    assert forall|i: int, k: int|
        0 <= i < relations.len() && 0 <= k < relations[i].len() implies marks[(
    #[trigger] relations[i][k]) as int] != marks[i] by {
        if i == a_id {
            assert(relations[i] =~= seq![b_id]);
        } else if i == b_id {
            assert(relations[i] =~= seq![a_id]);
        } else {
            assert(relations[i] =~= Seq::empty());
        }
    }
    assert(proper(relations, marks));
}

/// What a recorded relation relates: after a relation between `a_id` and
/// `b_id` has been recorded, each of the two has a relation to the other, and
/// between any other two bugs there is a relation exactly if there was one
/// before.
pub proof fn lemma_linked_relates(
    bugs: Seq<BugView>,
    a_id: usize,
    b_id: usize,
    from: usize,
    to: usize,
)
    requires
        a_id < bugs.len(),
        b_id < bugs.len(),
        from < bugs.len(),
    ensures
        linked(bugs, a_id as int, b_id as int)[a_id as int].relations.contains(b_id),
        linked(bugs, a_id as int, b_id as int)[b_id as int].relations.contains(a_id),
        !(from == a_id && to == b_id) && !(from == b_id && to == a_id) ==> linked(
            bugs,
            a_id as int,
            b_id as int,
        )[from as int].relations.contains(to) == bugs[from as int].relations.contains(to),
{
    let after = linked(bugs, a_id as int, b_id as int);
    let a_relations = after[a_id as int].relations;
    let b_relations = after[b_id as int].relations;
    assert(a_relations[bugs[a_id as int].relations.len() as int] == b_id);
    assert(b_relations[b_relations.len() - 1] == a_id);
    let old_relations = bugs[from as int].relations;
    let new_relations = after[from as int].relations;
    assert forall|k: int| 0 <= k < old_relations.len() implies k < new_relations.len()
        && new_relations[k] == old_relations[k] by {}
    if !(from == a_id && to == b_id) && !(from == b_id && to == a_id) {
        if old_relations.contains(to) {
            let k = choose|k: int| 0 <= k < old_relations.len() && old_relations[k] == to;
            assert(new_relations[k] == to);
        }
        if new_relations.contains(to) {
            let k = choose|k: int| 0 <= k < new_relations.len() && new_relations[k] == to;
            assert(k < old_relations.len());
            assert(old_relations[k] == to);
        }
    }
}

/// A well-formed colony that a fresh bug joins stays well formed.
proof fn lemma_joined_wf(before: Colony, after: Colony)
    requires
        before.wf(),
        before@.len() <= usize::MAX,
        after@ == before@.push(fresh_bug(before@.len() as usize)),
    ensures
        after.wf(),
{
    let old_rel = before.relations();
    let new_rel = after.relations();
    assert forall|i: int| 0 <= i < after@.len() implies (#[trigger] after@[i]).id == i by {
        if i < before@.len() {
            assert(before@[i].id == i);
        }
    }
    assert forall|i: int, k: int|
        0 <= i < new_rel.len() && 0 <= k < new_rel[i].len() implies (#[trigger] new_rel[i][k])
        < new_rel.len() && related(new_rel, new_rel[i][k] as int, i) by {
        assert(i < old_rel.len());
        assert(new_rel[i] == old_rel[i]);
        let j = old_rel[i][k] as int;
        assert(related(old_rel, j, i));
        let back = choose|back: int|
            0 <= back < old_rel[j].len() && #[trigger] old_rel[j][back] == i;
        assert(new_rel[j][back] == i);
    }
}

/// A new colony is well formed.
proof fn lemma_fresh_wf(colony: Colony, size: usize)
    requires
        colony@ == fresh_colony(size),
    ensures
        colony.wf(),
{
    assert forall|i: int| 0 <= i < colony@.len() implies (#[trigger] colony@[i]).id == i by {}
}

/// Recording a relation at both ends keeps a colony well formed.
proof fn lemma_linked_wf(before: Colony, after: Colony, a_id: int, b_id: int)
    requires
        before.wf(),
        0 <= a_id < before@.len(),
        0 <= b_id < before@.len(),
        after@ == linked(before@, a_id, b_id),
    ensures
        after.wf(),
        related(after.relations(), a_id, b_id),
        related(after.relations(), b_id, a_id),
{
    let old_rel = before.relations();
    let new_rel = after.relations();
    assert(after@.len() == before@.len());
    // Each bug keeps its old relations as a prefix of its new ones.
    assert forall|i: int, k: int| 0 <= i < old_rel.len() && 0 <= k < old_rel[i].len() implies k
        < new_rel[i].len() && new_rel[i][k] == old_rel[i][k] by {}
    let a_len = old_rel[a_id].len() as int;
    assert(new_rel[a_id][a_len] == b_id as usize);
    let b_last = new_rel[b_id].len() - 1;
    assert(new_rel[b_id][b_last] == a_id as usize);
    assert forall|i: int, k: int|
        0 <= i < new_rel.len() && 0 <= k < new_rel[i].len() implies (#[trigger] new_rel[i][k])
        < new_rel.len() && related(new_rel, new_rel[i][k] as int, i) by {
        if k < old_rel[i].len() {
            let j = old_rel[i][k] as int;
            assert(related(old_rel, j, i));
            let back = choose|back: int|
                0 <= back < old_rel[j].len() && #[trigger] old_rel[j][back] == i;
            assert(new_rel[j][back] == i);
        } else if i == a_id && k == a_len {
            assert(new_rel[b_id][b_last] == a_id as usize);
        } else {
            assert(i == b_id);
            assert(new_rel[i][k] == a_id as usize);
            assert(new_rel[a_id][a_len] == b_id as usize);
        }
    }
}

} // verus!
