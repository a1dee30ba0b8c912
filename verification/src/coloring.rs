//! The mathematics of two-colouring: what it means for relations to admit a
//! proper marking, and how a partial marking can be completed.
//!
//! Relations are modelled as one sequence of ids per bug, marks as one optional
//! mark per bug. Everything here is specification and proof.

use vstd::prelude::*;
use crate::mark::{Mark, opposed};

verus! {

/// Every relation leads to a bug that exists.
pub open spec fn in_range(relations: Seq<Seq<usize>>) -> bool {
    forall|i: int, k: int|
        0 <= i < relations.len() && 0 <= k < relations[i].len()
            ==> (#[trigger] relations[i][k]) < relations.len()
}

/// Bug `i` has a relation to bug `j`.
pub open spec fn related(relations: Seq<Seq<usize>>, i: int, j: int) -> bool {
    exists|k: int| 0 <= k < relations[i].len() && #[trigger] relations[i][k] == j
}

/// Every relation is recorded at both of its ends.
pub open spec fn mutual(relations: Seq<Seq<usize>>) -> bool {
    forall|i: int, k: int|
        0 <= i < relations.len() && 0 <= k < relations[i].len() ==> related(
            relations,
            (#[trigger] relations[i][k]) as int,
            i,
        )
}

/// `marks` gives every bug a mark, and no relation joins two bugs of the same
/// mark.
pub open spec fn proper(relations: Seq<Seq<usize>>, marks: Seq<Mark>) -> bool {
    &&& marks.len() == relations.len()
    &&& forall|i: int, k: int|
        0 <= i < relations.len() && 0 <= k < relations[i].len()
            ==> marks[(#[trigger] relations[i][k]) as int] != marks[i]
}

/// The bugs can be split into two groups such that every relation joins bugs
/// of different groups.
pub open spec fn bipartite(relations: Seq<Seq<usize>>) -> bool {
    exists|marks: Seq<Mark>| proper(relations, marks)
}

/// No relation joins a bug of `part` and a bug outside `part`.
pub open spec fn separate(relations: Seq<Seq<usize>>, part: Set<int>) -> bool {
    forall|i: int, k: int|
        0 <= i < relations.len() && 0 <= k < relations[i].len() ==> part.contains(i)
            == part.contains((#[trigger] relations[i][k]) as int)
}

/// `marks` gives every bug a mark, and no relation of a bug of `part` joins
/// two bugs of the same mark.
pub open spec fn proper_on(relations: Seq<Seq<usize>>, marks: Seq<Mark>, part: Set<int>) -> bool {
    &&& marks.len() == relations.len()
    &&& forall|i: int, k: int|
        0 <= i < relations.len() && part.contains(i) && 0 <= k < relations[i].len()
            ==> marks[(#[trigger] relations[i][k]) as int] != marks[i]
}

/// The bugs of `part` can be split into two groups such that every relation
/// of a bug of `part` joins bugs of different groups.
pub open spec fn bipartite_on(relations: Seq<Seq<usize>>, part: Set<int>) -> bool {
    exists|marks: Seq<Mark>| proper_on(relations, marks, part)
}

/// `after` keeps every mark that `before` holds.
pub open spec fn extends(before: Seq<Option<Mark>>, after: Seq<Option<Mark>>) -> bool {
    &&& after.len() == before.len()
    &&& forall|i: int| 0 <= i < before.len() && before[i].is_some() ==> after[i] == before[i]
}

/// Bug `i` carries a mark, and each of its relations leads to a bug that
/// carries the opposed mark.
pub open spec fn settled(relations: Seq<Seq<usize>>, tags: Seq<Option<Mark>>, i: int) -> bool {
    &&& tags[i].is_some()
    &&& forall|k: int|
        0 <= k < relations[i].len()
            ==> tags[(#[trigger] relations[i][k]) as int] == Some(opposed(tags[i].unwrap()))
}

/// `after` completes `before` from `root`: it keeps the marks of `before`,
/// gives `root` the mark `mark`, and settles every bug that it newly marks.
pub open spec fn completes(
    relations: Seq<Seq<usize>>,
    before: Seq<Option<Mark>>,
    root: int,
    mark: Mark,
    after: Seq<Option<Mark>>,
) -> bool {
    &&& extends(before, after)
    &&& after[root] == Some(mark)
    &&& forall|i: int|
        0 <= i < relations.len() && before[i].is_none() && after[i].is_some()
            ==> #[trigger] settled(relations, after, i)
}

/// `after` is the least completion of `before` from `root`: it completes
/// `before`, and every completion keeps its marks.
pub open spec fn least_completion(
    relations: Seq<Seq<usize>>,
    before: Seq<Option<Mark>>,
    root: int,
    mark: Mark,
    after: Seq<Option<Mark>>,
) -> bool {
    &&& completes(relations, before, root, mark, after)
    &&& forall|other: Seq<Option<Mark>>| #[trigger]
        completes(relations, before, root, mark, other) ==> extends(after, other)
}

/// Every bug that carries a mark is settled.
pub open spec fn closed(relations: Seq<Seq<usize>>, tags: Seq<Option<Mark>>) -> bool {
    forall|i: int|
        0 <= i < relations.len() && tags[i].is_some() ==> #[trigger] settled(relations, tags, i)
}

/// Every bug carries a mark.
pub open spec fn all_marked(tags: Seq<Option<Mark>>) -> bool {
    forall|i: int| 0 <= i < tags.len() ==> (#[trigger] tags[i]).is_some()
}

/// The marks that the bugs carry, where every bug carries one.
pub open spec fn marks_of(tags: Seq<Option<Mark>>) -> Seq<Mark> {
    Seq::new(tags.len(), |i: int| tags[i].unwrap())
}

/// The marking that gives every bug the mark opposed to the one it has in
/// `marks`.
pub open spec fn flipped(marks: Seq<Mark>) -> Seq<Mark> {
    Seq::new(marks.len(), |i: int| opposed(marks[i]))
}

/// The two markings give the same mark to every bug with an id below `i`.
pub open spec fn agree_before(marks: Seq<Mark>, other: Seq<Mark>, i: int) -> bool {
    forall|j: int| 0 <= j < i ==> marks[j] == other[j]
}

/// `marks` is the first of the proper markings: it is proper, and at the
/// lowest id at which another proper marking differs from it, `marks` has `M`.
/// There is at most one such marking.
pub open spec fn first_proper(relations: Seq<Seq<usize>>, marks: Seq<Mark>) -> bool {
    &&& proper(relations, marks)
    &&& forall|other: Seq<Mark>, i: int|
        proper(relations, other) && 0 <= i < marks.len() && #[trigger] agree_before(
            marks,
            other,
            i,
        ) && other[i] != marks[i] ==> marks[i] == Mark::M
}

/// Bug `r`, with an id not above that of bug `u`, carries `M`, and every
/// proper marking that gives `r` the mark `M` gives `u` the mark it carries.
pub open spec fn anchor(
    relations: Seq<Seq<usize>>,
    tags: Seq<Option<Mark>>,
    r: int,
    u: int,
) -> bool {
    &&& 0 <= r <= u
    &&& tags[r] == Some(Mark::M)
    &&& forall|other: Seq<Mark>| #[trigger]
        proper(relations, other) && other[r] == Mark::M ==> tags[u] == Some(other[u])
}

/// Every bug that carries a mark has an anchor.
pub open spec fn anchored(relations: Seq<Seq<usize>>, tags: Seq<Option<Mark>>) -> bool {
    forall|u: int|
        0 <= u < relations.len() && (#[trigger] tags[u]).is_some() ==> exists|r: int|
            anchor(relations, tags, r, u)
}

/// The marks of `tags` where there are any, those of `marks` elsewhere.
pub open spec fn merged(tags: Seq<Option<Mark>>, marks: Seq<Mark>) -> Seq<Option<Mark>> {
    Seq::new(
        tags.len(),
        |i: int|
            if tags[i].is_some() {
                tags[i]
            } else {
                Some(marks[i])
            },
    )
}

/// How many bugs carry no mark.
pub open spec fn unmarked(tags: Seq<Option<Mark>>) -> nat
    decreases tags.len(),
{
    if tags.len() == 0 {
        0
    } else {
        unmarked(tags.drop_last()) + if tags.last().is_none() {
            1nat
        } else {
            0nat
        }
    }
}

/// Marking a bug that had no mark leaves one unmarked bug fewer.
pub proof fn lemma_unmarked_update(tags: Seq<Option<Mark>>, i: int, mark: Mark)
    requires
        0 <= i < tags.len(),
        tags[i].is_none(),
    ensures
        unmarked(tags.update(i, Some(mark))) + 1 == unmarked(tags),
    decreases tags.len(),
{
    let updated = tags.update(i, Some(mark));
    if i == tags.len() - 1 {
        assert(updated.drop_last() =~= tags.drop_last());
    } else {
        assert(updated.drop_last() =~= tags.drop_last().update(i, Some(mark)));
        lemma_unmarked_update(tags.drop_last(), i, mark);
    }
}

/// A settled bug stays settled when marks are only added.
pub proof fn lemma_settled_extends(
    relations: Seq<Seq<usize>>,
    before: Seq<Option<Mark>>,
    after: Seq<Option<Mark>>,
    i: int,
)
    requires
        in_range(relations),
        before.len() == relations.len(),
        0 <= i < relations.len(),
        extends(before, after),
        settled(relations, before, i),
    ensures
        settled(relations, after, i),
{
    assert forall|k: int| 0 <= k < relations[i].len() implies after[(#[trigger] relations[i][k])
        as int] == Some(opposed(after[i].unwrap())) by {
        let j = relations[i][k] as int;
        assert(before[j] == Some(opposed(before[i].unwrap())));
    }
}

/// Exchanging the two marks throughout a proper marking gives a proper
/// marking.
pub proof fn lemma_flipped_proper(relations: Seq<Seq<usize>>, marks: Seq<Mark>)
    requires
        in_range(relations),
        proper(relations, marks),
    ensures
        proper(relations, flipped(marks)),
{
    let other = flipped(marks);
    assert forall|i: int, k: int|
        0 <= i < relations.len() && 0 <= k < relations[i].len() implies other[(
    #[trigger] relations[i][k]) as int] != other[i] by {
        assert(marks[relations[i][k] as int] != marks[i]);
    }
}

/// Where every bug carries a mark and every bug is settled, the marks are a
/// proper marking.
pub proof fn lemma_closed_is_proper(relations: Seq<Seq<usize>>, tags: Seq<Option<Mark>>)
    requires
        in_range(relations),
        tags.len() == relations.len(),
        all_marked(tags),
        closed(relations, tags),
    ensures
        proper(relations, marks_of(tags)),
        bipartite(relations),
{
    let marks = marks_of(tags);
    assert forall|i: int, k: int|
        0 <= i < relations.len() && 0 <= k < relations[i].len() implies marks[(
    #[trigger] relations[i][k]) as int] != marks[i] by {
        assert(settled(relations, tags, i));
    }
    assert(proper(relations, marks));
}

/// Closed marks stay closed when they are completed from a bug without a
/// mark.
pub proof fn lemma_completion_closed(
    relations: Seq<Seq<usize>>,
    before: Seq<Option<Mark>>,
    root: int,
    mark: Mark,
    after: Seq<Option<Mark>>,
)
    requires
        in_range(relations),
        before.len() == relations.len(),
        closed(relations, before),
        completes(relations, before, root, mark, after),
    ensures
        closed(relations, after),
{
    assert forall|i: int| 0 <= i < relations.len() && after[i].is_some() implies #[trigger] settled(
        relations,
        after,
        i,
    ) by {
        if before[i].is_some() {
            assert(settled(relations, before, i));
            lemma_settled_extends(relations, before, after, i);
        }
    }
}

/// Where the marks given so far are closed, a proper marking fills the gaps:
/// merged with it, they are completed from any bug without a mark.
pub proof fn lemma_merged_completes(
    relations: Seq<Seq<usize>>,
    tags: Seq<Option<Mark>>,
    root: int,
    marks: Seq<Mark>,
)
    requires
        in_range(relations),
        mutual(relations),
        tags.len() == relations.len(),
        closed(relations, tags),
        0 <= root < relations.len(),
        tags[root].is_none(),
        proper(relations, marks),
    ensures
        completes(relations, tags, root, marks[root], merged(tags, marks)),
{
    let after = merged(tags, marks);
    assert forall|i: int|
        0 <= i < relations.len() && tags[i].is_none()
            && after[i].is_some() implies #[trigger] settled(relations, after, i) by {
        assert forall|k: int| 0 <= k < relations[i].len() implies after[(
        #[trigger] relations[i][k]) as int] == Some(opposed(after[i].unwrap())) by {
            let j = relations[i][k] as int;
            assert(marks[j] != marks[i]);
            if tags[j].is_some() {
                // A marked bug is settled, so the bugs it is related to are marked.
                assert(settled(relations, tags, j));
                assert(related(relations, j, i));
                let back = choose|back: int|
                    0 <= back < relations[j].len() && #[trigger] relations[j][back] == i;
                assert(tags[relations[j][back] as int].is_some());
            }
        }
    }
}

/// Where the marks given so far are closed and nothing completes them from a
/// bug without a mark, the relations are not bipartite.
pub proof fn lemma_stuck_not_bipartite(
    relations: Seq<Seq<usize>>,
    tags: Seq<Option<Mark>>,
    root: int,
    mark: Mark,
)
    requires
        in_range(relations),
        mutual(relations),
        tags.len() == relations.len(),
        closed(relations, tags),
        0 <= root < relations.len(),
        tags[root].is_none(),
        forall|after: Seq<Option<Mark>>| !completes(relations, tags, root, mark, after),
    ensures
        !bipartite(relations),
{
    if bipartite(relations) {
        let found = choose|marks: Seq<Mark>| proper(relations, marks);
        let marks = if found[root] == mark {
            found
        } else {
            flipped(found)
        };
        lemma_flipped_proper(relations, found);
        lemma_merged_completes(relations, tags, root, marks);
    }
}

/// Anchored marks stay anchored when they are completed in the least way from
/// the lowest bug without a mark, with the mark `M`.
pub proof fn lemma_completion_anchored(
    relations: Seq<Seq<usize>>,
    before: Seq<Option<Mark>>,
    root: int,
    after: Seq<Option<Mark>>,
)
    requires
        in_range(relations),
        mutual(relations),
        before.len() == relations.len(),
        closed(relations, before),
        anchored(relations, before),
        0 <= root < relations.len(),
        before[root].is_none(),
        forall|i: int| 0 <= i < root ==> (#[trigger] before[i]).is_some(),
        least_completion(relations, before, root, Mark::M, after),
    ensures
        anchored(relations, after),
{
    assert forall|u: int|
        0 <= u < relations.len() && (#[trigger] after[u]).is_some() implies exists|r: int|
        anchor(relations, after, r, u) by {
        if before[u].is_some() {
            let r = choose|r: int| anchor(relations, before, r, u);
            assert(anchor(relations, after, r, u));
        } else {
            assert forall|other: Seq<Mark>| #[trigger]
                proper(relations, other) && other[root] == Mark::M implies after[u] == Some(
                other[u],
            ) by {
                lemma_merged_completes(relations, before, root, other);
                assert(extends(after, merged(before, other)));
            }
            assert(anchor(relations, after, root, u));
        }
    }
}

/// Where every bug carries a mark, every bug is settled and every bug has an
/// anchor, the marks are the first proper marking.
pub proof fn lemma_anchored_is_first(relations: Seq<Seq<usize>>, tags: Seq<Option<Mark>>)
    requires
        in_range(relations),
        tags.len() == relations.len(),
        all_marked(tags),
        closed(relations, tags),
        anchored(relations, tags),
    ensures
        first_proper(relations, marks_of(tags)),
{
    let marks = marks_of(tags);
    lemma_closed_is_proper(relations, tags);
    assert forall|other: Seq<Mark>, i: int|
        proper(relations, other) && 0 <= i < marks.len() && #[trigger] agree_before(
            marks,
            other,
            i,
        ) && other[i] != marks[i] implies marks[i] == Mark::M by {
        assert(tags[i].is_some());
        let r = choose|r: int| anchor(relations, tags, r, i);
        if r < i {
            assert(marks[r] == other[r]);
        }
    }
}

/// Two first proper markings of the same relations give the same mark to
/// every bug with an id below `i`.
proof fn lemma_first_proper_agree(
    relations: Seq<Seq<usize>>,
    marks: Seq<Mark>,
    other: Seq<Mark>,
    i: int,
)
    requires
        first_proper(relations, marks),
        first_proper(relations, other),
        0 <= i <= relations.len(),
    ensures
        agree_before(marks, other, i),
        agree_before(other, marks, i),
    decreases i,
{
    if i > 0 {
        lemma_first_proper_agree(relations, marks, other, i - 1);
        if marks[i - 1] != other[i - 1] {
            assert(marks[i - 1] == Mark::M);
            assert(other[i - 1] == Mark::M);
        }
    }
}

/// Two first proper markings of the same relations are the same marking.
pub proof fn lemma_first_proper_unique(
    relations: Seq<Seq<usize>>,
    marks: Seq<Mark>,
    other: Seq<Mark>,
)
    requires
        first_proper(relations, marks),
        first_proper(relations, other),
    ensures
        marks == other,
{
    lemma_first_proper_agree(relations, marks, other, relations.len() as int);
    assert(marks =~= other);
}

/// Three bugs related in a ring are never bipartite, whatever else the colony
/// holds. The three need not differ: a bug related to itself is such a ring.
pub proof fn lemma_triangle_not_bipartite(relations: Seq<Seq<usize>>, a: int, b: int, c: int)
    requires
        0 <= a < relations.len(),
        0 <= b < relations.len(),
        0 <= c < relations.len(),
        related(relations, a, b),
        related(relations, b, c),
        related(relations, c, a),
    ensures
        !bipartite(relations),
{
    assert forall|marks: Seq<Mark>| !proper(relations, marks) by {
        if proper(relations, marks) {
            let to_b = choose|k: int|
                0 <= k < relations[a].len() && #[trigger] relations[a][k] == b;
            let to_c = choose|k: int|
                0 <= k < relations[b].len() && #[trigger] relations[b][k] == c;
            let to_a = choose|k: int|
                0 <= k < relations[c].len() && #[trigger] relations[c][k] == a;
            assert(marks[relations[a][to_b] as int] != marks[a]);
            assert(marks[relations[b][to_c] as int] != marks[b]);
            assert(marks[relations[c][to_a] as int] != marks[c]);
        }
    }
}

/// Parts of a colony that no relation joins are judged each by itself: the
/// relations are bipartite exactly if they are bipartite on `part` and
/// bipartite on the rest. So one part that is not bipartite makes the whole
/// colony not bipartite, and two bipartite parts make a bipartite colony.
pub proof fn lemma_bipartite_by_parts(relations: Seq<Seq<usize>>, part: Set<int>)
    requires
        in_range(relations),
        separate(relations, part),
    ensures
        bipartite(relations) <==> bipartite_on(relations, part) && bipartite_on(
            relations,
            part.complement(),
        ),
{
    let rest = part.complement();
    if bipartite(relations) {
        let marks = choose|marks: Seq<Mark>| proper(relations, marks);
        assert(proper_on(relations, marks, part));
        assert(proper_on(relations, marks, rest));
    }
    if bipartite_on(relations, part) && bipartite_on(relations, rest) {
        let inside = choose|marks: Seq<Mark>| proper_on(relations, marks, part);
        let outside = choose|marks: Seq<Mark>| proper_on(relations, marks, rest);
        let marks = Seq::new(
            relations.len(),
            |i: int|
                if part.contains(i) {
                    inside[i]
                } else {
                    outside[i]
                },
        );
        assert forall|i: int, k: int|
            0 <= i < relations.len() && 0 <= k < relations[i].len() implies marks[(
        #[trigger] relations[i][k]) as int] != marks[i] by {
            let j = relations[i][k] as int;
            assert(part.contains(i) == part.contains(j));
            if part.contains(i) {
                assert(inside[j] != inside[i]);
            } else {
                assert(rest.contains(i));
                assert(outside[j] != outside[i]);
            }
        }
        assert(proper(relations, marks));
    }
}

} // verus!
