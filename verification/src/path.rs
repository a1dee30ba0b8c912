//! The path of a depth-first marking: the bugs that are marked but whose
//! relations have not all been followed yet, innermost last.
//!
//! The lemmas of this file are the steps of the marking: each says that one
//! move of the walk keeps what the walk relies on.

use vstd::prelude::*;
use crate::coloring::{completes, extends, in_range, lemma_settled_extends, lemma_unmarked_update,
    settled, unmarked};
use crate::mark::{Mark, opposed};

verus! {

/// A bug on the path: the mark it was given and how many of its relations
/// have been followed.
#[derive(Copy, Clone)]
pub struct Visit {
    pub bug: usize,
    pub mark: Mark,
    pub next: usize,
}

/// The visit is of a bug that the walk marked, and each relation followed so
/// far leads to a bug with the opposed mark.
pub open spec fn visit_ok(
    relations: Seq<Seq<usize>>,
    before: Seq<Option<Mark>>,
    tags: Seq<Option<Mark>>,
    visit: Visit,
) -> bool {
    &&& visit.bug < relations.len()
    &&& before[visit.bug as int].is_none()
    &&& tags[visit.bug as int] == Some(visit.mark)
    &&& visit.next <= relations[visit.bug as int].len()
    &&& forall|k: int|
        0 <= k < visit.next ==> tags[(#[trigger] relations[visit.bug as int][k]) as int] == Some(
            opposed(visit.mark),
        )
}

/// Every visit on the path is in order.
pub open spec fn path_ok(
    relations: Seq<Seq<usize>>,
    before: Seq<Option<Mark>>,
    tags: Seq<Option<Mark>>,
    path: Seq<Visit>,
) -> bool {
    forall|f: int| 0 <= f < path.len() ==> visit_ok(relations, before, tags, #[trigger] path[f])
}

/// Bug `i` is on the path.
pub open spec fn on_path(path: Seq<Visit>, i: int) -> bool {
    exists|f: int| 0 <= f < path.len() && (#[trigger] path[f]).bug == i
}

/// Every bug that the walk marked is settled or still on the path.
pub open spec fn covered(
    relations: Seq<Seq<usize>>,
    before: Seq<Option<Mark>>,
    tags: Seq<Option<Mark>>,
    path: Seq<Visit>,
) -> bool {
    forall|i: int|
        #![trigger settled(relations, tags, i)]
        #![trigger on_path(path, i)]
        0 <= i < relations.len() && before[i].is_none() && tags[i].is_some() ==> settled(
            relations,
            tags,
            i,
        ) || on_path(path, i)
}

/// Every completion of `before` from `root` keeps the marks of `tags`.
pub open spec fn below_all(
    relations: Seq<Seq<usize>>,
    before: Seq<Option<Mark>>,
    root: int,
    mark: Mark,
    tags: Seq<Option<Mark>>,
) -> bool {
    forall|after: Seq<Option<Mark>>| #[trigger]
        completes(relations, before, root, mark, after) ==> extends(tags, after)
}

/// What the walk relies on between two moves.
pub open spec fn walking(
    relations: Seq<Seq<usize>>,
    before: Seq<Option<Mark>>,
    root: int,
    mark: Mark,
    tags: Seq<Option<Mark>>,
    path: Seq<Visit>,
) -> bool {
    &&& in_range(relations)
    &&& before.len() == relations.len()
    &&& 0 <= root < relations.len()
    &&& extends(before, tags)
    &&& path_ok(relations, before, tags, path)
    &&& covered(relations, before, tags, path)
    &&& below_all(relations, before, root, mark, tags)
}

/// How many relations of the innermost bug on the path are still to follow.
pub open spec fn remaining(relations: Seq<Seq<usize>>, path: Seq<Visit>) -> int {
    if path.len() == 0 {
        0
    } else {
        relations[path.last().bug as int].len() - path.last().next
    }
}

/// The path with one more relation of its innermost bug followed.
pub open spec fn advanced(path: Seq<Visit>) -> Seq<Visit> {
    path.update(path.len() - 1, Visit { next: (path.last().next + 1) as usize, ..path.last() })
}

/// The walk starts: the root gets its mark and is alone on the path.
pub proof fn lemma_start(
    relations: Seq<Seq<usize>>,
    before: Seq<Option<Mark>>,
    root: usize,
    mark: Mark,
)
    requires
        in_range(relations),
        before.len() == relations.len(),
        root < relations.len(),
        before[root as int].is_none(),
    ensures
        walking(
            relations,
            before,
            root as int,
            mark,
            before.update(root as int, Some(mark)),
            seq![Visit { bug: root, mark: mark, next: 0 }],
        ),
        unmarked(before.update(root as int, Some(mark))) < unmarked(before),
{
    let tags = before.update(root as int, Some(mark));
    let path = seq![Visit { bug: root, mark: mark, next: 0 }];
    lemma_unmarked_update(before, root as int, mark);
    assert forall|i: int|
        0 <= i < relations.len() && before[i].is_none() && tags[i].is_some() implies settled(
        relations,
        tags,
        i,
    ) || on_path(path, i) by {
        assert(i == root);
        assert(path[0].bug == i);
    }
}

/// The innermost bug has no relation left to follow: it is settled and leaves
/// the path.
pub proof fn lemma_leave(
    relations: Seq<Seq<usize>>,
    before: Seq<Option<Mark>>,
    root: int,
    mark: Mark,
    tags: Seq<Option<Mark>>,
    path: Seq<Visit>,
)
    requires
        walking(relations, before, root, mark, tags, path),
        path.len() > 0,
        path.last().next == relations[path.last().bug as int].len(),
    ensures
        walking(relations, before, root, mark, tags, path.drop_last()),
{
    let shorter = path.drop_last();
    let done = path.last();
    assert(visit_ok(relations, before, tags, done));
    assert(settled(relations, tags, done.bug as int));
    assert forall|f: int| 0 <= f < shorter.len() implies visit_ok(
        relations,
        before,
        tags,
        #[trigger] shorter[f],
    ) by {
        assert(shorter[f] == path[f]);
    }
    assert forall|i: int|
        0 <= i < relations.len() && before[i].is_none() && tags[i].is_some() implies settled(
        relations,
        tags,
        i,
    ) || on_path(shorter, i) by {
        if !settled(relations, tags, i) {
            assert(on_path(path, i));
            let f = choose|f: int| 0 <= f < path.len() && (#[trigger] path[f]).bug == i;
            assert(f < shorter.len());
            assert(shorter[f].bug == i);
        }
    }
}

/// The next relation of the innermost bug leads to a bug that already carries
/// the opposed mark: the relation is followed and nothing else changes.
pub proof fn lemma_pass(
    relations: Seq<Seq<usize>>,
    before: Seq<Option<Mark>>,
    root: int,
    mark: Mark,
    tags: Seq<Option<Mark>>,
    path: Seq<Visit>,
)
    requires
        walking(relations, before, root, mark, tags, path),
        path.len() > 0,
        path.last().next < relations[path.last().bug as int].len() <= usize::MAX,
        tags[relations[path.last().bug as int][path.last().next as int] as int] == Some(
            opposed(path.last().mark),
        ),
    ensures
        walking(relations, before, root, mark, tags, advanced(path)),
        remaining(relations, advanced(path)) < remaining(relations, path),
        remaining(relations, advanced(path)) >= 0,
{
    let longer = advanced(path);
    let last = path.len() - 1;
    assert(visit_ok(relations, before, tags, path[last]));
    assert forall|f: int| 0 <= f < longer.len() implies visit_ok(
        relations,
        before,
        tags,
        #[trigger] longer[f],
    ) by {
        assert(visit_ok(relations, before, tags, path[f]));
    }
    assert forall|i: int|
        0 <= i < relations.len() && before[i].is_none() && tags[i].is_some() implies settled(
        relations,
        tags,
        i,
    ) || on_path(longer, i) by {
        if !settled(relations, tags, i) {
            assert(on_path(path, i));
            let f = choose|f: int| 0 <= f < path.len() && (#[trigger] path[f]).bug == i;
            assert(longer[f].bug == i);
        }
    }
}

/// The next relation of the innermost bug leads to a bug without a mark: that
/// bug gets the opposed mark and becomes the innermost bug of the path.
pub proof fn lemma_enter(
    relations: Seq<Seq<usize>>,
    before: Seq<Option<Mark>>,
    root: int,
    mark: Mark,
    tags: Seq<Option<Mark>>,
    path: Seq<Visit>,
)
    requires
        walking(relations, before, root, mark, tags, path),
        path.len() > 0,
        path.last().next < relations[path.last().bug as int].len() <= usize::MAX,
        tags[relations[path.last().bug as int][path.last().next as int] as int].is_none(),
    ensures
        ({
            let other = relations[path.last().bug as int][path.last().next as int];
            let wanted = opposed(path.last().mark);
            let marked = tags.update(other as int, Some(wanted));
            &&& walking(
                relations,
                before,
                root,
                mark,
                marked,
                advanced(path).push(Visit { bug: other, mark: wanted, next: 0 }),
            )
            &&& unmarked(marked) < unmarked(tags)
        }),
{
    let last = path.len() - 1;
    let from = path[last];
    assert(visit_ok(relations, before, tags, from));
    let other = relations[from.bug as int][from.next as int];
    let wanted = opposed(from.mark);
    let marked = tags.update(other as int, Some(wanted));
    let entered = Visit { bug: other, mark: wanted, next: 0 };
    let longer = advanced(path).push(entered);
    lemma_unmarked_update(tags, other as int, wanted);
    assert(extends(tags, marked));
    assert(extends(before, marked));
    assert forall|f: int| 0 <= f < longer.len() implies visit_ok(
        relations,
        before,
        marked,
        #[trigger] longer[f],
    ) by {
        if f < path.len() {
            let visit = path[f];
            assert(visit_ok(relations, before, tags, visit));
            assert forall|k: int| 0 <= k < longer[f].next implies marked[(
            #[trigger] relations[visit.bug as int][k]) as int] == Some(opposed(visit.mark)) by {
                if f == last && k == from.next {
                } else {
                    assert(tags[relations[visit.bug as int][k] as int] == Some(
                        opposed(visit.mark),
                    ));
                }
            }
        }
    }
    assert forall|i: int|
        0 <= i < relations.len() && before[i].is_none() && marked[i].is_some() implies settled(
        relations,
        marked,
        i,
    ) || on_path(longer, i) by {
        if i == other {
            assert(longer[longer.len() - 1].bug == i);
        } else if settled(relations, tags, i) {
            lemma_settled_extends(relations, tags, marked, i);
        } else {
            assert(on_path(path, i));
            let f = choose|f: int| 0 <= f < path.len() && (#[trigger] path[f]).bug == i;
            assert(longer[f].bug == i);
        }
    }
    assert forall|after: Seq<Option<Mark>>| #[trigger]
        completes(relations, before, root, mark, after) implies extends(marked, after) by {
        assert(extends(tags, after));
        assert(settled(relations, after, from.bug as int));
        assert(after[relations[from.bug as int][from.next as int] as int] == Some(
            opposed(after[from.bug as int].unwrap()),
        ));
    }
}

/// The next relation of the innermost bug leads to a bug that carries the
/// same mark: nothing completes the marks the walk started from.
pub proof fn lemma_conflict(
    relations: Seq<Seq<usize>>,
    before: Seq<Option<Mark>>,
    root: int,
    mark: Mark,
    tags: Seq<Option<Mark>>,
    path: Seq<Visit>,
)
    requires
        walking(relations, before, root, mark, tags, path),
        path.len() > 0,
        path.last().next < relations[path.last().bug as int].len(),
        tags[relations[path.last().bug as int][path.last().next as int] as int] == Some(
            path.last().mark,
        ),
    ensures
        forall|after: Seq<Option<Mark>>| !completes(relations, before, root, mark, after),
{
    let from = path[path.len() - 1];
    assert(visit_ok(relations, before, tags, from));
    assert forall|after: Seq<Option<Mark>>| !completes(relations, before, root, mark, after) by {
        if completes(relations, before, root, mark, after) {
            assert(extends(tags, after));
            assert(settled(relations, after, from.bug as int));
            assert(after[relations[from.bug as int][from.next as int] as int] == Some(
                opposed(after[from.bug as int].unwrap()),
            ));
        }
    }
}

/// The path is empty: the marks complete the marks the walk started from, and
/// every other completion keeps them.
pub proof fn lemma_finish(
    relations: Seq<Seq<usize>>,
    before: Seq<Option<Mark>>,
    root: int,
    mark: Mark,
    tags: Seq<Option<Mark>>,
)
    requires
        walking(relations, before, root, mark, tags, Seq::empty()),
        tags[root] == Some(mark),
    ensures
        completes(relations, before, root, mark, tags),
{
    let path = Seq::<Visit>::empty();
    assert forall|i: int|
        0 <= i < relations.len() && before[i].is_none()
            && tags[i].is_some() implies #[trigger] settled(relations, tags, i) by {
        assert(settled(relations, tags, i) || on_path(path, i));
    }
}

} // verus!
