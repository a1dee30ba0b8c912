use colony::colony::Colony;
use colony::error::ColonyError;
use colony::mark::Mark;

fn ring(size: usize) -> Colony {
    let mut colony = Colony::new(size);
    for id in 0..size {
        colony.add_relation(id, (id + 1) % size).unwrap();
    }
    colony
}

fn properly_marked(colony: &Colony) -> bool {
    for id in 0..colony.size() {
        let bug = colony.bug(id).unwrap();
        if !bug.has_mark() {
            return false;
        }
        for index in 0..bug.relation_count() {
            let other = colony.bug(bug.relation(index)).unwrap();
            if bug.check(Mark::M) == other.check(Mark::M) {
                return false;
            }
        }
    }
    true
}

#[test]
fn test_colony_size() {
    let colony = Colony::new(1);
    assert!(colony.size() == 1);

    let colony = Colony::new(2);
    assert!(colony.size() == 2);
}

#[test]
fn test_colony_relations() {
    let mut colony = Colony::new(3);

    colony.add_relation(0, 1).unwrap();
    colony.add_relation(2, 1).unwrap();

    let bug_0 = colony.bug(0).unwrap();
    let bug_1 = colony.bug(1).unwrap();
    let bug_2 = colony.bug(2).unwrap();

    assert!(bug_0.has_relation(&bug_1));
    assert!(bug_1.has_relation(&bug_0));

    assert!(!bug_0.has_relation(&bug_2));
    assert!(!bug_2.has_relation(&bug_0));

    assert!(bug_2.has_relation(&bug_1));
    assert!(bug_1.has_relation(&bug_2));

    let mut colony = Colony::new(4);

    colony.add_relation(0, 1).unwrap();
    colony.add_relation(1, 2).unwrap();
    colony.add_relation(2, 3).unwrap();
    colony.add_relation(3, 0).unwrap();

    let bug_0 = colony.bug(0).unwrap();
    let bug_1 = colony.bug(1).unwrap();
    let bug_2 = colony.bug(2).unwrap();
    let bug_3 = colony.bug(3).unwrap();

    assert!(bug_0.has_relation(&bug_1));
    assert!(bug_1.has_relation(&bug_2));
    assert!(bug_2.has_relation(&bug_3));
    assert!(bug_3.has_relation(&bug_0));
    assert!(!bug_0.has_relation(&bug_2));
    assert!(!bug_1.has_relation(&bug_3));
}

#[test]
fn test_inspect_small_cases() {
    let mut colony = Colony::new(2);
    colony.add_relation(0, 1).unwrap();
    assert!(colony.is_suspicious());

    let mut colony = Colony::new(3);
    colony.add_relation(0, 1).unwrap();
    colony.add_relation(1, 2).unwrap();
    colony.add_relation(2, 0).unwrap();
    assert!(!colony.is_suspicious());

    let mut colony = Colony::new(4);
    colony.add_relation(0, 1).unwrap();
    colony.add_relation(1, 2).unwrap();
    colony.add_relation(2, 3).unwrap();
    colony.add_relation(3, 0).unwrap();
    assert!(colony.is_suspicious());
}

#[test]
fn a_new_colony_numbers_its_bugs_from_zero() {
    let colony = Colony::new(5);
    assert_eq!(colony.size(), 5);
    for id in 0..5 {
        let bug = colony.bug(id).unwrap();
        assert_eq!(bug.id(), id);
        assert!(!bug.has_mark());
        assert_eq!(bug.relation_count(), 0);
    }
    assert_eq!(Colony::new(0).size(), 0);
}

#[test]
fn new_bug_appends_a_fresh_bug() {
    let mut colony = Colony::new(2);
    assert_eq!(colony.new_bug(), 3);
    assert_eq!(colony.size(), 3);
    assert_eq!(colony.bug(2).unwrap().id(), 2);
    assert_eq!(colony.add_relation(2, 0), Ok((1, 1)));
    assert!(colony.is_suspicious());
}

#[test]
fn looking_up_a_missing_bug_is_out_of_range() {
    let colony = Colony::new(2);
    assert!(colony.bug(1).is_ok());
    assert_eq!(colony.bug(2).err(), Some(ColonyError::OutOfRange));
    assert_eq!(Colony::new(0).bug(0).err(), Some(ColonyError::OutOfRange));
}

#[test]
fn relation_counts_grow_by_one_per_relation() {
    let mut colony = Colony::new(4);
    assert_eq!(colony.add_relation(0, 1), Ok((1, 1)));
    assert_eq!(colony.add_relation(0, 2), Ok((2, 1)));
    assert_eq!(colony.add_relation(3, 0), Ok((1, 3)));
    assert_eq!(colony.add_relation(0, 1), Ok((4, 2)));
    assert_eq!(colony.bug(0).unwrap().relation_count(), 4);
    assert_eq!(colony.bug(1).unwrap().relation_count(), 2);
    assert_eq!(colony.bug(2).unwrap().relation_count(), 1);
    assert_eq!(colony.bug(3).unwrap().relation_count(), 1);
}

#[test]
fn a_relation_is_recorded_at_both_ends_in_order() {
    let mut colony = Colony::new(3);
    colony.add_relation(0, 2).unwrap();
    colony.add_relation(1, 0).unwrap();
    assert_eq!(colony.bug(0).unwrap().relation(0), 2);
    assert_eq!(colony.bug(0).unwrap().relation(1), 1);
    assert_eq!(colony.bug(2).unwrap().relation(0), 0);
    assert_eq!(colony.bug(1).unwrap().relation(0), 0);
}

#[test]
fn a_self_relation_is_recorded_twice_on_the_one_bug() {
    let mut colony = Colony::new(2);
    assert_eq!(colony.add_relation(1, 1), Ok((1, 2)));
    let bug = colony.bug(1).unwrap();
    assert_eq!(bug.relation_count(), 2);
    assert!(bug.has_relation(bug));
    assert!(!colony.bug(0).unwrap().has_relation(bug));
}

#[test]
fn a_relation_to_a_missing_bug_is_refused_and_changes_nothing() {
    let mut colony = Colony::new(3);
    colony.add_relation(0, 1).unwrap();
    assert_eq!(colony.add_relation(0, 3), Err(ColonyError::OutOfRange));
    assert_eq!(colony.add_relation(3, 0), Err(ColonyError::OutOfRange));
    assert_eq!(colony.add_relation(7, 9), Err(ColonyError::OutOfRange));
    assert_eq!(colony.add_relation(usize::MAX, 0), Err(ColonyError::OutOfRange));
    assert_eq!(colony.size(), 3);
    assert_eq!(colony.bug(0).unwrap().relation_count(), 1);
    assert_eq!(colony.bug(1).unwrap().relation_count(), 1);
    assert_eq!(colony.bug(2).unwrap().relation_count(), 0);
    assert_eq!(Colony::new(0).add_relation(0, 0), Err(ColonyError::OutOfRange));
}

#[test]
fn clear_tags_removes_every_mark_and_no_relation() {
    let mut colony = Colony::new(3);
    colony.add_relation(0, 1).unwrap();
    assert!(colony.is_suspicious());
    assert!(colony.bug(0).unwrap().has_mark());
    colony.clear_tags();
    for id in 0..3 {
        assert!(!colony.bug(id).unwrap().has_mark());
    }
    assert!(colony.bug(0).unwrap().has_relation_to(1));
    assert!(colony.bug(1).unwrap().has_relation_to(0));
}

#[test]
fn a_single_edge_is_bipartite() {
    let mut colony = Colony::new(2);
    colony.add_relation(0, 1).unwrap();
    assert!(colony.is_suspicious());
    assert!(colony.bug(0).unwrap().check(Mark::M));
    assert!(colony.bug(1).unwrap().check(Mark::F));

    let mut colony = Colony::new(2);
    colony.add_relation(1, 0).unwrap();
    assert!(colony.is_suspicious());
}

#[test]
fn a_triangle_is_not_bipartite() {
    let mut colony = Colony::new(3);
    colony.add_relation(0, 1).unwrap();
    colony.add_relation(1, 2).unwrap();
    colony.add_relation(2, 0).unwrap();
    assert!(!colony.is_suspicious());

    let mut colony = Colony::new(3);
    colony.add_relation(2, 1).unwrap();
    colony.add_relation(0, 2).unwrap();
    colony.add_relation(1, 0).unwrap();
    assert!(!colony.is_suspicious());
}

#[test]
fn a_square_is_bipartite() {
    let mut colony = ring(4);
    assert!(colony.is_suspicious());
    assert!(properly_marked(&colony));
    assert!(colony.bug(0).unwrap().check(Mark::M));
    assert!(colony.bug(1).unwrap().check(Mark::F));
    assert!(colony.bug(2).unwrap().check(Mark::M));
    assert!(colony.bug(3).unwrap().check(Mark::F));
}

#[test]
fn colonies_without_relations_are_bipartite() {
    assert!(Colony::new(0).is_suspicious());
    let mut colony = Colony::new(1);
    assert!(colony.is_suspicious());
    assert!(colony.bug(0).unwrap().check(Mark::M));
    let mut colony = Colony::new(5);
    assert!(colony.is_suspicious());
    assert!(properly_marked(&colony));
}

#[test]
fn a_self_relation_is_never_bipartite() {
    let mut colony = Colony::new(1);
    colony.add_relation(0, 0).unwrap();
    assert!(!colony.is_suspicious());

    let mut colony = Colony::new(3);
    colony.add_relation(0, 1).unwrap();
    colony.add_relation(2, 2).unwrap();
    assert!(!colony.is_suspicious());
}

#[test]
fn a_repeated_relation_changes_no_verdict() {
    let mut colony = Colony::new(2);
    colony.add_relation(0, 1).unwrap();
    colony.add_relation(0, 1).unwrap();
    colony.add_relation(1, 0).unwrap();
    assert!(colony.is_suspicious());

    let mut colony = ring(3);
    colony.add_relation(0, 1).unwrap();
    assert!(!colony.is_suspicious());
}

#[test]
fn each_component_is_judged_by_itself() {
    // A bipartite edge and a triangle.
    let mut colony = Colony::new(5);
    colony.add_relation(0, 1).unwrap();
    colony.add_relation(2, 3).unwrap();
    colony.add_relation(3, 4).unwrap();
    colony.add_relation(4, 2).unwrap();
    assert!(!colony.is_suspicious());

    // The triangle first, the edge after it.
    let mut colony = Colony::new(5);
    colony.add_relation(0, 1).unwrap();
    colony.add_relation(1, 2).unwrap();
    colony.add_relation(2, 0).unwrap();
    colony.add_relation(3, 4).unwrap();
    assert!(!colony.is_suspicious());

    // Two bipartite components and a bug alone.
    let mut colony = Colony::new(7);
    colony.add_relation(0, 1).unwrap();
    colony.add_relation(2, 3).unwrap();
    colony.add_relation(3, 4).unwrap();
    colony.add_relation(4, 5).unwrap();
    colony.add_relation(5, 2).unwrap();
    assert!(colony.is_suspicious());
    assert!(properly_marked(&colony));
}

#[test]
fn a_component_is_reached_from_its_lowest_bug_in_any_direction() {
    // Bug 2 is reached from bug 0 only through bug 3, a higher id.
    let mut colony = Colony::new(4);
    colony.add_relation(3, 0).unwrap();
    colony.add_relation(2, 3).unwrap();
    colony.add_relation(1, 2).unwrap();
    colony.add_relation(0, 1).unwrap();
    assert!(colony.is_suspicious());
    assert!(properly_marked(&colony));
}

#[test]
fn asking_twice_gives_the_same_verdict() {
    let mut colony = ring(4);
    assert!(colony.is_suspicious());
    assert!(colony.is_suspicious());
    assert!(properly_marked(&colony));

    let mut colony = ring(5);
    assert!(!colony.is_suspicious());
    assert!(!colony.is_suspicious());

    // A relation added between two inspections is taken into account.
    let mut colony = ring(4);
    assert!(colony.is_suspicious());
    colony.add_relation(0, 2).unwrap();
    assert!(!colony.is_suspicious());
}

#[test]
fn rings_are_bipartite_exactly_when_even() {
    for size in 3..40 {
        let mut colony = ring(size);
        assert_eq!(colony.is_suspicious(), size % 2 == 0);
    }
}

#[test]
fn long_chains_do_not_exhaust_the_stack() {
    let size = 300_000;
    let mut colony = Colony::new(size);
    for id in 1..size {
        colony.add_relation(id - 1, id).unwrap();
    }
    assert!(colony.is_suspicious());
    assert!(colony.bug(0).unwrap().check(Mark::M));
    assert!(colony.bug(size - 1).unwrap().check(Mark::F));

    colony.add_relation(size - 1, 1).unwrap();
    assert!(!colony.is_suspicious());
}

#[test]
fn is_consistent_marks_what_it_reaches_and_nothing_else() {
    let mut colony = Colony::new(5);
    colony.add_relation(0, 1).unwrap();
    colony.add_relation(1, 2).unwrap();
    colony.add_relation(3, 4).unwrap();
    assert!(colony.is_consistent(1, Mark::F));
    assert!(colony.bug(0).unwrap().check(Mark::M));
    assert!(colony.bug(1).unwrap().check(Mark::F));
    assert!(colony.bug(2).unwrap().check(Mark::M));
    assert!(!colony.bug(3).unwrap().has_mark());
    assert!(!colony.bug(4).unwrap().has_mark());
}

#[test]
fn is_consistent_checks_a_bug_that_is_marked_already() {
    let mut colony = Colony::new(3);
    colony.add_relation(0, 1).unwrap();
    assert!(colony.is_consistent(0, Mark::M));
    assert!(colony.is_consistent(0, Mark::M));
    assert!(!colony.is_consistent(0, Mark::F));
    assert!(colony.is_consistent(1, Mark::F));
    assert!(!colony.is_consistent(1, Mark::M));
    assert!(colony.bug(0).unwrap().check(Mark::M));
    assert!(colony.bug(1).unwrap().check(Mark::F));
    assert!(!colony.bug(2).unwrap().has_mark());
}

#[test]
fn is_consistent_stops_at_the_first_conflict_and_keeps_its_marks() {
    // Depth first from bug 0: 0, then 1, then 2; the relation of 2 to 0
    // is the conflict, and bug 3 is never reached.
    let mut colony = Colony::new(4);
    colony.add_relation(0, 1).unwrap();
    colony.add_relation(1, 2).unwrap();
    colony.add_relation(2, 0).unwrap();
    colony.add_relation(2, 3).unwrap();
    assert!(!colony.is_consistent(0, Mark::M));
    assert!(colony.bug(0).unwrap().check(Mark::M));
    assert!(colony.bug(1).unwrap().check(Mark::F));
    assert!(colony.bug(2).unwrap().check(Mark::M));
    assert!(!colony.bug(3).unwrap().has_mark());
}

#[test]
fn is_consistent_respects_marks_that_are_there() {
    let mut colony = Colony::new(3);
    colony.add_relation(0, 1).unwrap();
    colony.add_relation(1, 2).unwrap();
    assert!(colony.is_consistent(2, Mark::M));
    colony.clear_tags();
    assert!(colony.is_consistent(0, Mark::F));
    assert!(colony.bug(2).unwrap().check(Mark::F));
}
