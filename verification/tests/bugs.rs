use colony::bug::Bug;
use colony::mark::{opposed_mark, Mark};

#[test]
fn test_opposed_mark() {
    assert!(opposed_mark(Mark::M).equals(Mark::F));
    assert!(opposed_mark(Mark::F).equals(Mark::M));
}

#[test]
fn test_bug_set_check() {
    let mut a = Bug::new(0);

    assert!(!a.has_mark());
    assert!(!a.check(Mark::M));
    assert!(!a.check(Mark::F));

    a.set_tag(Mark::M);
    assert!(a.has_mark());
    assert!(a.check(Mark::M));
    assert!(!a.check(Mark::F));

    a.set_tag(Mark::F);
    assert!(a.has_mark());
    assert!(!a.check(Mark::M));
    assert!(a.check(Mark::F));

    a.clear();
    assert!(!a.has_mark());
    assert!(!a.check(Mark::M));
    assert!(!a.check(Mark::F));
}

#[test]
fn test_bug_add_relation() {
    let mut bug_0 = Bug::new(0);
    let mut bug_1 = Bug::new(1);
    let mut bug_2 = Bug::new(2);
    let _bug_3 = Bug::new(3);

    let a_relations_size = bug_0.add_relation(&bug_1);
    assert!(a_relations_size == 1);
    let a_relations_size = bug_0.add_relation(&bug_2);
    let b_relations_size = bug_1.add_relation(&bug_2);
    let c_relations_size = bug_2.add_relation(&bug_0);

    assert!(a_relations_size == 2);
    assert!(b_relations_size == 1);
    assert!(c_relations_size == 1);

    assert!(bug_0.has_relation(&bug_1));
    assert!(bug_0.has_relation(&bug_2));
    assert!(bug_1.has_relation(&bug_2));
    assert!(bug_2.has_relation(&bug_0));

    assert!(!bug_2.has_relation(&bug_1));
    assert!(!bug_1.has_relation(&bug_0));
}

#[test]
fn opposing_twice_gives_the_mark_back() {
    assert_eq!(opposed_mark(opposed_mark(Mark::M)), Mark::M);
    assert_eq!(opposed_mark(opposed_mark(Mark::F)), Mark::F);
    assert_ne!(opposed_mark(Mark::M), Mark::M);
    assert_ne!(opposed_mark(Mark::F), Mark::F);
}

#[test]
fn marks_are_equal_only_to_themselves() {
    assert!(Mark::M.equals(Mark::M));
    assert!(Mark::F.equals(Mark::F));
    assert!(!Mark::M.equals(Mark::F));
    assert!(!Mark::F.equals(Mark::M));
}

#[test]
fn marks_and_tags_have_names() {
    assert_eq!(Mark::M.name(), "male");
    assert_eq!(Mark::F.name(), "female");

    let mut bug = Bug::new(7);
    assert_eq!(bug.get_tag(), "undefined");
    bug.set_tag(Mark::M);
    assert_eq!(bug.get_tag(), "male");
    bug.set_tag(Mark::F);
    assert_eq!(bug.get_tag(), "female");
    bug.clear();
    assert_eq!(bug.get_tag(), "undefined");
}

#[test]
fn a_fresh_bug_has_its_id_and_nothing_else() {
    let bug = Bug::new(42);
    assert_eq!(bug.id(), 42);
    assert!(!bug.has_mark());
    assert_eq!(bug.relation_count(), 0);
    assert!(!bug.has_relation(&bug));
    assert!(!bug.has_relation_to(42));
}

#[test]
fn set_tag_hands_back_the_marked_bug() {
    let mut bug = Bug::new(3);
    let marked = bug.set_tag(Mark::F);
    assert_eq!(marked.id(), 3);
    assert!(marked.check(Mark::F));
    assert!(bug.check(Mark::F));
}

#[test]
fn clearing_twice_is_clearing_once() {
    let mut bug = Bug::new(0);
    bug.set_tag(Mark::M);
    bug.clear();
    assert!(!bug.has_mark());
    bug.clear();
    assert!(!bug.has_mark());
}

#[test]
fn relations_keep_their_order_and_their_repeats() {
    let mut bug = Bug::new(0);
    let other = Bug::new(5);
    assert_eq!(bug.add_relation(&other), 1);
    assert_eq!(bug.add_relation_to(9), 2);
    assert_eq!(bug.add_relation(&other), 3);
    assert_eq!(bug.relation_count(), 3);
    assert_eq!(bug.relation(0), 5);
    assert_eq!(bug.relation(1), 9);
    assert_eq!(bug.relation(2), 5);
    assert!(bug.has_relation_to(9));
    assert!(!bug.has_relation_to(0));
    assert_eq!(other.relation_count(), 0);
}

#[test]
fn a_bug_can_be_related_to_itself() {
    let mut bug = Bug::new(4);
    assert_eq!(bug.add_relation_to(4), 1);
    assert!(bug.has_relation_to(4));
    assert!(bug.has_relation(&Bug::new(4)));
}

#[test]
fn clear_relations_forgets_relations_and_keeps_the_mark() {
    let mut bug = Bug::new(1);
    bug.set_tag(Mark::M);
    bug.add_relation_to(2);
    bug.add_relation_to(3);
    bug.clear_relations();
    assert_eq!(bug.relation_count(), 0);
    assert!(!bug.has_relation_to(2));
    assert!(bug.check(Mark::M));
    assert_eq!(bug.id(), 1);
}
