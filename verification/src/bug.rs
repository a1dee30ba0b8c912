//! A single bug: an identity, an optional mark, and the ids of the bugs it is
//! related to.

use vstd::prelude::*;
use crate::mark::{Mark, mark_name};

verus! {

/// A bug of a colony.
///
/// Relations are recorded by the id of the other bug, in the order in which
/// they were added; a relation added twice is recorded twice.
#[derive(Debug)]
pub struct Bug {
    id: usize,
    tag: Option<Mark>,
    relations: Vec<usize>,
}

/// What a bug holds, as mathematical values.
pub ghost struct BugView {
    /// The bug's identity.
    pub id: usize,
    /// The mark the bug carries, if any.
    pub tag: Option<Mark>,
    /// The ids of the related bugs, oldest relation first.
    pub relations: Seq<usize>,
}

impl View for Bug {
    type V = BugView;

    closed spec fn view(&self) -> BugView {
        BugView { id: self.id, tag: self.tag, relations: self.relations@ }
    }
}

/// The text that stands for a tag: the mark's name, or `undefined` for a bug
/// without a mark.
pub open spec fn tag_name(tag: Option<Mark>) -> Seq<char> {
    match tag {
        Some(mark) => mark_name(mark),
        None => "undefined"@,
    }
}

impl Bug {
    /// A fresh bug with the given id, no mark and no relations.
    pub fn new(id: usize) -> (bug: Bug)
        ensures
            bug@ == (BugView { id: id, tag: None, relations: Seq::empty() }),
    {
        Bug { id: id, tag: None, relations: Vec::new() }
    }

    /// The bug's id.
    pub fn id(&self) -> (id: usize)
        ensures
            id == self@.id,
    {
        self.id
    }

    /// Removes the mark, if there is one.
    pub fn clear(&mut self)
        ensures
            final(self)@ == (BugView { tag: None, ..old(self)@ }),
    {
        self.tag = None;
    }

    /// Forgets every relation of this bug.
    pub fn clear_relations(&mut self)
        ensures
            final(self)@ == (BugView { relations: Seq::empty(), ..old(self)@ }),
    {
        self.relations = Vec::new();
    }

    /// Gives the bug the mark `tag`, replacing any mark it had.
    pub fn set_tag(&mut self, tag: Mark) -> (bug: &Bug)
        ensures
            final(self)@ == (BugView { tag: Some(tag), ..old(self)@ }),
            bug@ == final(self)@,
    {
        self.tag = Some(tag);
        self
    }

    /// Whether the bug carries exactly the mark `tag`. A bug without a mark
    /// carries neither mark.
    pub fn check(&self, tag: Mark) -> (carries: bool)
        ensures
            carries == (self@.tag == Some(tag)),
    {
        match self.tag {
            Some(existing_tag) => existing_tag.equals(tag),
            None => false,
        }
    }

    /// The name of the bug's mark, or `undefined` if it has none.
    pub fn get_tag(&self) -> (text: String)
        ensures
            text@ == tag_name(self@.tag),
    {
        match self.tag {
            Some(existing_tag) => existing_tag.name(),
            None => "undefined".to_owned(),
        }
    }

    /// Whether the bug carries a mark.
    pub fn has_mark(&self) -> (marked: bool)
        ensures
            marked == self@.tag.is_some(),
    {
        match self.tag {
            Some(_) => true,
            None => false,
        }
    }

    /// Records a relation from this bug to the bug with id `other_id` and
    /// returns how many relations this bug then has.
    pub fn add_relation_to(&mut self, other_id: usize) -> (count: usize)
        ensures
            final(self)@ == (BugView {
                relations: old(self)@.relations.push(other_id),
                ..old(self)@
            }),
            count == old(self)@.relations.len() + 1,
    {
        self.relations.push(other_id);
        self.relations.len()
    }

    /// Records a relation from this bug to `other` and returns how many
    /// relations this bug then has. Nothing is recorded on `other`.
    pub fn add_relation(&mut self, other: &Bug) -> (count: usize)
        ensures
            final(self)@ == (BugView {
                relations: old(self)@.relations.push(other@.id),
                ..old(self)@
            }),
            count == old(self)@.relations.len() + 1,
    {
        self.add_relation_to(other.id)
    }

    /// Whether this bug has a relation to the bug with id `other_id`.
    pub fn has_relation_to(&self, other_id: usize) -> (found: bool)
        ensures
            found == self@.relations.contains(other_id),
    {
        let mut index: usize = 0;
        while index < self.relations.len()
            invariant
                index <= self.relations.len(),
                forall|k: int| 0 <= k < index ==> self.relations@[k] != other_id,
            decreases self.relations.len() - index,
        {
            if self.relations[index] == other_id {
                return true;
            }
            index += 1;
        }
        false
    }

    /// Whether this bug has a relation to `other`. Bugs are compared by id.
    pub fn has_relation(&self, other: &Bug) -> (found: bool)
        ensures
            found == self@.relations.contains(other@.id),
    {
        self.has_relation_to(other.id)
    }

    /// How many relations this bug has.
    pub fn relation_count(&self) -> (count: usize)
        ensures
            count == self@.relations.len(),
    {
        self.relations.len()
    }

    /// The id of the bug at the far end of this bug's relation number `index`.
    pub fn relation(&self, index: usize) -> (other_id: usize)
        requires
            index < self@.relations.len(),
        ensures
            other_id == self@.relations[index as int],
    {
        self.relations[index]
    }
}

} // verus!
