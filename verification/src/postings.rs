//! Where postings lists are kept and how they are found again.

use compact_arena::{Idx, Idx32, SmallArena};
use vstd::prelude::*;

use crate::types::DocIndex;

verus! {

/// A store of postings lists.
pub trait PostingsLists {
    /// What finds a list again.
    type Index: Copy;

    /// Whether this index finds a list here.
    spec fn holds(&self, index: Self::Index) -> bool;

    /// The list that this index finds.
    spec fn list(&self, index: Self::Index) -> Seq<DocIndex>;

    /// Finds a list again.
    fn get(&self, index: Self::Index) -> (list: &Vec<DocIndex>)
        requires
            self.holds(index),
        ensures
            list@ == self.list(index),
    ;
}

/// Postings lists one after another, found by their position.
#[derive(Debug, Clone)]
pub struct PostingsTable {
    pub lists: Vec<Vec<DocIndex>>,
}

impl PostingsLists for PostingsTable {
    type Index = u32;

    open spec fn holds(&self, index: u32) -> bool {
        index < self.lists@.len()
    }

    open spec fn list(&self, index: u32) -> Seq<DocIndex> {
        self.lists@[index as int]@
    }

    fn get(&self, index: u32) -> (list: &Vec<DocIndex>) {
        &self.lists[index as usize]
    }
}

/// `compact_arena::SmallArena`, a growing store whose indices cannot be mixed
/// up with those of another arena.
#[verifier::external_type_specification]
#[verifier::external_body]
#[verifier::reject_recursive_types(T)]
pub struct ExSmallArena<'tag, T>(SmallArena<'tag, T>);

/// `compact_arena::Idx`, an index that an arena gave out.
#[verifier::external_type_specification]
#[verifier::external_body]
#[verifier::reject_recursive_types(I)]
pub struct ExIdx<'tag, I: Copy + Clone>(Idx<'tag, I>);

/// The postings lists of an arena, in the order in which they were added.
pub uninterp spec fn arena_lists(arena: SmallArena<'_, Vec<DocIndex>>) -> Seq<Seq<DocIndex>>;

/// How many items the arena held when it gave out this index.
pub uninterp spec fn arena_position(index: Idx32<'_>) -> nat;

/// Indexes an arena (`<compact_arena::SmallArena as Index<Idx32>>::index`): the
/// result is the item that stood at the position the index holds. Indices are
/// tied to their arena by its tag, so each of them is within bounds.
#[verifier::external_body]
fn arena_get<'a, 'tag>(arena: &'a SmallArena<'tag, Vec<DocIndex>>, index: Idx32<'tag>) -> (list:
    &'a Vec<DocIndex>)
    ensures
        list@ == arena_lists(*arena)[arena_position(index) as int],
{
    &arena[index]
}

impl<'tag> PostingsLists for SmallArena<'tag, Vec<DocIndex>> {
    type Index = Idx32<'tag>;

    open spec fn holds(&self, index: Idx32<'tag>) -> bool {
        true
    }

    open spec fn list(&self, index: Idx32<'tag>) -> Seq<DocIndex> {
        arena_lists(*self)[arena_position(index) as int]
    }

    fn get(&self, index: Idx32<'tag>) -> (list: &Vec<DocIndex>) {
        arena_get(self, index)
    }
}

/// A table holds its lists under their positions.
pub proof fn law_tables_hold_their_lists(table: PostingsTable, index: u32)
    ensures
        table.holds(index) <==> index < table.lists@.len(),
        table.list(index) == table.lists@[index as int]@,
{
}

} // verus!
