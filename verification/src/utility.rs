//! Ready-made arenas for the common owned types.

use crate::arena_set::{ArenaSet, StadiumSet};
use crate::builder::builder;
use std::sync::Arc;
use vstd::prelude::*;

verus! {

/// Create an [`ArenaSet`] for `String` with `usize` identifiers.
pub fn string_arena_set() -> (r: ArenaSet<String>)
    ensures
        r.inv(),
        r.contents() == Map::<Seq<char>, usize>::empty(),
        r.slots().len() == 0,
        r.free_list().len() == 0,
        r.max_index() == usize::MAX,
{
    builder::<String>().arena_set().unwrap()
}

/// Create an [`ArenaSet`] for `Vec<u8>` with `usize` identifiers.
pub fn byte_arena_set() -> (r: ArenaSet<Vec<u8>>)
    ensures
        r.inv(),
        r.contents() == Map::<Seq<u8>, usize>::empty(),
        r.slots().len() == 0,
        r.free_list().len() == 0,
        r.max_index() == usize::MAX,
{
    builder::<Vec<u8>>().arena_set().unwrap()
}

/// Create a [`StadiumSet`] for `Arc<String>` with `usize` identifiers.
pub fn string_stadium_set() -> (r: StadiumSet<Arc<String>>)
    ensures
        r.0.inv(),
        r.0.contents() == Map::<Seq<char>, usize>::empty(),
        r.0.slots().len() == 0,
        r.0.free_list().len() == 0,
        r.0.max_index() == usize::MAX,
{
    builder::<Arc<String>>().stadium_set().unwrap()
}

/// Create a [`StadiumSet`] for `Arc<Vec<u8>>` with `usize` identifiers.
pub fn byte_stadium_set() -> (r: StadiumSet<Arc<Vec<u8>>>)
    ensures
        r.0.inv(),
        r.0.contents() == Map::<Seq<u8>, usize>::empty(),
        r.0.slots().len() == 0,
        r.0.free_list().len() == 0,
        r.0.max_index() == usize::MAX,
{
    builder::<Arc<Vec<u8>>>().stadium_set().unwrap()
}

} // verus!
