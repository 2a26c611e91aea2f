//! A small builder that fixes the owned type and the identifier type of an
//! arena before choosing the container-backed flavor to create.

use crate::arena_set::{ArenaSet, Error, StadiumSet};
use crate::id::InternId;
use crate::traits::{InternKey, StadiumKey};
use crate::vec_map::VecMap;
use core::marker::PhantomData;
use vstd::prelude::*;

verus! {

/// Builder for arenas over a chosen owned type `O` and identifier type `I`.
pub struct Builder<O, I = usize> {
    owned: PhantomData<O>,
    ids: PhantomData<I>,
}

impl<O, I> Builder<O, I> {
    /// Create a builder.
    pub fn new() -> (r: Self) {
        Builder { owned: PhantomData, ids: PhantomData }
    }
}

/// Create a [`Builder`] whose identifier type is `usize`.
pub fn builder<O>() -> (r: Builder<O, usize>) {
    Builder::new()
}

impl<O: InternKey, I: InternId> Builder<O, I> {
    /// Create an empty [`ArenaSet`] over the default container.
    pub fn arena_set(&self) -> (r: Result<ArenaSet<O, I, VecMap<O, I>>, Error>)
        ensures
            match r {
                Ok(a) => {
                    &&& a.inv()
                    &&& a.contents() == Map::<<O as InternKey>::Content, I>::empty()
                    &&& a.slots().len() == 0
                    &&& a.free_list().len() == 0
                    &&& I::spec_min_index() matches Some(mn)
                    &&& I::spec_max_index() matches Some(mx)
                    &&& a.max_index() == mx - mn
                },
                Err(e) => {
                    &&& e == Error::FromIdFailed
                    &&& (I::spec_min_index() is None || I::spec_max_index() is None)
                },
            },
    {
        ArenaSet::new()
    }
}

impl<O: StadiumKey, I: InternId> Builder<O, I> {
    /// Create an empty [`StadiumSet`] over the default container.
    pub fn stadium_set(&self) -> (r: Result<StadiumSet<O, I, VecMap<O, I>>, Error>)
        ensures
            match r {
                Ok(a) => {
                    &&& a.0.inv()
                    &&& a.0.contents() == Map::<<O as InternKey>::Content, I>::empty()
                    &&& a.0.slots().len() == 0
                    &&& a.0.free_list().len() == 0
                    &&& I::spec_min_index() matches Some(mn)
                    &&& I::spec_max_index() matches Some(mx)
                    &&& a.0.max_index() == mx - mn
                },
                Err(e) => {
                    &&& e == Error::FromIdFailed
                    &&& (I::spec_min_index() is None || I::spec_max_index() is None)
                },
            },
    {
        match ArenaSet::new() {
            Ok(a) => Ok(StadiumSet(a)),
            Err(e) => Err(e),
        }
    }
}

} // verus!
