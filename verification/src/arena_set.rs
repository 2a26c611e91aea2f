//! The arena engine: slot storage with an in-place free list, an associative
//! index from value content to identifier, and the four operations intern,
//! disintern, resolve and shrink.

use crate::id::InternId;
use crate::traits::{InternKey, MapBackend, StadiumKey};
use crate::vec_map::VecMap;
use core::marker::PhantomData;
use vstd::prelude::*;

verus! {

/// End-of-chain marker of the free list: no index this large is ever used by
/// a slot, so it can double as "no further vacant slot".
pub const FREE_END: usize = usize::MAX;

/// Errors of the arena, all returned as values.
#[derive(Clone, Copy, Debug, PartialEq, Eq, Structural)]
pub enum Error {
    /// The identifier does not name an interned item: it was never issued,
    /// or it has since been disinterned.
    InvalidId,
    /// An identifier could not be decoded into a slot index.
    FromIdFailed,
    /// A slot index could not be encoded into the identifier type.
    ToIdFailed,
    /// The identifier space has no remaining capacity for a new distinct
    /// item.
    IdOverflow,
}

/// One storage cell: either it owns an interned value, or it is vacant and
/// holds the index of the next vacant slot (`FREE_END` at the end of the
/// chain).
pub enum Slot<O> {
    Vacant(usize),
    Occupied(O),
}

/// Relies on `Vec::capacity`: a vector can hold at least its current length
/// without reallocating.
#[verifier::external_body]
fn vec_capacity<T>(v: &Vec<T>) -> (c: usize)
    ensures
        c >= v@.len(),
{
    v.capacity()
}

/// The interning arena.
///
/// `O` is the owned type of interned items, `I` the identifier type, and `M`
/// the associative container that indexes item content by identifier. The
/// slot vector owns every interned value; the index holds a duplicate key
/// with equal content, so no reference into the slot storage is kept.
pub struct ArenaSet<O, I = usize, M = VecMap<O, I>> {
    map: M,
    interned: Vec<Slot<O>>,
    head: usize,
    max_idx: usize,
    free: Ghost<Seq<int>>,
    ids: PhantomData<I>,
}

impl<O: InternKey, I: InternId, M: MapBackend<Key = O, Value = I>> ArenaSet<O, I, M> {
    /// The mathematical index: content of each interned item, mapped to its
    /// identifier.
    pub closed spec fn contents(&self) -> Map<<O as InternKey>::Content, I> {
        self.map.contents()
    }

    /// The slot storage.
    pub closed spec fn slots(&self) -> Seq<Slot<O>> {
        self.interned@
    }

    /// The chain of vacant slot indices, first reused first.
    pub closed spec fn free_list(&self) -> Seq<int> {
        self.free@
    }

    /// The configured ceiling on slot indices.
    pub closed spec fn max_index(&self) -> usize {
        self.max_idx
    }

    /// The arena invariant: the free list is exactly the chain of vacant
    /// slots, the index and the occupied slots agree in both directions, no
    /// two occupied slots share a content, and the number of interned items
    /// never exceeds the identifier ceiling.
    pub closed spec fn inv(&self) -> bool {
        &&& self.map.wf()
        &&& self.contents().dom().finite()
        &&& (forall|k: int|
            0 <= k < self.free@.len() ==> 0 <= (#[trigger] self.free@[k])
                < self.interned@.len())
        &&& (forall|k: int|
            0 <= k < self.free@.len() ==> (#[trigger] self.interned@[self.free@[k]])
                is Vacant)
        &&& (forall|k: int|
            0 <= k < self.free@.len() ==> (#[trigger] self.interned@[self.free@[k]])
                ->Vacant_0 as int == (if k + 1 < self.free@.len() {
                self.free@[k + 1]
            } else {
                FREE_END as int
            }))
        &&& self.head as int == (if self.free@.len() == 0 {
            FREE_END as int
        } else {
            self.free@[0]
        })
        &&& (forall|k1: int, k2: int|
            0 <= k1 < k2 < self.free@.len() ==> self.free@[k1] != self.free@[k2])
        &&& (forall|ix: int|
            0 <= ix < self.interned@.len() && (#[trigger] self.interned@[ix]) is Vacant
                ==> self.free@.contains(ix))
        &&& (forall|ix: int|
            0 <= ix < self.interned@.len() && (#[trigger] self.interned@[ix]) is Occupied ==> {
                let c = self.interned@[ix]->Occupied_0.content();
                &&& self.contents().contains_key(c)
                &&& self.contents()[c].spec_decode() == Some(ix as usize)
            })
        &&& (forall|c: <O as InternKey>::Content| #[trigger]
            self.contents().contains_key(c) ==> {
                let d = self.contents()[c].spec_decode();
                &&& d is Some
                &&& d.unwrap() < self.interned@.len()
                &&& self.interned@[d.unwrap() as int] is Occupied
                &&& self.interned@[d.unwrap() as int]->Occupied_0.content() == c
            })
        &&& self.contents().len() + self.free@.len() == self.interned@.len()
        &&& self.contents().len() <= self.max_idx + 1
    }

    /// The slot index the next fresh internment will use: the head of the
    /// free list, or the append position when no slot is vacant.
    pub open spec fn alloc_index(&self) -> usize {
        if self.free_list().len() == 0 {
            self.slots().len() as usize
        } else {
            self.free_list()[0] as usize
        }
    }

    /// Whether the identifier space has no remaining capacity. The second
    /// case is the machine limit: a slot index must stay below the free-list
    /// end marker.
    pub open spec fn is_full(&self) -> bool {
        ||| (self.contents().len() != 0 && self.contents().len() - 1 == self.max_index())
        ||| (self.free_list().len() == 0 && self.slots().len() == FREE_END)
    }

    /// What resolving an identifier against the current state yields.
    pub open spec fn spec_resolve(&self, id: I) -> Result<O, Error> {
        match id.spec_decode() {
            None => Err(Error::FromIdFailed),
            Some(ix) => {
                if ix >= self.slots().len() {
                    Err(Error::InvalidId)
                } else {
                    match self.slots()[ix as int] {
                        Slot::Occupied(v) => Ok(v),
                        Slot::Vacant(_) => Err(Error::InvalidId),
                    }
                }
            },
        }
    }

    /// Create a new, empty arena.
    pub fn new() -> (r: Result<Self, Error>)
        ensures
            match r {
                Ok(a) => {
                    &&& a.inv()
                    &&& a.contents() == Map::<<O as InternKey>::Content, I>::empty()
                    &&& a.slots() == Seq::<Slot<O>>::empty()
                    &&& a.free_list() == Seq::<int>::empty()
                    &&& I::spec_min_index() matches Some(mn)
                    &&& I::spec_max_index() matches Some(mx)
                    &&& a.max_index() == mx - mn
                },
                Err(e) => {
                    &&& e == Error::FromIdFailed
                    &&& (I::spec_min_index() is None || I::spec_max_index() is None)
                },
            },
    {
        Self::with_capacity(0)
    }

    /// Create a new, empty arena with a capacity hint. The index ceiling
    /// defaults to the span of the identifier type's bounds.
    pub fn with_capacity(capacity: usize) -> (r: Result<Self, Error>)
        ensures
            match r {
                Ok(a) => {
                    &&& a.inv()
                    &&& a.contents() == Map::<<O as InternKey>::Content, I>::empty()
                    &&& a.slots() == Seq::<Slot<O>>::empty()
                    &&& a.free_list() == Seq::<int>::empty()
                    &&& I::spec_min_index() matches Some(mn)
                    &&& I::spec_max_index() matches Some(mx)
                    &&& a.max_index() == mx - mn
                },
                Err(e) => {
                    &&& e == Error::FromIdFailed
                    &&& (I::spec_min_index() is None || I::spec_max_index() is None)
                },
            },
    {
        let mx: usize = match I::max_index() {
            Some(v) => v,
            None => {
                return Err(Error::FromIdFailed);
            },
        };
        let mn: usize = match I::min_index() {
            Some(v) => v,
            None => {
                return Err(Error::FromIdFailed);
            },
        };
        proof {
            I::lemma_bounds_ordered();
        }
        Self::bounded_with_capacity(mx - mn, capacity)
    }

    /// Create a new, empty arena with an explicit index ceiling and a
    /// capacity hint. The ceiling may only narrow the identifier type's own
    /// range.
    pub fn bounded_with_capacity(max_idx: usize, capacity: usize) -> (r: Result<Self, Error>)
        ensures
            match r {
                Ok(a) => {
                    &&& a.inv()
                    &&& a.contents() == Map::<<O as InternKey>::Content, I>::empty()
                    &&& a.slots() == Seq::<Slot<O>>::empty()
                    &&& a.free_list() == Seq::<int>::empty()
                    &&& a.max_index() == max_idx
                    &&& I::spec_min_index() matches Some(mn)
                    &&& I::spec_max_index() matches Some(mx)
                    &&& max_idx <= mx - mn
                },
                Err(e) => {
                    &&& (e == Error::FromIdFailed <==> (I::spec_min_index() is None
                        || I::spec_max_index() is None))
                    &&& (e == Error::IdOverflow <==> (I::spec_min_index() matches Some(mn)
                        && I::spec_max_index() matches Some(mx) && max_idx > mx - mn))
                    &&& (e == Error::FromIdFailed || e == Error::IdOverflow)
                },
            },
    {
        let mx: usize = match I::max_index() {
            Some(v) => v,
            None => {
                return Err(Error::FromIdFailed);
            },
        };
        let mn: usize = match I::min_index() {
            Some(v) => v,
            None => {
                return Err(Error::FromIdFailed);
            },
        };
        proof {
            I::lemma_bounds_ordered();
        }
        if max_idx > mx - mn {
            return Err(Error::IdOverflow);
        }
        let arena = ArenaSet {
            map: M::with_capacity(capacity),
            interned: Vec::with_capacity(capacity),
            head: FREE_END,
            max_idx,
            free: Ghost(Seq::empty()),
            ids: PhantomData,
        };
        proof {
            arena.map.lemma_wf_finite();
            broadcast use vstd::map::axiom_map_empty, vstd::set::axiom_set_empty_len;
        }
        Ok(arena)
    }

    /// The number of interned items.
    pub fn count(&self) -> (n: usize)
        requires
            self.inv(),
        ensures
            n == self.contents().len(),
    {
        self.map.len()
    }

    /// The capacity of the slot storage.
    pub fn capacity(&self) -> (c: usize)
        ensures
            c >= self.slots().len(),
    {
        vec_capacity(&self.interned)
    }

    /// Intern an item, receiving an identifier that later resolves back to
    /// it.
    ///
    /// Interning is idempotent: an item whose content is already interned
    /// changes nothing and returns the identifier it already has, so two
    /// interns of one content in a row return the same identifier and grow
    /// the count once. A fresh item is stored in the slot the free list
    /// offers first, and its new identifier is held by no other live item.
    /// When the identifier space is exhausted the arena is unchanged; when
    /// the fresh slot's index cannot be encoded, the allocation is rolled
    /// back onto the free list before the error returns.
    pub fn intern(&mut self, item: O) -> (r: Result<I, Error>)
        requires
            old(self).inv(),
        ensures
            final(self).inv(),
            final(self).max_index() == old(self).max_index(),
            match r {
                Ok(id) => {
                    if old(self).contents().contains_key(item.content()) {
                        &&& *final(self) == *old(self)
                        &&& id == old(self).contents()[item.content()]
                    } else {
                        &&& final(self).contents() == old(self).contents().insert(
                            item.content(),
                            id,
                        )
                        &&& final(self).contents().len() == old(self).contents().len() + 1
                        &&& I::spec_encode(old(self).alloc_index()) == Some(id)
                        &&& final(self).spec_resolve(id) == Ok::<O, Error>(item)
                        &&& final(self).slots() == (if old(self).free_list().len() == 0 {
                            old(self).slots().push(Slot::Occupied(item))
                        } else {
                            old(self).slots().update(
                                old(self).alloc_index() as int,
                                Slot::Occupied(item),
                            )
                        })
                        &&& final(self).free_list() == (if old(self).free_list().len() == 0 {
                            Seq::<int>::empty()
                        } else {
                            old(self).free_list().skip(1)
                        })
                        &&& (forall|c: <O as InternKey>::Content| #[trigger]
                            old(self).contents().contains_key(c) ==> old(self).contents()[c]
                                != id)
                    }
                },
                Err(e) => {
                    &&& !old(self).contents().contains_key(item.content())
                    &&& final(self).contents() == old(self).contents()
                    &&& (e == Error::IdOverflow || e == Error::ToIdFailed)
                    &&& (e == Error::IdOverflow <==> old(self).is_full())
                    &&& (e == Error::ToIdFailed <==> !old(self).is_full() && I::spec_encode(
                        old(self).alloc_index(),
                    ) is None)
                    &&& (e == Error::IdOverflow ==> *final(self) == *old(self))
                    &&& (e == Error::ToIdFailed && old(self).free_list().len() != 0 ==> {
                        &&& final(self).slots() == old(self).slots()
                        &&& final(self).free_list() == old(self).free_list()
                    })
                    &&& (e == Error::ToIdFailed && old(self).free_list().len() == 0 ==> {
                        &&& final(self).slots() == old(self).slots().push(
                            Slot::Vacant(FREE_END),
                        )
                        &&& final(self).free_list() == seq![old(self).slots().len() as int]
                    })
                },
            },
    {
        if let Some(entry) = self.map.get(&item) {
            return Ok(*entry);
        }
        let cnt: usize = self.map.len();
        if cnt != 0 && cnt - 1 == self.max_idx {
            return Err(Error::IdOverflow);
        }
        if self.head == FREE_END && self.interned.len() == FREE_END {
            return Err(Error::IdOverflow);
        }
        let key = item.duplicate();
        let ghost c = item.content();
        let ix: usize;
        if self.head == FREE_END {
            self.interned.push(Slot::Occupied(item));
            ix = self.interned.len() - 1;
        } else {
            ix = self.head;
            proof {
                assert(self.free@[0] == ix as int);
                assert(self.interned@[self.free@[0]] is Vacant);
            }
            let next: usize = match &self.interned[ix] {
                Slot::Vacant(n) => *n,
                Slot::Occupied(_) => {
                    proof {
                        assert(self.interned@[ix as int] is Vacant);
                    }
                    vstd::pervasive::unreached()
                },
            };
            self.interned[ix] = Slot::Occupied(item);
            self.head = next;
            self.free = Ghost(self.free@.skip(1));
        }
        match I::encode(ix) {
            Some(id) => {
                proof {
                    I::lemma_encode_decode(ix);
                }
                let _ = self.map.insert(key, id);
                proof {
                    broadcast use vstd::set::axiom_set_insert_len;

                    assert(self.map.contents().dom() =~= old(self).map.contents().dom().insert(
                        c,
                    ));
                    if old(self).free@.len() == 0 {
                        Self::lemma_inv_after_intern_append(*old(self), *self, item, id, ix);
                    } else {
                        Self::lemma_inv_after_intern_reuse(*old(self), *self, item, id, ix);
                    }
                    Self::lemma_fresh_id(*old(self), id, ix);
                }
                Ok(id)
            },
            None => {
                let rollback_next: usize = self.head;
                self.interned[ix] = Slot::Vacant(rollback_next);
                self.head = ix;
                self.free = Ghost(seq![ix as int].add(self.free@));
                proof {
                    if old(self).free_list().len() != 0 {
                        assert(self.free@ =~= old(self).free@);
                        assert(self.interned@ =~= old(self).interned@);
                    } else {
                        assert(self.free@ =~= seq![old(self).slots().len() as int]);
                        assert(self.interned@ =~= old(self).interned@.push(
                            Slot::Vacant(FREE_END),
                        ));
                        assert(self.interned@[self.free@[0]] is Vacant);
                        assert forall|ix2: int|
                            0 <= ix2 < self.interned@.len() && (#[trigger] self.interned@[ix2])
                                is Vacant implies self.free@.contains(ix2) by {
                            if ix2 < old(self).interned@.len() {
                                assert(old(self).interned@[ix2] is Vacant);
                                assert(old(self).free@.contains(ix2));
                            } else {
                                assert(self.free@[0] == ix2);
                            }
                        };
                        assert forall|c2: <O as InternKey>::Content| #[trigger]
                            self.contents().contains_key(c2) implies {
                            let d = self.contents()[c2].spec_decode();
                            &&& d is Some
                            &&& d.unwrap() < self.interned@.len()
                            &&& self.interned@[d.unwrap() as int] is Occupied
                            &&& self.interned@[d.unwrap() as int]->Occupied_0.content() == c2
                        } by {
                            assert(old(self).contents().contains_key(c2));
                        };
                    }
                }
                Err(Error::ToIdFailed)
            },
        }
    }

    /// A freshly encoded identifier is held by no interned item: every live
    /// identifier decodes to an occupied slot, and the fresh one decodes to
    /// the allocation site.
    proof fn lemma_fresh_id(pre: Self, id: I, ix: usize)
        requires
            pre.inv(),
            id.spec_decode() == Some(ix),
            pre.free@.len() == 0 ==> ix >= pre.interned@.len(),
            pre.free@.len() != 0 ==> ix as int == pre.free@[0],
        ensures
            forall|c2: <O as InternKey>::Content| #[trigger]
                pre.contents().contains_key(c2) ==> pre.contents()[c2] != id,
    {
        assert forall|c2: <O as InternKey>::Content| #[trigger]
            pre.contents().contains_key(c2) implies pre.contents()[c2] != id by {
            if pre.contents()[c2] == id {
                let ix2 = pre.contents()[c2].spec_decode().unwrap();
                assert(ix2 < pre.interned@.len());
                assert(pre.interned@[ix2 as int] is Occupied);
                assert(ix2 == ix);
                if pre.free@.len() != 0 {
                    assert(pre.interned@[pre.free@[0]] is Vacant);
                }
                assert(false);
            }
        };
    }

    /// The invariant holds again after a fresh internment that appended a
    /// new slot.
    proof fn lemma_inv_after_intern_append(pre: Self, post: Self, item: O, id: I, ix: usize)
        requires
            pre.inv(),
            pre.free@.len() == 0,
            !pre.contents().contains_key(item.content()),
            pre.contents().len() <= pre.max_idx,
            id.spec_decode() == Some(ix),
            ix == pre.interned@.len(),
            ix < FREE_END,
            post.map.wf(),
            post.contents() == pre.contents().insert(item.content(), id),
            post.contents().len() == pre.contents().len() + 1,
            post.contents().dom().finite(),
            post.max_idx == pre.max_idx,
            post.interned@ == pre.interned@.push(Slot::Occupied(item)),
            post.free@ == pre.free@,
            post.head == FREE_END,
        ensures
            post.inv(),
    {
        let c = item.content();
        assert forall|ix2: int|
            0 <= ix2 < post.interned@.len() && (#[trigger] post.interned@[ix2])
                is Vacant implies post.free@.contains(ix2) by {
            assert(pre.interned@[ix2] is Vacant);
            assert(pre.free@.contains(ix2));
        };
        assert forall|ix2: int|
            0 <= ix2 < post.interned@.len() && (#[trigger] post.interned@[ix2])
                is Occupied implies {
            let c2 = post.interned@[ix2]->Occupied_0.content();
            &&& post.contents().contains_key(c2)
            &&& post.contents()[c2].spec_decode() == Some(ix2 as usize)
        } by {
            if ix2 < pre.interned@.len() {
                assert(pre.interned@[ix2] is Occupied);
                let c2 = pre.interned@[ix2]->Occupied_0.content();
                assert(pre.contents().contains_key(c2));
                assert(c2 != c);
                assert(post.contents()[c2] == pre.contents()[c2]);
            }
        };
        assert forall|c2: <O as InternKey>::Content| #[trigger]
            post.contents().contains_key(c2) implies {
            let d = post.contents()[c2].spec_decode();
            &&& d is Some
            &&& d.unwrap() < post.interned@.len()
            &&& post.interned@[d.unwrap() as int] is Occupied
            &&& post.interned@[d.unwrap() as int]->Occupied_0.content() == c2
        } by {
            if c2 != c {
                assert(pre.contents().contains_key(c2));
                assert(post.contents()[c2] == pre.contents()[c2]);
            }
        };
    }

    /// The invariant holds again after a fresh internment that reused the
    /// vacant slot at the head of the free list.
    #[verifier::rlimit(100)]
    proof fn lemma_inv_after_intern_reuse(pre: Self, post: Self, item: O, id: I, ix: usize)
        requires
            pre.inv(),
            pre.free@.len() != 0,
            !pre.contents().contains_key(item.content()),
            pre.contents().len() <= pre.max_idx,
            id.spec_decode() == Some(ix),
            ix as int == pre.free@[0],
            post.map.wf(),
            post.contents() == pre.contents().insert(item.content(), id),
            post.contents().len() == pre.contents().len() + 1,
            post.contents().dom().finite(),
            post.max_idx == pre.max_idx,
            post.interned@ == pre.interned@.update(ix as int, Slot::Occupied(item)),
            post.free@ == pre.free@.skip(1),
            post.head as int == (if pre.free@.len() == 1 {
                FREE_END as int
            } else {
                pre.free@[1]
            }),
        ensures
            post.inv(),
    {
        let c = item.content();
        assert(pre.interned@[pre.free@[0]] is Vacant);
        assert(ix < pre.interned@.len());
        assert forall|k: int| 0 <= k < post.free@.len() implies {
            &&& 0 <= (#[trigger] post.free@[k]) < post.interned@.len()
            &&& post.interned@[post.free@[k]] is Vacant
            &&& post.interned@[post.free@[k]]->Vacant_0 as int == (if k + 1 < post.free@.len() {
                post.free@[k + 1]
            } else {
                FREE_END as int
            })
        } by {
            assert(post.free@[k] == pre.free@[k + 1]);
            assert(pre.free@[k + 1] != pre.free@[0]);
            assert(pre.interned@[pre.free@[k + 1]] is Vacant);
            assert(post.interned@[post.free@[k]] == pre.interned@[pre.free@[k + 1]]);
        };
        assert forall|ix2: int|
            0 <= ix2 < post.interned@.len() && (#[trigger] post.interned@[ix2])
                is Vacant implies post.free@.contains(ix2) by {
            assert(pre.interned@[ix2] is Vacant);
            assert(pre.free@.contains(ix2));
            let k = choose|k: int| 0 <= k < pre.free@.len() && pre.free@[k] == ix2;
            assert(k != 0);
            assert(post.free@[k - 1] == ix2);
        };
        assert forall|ix2: int|
            0 <= ix2 < post.interned@.len() && (#[trigger] post.interned@[ix2])
                is Occupied implies {
            let c2 = post.interned@[ix2]->Occupied_0.content();
            &&& post.contents().contains_key(c2)
            &&& post.contents()[c2].spec_decode() == Some(ix2 as usize)
        } by {
            if ix2 != ix {
                assert(pre.interned@[ix2] is Occupied);
                let c2 = pre.interned@[ix2]->Occupied_0.content();
                assert(pre.contents().contains_key(c2));
                assert(c2 != c);
                assert(post.contents()[c2] == pre.contents()[c2]);
            }
        };
        assert forall|c2: <O as InternKey>::Content| #[trigger]
            post.contents().contains_key(c2) implies {
            let d = post.contents()[c2].spec_decode();
            &&& d is Some
            &&& d.unwrap() < post.interned@.len()
            &&& post.interned@[d.unwrap() as int] is Occupied
            &&& post.interned@[d.unwrap() as int]->Occupied_0.content() == c2
        } by {
            if c2 != c {
                assert(pre.contents().contains_key(c2));
                assert(post.contents()[c2] == pre.contents()[c2]);
                assert(pre.interned@[ix as int] is Vacant);
            }
        };
    }

    /// Disintern an item by its identifier, receiving the owned value back.
    ///
    /// On success the identifier is invalid from now on: resolving it yields
    /// `InvalidId` until the freed slot is reused. The vacated slot becomes
    /// the new head of the free list. Disinterning fails exactly when
    /// resolving would, with the same error, and then changes nothing.
    pub fn disintern(&mut self, id: I) -> (r: Result<O, Error>)
        requires
            old(self).inv(),
        ensures
            final(self).inv(),
            final(self).max_index() == old(self).max_index(),
            match r {
                Ok(v) => {
                    &&& old(self).spec_resolve(id) == Ok::<O, Error>(v)
                    &&& old(self).contents().contains_key(v.content())
                    &&& final(self).contents() == old(self).contents().remove(v.content())
                    &&& final(self).contents().len() == old(self).contents().len() - 1
                    &&& final(self).spec_resolve(id) == Err::<O, Error>(Error::InvalidId)
                    &&& final(self).slots() == old(self).slots().update(
                        id.spec_decode().unwrap() as int,
                        Slot::Vacant(
                            if old(self).free_list().len() == 0 {
                                FREE_END
                            } else {
                                old(self).free_list()[0] as usize
                            },
                        ),
                    )
                    &&& final(self).free_list() == seq![id.spec_decode().unwrap() as int].add(
                        old(self).free_list(),
                    )
                },
                Err(e) => {
                    &&& old(self).spec_resolve(id) == Err::<O, Error>(e)
                    &&& *final(self) == *old(self)
                },
            },
    {
        let ix: usize = match id.decode() {
            Some(v) => v,
            None => {
                return Err(Error::FromIdFailed);
            },
        };
        if ix >= self.interned.len() {
            return Err(Error::InvalidId);
        }
        match &self.interned[ix] {
            Slot::Vacant(_) => {
                return Err(Error::InvalidId);
            },
            Slot::Occupied(_) => {},
        }
        let mut slot: Slot<O> = Slot::Vacant(self.head);
        core::mem::swap(&mut slot, &mut self.interned[ix]);
        match slot {
            Slot::Occupied(item) => {
                let _ = self.map.remove(&item);
                self.head = ix;
                self.free = Ghost(seq![ix as int].add(self.free@));
                proof {
                    broadcast use vstd::set::axiom_set_remove_len;

                    let c = item.content();
                    assert(old(self).interned@[ix as int]->Occupied_0 == item);
                    assert(old(self).contents().contains_key(c));
                    assert(old(self).contents()[c].spec_decode() == Some(ix));
                    assert(self.map.contents().dom() =~= old(
                        self,
                    ).map.contents().dom().remove(c));
                    Self::lemma_inv_after_disintern(*old(self), *self, item, ix);
                }
                Ok(item)
            },
            Slot::Vacant(_) => {
                proof {
                    assert(old(self).interned@[ix as int] is Occupied);
                }
                vstd::pervasive::unreached()
            },
        }
    }

    /// The invariant holds again after a disinternment vacated one occupied
    /// slot and pushed it onto the front of the free list.
    proof fn lemma_inv_after_disintern(pre: Self, post: Self, item: O, ix: usize)
        requires
            pre.inv(),
            pre.interned@.len() <= usize::MAX,
            ix < pre.interned@.len(),
            pre.interned@[ix as int] is Occupied,
            pre.interned@[ix as int]->Occupied_0 == item,
            post.map.wf(),
            post.contents() == pre.contents().remove(item.content()),
            post.contents().len() == pre.contents().len() - 1,
            post.contents().dom().finite(),
            post.max_idx == pre.max_idx,
            post.interned@ == pre.interned@.update(ix as int, Slot::Vacant(pre.head)),
            post.free@ == seq![ix as int].add(pre.free@),
            post.head == ix,
        ensures
            post.inv(),
    {
        let c = item.content();
        assert(pre.contents().contains_key(c));
        assert(pre.contents()[c].spec_decode() == Some(ix));
        assert forall|k: int| 0 <= k < post.free@.len() implies {
            &&& 0 <= (#[trigger] post.free@[k]) < post.interned@.len()
            &&& post.interned@[post.free@[k]] is Vacant
            &&& post.interned@[post.free@[k]]->Vacant_0 as int == (if k + 1 < post.free@.len() {
                post.free@[k + 1]
            } else {
                FREE_END as int
            })
        } by {
            if k == 0 {
                assert(post.free@[0] == ix as int);
                if pre.free@.len() != 0 {
                    assert(post.free@[1] == pre.free@[0]);
                }
            } else {
                assert(post.free@[k] == pre.free@[k - 1]);
                assert(pre.interned@[pre.free@[k - 1]] is Vacant);
                assert(pre.free@[k - 1] != ix as int);
                assert(post.interned@[post.free@[k]] == pre.interned@[pre.free@[k - 1]]);
                if k + 1 < post.free@.len() {
                    assert(post.free@[k + 1] == pre.free@[k]);
                }
            }
        };
        assert forall|k1: int, k2: int|
            0 <= k1 < k2 < post.free@.len() implies post.free@[k1] != post.free@[k2] by {
            if k1 == 0 {
                assert(post.free@[k2] == pre.free@[k2 - 1]);
                assert(pre.interned@[pre.free@[k2 - 1]] is Vacant);
            }
        };
        assert forall|ix2: int|
            0 <= ix2 < post.interned@.len() && (#[trigger] post.interned@[ix2])
                is Vacant implies post.free@.contains(ix2) by {
            if ix2 == ix as int {
                assert(post.free@[0] == ix2);
            } else {
                assert(pre.interned@[ix2] is Vacant);
                assert(pre.free@.contains(ix2));
                let k = choose|k: int| 0 <= k < pre.free@.len() && pre.free@[k] == ix2;
                assert(post.free@[k + 1] == ix2);
            }
        };
        assert forall|ix2: int|
            0 <= ix2 < post.interned@.len() && (#[trigger] post.interned@[ix2])
                is Occupied implies {
            let c2 = post.interned@[ix2]->Occupied_0.content();
            &&& post.contents().contains_key(c2)
            &&& post.contents()[c2].spec_decode() == Some(ix2 as usize)
        } by {
            assert(ix2 != ix as int);
            assert(pre.interned@[ix2] is Occupied);
            let c2 = pre.interned@[ix2]->Occupied_0.content();
            assert(pre.contents().contains_key(c2));
            assert(pre.contents()[c2].spec_decode() == Some(ix2 as usize));
            if c2 == c {
                assert(ix2 as usize == ix);
                assert(ix2 == ix as int);
                assert(false);
            }
        };
        assert forall|c2: <O as InternKey>::Content| #[trigger]
            post.contents().contains_key(c2) implies {
            let d = post.contents()[c2].spec_decode();
            &&& d is Some
            &&& d.unwrap() < post.interned@.len()
            &&& post.interned@[d.unwrap() as int] is Occupied
            &&& post.interned@[d.unwrap() as int]->Occupied_0.content() == c2
        } by {
            assert(c2 != c);
            assert(pre.contents().contains_key(c2));
            assert(post.contents()[c2] == pre.contents()[c2]);
            let d = pre.contents()[c2].spec_decode();
            assert(pre.interned@[d.unwrap() as int] is Occupied);
            assert(pre.interned@[d.unwrap() as int]->Occupied_0.content() == c2);
            if d.unwrap() as int == ix as int {
                assert(c2 == c);
            }
        };
    }

    /// Every live identifier resolves: an identifier held in the index
    /// leads to an occupied slot holding a value with exactly the content
    /// the identifier was issued for.
    pub proof fn lemma_live_ids_resolve(&self, c: <O as InternKey>::Content)
        requires
            self.inv(),
            self.contents().contains_key(c),
        ensures
            self.spec_resolve(self.contents()[c]) matches Ok(v) && v.content() == c,
    {
    }

    /// Two distinct live contents never share an identifier: the index is
    /// injective on what it holds.
    pub proof fn lemma_distinct_ids(
        &self,
        c1: <O as InternKey>::Content,
        c2: <O as InternKey>::Content,
    )
        requires
            self.inv(),
            self.contents().contains_key(c1),
            self.contents().contains_key(c2),
            c1 != c2,
        ensures
            self.contents()[c1] != self.contents()[c2],
    {
        let d1 = self.contents()[c1].spec_decode().unwrap();
        let d2 = self.contents()[c2].spec_decode().unwrap();
        assert(self.interned@[d1 as int]->Occupied_0.content() == c1);
        assert(self.interned@[d2 as int]->Occupied_0.content() == c2);
    }

    /// No two occupied slots hold values with equal content.
    proof fn lemma_occupied_distinct(pre: Self)
        requires
            pre.inv(),
            pre.interned@.len() <= usize::MAX,
        ensures
            forall|i: int, j: int|
                0 <= i < j < pre.interned@.len() && (#[trigger] pre.interned@[i]) is Occupied
                    && (#[trigger] pre.interned@[j]) is Occupied ==> pre.interned@[i]
                    ->Occupied_0.content() != pre.interned@[j]->Occupied_0.content(),
    {
        assert forall|i: int, j: int|
            0 <= i < j < pre.interned@.len() && (#[trigger] pre.interned@[i]) is Occupied && (
            #[trigger] pre.interned@[j]) is Occupied implies pre.interned@[i]
            ->Occupied_0.content() != pre.interned@[j]->Occupied_0.content() by {
            let ci = pre.interned@[i]->Occupied_0.content();
            let cj = pre.interned@[j]->Occupied_0.content();
            if ci == cj {
                assert(pre.contents()[ci].spec_decode() == Some(i as usize));
                assert(pre.contents()[cj].spec_decode() == Some(j as usize));
                assert(false);
            }
        };
    }

    /// Resolve an item by its identifier, yielding a borrowed view.
    pub fn resolve(&self, id: I) -> (r: Result<&O, Error>)
        ensures
            match r {
                Ok(v) => self.spec_resolve(id) == Ok::<O, Error>(*v),
                Err(e) => self.spec_resolve(id) == Err::<O, Error>(e),
            },
    {
        let ix: usize = match id.decode() {
            Some(v) => v,
            None => {
                return Err(Error::FromIdFailed);
            },
        };
        if ix >= self.interned.len() {
            return Err(Error::InvalidId);
        }
        match &self.interned[ix] {
            Slot::Occupied(v) => Ok(v),
            Slot::Vacant(_) => Err(Error::InvalidId),
        }
    }
}

impl<O, I, M> ArenaSet<O, I, M> where
    O: InternKey,
    I: InternId + InternKey,
    M: MapBackend<Key = O, Value = I>,
 {
    /// The old slot indices compaction keeps, among the first `n` slots: a
    /// slot survives when it is occupied and both its old index and its new
    /// densely renumbered index can be encoded as identifiers.
    pub open spec fn kept_indices(s: Seq<Slot<O>>, n: int) -> Seq<int>
        decreases n,
    {
        if n <= 0 {
            Seq::empty()
        } else {
            let pre = Self::kept_indices(s, n - 1);
            if s[n - 1] is Occupied && I::spec_encode((n - 1) as usize) is Some
                && I::spec_encode(pre.len() as usize) is Some {
                pre.push(n - 1)
            } else {
                pre
            }
        }
    }

    /// The index contents after compaction of the first `n` slots: each
    /// surviving content, mapped to the identifier of its new index.
    pub open spec fn compact_contents(s: Seq<Slot<O>>, n: int) -> Map<
        <O as InternKey>::Content,
        I,
    >
        decreases n,
    {
        if n <= 0 {
            Map::empty()
        } else {
            let pre = Self::compact_contents(s, n - 1);
            let kept = Self::kept_indices(s, n - 1);
            if s[n - 1] is Occupied && I::spec_encode((n - 1) as usize) is Some
                && I::spec_encode(kept.len() as usize) is Some {
                pre.insert(
                    s[n - 1]->Occupied_0.content(),
                    I::spec_encode(kept.len() as usize).unwrap(),
                )
            } else {
                pre
            }
        }
    }

    /// The remap compaction reports over the first `n` slots: the content of
    /// each surviving old identifier, mapped to its new identifier.
    pub open spec fn compact_remap(s: Seq<Slot<O>>, n: int) -> Map<<I as InternKey>::Content, I>
        decreases n,
    {
        if n <= 0 {
            Map::empty()
        } else {
            let pre = Self::compact_remap(s, n - 1);
            let kept = Self::kept_indices(s, n - 1);
            if s[n - 1] is Occupied && I::spec_encode((n - 1) as usize) is Some
                && I::spec_encode(kept.len() as usize) is Some {
                pre.insert(
                    I::spec_encode((n - 1) as usize).unwrap().content(),
                    I::spec_encode(kept.len() as usize).unwrap(),
                )
            } else {
                pre
            }
        }
    }

    /// The part of the index not yet visited by compaction: the entries
    /// whose identifiers decode to a slot index of at least `ix`.
    spec fn pending_contents(&self, ix: int) -> Map<<O as InternKey>::Content, I> {
        Map::new(
            |c: <O as InternKey>::Content|
                self.contents().contains_key(c) && self.contents()[c].spec_decode().unwrap()
                    >= ix,
            |c: <O as InternKey>::Content| self.contents()[c],
        )
    }

    /// How one compaction step moves an entry out of the pending part.
    proof fn lemma_pending_shift(pre: Self, ix: int)
        requires
            pre.inv(),
            pre.interned@.len() <= usize::MAX,
            0 <= ix < pre.interned@.len(),
        ensures
            pre.interned@[ix] is Vacant ==> pre.pending_contents(ix + 1) == pre.pending_contents(
                ix,
            ),
            pre.interned@[ix] is Occupied ==> pre.pending_contents(ix + 1)
                == pre.pending_contents(ix).remove(pre.interned@[ix]->Occupied_0.content()),
    {
        if pre.interned@[ix] is Vacant {
            assert forall|c: <O as InternKey>::Content| #[trigger]
                pre.pending_contents(ix).contains_key(c) implies pre.pending_contents(
                ix + 1,
            ).contains_key(c) by {
                let d = pre.contents()[c].spec_decode().unwrap();
                if d == ix {
                    assert(pre.interned@[d as int] is Occupied);
                    assert(false);
                }
            };
            assert(pre.pending_contents(ix + 1) =~= pre.pending_contents(ix));
        } else {
            let c0 = pre.interned@[ix]->Occupied_0.content();
            assert(pre.contents().contains_key(c0));
            assert(pre.contents()[c0].spec_decode() == Some(ix as usize));
            assert forall|c: <O as InternKey>::Content| #[trigger]
                pre.pending_contents(ix).contains_key(c) && c != c0 implies pre.pending_contents(
                ix + 1,
            ).contains_key(c) by {
                let d = pre.contents()[c].spec_decode().unwrap();
                if d == ix {
                    assert(pre.interned@[d as int]->Occupied_0.content() == c);
                    assert(false);
                }
            };
            assert(pre.pending_contents(ix + 1) =~= pre.pending_contents(ix).remove(c0));
        }
    }

    /// What the compaction specs guarantee about the first `n` slots: kept
    /// indices are occupied positions below `n`, every surviving content is
    /// mapped to the identifier of its position among the survivors, and the
    /// compacted index has exactly one entry per survivor.
    proof fn lemma_compact_props(s: Seq<Slot<O>>, n: int)
        requires
            0 <= n <= s.len(),
            s.len() <= usize::MAX,
            forall|i: int, j: int|
                0 <= i < j < s.len() && (#[trigger] s[i]) is Occupied && (#[trigger] s[j])
                    is Occupied ==> s[i]->Occupied_0.content() != s[j]->Occupied_0.content(),
        ensures
            ({
                let kept = Self::kept_indices(s, n);
                let cc = Self::compact_contents(s, n);
                &&& kept.len() <= n
                &&& (forall|k: int| 0 <= k < kept.len() ==> 0 <= (#[trigger] kept[k]) < n)
                &&& (forall|k: int|
                    0 <= k < kept.len() ==> (#[trigger] s[kept[k]]) is Occupied)
                &&& (forall|k: int|
                    0 <= k < kept.len() ==> {
                        &&& I::spec_encode(k as usize) is Some
                        &&& cc.contains_key((#[trigger] s[kept[k]])->Occupied_0.content())
                        &&& cc[s[kept[k]]->Occupied_0.content()] == I::spec_encode(
                            k as usize,
                        ).unwrap()
                    })
                &&& (forall|c: <O as InternKey>::Content| #[trigger]
                    cc.contains_key(c) ==> exists|k: int|
                        0 <= k < kept.len() && (#[trigger] s[kept[k]])->Occupied_0.content()
                            == c)
                &&& cc.dom().finite()
                &&& cc.len() == kept.len()
            }),
        decreases n,
    {
        broadcast use vstd::set::axiom_set_insert_len;

        if n > 0 {
            Self::lemma_compact_props(s, n - 1);
            let kept0 = Self::kept_indices(s, n - 1);
            let cc0 = Self::compact_contents(s, n - 1);
            let kept = Self::kept_indices(s, n);
            let cc = Self::compact_contents(s, n);
            if s[n - 1] is Occupied && I::spec_encode((n - 1) as usize) is Some
                && I::spec_encode(kept0.len() as usize) is Some {
                let c_new = s[n - 1]->Occupied_0.content();
                assert(!cc0.contains_key(c_new)) by {
                    if cc0.contains_key(c_new) {
                        let k = choose|k: int|
                            0 <= k < kept0.len() && (#[trigger] s[kept0[k]])
                                ->Occupied_0.content() == c_new;
                        assert(s[kept0[k]] is Occupied);
                        assert(kept0[k] < n - 1);
                        assert(false);
                    }
                };
                assert(cc.dom() =~= cc0.dom().insert(c_new));
                assert forall|k: int| 0 <= k < kept.len() implies {
                    &&& I::spec_encode(k as usize) is Some
                    &&& cc.contains_key((#[trigger] s[kept[k]])->Occupied_0.content())
                    &&& cc[s[kept[k]]->Occupied_0.content()] == I::spec_encode(
                        k as usize,
                    ).unwrap()
                } by {
                    if k < kept0.len() {
                        assert(s[kept0[k]] is Occupied);
                        assert(s[kept[k]]->Occupied_0.content() != c_new);
                    }
                };
                assert forall|c: <O as InternKey>::Content| #[trigger]
                    cc.contains_key(c) implies exists|k: int|
                    0 <= k < kept.len() && (#[trigger] s[kept[k]])->Occupied_0.content()
                        == c by {
                    if c == c_new {
                        assert(kept[kept.len() - 1] == n - 1);
                        assert(s[kept[kept.len() - 1]]->Occupied_0.content() == c);
                    } else {
                        let k = choose|k: int|
                            0 <= k < kept0.len() && (#[trigger] s[kept0[k]])
                                ->Occupied_0.content() == c;
                        assert(s[kept[k]]->Occupied_0.content() == c);
                    }
                };
            }
        }
    }

    /// The invariant holds again after compaction rebuilt the slot storage
    /// from the surviving values and reset the free list.
    proof fn lemma_inv_after_shrink(pre: Self, post: Self)
        requires
            pre.inv(),
            pre.interned@.len() <= usize::MAX,
            post.map.wf(),
            post.contents() == Self::compact_contents(pre.interned@, pre.interned@.len() as int),
            post.max_idx == pre.max_idx,
            post.free@ == Seq::<int>::empty(),
            post.head == FREE_END,
            post.interned@.len() == Self::kept_indices(
                pre.interned@,
                pre.interned@.len() as int,
            ).len(),
            forall|k: int|
                0 <= k < post.interned@.len() ==> #[trigger] post.interned@[k]
                    == pre.interned@[Self::kept_indices(
                    pre.interned@,
                    pre.interned@.len() as int,
                )[k]],
        ensures
            post.inv(),
    {
        let s = pre.interned@;
        let n = s.len() as int;
        let kept = Self::kept_indices(s, n);
        let cc = Self::compact_contents(s, n);
        Self::lemma_occupied_distinct(pre);
        Self::lemma_compact_props(s, n);
        assert(post.contents().dom().finite());
        assert forall|ix2: int|
            0 <= ix2 < post.interned@.len() && (#[trigger] post.interned@[ix2])
                is Occupied implies {
            let c = post.interned@[ix2]->Occupied_0.content();
            &&& post.contents().contains_key(c)
            &&& post.contents()[c].spec_decode() == Some(ix2 as usize)
        } by {
            assert(s[kept[ix2]] is Occupied);
            assert(cc.contains_key(s[kept[ix2]]->Occupied_0.content()));
            I::lemma_encode_decode(ix2 as usize);
        };
        assert forall|c: <O as InternKey>::Content| #[trigger]
            post.contents().contains_key(c) implies {
            let d = post.contents()[c].spec_decode();
            &&& d is Some
            &&& d.unwrap() < post.interned@.len()
            &&& post.interned@[d.unwrap() as int] is Occupied
            &&& post.interned@[d.unwrap() as int]->Occupied_0.content() == c
        } by {
            let k = choose|k: int|
                0 <= k < kept.len() && (#[trigger] s[kept[k]])->Occupied_0.content() == c;
            assert(cc[c] == I::spec_encode(k as usize).unwrap());
            I::lemma_encode_decode(k as usize);
            assert(post.interned@[k] == s[kept[k]]);
        };
        assert(cc.dom().subset_of(pre.contents().dom())) by {
            assert forall|c: <O as InternKey>::Content| #[trigger]
                cc.dom().contains(c) implies pre.contents().dom().contains(c) by {
                let k = choose|k: int|
                    0 <= k < kept.len() && (#[trigger] s[kept[k]])->Occupied_0.content() == c;
                assert(s[kept[k]] is Occupied);
                assert(pre.contents().contains_key(c));
            };
        };
        vstd::set_lib::lemma_len_subset(cc.dom(), pre.contents().dom());
    }

    /// Shrink the storage by dropping every vacant slot, keeping the
    /// occupied slots in their relative order under new, densely renumbered
    /// identifiers. Returns the remap from old identifiers to new ones. A
    /// surviving value whose old or new index cannot be encoded is dropped
    /// from the arena and from the remap instead. Afterwards no slot is
    /// vacant.
    pub fn shrink<T: MapBackend<Key = I, Value = I>>(&mut self) -> (remap: T)
        requires
            old(self).inv(),
        ensures
            final(self).inv(),
            final(self).max_index() == old(self).max_index(),
            remap.wf(),
            remap.contents() == Self::compact_remap(
                old(self).slots(),
                old(self).slots().len() as int,
            ),
            final(self).contents() == Self::compact_contents(
                old(self).slots(),
                old(self).slots().len() as int,
            ),
            final(self).free_list() == Seq::<int>::empty(),
            ({
                let kept = Self::kept_indices(old(self).slots(), old(self).slots().len() as int);
                &&& final(self).slots().len() == kept.len()
                &&& (forall|k: int|
                    0 <= k < kept.len() ==> #[trigger] final(self).slots()[k] == old(
                        self,
                    ).slots()[kept[k]])
            }),
    {
        let ghost s = old(self).interned@;
        let mut taken: Vec<Slot<O>> = Vec::new();
        core::mem::swap(&mut taken, &mut self.interned);
        let n: usize = taken.len();
        let mut remap: T = T::new();
        let cnt: usize = self.map.len();
        let mut shrunk: Vec<Slot<O>> = Vec::with_capacity(cnt);
        proof {
            Self::lemma_occupied_distinct(*old(self));
            assert forall|c: <O as InternKey>::Content| #[trigger]
                old(self).contents().contains_key(c) implies old(self).pending_contents(
                0,
            ).contains_key(c) by {}
            assert(self.map.contents() =~= Self::compact_contents(s, 0).union_prefer_right(
                old(self).pending_contents(0),
            ));
        }
        let mut ix: usize = 0;
        while ix < n
            invariant
                old(self).inv(),
                self.map.wf(),
                remap.wf(),
                s == old(self).interned@,
                n == s.len(),
                s.len() <= usize::MAX,
                forall|i: int, j: int|
                    0 <= i < j < s.len() && (#[trigger] s[i]) is Occupied && (#[trigger] s[j])
                        is Occupied ==> s[i]->Occupied_0.content() != s[j]
                        ->Occupied_0.content(),
                n == taken@.len(),
                0 <= ix <= n,
                forall|j: int| ix <= j < n ==> #[trigger] taken@[j] == s[j],
                shrunk@.len() == Self::kept_indices(s, ix as int).len(),
                forall|k: int|
                    0 <= k < shrunk@.len() ==> #[trigger] shrunk@[k] == s[Self::kept_indices(
                        s,
                        ix as int,
                    )[k]],
                self.map.contents() == Self::compact_contents(s, ix as int).union_prefer_right(
                    old(self).pending_contents(ix as int),
                ),
                remap.contents() == Self::compact_remap(s, ix as int),
                self.max_idx == old(self).max_idx,
                self.head == old(self).head,
                self.free@ == old(self).free@,
            decreases n - ix,
        {
            let ghost kept0 = Self::kept_indices(s, ix as int);
            proof {
                Self::lemma_compact_props(s, ix as int);
                Self::lemma_pending_shift(*old(self), ix as int);
            }
            let mut tmp: Slot<O> = Slot::Vacant(0);
            core::mem::swap(&mut tmp, &mut taken[ix]);
            match tmp {
                Slot::Occupied(item) => {
                    let ghost c = item.content();
                    proof {
                        assert(s[ix as int] is Occupied);
                        assert(old(self).contents().contains_key(c));
                        assert(old(self).contents()[c].spec_decode() == Some(ix));
                    }
                    let old_id_opt: Option<I> = I::encode(ix);
                    let new_id_opt: Option<I> = I::encode(shrunk.len());
                    match (old_id_opt, new_id_opt) {
                        (Some(old_id), Some(new_id)) => {
                            let key = item.duplicate();
                            let _ = self.map.insert(key, new_id);
                            let _ = remap.insert(old_id, new_id);
                            shrunk.push(Slot::Occupied(item));
                            proof {
                                assert(!Self::compact_contents(s, ix as int).contains_key(c))
                                    by {
                                    if Self::compact_contents(s, ix as int).contains_key(c) {
                                        let k = choose|k: int|
                                            0 <= k < kept0.len() && (#[trigger] s[kept0[k]])
                                                ->Occupied_0.content() == c;
                                        assert(s[kept0[k]] is Occupied);
                                        assert(kept0[k] < ix as int);
                                        assert(false);
                                    }
                                };
                                assert(Self::kept_indices(s, ix + 1) =~= kept0.push(
                                    ix as int,
                                ));
                                assert(self.map.contents() =~= Self::compact_contents(
                                    s,
                                    ix + 1,
                                ).union_prefer_right(old(self).pending_contents(ix + 1)));
                            }
                        },
                        _ => {
                            let _ = self.map.remove(&item);
                            proof {
                                assert(!Self::compact_contents(s, ix as int).contains_key(c))
                                    by {
                                    if Self::compact_contents(s, ix as int).contains_key(c) {
                                        let k = choose|k: int|
                                            0 <= k < kept0.len() && (#[trigger] s[kept0[k]])
                                                ->Occupied_0.content() == c;
                                        assert(s[kept0[k]] is Occupied);
                                        assert(kept0[k] < ix as int);
                                        assert(false);
                                    }
                                };
                                assert(Self::kept_indices(s, ix + 1) =~= kept0);
                                assert(self.map.contents() =~= Self::compact_contents(
                                    s,
                                    ix + 1,
                                ).union_prefer_right(old(self).pending_contents(ix + 1)));
                            }
                        },
                    }
                },
                Slot::Vacant(_) => {
                    proof {
                        assert(s[ix as int] is Vacant);
                        assert(Self::kept_indices(s, ix + 1) =~= kept0);
                        assert(self.map.contents() =~= Self::compact_contents(
                            s,
                            ix + 1,
                        ).union_prefer_right(old(self).pending_contents(ix + 1)));
                    }
                },
            }
            ix += 1;
        }
        self.interned = shrunk;
        self.head = FREE_END;
        self.free = Ghost(Seq::empty());
        self.map.shrink_to_fit();
        proof {
            assert forall|c: <O as InternKey>::Content| #[trigger]
                old(self).pending_contents(n as int).contains_key(c) implies false by {
                assert(old(self).contents().contains_key(c));
                let d = old(self).contents()[c].spec_decode().unwrap();
                assert(d < n);
            };
            assert(self.map.contents() =~= Self::compact_contents(s, n as int));
            Self::lemma_inv_after_shrink(*old(self), *self);
        }
        remap
    }
}

/// Specialization of [`ArenaSet`] for owned handles around an inner owned
/// value (a shared pointer to a string, say): interning takes the inner
/// value and builds the handle, and deduplication works on the innermost
/// content.
pub struct StadiumSet<O, I = usize, M = VecMap<O, I>>(pub ArenaSet<O, I, M>);

impl<O, I, M> StadiumSet<O, I, M> where
    O: StadiumKey,
    I: InternId,
    M: MapBackend<Key = O, Value = I>,
 {
    /// Analogue of [`ArenaSet::intern`]: wraps the inner value into the
    /// handle type, then interns the handle by its content.
    pub fn intern(&mut self, item: <O as StadiumKey>::Inner) -> (r: Result<I, Error>)
        requires
            old(self).0.inv(),
        ensures
            final(self).0.inv(),
            final(self).0.max_index() == old(self).0.max_index(),
            match r {
                Ok(id) => {
                    if old(self).0.contents().contains_key(item.content()) {
                        &&& final(self).0 == old(self).0
                        &&& id == old(self).0.contents()[item.content()]
                    } else {
                        &&& final(self).0.contents() == old(self).0.contents().insert(
                            item.content(),
                            id,
                        )
                        &&& final(self).0.contents().len() == old(self).0.contents().len() + 1
                        &&& I::spec_encode(old(self).0.alloc_index()) == Some(id)
                        &&& (final(self).0.spec_resolve(id) matches Ok(v) && v.content()
                            == item.content())
                        &&& (forall|c: <O as InternKey>::Content| #[trigger]
                            old(self).0.contents().contains_key(c) ==> old(
                                self,
                            ).0.contents()[c] != id)
                    }
                },
                Err(e) => {
                    &&& !old(self).0.contents().contains_key(item.content())
                    &&& final(self).0.contents() == old(self).0.contents()
                    &&& (e == Error::IdOverflow || e == Error::ToIdFailed)
                    &&& (e == Error::IdOverflow <==> old(self).0.is_full())
                    &&& (e == Error::ToIdFailed <==> !old(self).0.is_full() && I::spec_encode(
                        old(self).0.alloc_index(),
                    ) is None)
                },
            },
    {
        self.0.intern(O::wrap(item))
    }

    /// Analogue of [`ArenaSet::disintern`].
    pub fn disintern(&mut self, id: I) -> (r: Result<O, Error>)
        requires
            old(self).0.inv(),
        ensures
            final(self).0.inv(),
            final(self).0.max_index() == old(self).0.max_index(),
            match r {
                Ok(v) => {
                    &&& old(self).0.spec_resolve(id) == Ok::<O, Error>(v)
                    &&& old(self).0.contents().contains_key(v.content())
                    &&& final(self).0.contents() == old(self).0.contents().remove(v.content())
                    &&& final(self).0.contents().len() == old(self).0.contents().len() - 1
                    &&& final(self).0.spec_resolve(id) == Err::<O, Error>(Error::InvalidId)
                },
                Err(e) => {
                    &&& old(self).0.spec_resolve(id) == Err::<O, Error>(e)
                    &&& final(self).0 == old(self).0
                },
            },
    {
        self.0.disintern(id)
    }

    /// Analogue of [`ArenaSet::resolve`].
    pub fn resolve(&self, id: I) -> (r: Result<&O, Error>)
        ensures
            match r {
                Ok(v) => self.0.spec_resolve(id) == Ok::<O, Error>(*v),
                Err(e) => self.0.spec_resolve(id) == Err::<O, Error>(e),
            },
    {
        self.0.resolve(id)
    }

    /// Analogue of [`ArenaSet::shrink`].
    pub fn shrink<T: MapBackend<Key = I, Value = I>>(&mut self) -> (remap: T) where
        I: InternKey,

        requires
            old(self).0.inv(),
        ensures
            final(self).0.inv(),
            final(self).0.max_index() == old(self).0.max_index(),
            remap.wf(),
            remap.contents() == ArenaSet::<O, I, M>::compact_remap(
                old(self).0.slots(),
                old(self).0.slots().len() as int,
            ),
            final(self).0.contents() == ArenaSet::<O, I, M>::compact_contents(
                old(self).0.slots(),
                old(self).0.slots().len() as int,
            ),
            final(self).0.free_list() == Seq::<int>::empty(),
    {
        self.0.shrink()
    }
}

} // verus!
