//! A plain associative container over a vector of pairs, keyed by content.
//! It backs the arena by default: a flat vector with pairwise-distinct key
//! contents represents exactly one mathematical map.

use crate::traits::{InternKey, MapBackend};
use vstd::prelude::*;

verus! {

/// The mathematical map a sequence of pairs represents: later pairs win.
pub open spec fn assoc_map<K: InternKey, V>(s: Seq<(K, V)>) -> Map<
    <K as InternKey>::Content,
    V,
>
    decreases s.len(),
{
    if s.len() == 0 {
        Map::empty()
    } else {
        assoc_map(s.drop_last()).insert(s.last().0.content(), s.last().1)
    }
}

/// No two pairs share a key content.
pub open spec fn distinct_keys<K: InternKey, V>(s: Seq<(K, V)>) -> bool {
    forall|i: int, j: int|
        0 <= i < j < s.len() ==> s[i].0.content() != s[j].0.content()
}

proof fn lemma_assoc_contains<K: InternKey, V>(s: Seq<(K, V)>, c: <K as InternKey>::Content)
    ensures
        assoc_map(s).contains_key(c) <==> exists|i: int|
            0 <= i < s.len() && s[i].0.content() == c,
    decreases s.len(),
{
    if s.len() > 0 {
        lemma_assoc_contains(s.drop_last(), c);
        if assoc_map(s).contains_key(c) && s.last().0.content() != c {
            let i = choose|i: int| 0 <= i < s.drop_last().len() && s.drop_last()[i].0.content()
                == c;
            assert(s[i].0.content() == c);
        }
        if exists|i: int| 0 <= i < s.len() && s[i].0.content() == c {
            let i = choose|i: int| 0 <= i < s.len() && s[i].0.content() == c;
            if i < s.len() - 1 {
                assert(s.drop_last()[i].0.content() == c);
            }
        }
    }
}

proof fn lemma_assoc_index<K: InternKey, V>(s: Seq<(K, V)>, i: int)
    requires
        distinct_keys(s),
        0 <= i < s.len(),
    ensures
        assoc_map(s).contains_key(s[i].0.content()),
        assoc_map(s)[s[i].0.content()] == s[i].1,
    decreases s.len(),
{
    if i == s.len() - 1 {
    } else {
        lemma_assoc_index(s.drop_last(), i);
        assert(s.drop_last()[i] == s[i]);
    }
}

proof fn lemma_assoc_finite<K: InternKey, V>(s: Seq<(K, V)>)
    ensures
        assoc_map(s).dom().finite(),
    decreases s.len(),
{
    if s.len() > 0 {
        lemma_assoc_finite(s.drop_last());
    }
}

proof fn lemma_assoc_len<K: InternKey, V>(s: Seq<(K, V)>)
    requires
        distinct_keys(s),
    ensures
        assoc_map(s).dom().finite(),
        assoc_map(s).len() == s.len(),
    decreases s.len(),
{
    lemma_assoc_finite(s);
    if s.len() > 0 {
        lemma_assoc_len(s.drop_last());
        lemma_assoc_contains(s.drop_last(), s.last().0.content());
        assert(forall|i: int| 0 <= i < s.drop_last().len() ==> s.drop_last()[i] == s[i]);
        assert(!assoc_map(s.drop_last()).contains_key(s.last().0.content()));
        assert(assoc_map(s).dom() =~= assoc_map(s.drop_last()).dom().insert(
            s.last().0.content(),
        ));
        vstd::set::axiom_set_insert_len(
            assoc_map(s.drop_last()).dom(),
            s.last().0.content(),
        );
    }
}

proof fn lemma_assoc_update<K: InternKey, V>(s: Seq<(K, V)>, i: int, p: (K, V))
    requires
        distinct_keys(s),
        0 <= i < s.len(),
        p.0.content() == s[i].0.content(),
    ensures
        assoc_map(s.update(i, p)) == assoc_map(s).insert(p.0.content(), p.1),
        distinct_keys(s.update(i, p)),
    decreases s.len(),
{
    let c = p.0.content();
    if i == s.len() - 1 {
        assert(s.update(i, p).drop_last() =~= s.drop_last());
        assert(assoc_map(s.update(i, p)) =~= assoc_map(s).insert(c, p.1));
    } else {
        lemma_assoc_update(s.drop_last(), i, p);
        assert(s.update(i, p).drop_last() =~= s.drop_last().update(i, p));
        assert(s.update(i, p).last() == s.last());
        assert(assoc_map(s.update(i, p)) == assoc_map(s.drop_last()).insert(c, p.1).insert(
            s.last().0.content(),
            s.last().1,
        ));
        assert(assoc_map(s.update(i, p)) =~= assoc_map(s).insert(c, p.1));
    }
}

proof fn lemma_assoc_remove<K: InternKey, V>(s: Seq<(K, V)>, i: int)
    requires
        distinct_keys(s),
        0 <= i < s.len(),
    ensures
        assoc_map(s.remove(i)) == assoc_map(s).remove(s[i].0.content()),
        distinct_keys(s.remove(i)),
    decreases s.len(),
{
    let c = s[i].0.content();
    lemma_assoc_contains(s.drop_last(), c);
    if i == s.len() - 1 {
        assert(s.remove(i) =~= s.drop_last());
        assert(!assoc_map(s.drop_last()).contains_key(c));
        assert(assoc_map(s.remove(i)) =~= assoc_map(s).remove(c));
    } else {
        lemma_assoc_remove(s.drop_last(), i);
        assert(s.remove(i).drop_last() =~= s.drop_last().remove(i));
        assert(s.remove(i).last() == s.last());
        assert(assoc_map(s.remove(i)) == assoc_map(s.drop_last()).remove(c).insert(
            s.last().0.content(),
            s.last().1,
        ));
        assert(assoc_map(s.remove(i)) =~= assoc_map(s).remove(c));
    }
}

/// The default container behind the arena: a vector of key-value pairs whose
/// key contents are pairwise distinct.
pub struct VecMap<K, V> {
    pairs: Vec<(K, V)>,
}

impl<K: InternKey, V: Copy> MapBackend for VecMap<K, V> {
    type Key = K;

    type Value = V;

    closed spec fn wf(&self) -> bool {
        distinct_keys(self.pairs@)
    }

    closed spec fn contents(&self) -> Map<<K as InternKey>::Content, V> {
        assoc_map(self.pairs@)
    }

    proof fn lemma_wf_finite(&self) {
        lemma_assoc_finite(self.pairs@);
    }

    fn new() -> (r: Self) {
        VecMap { pairs: Vec::new() }
    }

    fn with_capacity(capacity: usize) -> (r: Self) {
        VecMap { pairs: Vec::with_capacity(capacity) }
    }

    fn len(&self) -> (n: usize) {
        proof {
            lemma_assoc_len(self.pairs@);
        }
        self.pairs.len()
    }

    fn insert(&mut self, key: K, value: V) -> (prev: Option<V>) {
        let n: usize = self.pairs.len();
        let mut i: usize = 0;
        while i < n
            invariant
                n == self.pairs@.len(),
                0 <= i <= n,
                distinct_keys(self.pairs@),
                *self == *old(self),
                forall|j: int| 0 <= j < i ==> self.pairs@[j].0.content() != key.content(),
            decreases n - i,
        {
            if self.pairs[i].0.content_eq(&key) {
                let prev: V = self.pairs[i].1;
                proof {
                    lemma_assoc_index(self.pairs@, i as int);
                    lemma_assoc_update(self.pairs@, i as int, (key, value));
                }
                self.pairs[i] = (key, value);
                return Some(prev);
            }
            i += 1;
        }
        proof {
            lemma_assoc_contains(self.pairs@, key.content());
            let s = self.pairs@.push((key, value));
            assert(s.drop_last() =~= self.pairs@);
        }
        self.pairs.push((key, value));
        None
    }

    fn get(&self, key: &K) -> (r: Option<&V>) {
        let n: usize = self.pairs.len();
        let mut i: usize = 0;
        while i < n
            invariant
                n == self.pairs@.len(),
                0 <= i <= n,
                distinct_keys(self.pairs@),
                forall|j: int| 0 <= j < i ==> self.pairs@[j].0.content() != key.content(),
            decreases n - i,
        {
            if self.pairs[i].0.content_eq(key) {
                proof {
                    lemma_assoc_index(self.pairs@, i as int);
                }
                return Some(&self.pairs[i].1);
            }
            i += 1;
        }
        proof {
            lemma_assoc_contains(self.pairs@, key.content());
        }
        None
    }

    fn remove(&mut self, key: &K) -> (prev: Option<V>) {
        let n: usize = self.pairs.len();
        let mut i: usize = 0;
        while i < n
            invariant
                n == self.pairs@.len(),
                0 <= i <= n,
                distinct_keys(self.pairs@),
                *self == *old(self),
                forall|j: int| 0 <= j < i ==> self.pairs@[j].0.content() != key.content(),
            decreases n - i,
        {
            if self.pairs[i].0.content_eq(key) {
                let prev: V = self.pairs[i].1;
                proof {
                    lemma_assoc_index(self.pairs@, i as int);
                    lemma_assoc_remove(self.pairs@, i as int);
                }
                self.pairs.remove(i);
                return Some(prev);
            }
            i += 1;
        }
        proof {
            lemma_assoc_contains(self.pairs@, key.content());
            assert(assoc_map(self.pairs@).remove(key.content()) =~= assoc_map(self.pairs@));
        }
        None
    }

    fn shrink_to_fit(&mut self) {
    }
}

} // verus!
