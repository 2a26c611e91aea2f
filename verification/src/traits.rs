//! The two capability contracts the arena engine is built against: keys that
//! can be compared and duplicated by content, and the associative container
//! that maps key content to identifiers.

use std::sync::Arc;
use vstd::prelude::*;

verus! {

/// A value the arena can intern.
///
/// The `Content` of a value is the mathematical payload that interning
/// deduplicates on: two values intern to the same identifier exactly when
/// their contents are equal. `duplicate` yields a second owned value with the
/// same content, which the arena stores as the map key, so no borrowed alias
/// into the slot storage is ever needed.
pub trait InternKey: Sized {
    /// The mathematical content that equality of interned values means.
    type Content;

    /// The content of this value.
    spec fn content(&self) -> Self::Content;

    /// Decide content equality.
    fn content_eq(&self, other: &Self) -> (r: bool)
        ensures
            r == (self.content() == other.content()),
    ;

    /// A second owned value with the same content.
    fn duplicate(&self) -> (r: Self)
        ensures
            r.content() == self.content(),
    ;
}

/// A value with one more layer of indirection: an owned handle around an
/// inner owned value, interned by the content of the innermost payload.
pub trait StadiumKey: InternKey {
    /// The inner owned type the handle is built from.
    type Inner: InternKey<Content = Self::Content>;

    /// Build the handle around an inner value, keeping its content.
    fn wrap(inner: Self::Inner) -> (r: Self)
        ensures
            r.content() == inner.content(),
    ;
}

/// The associative container the arena engine depends on.
///
/// `contents` is the mathematical map the container represents, keyed by the
/// content of its keys; `wf` is the container's own well-formedness, which
/// every operation preserves. Any container with these operations and
/// equality semantics on key content qualifies.
pub trait MapBackend: Sized {
    /// The owned key type.
    type Key: InternKey;

    /// The stored value type.
    type Value: Copy;

    /// The container's own well-formedness.
    spec fn wf(&self) -> bool;

    /// The mathematical map the container represents.
    spec fn contents(&self) -> Map<<Self::Key as InternKey>::Content, Self::Value>;

    /// A well-formed container represents a finite map.
    proof fn lemma_wf_finite(&self)
        requires
            self.wf(),
        ensures
            self.contents().dom().finite(),
    ;

    /// Create an empty container.
    fn new() -> (r: Self)
        ensures
            r.wf(),
            r.contents() == Map::<<Self::Key as InternKey>::Content, Self::Value>::empty(),
    ;

    /// Create an empty container with a capacity hint.
    fn with_capacity(capacity: usize) -> (r: Self)
        ensures
            r.wf(),
            r.contents() == Map::<<Self::Key as InternKey>::Content, Self::Value>::empty(),
    ;

    /// The number of pairs in the container.
    fn len(&self) -> (n: usize)
        requires
            self.wf(),
        ensures
            n == self.contents().len(),
    ;

    /// Insert a pair. An entry whose key has equal content is replaced, and
    /// its previous value returned.
    fn insert(&mut self, key: Self::Key, value: Self::Value) -> (prev: Option<Self::Value>)
        requires
            old(self).wf(),
        ensures
            final(self).wf(),
            final(self).contents() == old(self).contents().insert(key.content(), value),
            prev == (if old(self).contents().contains_key(key.content()) {
                Some(old(self).contents()[key.content()])
            } else {
                None::<Self::Value>
            }),
    ;

    /// Look a value up by key content.
    fn get(&self, key: &Self::Key) -> (r: Option<&Self::Value>)
        requires
            self.wf(),
        ensures
            match r {
                Some(v) => self.contents().contains_key(key.content()) && *v
                    == self.contents()[key.content()],
                None => !self.contents().contains_key(key.content()),
            },
    ;

    /// Remove a pair by key content, returning its value.
    fn remove(&mut self, key: &Self::Key) -> (prev: Option<Self::Value>)
        requires
            old(self).wf(),
        ensures
            final(self).wf(),
            final(self).contents() == old(self).contents().remove(key.content()),
            prev == (if old(self).contents().contains_key(key.content()) {
                Some(old(self).contents()[key.content()])
            } else {
                None::<Self::Value>
            }),
    ;

    /// Reduce memory usage as far as the container can; the contents stay.
    fn shrink_to_fit(&mut self)
        requires
            old(self).wf(),
        ensures
            final(self).wf(),
            final(self).contents() == old(self).contents(),
    ;
}

/// Relies on `Arc::clone`: the new handle refers to the same allocation as
/// the old one, so both carry the same value.
#[verifier::external_body]
fn duplicate_arc<T>(a: &Arc<T>) -> (r: Arc<T>)
    ensures
        r == *a,
{
    Arc::clone(a)
}

impl InternKey for String {
    type Content = Seq<char>;

    open spec fn content(&self) -> Seq<char> {
        self@
    }

    fn content_eq(&self, other: &Self) -> (r: bool) {
        self.eq(other)
    }

    fn duplicate(&self) -> (r: Self) {
        self.clone()
    }
}

impl InternKey for Vec<u8> {
    type Content = Seq<u8>;

    open spec fn content(&self) -> Seq<u8> {
        self@
    }

    fn content_eq(&self, other: &Self) -> (r: bool) {
        if self.len() != other.len() {
            return false;
        }
        let n: usize = self.len();
        let mut i: usize = 0;
        while i < n
            invariant
                n == self@.len(),
                n == other@.len(),
                0 <= i <= n,
                forall|j: int| 0 <= j < i ==> self@[j] == other@[j],
            decreases n - i,
        {
            if self[i] != other[i] {
                return false;
            }
            i += 1;
        }
        proof {
            assert(self@ =~= other@);
        }
        true
    }

    fn duplicate(&self) -> (r: Self) {
        let n: usize = self.len();
        let mut r: Vec<u8> = Vec::with_capacity(n);
        let mut i: usize = 0;
        while i < n
            invariant
                n == self@.len(),
                0 <= i <= n,
                r@ == self@.subrange(0, i as int),
            decreases n - i,
        {
            r.push(self[i]);
            proof {
                assert(r@ =~= self@.subrange(0, i + 1 as int));
            }
            i += 1;
        }
        proof {
            assert(r@ =~= self@);
        }
        r
    }
}

impl InternKey for Arc<String> {
    type Content = Seq<char>;

    open spec fn content(&self) -> Seq<char> {
        self@
    }

    fn content_eq(&self, other: &Self) -> (r: bool) {
        let a: &String = &**self;
        let b: &String = &**other;
        a.eq(b)
    }

    fn duplicate(&self) -> (r: Self) {
        duplicate_arc(self)
    }
}

impl StadiumKey for Arc<String> {
    type Inner = String;

    fn wrap(inner: String) -> (r: Self) {
        Arc::new(inner)
    }
}

impl InternKey for Arc<Vec<u8>> {
    type Content = Seq<u8>;

    open spec fn content(&self) -> Seq<u8> {
        self@
    }

    fn content_eq(&self, other: &Self) -> (r: bool) {
        let a: &Vec<u8> = &**self;
        let b: &Vec<u8> = &**other;
        a.content_eq(b)
    }

    fn duplicate(&self) -> (r: Self) {
        duplicate_arc(self)
    }
}

impl StadiumKey for Arc<Vec<u8>> {
    type Inner = Vec<u8>;

    fn wrap(inner: Vec<u8>) -> (r: Self) {
        Arc::new(inner)
    }
}

impl InternKey for usize {
    type Content = usize;

    open spec fn content(&self) -> usize {
        *self
    }

    fn content_eq(&self, other: &Self) -> (r: bool) {
        *self == *other
    }

    fn duplicate(&self) -> (r: Self) {
        *self
    }
}

impl InternKey for u8 {
    type Content = u8;

    open spec fn content(&self) -> u8 {
        *self
    }

    fn content_eq(&self, other: &Self) -> (r: bool) {
        *self == *other
    }

    fn duplicate(&self) -> (r: Self) {
        *self
    }
}

impl InternKey for u16 {
    type Content = u16;

    open spec fn content(&self) -> u16 {
        *self
    }

    fn content_eq(&self, other: &Self) -> (r: bool) {
        *self == *other
    }

    fn duplicate(&self) -> (r: Self) {
        *self
    }
}

impl InternKey for u32 {
    type Content = u32;

    open spec fn content(&self) -> u32 {
        *self
    }

    fn content_eq(&self, other: &Self) -> (r: bool) {
        *self == *other
    }

    fn duplicate(&self) -> (r: Self) {
        *self
    }
}

impl InternKey for crate::id::NonZeroU8Id {
    type Content = crate::id::NonZeroU8Id;

    open spec fn content(&self) -> crate::id::NonZeroU8Id {
        *self
    }

    fn content_eq(&self, other: &Self) -> (r: bool) {
        *self == *other
    }

    fn duplicate(&self) -> (r: Self) {
        *self
    }
}

} // verus!
