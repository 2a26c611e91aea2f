//! The identifier codec: a bounded identifier type converts to and from a
//! plain array index, and both directions may fail.

use vstd::prelude::*;

verus! {

/// Contract for a configurable bounded identifier type.
///
/// An implementor exposes the plain indices of its smallest and largest
/// identifiers (`None` when a bound has no index representation), and the two
/// directional conversions between identifiers and indices. Encoding an index
/// and decoding the result must give the index back.
pub trait InternId: Sized + Copy {
    /// The plain index of the smallest identifier, when representable.
    spec fn spec_min_index() -> Option<usize>;

    /// The plain index of the largest identifier, when representable.
    spec fn spec_max_index() -> Option<usize>;

    /// The identifier that stands for a plain index, when one exists.
    spec fn spec_encode(ix: usize) -> Option<Self>;

    /// The plain index an identifier stands for, when one exists.
    spec fn spec_decode(self) -> Option<usize>;

    /// When both bounds have an index, the smallest comes first.
    proof fn lemma_bounds_ordered()
        ensures
            Self::spec_min_index() matches Some(mn) ==> Self::spec_max_index() matches Some(mx)
                ==> mn <= mx,
    ;

    /// Decoding undoes encoding.
    proof fn lemma_encode_decode(ix: usize)
        ensures
            Self::spec_encode(ix) matches Some(id) ==> id.spec_decode() == Some(ix),
    ;

    fn min_index() -> (r: Option<usize>)
        ensures
            r == Self::spec_min_index(),
    ;

    fn max_index() -> (r: Option<usize>)
        ensures
            r == Self::spec_max_index(),
    ;

    fn encode(ix: usize) -> (r: Option<Self>)
        ensures
            r == Self::spec_encode(ix),
    ;

    fn decode(self) -> (r: Option<usize>)
        ensures
            r == self.spec_decode(),
    ;
}

impl InternId for usize {
    open spec fn spec_min_index() -> Option<usize> {
        Some(0)
    }

    open spec fn spec_max_index() -> Option<usize> {
        Some(usize::MAX)
    }

    open spec fn spec_encode(ix: usize) -> Option<usize> {
        Some(ix)
    }

    open spec fn spec_decode(self) -> Option<usize> {
        Some(self)
    }

    proof fn lemma_bounds_ordered() {
    }

    proof fn lemma_encode_decode(ix: usize) {
    }

    fn min_index() -> Option<usize> {
        Some(0)
    }

    fn max_index() -> Option<usize> {
        Some(usize::MAX)
    }

    fn encode(ix: usize) -> Option<usize> {
        Some(ix)
    }

    fn decode(self) -> Option<usize> {
        Some(self)
    }
}

impl InternId for u8 {
    open spec fn spec_min_index() -> Option<usize> {
        Some(0)
    }

    open spec fn spec_max_index() -> Option<usize> {
        Some(u8::MAX as usize)
    }

    open spec fn spec_encode(ix: usize) -> Option<u8> {
        if ix <= u8::MAX as usize {
            Some(ix as u8)
        } else {
            None
        }
    }

    open spec fn spec_decode(self) -> Option<usize> {
        Some(self as usize)
    }

    proof fn lemma_bounds_ordered() {
    }

    proof fn lemma_encode_decode(ix: usize) {
    }

    fn min_index() -> Option<usize> {
        Some(0)
    }

    fn max_index() -> Option<usize> {
        Some(u8::MAX as usize)
    }

    fn encode(ix: usize) -> Option<u8> {
        if ix <= u8::MAX as usize {
            Some(ix as u8)
        } else {
            None
        }
    }

    fn decode(self) -> Option<usize> {
        Some(self as usize)
    }
}

impl InternId for u16 {
    open spec fn spec_min_index() -> Option<usize> {
        Some(0)
    }

    open spec fn spec_max_index() -> Option<usize> {
        Some(u16::MAX as usize)
    }

    open spec fn spec_encode(ix: usize) -> Option<u16> {
        if ix <= u16::MAX as usize {
            Some(ix as u16)
        } else {
            None
        }
    }

    open spec fn spec_decode(self) -> Option<usize> {
        Some(self as usize)
    }

    proof fn lemma_bounds_ordered() {
    }

    proof fn lemma_encode_decode(ix: usize) {
    }

    fn min_index() -> Option<usize> {
        Some(0)
    }

    fn max_index() -> Option<usize> {
        Some(u16::MAX as usize)
    }

    fn encode(ix: usize) -> Option<u16> {
        if ix <= u16::MAX as usize {
            Some(ix as u16)
        } else {
            None
        }
    }

    fn decode(self) -> Option<usize> {
        Some(self as usize)
    }
}

impl InternId for u32 {
    open spec fn spec_min_index() -> Option<usize> {
        Some(0)
    }

    open spec fn spec_max_index() -> Option<usize> {
        Some(u32::MAX as usize)
    }

    open spec fn spec_encode(ix: usize) -> Option<u32> {
        if ix <= u32::MAX as usize {
            Some(ix as u32)
        } else {
            None
        }
    }

    open spec fn spec_decode(self) -> Option<usize> {
        Some(self as usize)
    }

    proof fn lemma_bounds_ordered() {
    }

    proof fn lemma_encode_decode(ix: usize) {
    }

    fn min_index() -> Option<usize> {
        Some(0)
    }

    fn max_index() -> Option<usize> {
        Some(u32::MAX as usize)
    }

    fn encode(ix: usize) -> Option<u32> {
        if ix <= u32::MAX as usize {
            Some(ix as u32)
        } else {
            None
        }
    }

    fn decode(self) -> Option<usize> {
        Some(self as usize)
    }
}

/// A one-byte identifier whose raw value zero is reserved as a niche: the
/// identifier for index `ix` is stored as the raw byte `ix + 1`. Decoding the
/// reserved raw value fails, which exercises the decode-failure path of the
/// arena.
#[derive(Clone, Copy, PartialEq, Eq, Structural, Debug)]
pub struct NonZeroU8Id {
    pub raw: u8,
}

impl InternId for NonZeroU8Id {
    open spec fn spec_min_index() -> Option<usize> {
        Some(0)
    }

    open spec fn spec_max_index() -> Option<usize> {
        Some((u8::MAX - 1) as usize)
    }

    open spec fn spec_encode(ix: usize) -> Option<NonZeroU8Id> {
        if ix <= (u8::MAX - 1) as usize {
            Some(NonZeroU8Id { raw: (ix + 1) as u8 })
        } else {
            None
        }
    }

    open spec fn spec_decode(self) -> Option<usize> {
        if self.raw == 0 {
            None
        } else {
            Some((self.raw - 1) as usize)
        }
    }

    proof fn lemma_bounds_ordered() {
    }

    proof fn lemma_encode_decode(ix: usize) {
    }

    fn min_index() -> Option<usize> {
        Some(0)
    }

    fn max_index() -> Option<usize> {
        Some((u8::MAX - 1) as usize)
    }

    fn encode(ix: usize) -> Option<NonZeroU8Id> {
        if ix <= (u8::MAX - 1) as usize {
            Some(NonZeroU8Id { raw: (ix as u8) + 1 })
        } else {
            None
        }
    }

    fn decode(self) -> Option<usize> {
        if self.raw == 0 {
            None
        } else {
            Some((self.raw - 1) as usize)
        }
    }
}

} // verus!
