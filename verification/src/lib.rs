//! A generic interning arena: each distinct value is assigned a small
//! identifier, equal values always receive the same identifier, and an
//! identifier resolves back to its value in constant time.

pub mod id;
pub mod arena_set;
pub mod builder;
pub mod traits;
pub mod utility;
pub mod vec_map;

pub use arena_set::ArenaSet;
pub use arena_set::Error;
pub use arena_set::Slot;
pub use arena_set::StadiumSet;
pub use builder::Builder;
pub use builder::builder;
pub use utility::byte_arena_set;
pub use utility::byte_stadium_set;
pub use utility::string_arena_set;
pub use utility::string_stadium_set;
pub use id::InternId;
pub use id::NonZeroU8Id;
pub use traits::InternKey;
pub use traits::MapBackend;
pub use traits::StadiumKey;
pub use vec_map::VecMap;
