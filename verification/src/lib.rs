//! A static hash table whose records are stored in chains of slabs, with
//! verified contracts.
use vstd::prelude::*;

pub mod bytes;
pub mod slabs;
pub mod layout;
pub mod static_hash;
pub mod ser;
pub mod table;
pub mod laws;

pub use crate::slabs::{SlabAllocator, SlabAllocatorConfig, SlabError};
pub use crate::ser::Serializable;
pub use crate::static_hash::{StaticHashError, StaticHashView};
pub use crate::table::{
    StaticHashset, StaticHashsetBuilder, StaticHashtable, StaticHashtableBuilder,
    StaticHashtableIter,
};

verus! {
}
