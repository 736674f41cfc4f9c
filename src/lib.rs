use vstd::prelude::*;

pub mod codec;
pub mod error;
pub mod files;
pub mod graph;
pub mod hash;
pub mod index;
pub mod laws;
pub mod merge;
pub mod object;
pub mod repository;
pub mod store;
pub mod text;

pub use error::VcsError;
pub use index::{Index, IndexEntry};
pub use merge::{Conflict, ConflictKind, MergeResult};
pub use object::{Blob, Commit, Object, ObjectType, Tree, TreeEntry};
pub use repository::{Branch, Head, MergeOutcome, Repository};

verus! {

} // verus!
