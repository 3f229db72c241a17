//! Typed memory arenas and slab allocation: generational indices, typed
//! arenas, interned strings and bump allocation, each with a proved
//! contract.
//!
//! - [`arena`]: the generational [`Arena`] and its [`Index`] handles.
//! - [`intern`]: the string [`Interner`] and its [`Symbol`] handles.
//! - [`bump`]: the cursor of a single-chunk bump allocator.
//! - [`drop_arena`]: the chunked [`DropArena`], which owns its values.
//! - [`error`]: the crate-wide [`Error`].

use vstd::prelude::*;

pub mod arena;
pub mod bump;
pub mod drop_arena;
pub mod error;
pub mod intern;
pub mod prelude;
mod str_table;

pub use arena::{Arena, Index};
pub use bump::Bump;
pub use drop_arena::DropArena;
pub use error::{Error, Result};
pub use intern::{Interner, Symbol};

verus! {

/// Crate version string; matches the `version` field of the package.
pub const VERSION: &'static str = "1.0.0";

} // verus!
