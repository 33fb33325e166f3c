//! In-place, non-extending edits of already linked ELF objects: the
//! interpreter path in `.interp` and the `DT_RUNPATH` entry of the dynamic
//! table. The object keeps its length, its section boundaries and its layout;
//! the new runpath takes the place of a string of `.dynstr` that nothing uses.
//!
//! - [`serialize`] encodes machine words in the class and byte order of the
//!   object.
//! - [`sparse_elf`] is the view of an object held in memory: the three
//!   sections that matter, the dynamic table and the dynamic string table,
//!   read through the `elf` crate.
//! - [`patch`] plans patches and applies them to the object's bytes.
//! - [`patchelfdd`] is a whole run: plan what the options ask for, then
//!   apply.
//! - [`guarantees`] states what holds of every plan.

pub mod guarantees;
pub mod opts;
pub mod patch;
pub mod patchelfdd;
pub mod serialize;
pub mod sparse_elf;

pub use crate::patchelfdd::{run, Error, Outcome};
