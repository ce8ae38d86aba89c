//! Reading, editing and writing RESTBL resource size tables.
//!
//! A table maps resources to size budgets. Most resources are keyed by the
//! CRC-32 of their canonical path; a few are keyed by the path itself.
//!
//! - [`bin`] holds the binary layout and [`bin::ResTblReader`], a checked,
//!   read-only view of a table in a byte buffer.
//! - [`ResourceSizeTable`] is the owned, editable table; [`codec`] decodes
//!   and encodes it, and proves that the two undo each other.
//! - [`text`] writes the line-oriented text form and [`parse`] reads it;
//!   [`text_laws`] proves what reading gives back of what was written.
//! - [`model`] says what a table holds and how a key is answered, and
//!   [`util`], [`order`], [`names`] and [`listing`] hold names, their
//!   order, and the canonical order of the two sub-tables.
pub mod error;
pub mod order;
pub mod util;
pub mod model;
pub mod index;
pub mod bin;
pub mod names;
pub mod listing;
pub mod table;
pub mod codec;
pub mod text;
pub mod parse;
pub mod text_laws;

pub use error::Error;
pub use model::Key;
pub use model::TableModel;
pub use table::ResourceSizeTable;
pub use index::TableIndex;
