//! Field-capability algebra for partial borrows of a record.
//!
//! Every field of a record carries one of three access levels: none, shared
//! or exclusive. A view of the record is described by one level per field,
//! and the operations of this crate decide whether a view can be narrowed,
//! split into two views that do not overlap, or joined back together.
//!
//! - [`capability`]: the three levels and the two tables over them.
//! - [`vector`]: the tables applied field by field to whole vectors.
//! - [`laws`]: what holds of those operations on all vectors.
//! - [`schema`]: the ordered fields of a record type.
//! - [`selector`]: requests such as "everything shared, but `x` exclusive",
//!   resolved against a schema.
//! - [`syntax`] and [`notation`]: reading such requests from text and writing
//!   them out.
//! - [`record`]: views of a record and the borrows between them.
//! - [`hlist`] and [`reflect`]: field lists at the type level.
//! - [`generator`]: the decisions of a generator of typed views.

pub mod capability;
pub mod vector;
pub mod laws;
pub mod schema;
pub mod selector;
pub mod syntax;
pub mod notation;
pub mod record;
pub mod hlist;
pub mod reflect;
pub mod generator;
