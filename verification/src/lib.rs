//! A minimal entity-component storage engine.
//!
//! Entities are opaque integer handles handed out by an [`entity::EntityRegistry`].
//! Component payloads are fixed-width byte records kept densely packed, one
//! type-erased blob per registered component kind, in a [`store::DECS`].
//! Two table-style stores, [`table::PackedTable`] and [`table::LinearTable`],
//! offer the same byte-level storage addressed by dense row index instead of
//! by entity handle.

use vstd::prelude::*;

pub mod blob;
pub mod entity;
pub mod store;
pub mod table;

verus! {

/// Errors raised when the storage API is misused.
///
/// All of these mark contract violations by the caller, except that a lookup
/// of an absent component is reported as `None` rather than as an error.
#[derive(Clone, Copy, Debug, PartialEq, Eq, Structural)]
pub enum EcsError {
    /// The component kind was never registered with this store.
    NotRegistered,
    /// The entity handle was never created by this registry.
    UnknownEntity,
    /// The entity already holds a component of this kind.
    DuplicateComponent,
    /// The table schema is closed: rows exist, no new column may be added.
    SchemaClosed,
    /// The row index is at or past the current row count.
    RowOutOfRange,
}

} // verus!
