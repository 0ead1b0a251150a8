//! Runtime library for detecting memory-safety and pointer-aliasing
//! violations in instrumented native programs.
//!
//! For every pointer the library tracks *provenance*: which allocation
//! produced it and which borrow of that allocation it represents.  For
//! every allocation it tracks, per borrow node, whether that borrow
//! currently has the right to read or write each byte it covers.
//!
//! The pieces, leaves first:
//! - [`geometry`]: pure address-decomposition math for the shadow table;
//! - [`shadow`]: a sparse two-level table mapping tracked addresses to
//!   provenance slots;
//! - [`tree`]: the per-allocation tree of borrow nodes with decaying
//!   permissions;
//! - [`registry`]: issues allocation identifiers and owns per-allocation
//!   metadata;
//! - [`runtime`]: the orchestration layer called at the instrumentation
//!   boundary.

pub mod geometry;
pub mod registry;
pub mod runtime;
pub mod shadow;
pub mod tree;
pub mod util;
