//! A positional virtual-tree reconciliation engine.
//!
//! The embedder renders a declarative node tree; this library reduces it
//! to a comparable snapshot, diffs successive snapshots positionally, and
//! applies the resulting patch to a live document, keeping the stored
//! snapshot and the document provably in lock step. Children are matched
//! by position alone — child order is the sole identity mechanism.
//!
//! Modules, leaf first:
//! - [`tree`]: the node tree, its reduced (handler-free) snapshot form, and
//!   the positional-path spec functions every other module shares.
//! - [`diff`]: the diff engine, which compares two snapshots positionally
//!   and emits an ordered patch.
//! - [`apply`]: the meaning of a patch, and the proof that applying
//!   `diff(a, b)` to `a` yields exactly `b`.
//! - [`doc`]: the live document model (an arena with parent links), the
//!   path resolver in both directions, and the patch applier.
//! - [`html`]: the markup a snapshot serializes to when it crosses to a
//!   host document.
//! - [`session`]: the render session state and the event-dispatch cycle.
//! - [`util`]: a small holder for an optional value.

pub mod apply;
pub mod diff;
pub mod doc;
pub mod html;
pub mod session;
pub mod tree;
pub mod util;
