//! Studio-shell layout engine.
//!
//! The heart of a dockable "studio" user interface: a three-row panel grid
//! with drag-and-drop repositioning, close and maximize operations, a
//! parallel footer strip of stacked panel slots, and the derived
//! slot-visibility directives that a renderer applies. Rendering, input
//! translation and on-disk persistence are collaborators outside this crate;
//! the engine works on plain state values and is verified.

#![verifier::loop_isolation(false)]

pub mod drop_handler;
pub mod footer_grid;
pub mod geometry;
pub mod ids;
pub mod layout_state;
pub mod panel_grid;
pub mod registry;
pub mod seq_facts;
