//! A grid-based mine-sweeping game engine: packed per-cell state, lazy
//! mine placement that spares the first click, flood-fill reveal of
//! zero-count regions, a win/loss state machine, cursor and pointer
//! addressing, and the idle-driven cursor-blink clock. Rendering and
//! input decoding are left to the caller, which feeds the engine
//! decoded actions and tick pulses and reads back per-cell view data.

pub mod cell;
pub mod field;
pub mod laws;
pub mod open;
pub mod place;
pub mod view;

pub use cell::Cell;
pub use cell::Content;
pub use field::MineField;
