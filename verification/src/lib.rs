//! apfsrelic — a read-only APFS image reader library with verified parsers.
//!
//! Layers:
//!  * [`device`] — the read-only block-device abstraction and the GPT window.
//!  * [`apfs`] — on-disk parsers and the container/volume engine.
//!  * [`error`] — the structured error model; [`text`] — string building.
//!  * [`source`] — container-window selection for an opened image.
//!  * [`cli`] — command-line option parsing; [`commands`] — their shared
//!    decisions; [`recover`] — folder-recovery walks; [`integrity`] —
//!    structural checks; [`listing`] — listing order; [`gui`] — desktop-explorer
//!    helpers.
use vstd::prelude::*;

pub mod error;
pub mod text;
pub mod apfs;
pub mod device;
pub mod source;
pub mod cli;
pub mod commands;
pub mod recover;
pub mod integrity;
pub mod listing;
pub mod gui;
