//! Cahier: the notebook model behind a stylus note-taking lectern.
//!
//! The modules hold the rules of the notebooks, the shelf and the page grid,
//! the parsing of colour-emoji font tables and the small formats the program
//! reads and writes; drawing and input live with the program.

use vstd::prelude::*;

pub mod ink;
pub mod document;
pub mod undo;
pub mod emoji;
pub mod library;
pub mod text;
pub mod look;
pub mod pressure;
pub mod tablet;
pub mod shelf;
pub mod controls;
pub mod export;
pub mod picture;
pub mod palette;
