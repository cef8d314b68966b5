//! Terminal-side logic of a Chromium-based terminal browser: cell grid
//! rendering, vimium-style keyboard navigation, kitty graphics encoding,
//! host blocklists and command-line flags.

pub mod adblock;
pub mod cell;
pub mod cli;
pub mod find;
pub mod gfx;
pub mod graphics;
pub mod hints;
pub mod input;
pub mod overlay;
pub mod renderer;
pub mod text;
pub mod unicode;
pub mod vimium;
