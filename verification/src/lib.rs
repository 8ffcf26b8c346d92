//! Screen-clearing animations as data.
//!
//! Given the size of a terminal, each clearing mode is planned as an ordered
//! list of frames: the cells to blank in one batch and the pause that follows
//! the batch. Writing a frame to a terminal, flushing and sleeping is left to
//! the caller; everything up to the exact text of a frame is decided here.

pub mod ansi;
pub mod clear_screen;
pub mod frame;
pub mod grid;
pub mod mode;
pub mod ring;
pub mod shuffle;
