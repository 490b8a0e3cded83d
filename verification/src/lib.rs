//! A Go rules engine: a square grid of stones, an incremental tracker of the
//! connected regions of the grid, the capture, suicide and positional
//! superko rules built on it, and the game record around them. The `gtp`
//! module holds the text side of the Go Text Protocol.

pub mod game;
pub mod gtp;
pub mod text;
