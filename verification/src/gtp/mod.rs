//! The text side of the Go Text Protocol: how a line of input becomes a
//! command, what the commands do to a game, and how a reply is written.

/// A Go Text Protocol Command.
pub mod command;
/// What the commands of the protocol do to a game.
pub mod engine;
/// The result of executing a Go Text Protocol Command.
pub mod response;
