//! The core of a terminal radio player: stream protocol, schedule, and screen layout.
//!
//! Nothing here reads or writes: the program around the library performs the reads that
//! `icy::Session` asks for, hands the bytes back, and draws the lines that `frame` gives.

pub mod args;
pub mod civil;
pub mod frame;
pub mod icy;
pub mod json;
pub mod pcm;
pub mod schedule;
pub mod state;
pub mod text;
pub mod url;
