//! The logic of a host-side RTT terminal.
pub mod channels;
pub mod cli;
pub mod clock;
pub mod control;
pub mod decode;
pub mod down;
pub mod elf;
pub mod filter;
pub mod keys;
pub mod lines;
pub mod logger;
pub mod output;
pub mod parse;
pub mod probe;
pub mod reader;
pub mod render;
pub mod scan;
pub mod session;
pub mod stream;
pub mod terminal;
pub mod text;
