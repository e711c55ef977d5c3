//! Terminal input decoding, line editing and shell bookkeeping for a small
//! terminal toy: keys and mouse reports are decoded from raw bytes, typed
//! keys drive a line editor, and the shell's output and input are buffered.

pub mod bytes;
pub mod stream;
pub mod event;
pub mod cursor;
pub mod get_line;
pub mod objets;
pub mod deque;
pub mod page;
pub mod shell;
pub mod startup;
