//! Choosing lines of text in a terminal and running shell commands on them:
//! key bindings read from configuration text, the cursor and selection over
//! the lines, and what running a command asks of the event loop.

pub mod bindings;
pub mod exec;
pub mod keys;
pub mod operations;
pub mod state;
pub mod text;
