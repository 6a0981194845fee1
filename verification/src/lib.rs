//! Verified core of the codescout tool server: text helpers, Markdown section
//! editing and filtering, LSP multiplexing state, and the small decision
//! functions that sit between the server's I/O.
pub mod util;
pub mod tools;
pub mod memory;
pub mod lsp;
pub mod platform;
pub mod embed;
pub mod config;
pub mod usage;
pub mod logging;
