//! Staged-transaction builder for a blockchain command-line client.
//!
//! A transaction under construction lives in an on-disk document.  Each
//! invocation of the tool loads the document, applies a single validated
//! mutation (add an input, add an output, add a certificate, set the expiry
//! date), and stores the document back.  This crate holds the verified core
//! of that protocol: the in-memory transaction model, the document codec with
//! its round-trip guarantees, the mutation operations with their validation
//! rules, the pure part of the builder controller, and the rendering of node
//! settings as JSON text.  All file, console and network handling lives
//! outside the library.

pub mod builder;
pub mod codec;
pub mod model;
pub mod settings;
pub mod util;
