//! A proxy that sits between an editor and the Lean 4 language server and adds to what the server
//! offers: hints with the goals at the end of a line, lenses above declarations, more semantic
//! tokens, goals in hovers, a progress bar, and a restart when imports are outdated.
//!
//! The library holds everything that the proxy decides and computes. It does no input or output:
//! what comes in is handed to it as values, and what has to be done is handed back as values.

// Text and data.
pub mod text;
pub mod text_map;
pub mod order;
pub mod json;

// The protocol.
pub mod framing;
pub mod snoop;
pub mod lsp;

// What is known of the documents.
pub mod state;
pub mod documents;

// The features.
pub mod lexer;
pub mod scan;
pub mod semantic_tokens;
pub mod code_lens;
pub mod probes;
pub mod inlay;
pub mod hover;
pub mod progress;
pub mod restart;
pub mod lean_rpc;
pub mod goals;

// The editor's extension.
pub mod extension;
