//! A verified module-bundler core for a JavaScript-like language.
//!
//! The crate covers module identity allocation and namespacing marks, the
//! import/export analyzer with its deglobbing rewrite, the load-transformed
//! driver, chunk formation, and bundle finalization.  The lexer, parser,
//! resolver and printer are external collaborators: the bundler consumes
//! already-parsed module bodies and a host-supplied resolution table, and
//! hands back merged module bodies for an external printer to emit.

pub mod analyze;
pub mod ast;
pub mod bundler;
pub mod chunk;
pub mod finalize;
pub mod registry;
pub mod resolver;
pub mod strutil;

use vstd::prelude::*;

verus! {

/// Output of a source-to-source transformation: the emitted code and an
/// optional source map, both produced by an external printer.
pub struct TransformOutput {
    pub code: String,
    pub map: Option<String>,
}

} // verus!
