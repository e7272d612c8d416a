//! The error values of the pipeline.

use vstd::prelude::*;

verus! {

/// A file's path could not be turned into a corpus key.
#[derive(Debug)]
pub struct NotAvailableError;

/// A required credential or configuration value was absent at startup; the
/// field names what was missing.
#[derive(Debug)]
pub struct SetupError(pub &'static str);

/// An embedding call failed.
#[derive(Debug)]
pub struct EmbeddingError;

/// A query could not be answered: no context chunk could be resolved.
#[derive(Debug)]
pub struct PromptError;

} // verus!
