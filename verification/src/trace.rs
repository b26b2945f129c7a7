//! A no-op tracing span.

use vstd::prelude::*;

verus! {

/// A span that carries no data: tracing is disabled.
#[derive(Clone)]
pub struct Span;

} // verus!
