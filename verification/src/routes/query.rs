//! The shape of a query request: what the transport layer hands the search
//! pipeline.

use vstd::prelude::*;

verus! {

/// Normal query.
pub struct FormData {
    /// The free-text query to rank against the statistical index.
    pub query: String,
}

impl FormData {
    /// Wrap a query string.
    pub fn new(query: String) -> (r: FormData)
        ensures
            r.query == query,
    {
        FormData { query }
    }
}

} // verus!
