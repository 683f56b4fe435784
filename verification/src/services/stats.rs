//! General information about the statistical index, as reported by the
//! status endpoint. The counts are supplied by the external index; a count
//! the index cannot produce stays absent.

use vstd::prelude::*;

verus! {

/// General information for the application.
pub struct StatsResponse {
    pub corpus_count: Option<i64>,
    pub record_count: Option<i64>,
    pub word_count: Option<i64>,
}

} // verus!
