//! The request pipeline glue: from the two backend response bodies to
//! the aligned usage mapping. The decoder, the two lookups and the
//! renderer compose around this step; each malformed body surfaces as the
//! backend-unreachable error, and two decoded bodies yield exactly the
//! alignment of their two series.

use crate::align::{align_series, align_spec, ReadingPair};
use crate::backend::{grouped, parse_response, samples_of, sort_spec};
use crate::errors::ApiError;
use vstd::prelude::*;

verus! {

/// Decodes both response bodies and aligns the two series. A body that
/// cannot be decoded is the backend-unreachable error, and only then does
/// the pipeline fail; when both decode, the rows are exactly the
/// alignment of the two grouped series.
pub fn process_bodies(curr_body: &str, prev_body: &str) -> (r: Result<
    Vec<(String, Vec<ReadingPair>)>,
    ApiError,
>)
    ensures
        r matches Err(e) ==> e == ApiError::BackendUnreachable,
        r is Err <==> (samples_of(curr_body@) is None || samples_of(prev_body@) is None),
        samples_of(curr_body@) matches Some(ci) ==> samples_of(prev_body@) matches Some(pi)
            ==> r matches Ok(rows) && rows.deep_view() == align_spec(
            grouped(sort_spec(ci)),
            grouped(sort_spec(pi)),
        ),
{
    let curr = match parse_response(curr_body) {
        Ok(v) => v,
        Err(e) => return Err(e),
    };
    let prev = match parse_response(prev_body) {
        Ok(v) => v,
        Err(e) => return Err(e),
    };
    let rows = align_series(curr, &prev);
    Ok(rows)
}

} // verus!

