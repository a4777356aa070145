//! Request dispatch: the response owed to each request, as pure logic over
//! the index. Transport, sockets and the file-listing subprocess stay with
//! the embedding program; it hands in the listing outcome for a refresh.

use vstd::prelude::*;
use vstd::string::*;

use crate::index::{entries_of, spec_limit, spec_search, FileIndex};
use crate::types::{
    DaemonResponse, ResponseView, SearchResponse, SearchResponseView,
};

verus! {

/// A `Search` request: the ranked results, their count after the cut, and
/// the size of the index they were drawn from.
pub fn respond_search(index: &FileIndex, query: &str, limit: Option<usize>) -> (r: DaemonResponse)
    requires
        index.wf(),
    ensures
        r@ == ResponseView::SearchResults(
            SearchResponseView {
                results: spec_search(index@.entries, query@, spec_limit(limit)),
                results_count: spec_search(index@.entries, query@, spec_limit(limit)).len() as int,
                total_files: index@.entries.len() as int,
            },
        ),
{
    let results = index.search(query, limit);
    let results_count = results.len();
    let total_files = index.len();
    DaemonResponse::SearchResults(SearchResponse { results, results_count, total_files })
}

/// A `Refresh` request, given the file-listing collaborator's outcome: on a
/// listing, rebuild and report the new size; on a failure message, leave the
/// index untouched and report the error.
pub fn respond_refresh(index: &mut FileIndex, outcome: Result<String, String>, home: &str) -> (r:
    DaemonResponse)
    ensures
        match outcome {
            Ok(listing) => {
                &&& final(index)@.entries == entries_of(listing@, home@)
                &&& final(index).wf()
                &&& r@ == ResponseView::RefreshComplete {
                    files_count: entries_of(listing@, home@).len() as int,
                }
            },
            Err(message) => {
                &&& *final(index) == *old(index)
                &&& r@ == ResponseView::Error { message: message@ }
            },
        },
{
    match outcome {
        Ok(listing) => {
            index.update(listing.as_str(), home);
            DaemonResponse::RefreshComplete { files_count: index.len() }
        },
        Err(message) => DaemonResponse::Error { message },
    }
}

/// A `Status` request: current size and freshness of the index.
pub fn respond_status(index: &FileIndex) -> (r: DaemonResponse)
    ensures
        r@ == (ResponseView::Status {
            files_count: index@.entries.len() as int,
            last_updated: index@.last_updated,
        }),
{
    DaemonResponse::Status {
        files_count: index.len(),
        last_updated: index.last_updated_timestamp(),
    }
}

/// The response owed to a frame that did not parse: an error carrying a
/// human-readable message, prefixed as the protocol's clients expect.
pub fn invalid_request_response(detail: &str) -> (r: DaemonResponse)
    ensures
        r@ == (ResponseView::Error { message: "Invalid request: "@ + detail@ }),
{
    let mut message = String::from_str("Invalid request: ");
    message.append(detail);
    DaemonResponse::Error { message }
}

} // verus!
