//! The value types of the daemon: index entries, search results, and the
//! request/response envelopes, together with their mathematical views.

use vstd::prelude::*;

verus! {

/// One indexed file: its absolute path and its home-relative display form.
/// `display_path` is `path` with the home prefix replaced by `~` when the
/// prefix applies, otherwise equal to `path`.
#[derive(Debug)]
pub struct FileEntry {
    pub path: String,
    pub display_path: String,
}

/// Mathematical view of a `FileEntry`.
pub struct EntryView {
    pub path: Seq<char>,
    pub display_path: Seq<char>,
}

impl View for FileEntry {
    type V = EntryView;

    open spec fn view(&self) -> EntryView {
        EntryView { path: self.path@, display_path: self.display_path@ }
    }
}

/// One matched character position, counted in characters of the full
/// `display_path` of the result it belongs to.
#[derive(Debug, Clone, PartialEq, Eq)]
pub struct SearchMatch {
    pub char_index: u32,
}

/// One ranked search hit.
#[derive(Debug, Clone, PartialEq, Eq)]
pub struct SearchResult {
    pub path: String,
    pub display_path: String,
    pub matches: Vec<SearchMatch>,
    pub score: i32,
}

/// Mathematical view of a `SearchResult`; match positions widen to `int`.
pub struct ResultView {
    pub path: Seq<char>,
    pub display_path: Seq<char>,
    pub matches: Seq<int>,
    pub score: int,
}

impl View for SearchResult {
    type V = ResultView;

    open spec fn view(&self) -> ResultView {
        ResultView {
            path: self.path@,
            display_path: self.display_path@,
            matches: self.matches@.map(|i: int, m: SearchMatch| m.char_index as int),
            score: self.score as int,
        }
    }
}

/// The view of a whole result list.
pub open spec fn results_view(rs: Seq<SearchResult>) -> Seq<ResultView> {
    rs.map(|i: int, r: SearchResult| r@)
}

/// A search request on its own, as a value.
#[derive(Debug, PartialEq, Eq)]
pub struct SearchRequest {
    pub query: String,
    pub limit: Option<usize>,
}

/// The payload of a `SearchResults` response.
#[derive(Debug, PartialEq, Eq)]
pub struct SearchResponse {
    pub results: Vec<SearchResult>,
    pub results_count: usize,
    pub total_files: usize,
}

/// Mathematical view of a `SearchResponse`.
pub struct SearchResponseView {
    pub results: Seq<ResultView>,
    pub results_count: int,
    pub total_files: int,
}

impl View for SearchResponse {
    type V = SearchResponseView;

    open spec fn view(&self) -> SearchResponseView {
        SearchResponseView {
            results: results_view(self.results@),
            results_count: self.results_count as int,
            total_files: self.total_files as int,
        }
    }
}

/// A request frame, already decoded from its wire form.
#[derive(Debug, PartialEq, Eq)]
pub enum DaemonRequest {
    Search { query: String, limit: Option<usize> },
    Refresh,
    Status,
}

/// Mathematical view of a `DaemonRequest`.
pub enum RequestView {
    Search { query: Seq<char>, limit: Option<usize> },
    Refresh,
    Status,
}

impl View for DaemonRequest {
    type V = RequestView;

    open spec fn view(&self) -> RequestView {
        match self {
            DaemonRequest::Search { query, limit } => RequestView::Search {
                query: query@,
                limit: *limit,
            },
            DaemonRequest::Refresh => RequestView::Refresh,
            DaemonRequest::Status => RequestView::Status,
        }
    }
}

/// A response frame, before encoding to its wire form.
#[derive(Debug, PartialEq, Eq)]
pub enum DaemonResponse {
    SearchResults(SearchResponse),
    RefreshComplete { files_count: usize },
    Status { files_count: usize, last_updated: u64 },
    Error { message: String },
}

/// Mathematical view of a `DaemonResponse`.
pub enum ResponseView {
    SearchResults(SearchResponseView),
    RefreshComplete { files_count: int },
    Status { files_count: int, last_updated: u64 },
    Error { message: Seq<char> },
}

impl View for DaemonResponse {
    type V = ResponseView;

    open spec fn view(&self) -> ResponseView {
        match self {
            DaemonResponse::SearchResults(sr) => ResponseView::SearchResults(sr@),
            DaemonResponse::RefreshComplete { files_count } => ResponseView::RefreshComplete {
                files_count: *files_count as int,
            },
            DaemonResponse::Status { files_count, last_updated } => ResponseView::Status {
                files_count: *files_count as int,
                last_updated: *last_updated,
            },
            DaemonResponse::Error { message } => ResponseView::Error { message: message@ },
        }
    }
}

} // verus!
