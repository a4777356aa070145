use quickfile::index::FileIndex;
use quickfile::protocol::{invalid_request_response, respond_refresh, respond_search, respond_status};
use quickfile::types::DaemonResponse;

fn built(listing: &str, home: &str) -> FileIndex {
    let mut idx = FileIndex::new();
    idx.update(listing, home);
    idx
}

#[test]
fn empty_query_browses_in_order() {
    let idx = built("/a/one.txt\n/b/two.txt\n/c/three.txt\n", "/nohome");
    let rs = idx.search("", None);
    assert_eq!(rs.len(), 3);
    assert_eq!(rs[0].path, "/a/one.txt");
    assert_eq!(rs[1].path, "/b/two.txt");
    assert_eq!(rs[2].path, "/c/three.txt");
    for r in &rs {
        assert_eq!(r.score, 0);
        assert!(r.matches.is_empty());
    }
}

#[test]
fn empty_query_respects_limit() {
    let idx = built("/a/one.txt\n/b/two.txt\n/c/three.txt\n", "/nohome");
    let rs = idx.search("", Some(2));
    assert_eq!(rs.len(), 2);
    assert_eq!(rs[0].path, "/a/one.txt");
    assert_eq!(rs[1].path, "/b/two.txt");
}

#[test]
fn end_to_end_search_and_status() {
    let idx = built("/home/u/notes.txt\n/home/u/proj/app/main.rs\n", "/home/u");
    match respond_status(&idx) {
        DaemonResponse::Status { files_count, .. } => assert_eq!(files_count, 2),
        other => panic!("expected a status response, got {:?}", other),
    }
    let rs = idx.search("main", None);
    assert!(!rs.is_empty());
    assert_eq!(rs[0].display_path, "~/proj/app/main.rs");
    assert_eq!(rs[0].path, "/home/u/proj/app/main.rs");
    assert!(!rs[0].matches.is_empty());
    assert!(rs[0].score > 0);
    assert!(rs.iter().all(|r| r.display_path != "~/notes.txt"));
}

#[test]
fn offset_translation_against_display_path() {
    let idx = built("/home/u/proj/app/main.ext\n", "/home/u");
    let rs = idx.search("main", None);
    assert_eq!(rs.len(), 1);
    assert_eq!(rs[0].display_path, "~/proj/app/main.ext");
    let offs: Vec<u32> = rs[0].matches.iter().map(|m| m.char_index).collect();
    assert_eq!(offs, vec![11, 12, 13, 14]);
}

#[test]
fn ranking_considers_whole_set_before_cut() {
    // the best match is listed last: it must still be the one survivor of
    // a limit of one, so the cut happens after the full ranking
    let idx = built("/x/zzz.txt\n/x/remainder.rs\n/x/main.rs\n", "/nohome");
    let rs = idx.search("main", Some(1));
    assert_eq!(rs.len(), 1);
    assert_eq!(rs[0].path, "/x/main.rs");
}

#[test]
fn results_count_bounded_by_limit_and_total() {
    let idx = built("/x/main_a.rs\n/x/main_b.rs\n/x/main_c.rs\n", "/nohome");
    match respond_search(&idx, "main", Some(2)) {
        DaemonResponse::SearchResults(sr) => {
            assert_eq!(sr.total_files, 3);
            assert_eq!(sr.results_count, 2);
            assert_eq!(sr.results.len(), 2);
        },
        other => panic!("expected search results, got {:?}", other),
    }
}

#[test]
fn equal_scores_keep_scan_order() {
    let idx = built("/a/dup.rs\n/b/dup.rs\n/c/dup.rs\n", "/nohome");
    let rs = idx.search("dup", None);
    assert_eq!(rs.len(), 3);
    assert_eq!(rs[0].score, rs[1].score);
    assert_eq!(rs[1].score, rs[2].score);
    assert_eq!(rs[0].path, "/a/dup.rs");
    assert_eq!(rs[1].path, "/b/dup.rs");
    assert_eq!(rs[2].path, "/c/dup.rs");
}

#[test]
fn rebuild_idempotent_without_change() {
    let listing = "/home/u/a.txt\n/home/u/b/c.txt\n";
    let mut idx = built(listing, "/home/u");
    let first: Vec<(String, String)> =
        idx.search("", None).into_iter().map(|r| (r.path, r.display_path)).collect();
    idx.update(listing, "/home/u");
    let second: Vec<(String, String)> =
        idx.search("", None).into_iter().map(|r| (r.path, r.display_path)).collect();
    assert_eq!(first, second);
    assert_eq!(idx.len(), 2);
}

#[test]
fn repeated_search_is_deterministic() {
    let idx = built("/p/alpha.rs\n/p/beta.rs\n/p/alphabet.rs\n", "/nohome");
    let a = idx.search("alp", Some(10));
    let b = idx.search("alp", Some(10));
    assert_eq!(a, b);
}

#[test]
fn refresh_outcome_drives_response() {
    let mut idx = built("/q/a.txt\n", "/nohome");
    match respond_refresh(&mut idx, Ok(String::from("/q/a.txt\n/q/b.txt\n")), "/nohome") {
        DaemonResponse::RefreshComplete { files_count } => assert_eq!(files_count, 2),
        other => panic!("expected refresh completion, got {:?}", other),
    }
    assert_eq!(idx.len(), 2);
    match respond_refresh(&mut idx, Err(String::from("fd command failed: boom")), "/nohome") {
        DaemonResponse::Error { message } => assert_eq!(message, "fd command failed: boom"),
        other => panic!("expected an error response, got {:?}", other),
    }
    assert_eq!(idx.len(), 2, "a failed refresh must leave the index unchanged");
}

#[test]
fn update_parses_listing_edges() {
    let mut idx = FileIndex::new();
    assert!(idx.is_empty());
    // blank lines are skipped, CRLF endings are stripped, a final line
    // without a newline still counts, paths outside home stay as they are
    idx.update("/home/u/a.txt\r\n\n   \n/opt/x.bin\n/home/u/z", "/home/u");
    let rs = idx.search("", None);
    let got: Vec<(String, String)> = rs.into_iter().map(|r| (r.path, r.display_path)).collect();
    assert_eq!(
        got,
        vec![
            (String::from("/home/u/a.txt"), String::from("~/a.txt")),
            (String::from("/opt/x.bin"), String::from("/opt/x.bin")),
            (String::from("/home/u/z"), String::from("~/z")),
        ]
    );
    assert_eq!(idx.len(), 3);
    assert!(!idx.is_empty());
}

#[test]
fn invalid_request_response_carries_prefix() {
    match invalid_request_response("expected a JSON object") {
        DaemonResponse::Error { message } => {
            assert_eq!(message, "Invalid request: expected a JSON object");
        },
        other => panic!("expected an error response, got {:?}", other),
    }
}
