use quickfile::codec::{encode_request, encode_response, parse_request};
use quickfile::types::{
    DaemonRequest, DaemonResponse, SearchMatch, SearchResponse, SearchResult,
};

#[test]
fn request_round_trip_search() {
    let req = DaemonRequest::Search { query: String::from("ma\"in\\\n"), limit: Some(7) };
    let frame = encode_request(&req);
    let back = parse_request(&frame).expect("the encoder's output must parse");
    assert_eq!(back, req);
}

#[test]
fn request_round_trip_search_without_limit() {
    let req = DaemonRequest::Search { query: String::from("notes"), limit: None };
    let frame = encode_request(&req);
    assert_eq!(frame, "{\"type\":\"Search\",\"query\":\"notes\",\"limit\":null}");
    let back = parse_request(&frame).expect("the encoder's output must parse");
    assert_eq!(back, req);
}

#[test]
fn request_round_trip_refresh() {
    let req = DaemonRequest::Refresh;
    let frame = encode_request(&req);
    assert_eq!(frame, "{\"type\":\"Refresh\"}");
    assert_eq!(parse_request(&frame).unwrap(), DaemonRequest::Refresh);
}

#[test]
fn request_round_trip_status() {
    let req = DaemonRequest::Status;
    let frame = encode_request(&req);
    assert_eq!(frame, "{\"type\":\"Status\"}");
    assert_eq!(parse_request(&frame).unwrap(), DaemonRequest::Status);
}

#[test]
fn parse_accepts_any_field_order_and_whitespace() {
    let got = parse_request(" { \"limit\" : 5 , \"type\" : \"Search\" , \"query\" : \"abc\" } ")
        .unwrap();
    assert_eq!(got, DaemonRequest::Search { query: String::from("abc"), limit: Some(5) });
}

#[test]
fn parse_accepts_null_limit_and_missing_limit() {
    let a = parse_request("{\"type\":\"Search\",\"query\":\"q\",\"limit\":null}").unwrap();
    assert_eq!(a, DaemonRequest::Search { query: String::from("q"), limit: None });
    let b = parse_request("{\"type\":\"Search\",\"query\":\"q\"}").unwrap();
    assert_eq!(b, DaemonRequest::Search { query: String::from("q"), limit: None });
}

#[test]
fn parse_decodes_escapes() {
    let got = parse_request("{\"type\":\"Search\",\"query\":\"a\\\"b\\\\c\\n\\t\\/\",\"limit\":1}")
        .unwrap();
    assert_eq!(got, DaemonRequest::Search { query: String::from("a\"b\\c\n\t/"), limit: Some(1) });
}

#[test]
fn malformed_frames_are_refused() {
    let bad = [
        "",
        "   ",
        "{",
        "not json",
        "[1,2]",
        "{\"type\":\"Bogus\"}",
        "{\"type\":\"Search\"}",
        "{\"type\":\"Refresh\",\"query\":\"x\"}",
        "{\"type\":\"Search\",\"query\":\"a\",\"query\":\"b\"}",
        "{\"type\":\"Search\",\"query\":\"a\",\"extra\":1}",
        "{\"type\":\"Search\",\"query\":\"a\",\"limit\":\"five\"}",
        "{\"type\":\"Search\",\"query\":\"a\"} trailing",
        "{\"type\":\"Search\",\"query\":\"a\",\"limit\":99999999999999999999999999}",
        "{\"type\":\"Search\",\"query\":\"a\\u0041\",\"limit\":1}",
    ];
    for frame in bad.iter() {
        assert!(parse_request(frame).is_err(), "frame should be refused: {}", frame);
    }
}

#[test]
fn encode_status_and_refresh_exactly() {
    let frame = encode_response(&DaemonResponse::Status { files_count: 2, last_updated: 99 });
    assert_eq!(frame, "{\"type\":\"Status\",\"files_count\":2,\"last_updated\":99}");
    let frame = encode_response(&DaemonResponse::RefreshComplete { files_count: 1905 });
    assert_eq!(frame, "{\"type\":\"RefreshComplete\",\"files_count\":1905}");
}

#[test]
fn encode_error_escapes_message() {
    let frame = encode_response(&DaemonResponse::Error { message: String::from("a\"b\\c\nd") });
    assert_eq!(frame, "{\"type\":\"Error\",\"message\":\"a\\\"b\\\\c\\nd\"}");
}

#[test]
fn encode_search_results_cross_checked_with_serde_json() {
    let resp = DaemonResponse::SearchResults(SearchResponse {
        results: vec![SearchResult {
            path: String::from("/home/u/proj/main.rs"),
            display_path: String::from("~/proj/main.rs"),
            matches: vec![SearchMatch { char_index: 7 }, SearchMatch { char_index: 8 }],
            score: -3,
        }],
        results_count: 1,
        total_files: 10,
    });
    let frame = encode_response(&resp);
    let v: serde_json::Value = serde_json::from_str(&frame).expect("frame must be valid JSON");
    assert_eq!(v["type"].as_str().unwrap(), "SearchResults");
    assert_eq!(v["results_count"].as_i64().unwrap(), 1);
    assert_eq!(v["total_files"].as_i64().unwrap(), 10);
    let r = &v["results"][0];
    assert_eq!(r["path"].as_str().unwrap(), "/home/u/proj/main.rs");
    assert_eq!(r["display_path"].as_str().unwrap(), "~/proj/main.rs");
    assert_eq!(r["score"].as_i64().unwrap(), -3);
    assert_eq!(r["matches"][0]["char_index"].as_i64().unwrap(), 7);
    assert_eq!(r["matches"][1]["char_index"].as_i64().unwrap(), 8);
}

#[test]
fn encoded_requests_cross_checked_with_serde_json() {
    let frame = encode_request(&DaemonRequest::Search {
        query: String::from("hello world"),
        limit: Some(25),
    });
    let v: serde_json::Value = serde_json::from_str(&frame).expect("frame must be valid JSON");
    assert_eq!(v["type"].as_str().unwrap(), "Search");
    assert_eq!(v["query"].as_str().unwrap(), "hello world");
    assert_eq!(v["limit"].as_i64().unwrap(), 25);
}
