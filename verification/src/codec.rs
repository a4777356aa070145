//! The wire format: one JSON value per newline-delimited frame. Requests are
//! decoded from text, responses encoded to text, by the library's own
//! verified reader and writer for the protocol's grammar.
//!
//! The accepted dialect: objects with string keys, string / unsigned-integer
//! / `null` values, any field order, no duplicate or unknown fields, ASCII
//! whitespace between tokens. In strings the escapes `\" \\ \/ \b \f \n \r
//! \t` are understood; the writer escapes `" \ \n \r \t` and leaves other
//! characters as they are.

use vstd::prelude::*;
use vstd::string::*;

use crate::text::push_char;
use crate::types::{
    DaemonRequest, DaemonResponse, RequestView, ResponseView, ResultView, SearchResult,
};

verus! {

// ---------------------------------------------------------------------------
// Text forms
// ---------------------------------------------------------------------------
/// How the writer spells one character inside a JSON string.
pub open spec fn escape_char(c: char) -> Seq<char> {
    if c == '"' {
        seq!['\\', '"']
    } else if c == '\\' {
        seq!['\\', '\\']
    } else if c == '\n' {
        seq!['\\', 'n']
    } else if c == '\r' {
        seq!['\\', 'r']
    } else if c == '\t' {
        seq!['\\', 't']
    } else {
        seq![c]
    }
}

pub open spec fn escape_str(s: Seq<char>) -> Seq<char>
    decreases s.len(),
{
    if s.len() == 0 {
        Seq::<char>::empty()
    } else {
        escape_str(s.drop_last()) + escape_char(s.last())
    }
}

/// A JSON string: the escaped text between double quotes.
pub open spec fn quoted(s: Seq<char>) -> Seq<char> {
    seq!['"'] + escape_str(s) + seq!['"']
}

pub open spec fn digit_char(d: int) -> char {
    ((48 + d) as u8) as char
}

/// The decimal spelling of a number, most significant digit first.
pub open spec fn dec_digits(n: nat) -> Seq<char>
    decreases n,
{
    if n < 10 {
        seq![digit_char(n as int)]
    } else {
        dec_digits(n / 10) + seq![digit_char((n % 10) as int)]
    }
}

/// The decimal spelling of a possibly negative number.
pub open spec fn dec_int(v: int) -> Seq<char> {
    if v < 0 {
        seq!['-'] + dec_digits((-v) as nat)
    } else {
        dec_digits(v as nat)
    }
}

// ---------------------------------------------------------------------------
// What the writer produces
// ---------------------------------------------------------------------------
pub open spec fn spec_encode_request(r: RequestView) -> Seq<char> {
    match r {
        RequestView::Search { query, limit } => seq!['{'] + quoted("type"@) + seq![':'] + quoted(
            "Search"@,
        ) + seq![','] + quoted("query"@) + seq![':'] + quoted(query) + seq![','] + quoted(
            "limit"@,
        ) + seq![':'] + (match limit {
            Some(l) => dec_digits(l as nat),
            None => seq!['n', 'u', 'l', 'l'],
        }) + seq!['}'],
        RequestView::Refresh => seq!['{'] + quoted("type"@) + seq![':'] + quoted("Refresh"@)
            + seq!['}'],
        RequestView::Status => seq!['{'] + quoted("type"@) + seq![':'] + quoted("Status"@)
            + seq!['}'],
    }
}

pub open spec fn spec_encode_match(m: int) -> Seq<char> {
    seq!['{'] + quoted("char_index"@) + seq![':'] + dec_int(m) + seq!['}']
}

pub open spec fn spec_encode_seq_inner(parts: Seq<Seq<char>>) -> Seq<char>
    decreases parts.len(),
{
    if parts.len() == 0 {
        Seq::<char>::empty()
    } else if parts.len() == 1 {
        parts[0]
    } else {
        spec_encode_seq_inner(parts.drop_last()) + seq![','] + parts.last()
    }
}

/// A JSON array of already-spelled elements.
pub open spec fn spec_encode_array(parts: Seq<Seq<char>>) -> Seq<char> {
    seq!['['] + spec_encode_seq_inner(parts) + seq![']']
}

pub open spec fn spec_encode_result(r: ResultView) -> Seq<char> {
    seq!['{'] + quoted("path"@) + seq![':'] + quoted(r.path) + seq![','] + quoted("display_path"@)
        + seq![':'] + quoted(r.display_path) + seq![','] + quoted("matches"@) + seq![':']
        + spec_encode_array(r.matches.map(|i: int, m: int| spec_encode_match(m))) + seq![',']
        + quoted("score"@) + seq![':'] + dec_int(r.score) + seq!['}']
}

pub open spec fn spec_encode_response(r: ResponseView) -> Seq<char> {
    match r {
        ResponseView::SearchResults(sr) => seq!['{'] + quoted("type"@) + seq![':'] + quoted(
            "SearchResults"@,
        ) + seq![','] + quoted("results"@) + seq![':'] + spec_encode_array(
            sr.results.map(|i: int, rv: ResultView| spec_encode_result(rv)),
        ) + seq![','] + quoted("results_count"@) + seq![':'] + dec_int(sr.results_count) + seq![
            ','
        ] + quoted("total_files"@) + seq![':'] + dec_int(sr.total_files) + seq!['}'],
        ResponseView::RefreshComplete { files_count } => seq!['{'] + quoted("type"@) + seq![':']
            + quoted("RefreshComplete"@) + seq![','] + quoted("files_count"@) + seq![':']
            + dec_int(files_count) + seq!['}'],
        ResponseView::Status { files_count, last_updated } => seq!['{'] + quoted("type"@) + seq![
            ':'
        ] + quoted("Status"@) + seq![','] + quoted("files_count"@) + seq![':'] + dec_int(
            files_count,
        ) + seq![','] + quoted("last_updated"@) + seq![':'] + dec_digits(last_updated as nat)
            + seq!['}'],
        ResponseView::Error { message } => seq!['{'] + quoted("type"@) + seq![':'] + quoted(
            "Error"@,
        ) + seq![','] + quoted("message"@) + seq![':'] + quoted(message) + seq!['}'],
    }
}

// ---------------------------------------------------------------------------
// The writer
// ---------------------------------------------------------------------------
fn push_escaped(out: &mut String, v: &str)
    ensures
        final(out)@ == old(out)@ + escape_str(v@),
{
    let n = v.unicode_len();
    let mut k: usize = 0;
    proof {
        assert(v@.take(0) =~= Seq::<char>::empty());
        assert(old(out)@ + Seq::<char>::empty() =~= old(out)@);
    }
    while k < n
        invariant
            k <= n,
            n == v@.len(),
            out@ == old(out)@ + escape_str(v@.take(k as int)),
        decreases n - k,
    {
        let c = v.get_char(k);
        proof {
            assert(v@.take(k as int + 1).drop_last() =~= v@.take(k as int));
            assert(v@.take(k as int + 1).last() == v@[k as int]);
        }
        if c == '"' {
            push_char(out, '\\');
            push_char(out, '"');
        } else if c == '\\' {
            push_char(out, '\\');
            push_char(out, '\\');
        } else if c == '\n' {
            push_char(out, '\\');
            push_char(out, 'n');
        } else if c == '\r' {
            push_char(out, '\\');
            push_char(out, 'r');
        } else if c == '\t' {
            push_char(out, '\\');
            push_char(out, 't');
        } else {
            push_char(out, c);
        }
        proof {
            assert(out@ =~= old(out)@ + escape_str(v@.take(k as int + 1)));
        }
        k = k + 1;
    }
    proof {
        assert(v@.take(n as int) =~= v@);
    }
}

fn push_quoted(out: &mut String, v: &str)
    ensures
        final(out)@ == old(out)@ + quoted(v@),
{
    push_char(out, '"');
    push_escaped(out, v);
    push_char(out, '"');
    proof {
        assert(out@ =~= old(out)@ + quoted(v@));
    }
}

fn push_dec_u64(out: &mut String, n: u64)
    ensures
        final(out)@ == old(out)@ + dec_digits(n as nat),
    decreases n,
{
    if n < 10 {
        push_char(out, ((48 + (n as u8)) as char));
    } else {
        push_dec_u64(out, n / 10);
        push_char(out, ((48 + ((n % 10) as u8)) as char));
        proof {
            assert(out@ =~= old(out)@ + dec_digits(n as nat));
        }
    }
}

fn push_dec_usize(out: &mut String, n: usize)
    ensures
        final(out)@ == old(out)@ + dec_digits(n as nat),
    decreases n,
{
    if n < 10 {
        push_char(out, ((48 + (n as u8)) as char));
    } else {
        push_dec_usize(out, n / 10);
        push_char(out, ((48 + ((n % 10) as u8)) as char));
        proof {
            assert(out@ =~= old(out)@ + dec_digits(n as nat));
        }
    }
}

fn push_dec_i32(out: &mut String, v: i32)
    ensures
        final(out)@ == old(out)@ + dec_int(v as int),
{
    let mag: u64 = if v >= 0 {
        v as u64
    } else {
        ((-(v as i64)) as u64)
    };
    if v < 0 {
        push_char(out, '-');
    }
    push_dec_u64(out, mag);
    proof {
        assert(out@ =~= old(out)@ + dec_int(v as int));
    }
}

/// Spell a request as one JSON frame, the way its readers expect it.
pub fn encode_request(req: &DaemonRequest) -> (r: String)
    ensures
        r@ == spec_encode_request(req@),
{
    let mut out = String::new();
    push_char(&mut out, '{');
    push_quoted(&mut out, "type");
    push_char(&mut out, ':');
    match req {
        DaemonRequest::Search { query, limit } => {
            push_quoted(&mut out, "Search");
            push_char(&mut out, ',');
            push_quoted(&mut out, "query");
            push_char(&mut out, ':');
            push_quoted(&mut out, query.as_str());
            push_char(&mut out, ',');
            push_quoted(&mut out, "limit");
            push_char(&mut out, ':');
            match limit {
                Some(l) => push_dec_usize(&mut out, *l),
                None => {
                    push_char(&mut out, 'n');
                    push_char(&mut out, 'u');
                    push_char(&mut out, 'l');
                    push_char(&mut out, 'l');
                },
            }
        },
        DaemonRequest::Refresh => push_quoted(&mut out, "Refresh"),
        DaemonRequest::Status => push_quoted(&mut out, "Status"),
    }
    push_char(&mut out, '}');
    proof {
        assert(out@ =~= spec_encode_request(req@));
    }
    out
}

fn push_result(out: &mut String, r: &SearchResult)
    ensures
        final(out)@ == old(out)@ + spec_encode_result(r@),
{
    push_char(out, '{');
    push_quoted(out, "path");
    push_char(out, ':');
    push_quoted(out, r.path.as_str());
    push_char(out, ',');
    push_quoted(out, "display_path");
    push_char(out, ':');
    push_quoted(out, r.display_path.as_str());
    push_char(out, ',');
    push_quoted(out, "matches");
    push_char(out, ':');
    push_char(out, '[');
    let ghost parts = r@.matches.map(|i: int, m: int| spec_encode_match(m));
    let ghost mid = out@;
    let mut j: usize = 0;
    proof {
        assert(spec_encode_seq_inner(parts.take(0)) =~= Seq::<char>::empty());
        assert(out@ =~= mid + spec_encode_seq_inner(parts.take(0)));
    }
    while j < r.matches.len()
        invariant
            j <= r.matches.len(),
            parts == r@.matches.map(|i: int, m: int| spec_encode_match(m)),
            parts.len() == r.matches@.len(),
            out@ == mid + spec_encode_seq_inner(parts.take(j as int)),
        decreases r.matches.len() - j,
    {
        if j > 0 {
            push_char(out, ',');
        }
        push_char(out, '{');
        push_quoted(out, "char_index");
        push_char(out, ':');
        let ci = r.matches[j].char_index;
        push_dec_u64(out, ci as u64);
        push_char(out, '}');
        proof {
            assert(parts.take(j as int + 1).drop_last() =~= parts.take(j as int));
            assert(parts.take(j as int + 1).last() == parts[j as int]);
            assert(parts[j as int] == spec_encode_match(r@.matches[j as int]));
            assert(dec_digits(ci as nat) == dec_int(r@.matches[j as int]));
            assert(out@ =~= mid + spec_encode_seq_inner(parts.take(j as int + 1)));
        }
        j = j + 1;
    }
    proof {
        assert(parts.take(parts.len() as int) =~= parts);
    }
    push_char(out, ']');
    push_char(out, ',');
    push_quoted(out, "score");
    push_char(out, ':');
    push_dec_i32(out, r.score);
    push_char(out, '}');
    proof {
        assert(out@ =~= old(out)@ + spec_encode_result(r@));
    }
}

/// Spell a response as one JSON frame: what goes on the wire, whichever
/// channel carries it.
#[verifier::rlimit(80)]
pub fn encode_response(resp: &DaemonResponse) -> (r: String)
    ensures
        r@ == spec_encode_response(resp@),
{
    let mut out = String::new();
    push_char(&mut out, '{');
    push_quoted(&mut out, "type");
    push_char(&mut out, ':');
    match resp {
        DaemonResponse::SearchResults(sr) => {
            push_quoted(&mut out, "SearchResults");
            push_char(&mut out, ',');
            push_quoted(&mut out, "results");
            push_char(&mut out, ':');
            push_char(&mut out, '[');
            let ghost parts = sr@.results.map(|i: int, rv: ResultView| spec_encode_result(rv));
            let ghost mid = out@;
            let mut j: usize = 0;
            proof {
                assert(spec_encode_seq_inner(parts.take(0)) =~= Seq::<char>::empty());
                assert(out@ =~= mid + spec_encode_seq_inner(parts.take(0)));
            }
            while j < sr.results.len()
                invariant
                    j <= sr.results.len(),
                    parts == sr@.results.map(|i: int, rv: ResultView| spec_encode_result(rv)),
                    parts.len() == sr.results@.len(),
                    out@ == mid + spec_encode_seq_inner(parts.take(j as int)),
                decreases sr.results.len() - j,
            {
                if j > 0 {
                    push_char(&mut out, ',');
                }
                push_result(&mut out, &sr.results[j]);
                proof {
                    assert(parts.take(j as int + 1).drop_last() =~= parts.take(j as int));
                    assert(parts.take(j as int + 1).last() == parts[j as int]);
                    assert(out@ =~= mid + spec_encode_seq_inner(parts.take(j as int + 1)));
                }
                j = j + 1;
            }
            proof {
                assert(parts.take(parts.len() as int) =~= parts);
            }
            push_char(&mut out, ']');
            push_char(&mut out, ',');
            push_quoted(&mut out, "results_count");
            push_char(&mut out, ':');
            push_dec_usize(&mut out, sr.results_count);
            push_char(&mut out, ',');
            push_quoted(&mut out, "total_files");
            push_char(&mut out, ':');
            push_dec_usize(&mut out, sr.total_files);
        },
        DaemonResponse::RefreshComplete { files_count } => {
            push_quoted(&mut out, "RefreshComplete");
            push_char(&mut out, ',');
            push_quoted(&mut out, "files_count");
            push_char(&mut out, ':');
            push_dec_usize(&mut out, *files_count);
        },
        DaemonResponse::Status { files_count, last_updated } => {
            push_quoted(&mut out, "Status");
            push_char(&mut out, ',');
            push_quoted(&mut out, "files_count");
            push_char(&mut out, ':');
            push_dec_usize(&mut out, *files_count);
            push_char(&mut out, ',');
            push_quoted(&mut out, "last_updated");
            push_char(&mut out, ':');
            push_dec_u64(&mut out, *last_updated);
        },
        DaemonResponse::Error { message } => {
            push_quoted(&mut out, "Error");
            push_char(&mut out, ',');
            push_quoted(&mut out, "message");
            push_char(&mut out, ':');
            push_quoted(&mut out, message.as_str());
        },
    }
    push_char(&mut out, '}');
    proof {
        assert(out@ =~= spec_encode_response(resp@));
    }
    out
}

// ---------------------------------------------------------------------------
// What the reader accepts
// ---------------------------------------------------------------------------
pub open spec fn json_ws(c: char) -> bool {
    c == ' ' || c == '\t' || c == '\n' || c == '\r'
}

/// The suffix left after leading whitespace.
pub open spec fn skip_ws(s: Seq<char>) -> Seq<char>
    decreases s.len(),
{
    if s.len() > 0 && json_ws(s[0]) {
        skip_ws(s.drop_first())
    } else {
        s
    }
}

/// What a backslash escape stands for, `None` for an unsupported one.
pub open spec fn unescape_char(c: char) -> Option<char> {
    if c == '"' {
        Some('"')
    } else if c == '\\' {
        Some('\\')
    } else if c == '/' {
        Some('/')
    } else if c == 'n' {
        Some('\n')
    } else if c == 'r' {
        Some('\r')
    } else if c == 't' {
        Some('\t')
    } else if c == 'b' {
        Some('\x08')
    } else if c == 'f' {
        Some('\x0C')
    } else {
        None
    }
}

pub open spec fn is_digit(c: char) -> bool {
    48 <= c as u32 && c as u32 <= 57
}

pub open spec fn digit_val(c: char) -> int {
    c as u32 - 48
}

/// A decoded scalar of the protocol's grammar.
pub enum JVal {
    S(Seq<char>),
    N(usize),
    Null,
}

/// The text of a string after its opening quote: the decoded string and the
/// suffix after its closing quote.
pub open spec fn parse_str_body(s: Seq<char>) -> Option<(Seq<char>, Seq<char>)>
    decreases s.len(),
{
    if s.len() == 0 {
        None
    } else if s[0] == '"' {
        Some((Seq::<char>::empty(), s.drop_first()))
    } else if s[0] == '\\' {
        if s.len() < 2 {
            None
        } else {
            match unescape_char(s[1]) {
                None => None,
                Some(c) => match parse_str_body(s.skip(2)) {
                    None => None,
                    Some((t, r)) => Some((seq![c] + t, r)),
                },
            }
        }
    } else {
        match parse_str_body(s.drop_first()) {
            None => None,
            Some((t, r)) => Some((seq![s[0]] + t, r)),
        }
    }
}

pub open spec fn parse_num_from(s: Seq<char>, acc: nat) -> Option<(usize, Seq<char>)>
    decreases s.len(),
{
    if s.len() > 0 && is_digit(s[0]) {
        if acc * 10 + digit_val(s[0]) > usize::MAX {
            None
        } else {
            parse_num_from(s.drop_first(), (acc * 10 + digit_val(s[0])) as nat)
        }
    } else {
        Some((acc as usize, s))
    }
}

/// An unsigned decimal number; overflow of the platform's word is refused.
pub open spec fn parse_number(s: Seq<char>) -> Option<(usize, Seq<char>)> {
    if s.len() > 0 && is_digit(s[0]) {
        parse_num_from(s, 0)
    } else {
        None
    }
}

/// A scalar value: a string, a number or `null`.
pub open spec fn parse_value(s: Seq<char>) -> Option<(JVal, Seq<char>)> {
    let t = skip_ws(s);
    if t.len() > 0 && t[0] == '"' {
        match parse_str_body(t.drop_first()) {
            None => None,
            Some((v, r)) => Some((JVal::S(v), r)),
        }
    } else if t.len() > 0 && is_digit(t[0]) {
        match parse_number(t) {
            None => None,
            Some((n, r)) => Some((JVal::N(n), r)),
        }
    } else if t.len() >= 4 && t[0] == 'n' && t[1] == 'u' && t[2] == 'l' && t[3] == 'l' {
        Some((JVal::Null, t.skip(4)))
    } else {
        None
    }
}

/// One `"key": value` pair.
pub open spec fn parse_member(s: Seq<char>) -> Option<((Seq<char>, JVal), Seq<char>)> {
    let t = skip_ws(s);
    if t.len() > 0 && t[0] == '"' {
        match parse_str_body(t.drop_first()) {
            None => None,
            Some((k, r)) => {
                let r2 = skip_ws(r);
                if r2.len() > 0 && r2[0] == ':' {
                    match parse_value(r2.drop_first()) {
                        None => None,
                        Some((v, r3)) => Some(((k, v), r3)),
                    }
                } else {
                    None
                }
            },
        }
    } else {
        None
    }
}

pub proof fn lemma_skip_ws_len(s: Seq<char>)
    ensures
        skip_ws(s).len() <= s.len(),
    decreases s.len(),
{
    if s.len() > 0 && json_ws(s[0]) {
        lemma_skip_ws_len(s.drop_first());
    }
}

pub proof fn lemma_parse_str_body_len(s: Seq<char>)
    ensures
        parse_str_body(s) matches Some(p) ==> p.1.len() < s.len(),
    decreases s.len(),
{
    if s.len() == 0 {
    } else if s[0] == '"' {
    } else if s[0] == '\\' {
        if s.len() >= 2 {
            lemma_parse_str_body_len(s.skip(2));
        }
    } else {
        lemma_parse_str_body_len(s.drop_first());
    }
}

pub proof fn lemma_parse_num_from_len(s: Seq<char>, acc: nat)
    ensures
        parse_num_from(s, acc) matches Some(p) ==> p.1.len() <= s.len(),
    decreases s.len(),
{
    if s.len() > 0 && is_digit(s[0]) && acc * 10 + digit_val(s[0]) <= usize::MAX {
        lemma_parse_num_from_len(s.drop_first(), (acc * 10 + digit_val(s[0])) as nat);
    }
}

pub proof fn lemma_parse_value_len(s: Seq<char>)
    ensures
        parse_value(s) matches Some(p) ==> p.1.len() < s.len(),
{
    let t = skip_ws(s);
    lemma_skip_ws_len(s);
    if t.len() > 0 && t[0] == '"' {
        lemma_parse_str_body_len(t.drop_first());
    } else if t.len() > 0 && is_digit(t[0]) {
        if parse_num_from(t, 0) matches Some(p) {
            lemma_parse_num_from_len(t.drop_first(), digit_val(t[0]) as nat);
        }
    }
}

pub proof fn lemma_parse_member_len(s: Seq<char>)
    ensures
        parse_member(s) matches Some(p) ==> p.1.len() < s.len(),
{
    let t = skip_ws(s);
    lemma_skip_ws_len(s);
    if t.len() > 0 && t[0] == '"' {
        lemma_parse_str_body_len(t.drop_first());
        match parse_str_body(t.drop_first()) {
            Some((k, r)) => {
                let r2 = skip_ws(r);
                lemma_skip_ws_len(r);
                if r2.len() > 0 && r2[0] == ':' {
                    lemma_parse_value_len(r2.drop_first());
                }
            },
            None => {},
        }
    }
}

/// The members after the first one: separated by commas, ended by `}`.
pub open spec fn parse_members_rest(s: Seq<char>, acc: Seq<(Seq<char>, JVal)>) -> Option<
    (Seq<(Seq<char>, JVal)>, Seq<char>),
>
    decreases s.len(),
    via parse_members_rest_decreases
{
    let t = skip_ws(s);
    if t.len() > 0 && t[0] == '}' {
        Some((acc, t.drop_first()))
    } else if t.len() > 0 && t[0] == ',' {
        match parse_member(t.drop_first()) {
            None => None,
            Some((kv, r)) => parse_members_rest(r, acc.push(kv)),
        }
    } else {
        None
    }
}

#[via_fn]
proof fn parse_members_rest_decreases(s: Seq<char>, acc: Seq<(Seq<char>, JVal)>) {
    lemma_skip_ws_len(s);
    lemma_parse_member_len(skip_ws(s).drop_first());
}

/// A whole object: the member list, in source order, and the suffix after it.
pub open spec fn parse_object(s: Seq<char>) -> Option<(Seq<(Seq<char>, JVal)>, Seq<char>)> {
    let t = skip_ws(s);
    if t.len() > 0 && t[0] == '{' {
        let t1 = skip_ws(t.drop_first());
        if t1.len() > 0 && t1[0] == '}' {
            Some((Seq::<(Seq<char>, JVal)>::empty(), t1.drop_first()))
        } else {
            match parse_member(t.drop_first()) {
                None => None,
                Some((kv, r)) => parse_members_rest(r, seq![kv]),
            }
        }
    } else {
        None
    }
}

// ---------------------------------------------------------------------------
// From members to a request
// ---------------------------------------------------------------------------
/// What has been seen of the three permitted fields while scanning members.
pub struct MemberState {
    pub ty: Option<Seq<char>>,
    pub query: Option<Seq<char>>,
    pub limit: Option<Option<usize>>,
}

/// Fold the member list: each permitted key at most once, with a value of
/// its type; anything else refuses the frame.
pub open spec fn scan_members(ms: Seq<(Seq<char>, JVal)>, st: MemberState) -> Option<MemberState>
    decreases ms.len(),
{
    if ms.len() == 0 {
        Some(st)
    } else {
        let k = ms[0].0;
        let v = ms[0].1;
        let st2 = if k == "type"@ {
            if st.ty is Some {
                None
            } else {
                match v {
                    JVal::S(t) => Some(MemberState { ty: Some(t), query: st.query, limit: st.limit }),
                    _ => None,
                }
            }
        } else if k == "query"@ {
            if st.query is Some {
                None
            } else {
                match v {
                    JVal::S(q) => Some(MemberState { ty: st.ty, query: Some(q), limit: st.limit }),
                    _ => None,
                }
            }
        } else if k == "limit"@ {
            if st.limit is Some {
                None
            } else {
                match v {
                    JVal::N(n) => Some(
                        MemberState { ty: st.ty, query: st.query, limit: Some(Some(n)) },
                    ),
                    JVal::Null => Some(MemberState { ty: st.ty, query: st.query, limit: Some(None) }),
                    _ => None,
                }
            }
        } else {
            None
        };
        match st2 {
            None => None,
            Some(s2) => scan_members(ms.drop_first(), s2),
        }
    }
}

/// The request an object denotes: the tag picks the variant, `Search` takes
/// its query and optional limit, the bare variants take nothing else.
pub open spec fn request_of_members(ms: Seq<(Seq<char>, JVal)>) -> Option<RequestView> {
    match scan_members(ms, MemberState { ty: None, query: None, limit: None }) {
        None => None,
        Some(st) => match st.ty {
            None => None,
            Some(t) => if t == "Search"@ {
                match st.query {
                    Some(q) => Some(
                        RequestView::Search {
                            query: q,
                            limit: match st.limit {
                                Some(l) => l,
                                None => None,
                            },
                        },
                    ),
                    None => None,
                }
            } else if t == "Refresh"@ {
                if st.query is None && st.limit is None {
                    Some(RequestView::Refresh)
                } else {
                    None
                }
            } else if t == "Status"@ {
                if st.query is None && st.limit is None {
                    Some(RequestView::Status)
                } else {
                    None
                }
            } else {
                None
            },
        },
    }
}

/// The request a whole frame denotes: one object, nothing but whitespace
/// after it.
pub open spec fn spec_parse_request(s: Seq<char>) -> Option<RequestView> {
    match parse_object(s) {
        None => None,
        Some((ms, rest)) => if skip_ws(rest).len() == 0 {
            request_of_members(ms)
        } else {
            None
        },
    }
}

// ---------------------------------------------------------------------------
// The reader
// ---------------------------------------------------------------------------
/// A decoded scalar as the reader holds it.
pub enum JsonScalar {
    S(String),
    N(usize),
    Null,
}

impl View for JsonScalar {
    type V = JVal;

    open spec fn view(&self) -> JVal {
        match self {
            JsonScalar::S(s) => JVal::S(s@),
            JsonScalar::N(n) => JVal::N(*n),
            JsonScalar::Null => JVal::Null,
        }
    }
}

pub open spec fn members_view(ms: Seq<(String, JsonScalar)>) -> Seq<(Seq<char>, JVal)> {
    ms.map(|i: int, kv: (String, JsonScalar)| (kv.0@, kv.1@))
}

/// `parse_str_body` with the part already read in front.
pub open spec fn str_body_cont(s: Seq<char>, acc: Seq<char>) -> Option<(Seq<char>, Seq<char>)> {
    match parse_str_body(s) {
        None => None,
        Some((t, r)) => Some((acc + t, r)),
    }
}

fn to_chars(v: &str) -> (r: Vec<char>)
    ensures
        r@ == v@,
{
    let n = v.unicode_len();
    let mut out: Vec<char> = Vec::new();
    let mut k: usize = 0;
    while k < n
        invariant
            k <= n,
            n == v@.len(),
            out@ == v@.take(k as int),
        decreases n - k,
    {
        out.push(v.get_char(k));
        proof {
            assert(out@ =~= v@.take(k as int + 1));
        }
        k = k + 1;
    }
    proof {
        assert(v@.take(n as int) =~= v@);
    }
    out
}

fn ws_char(c: char) -> (b: bool)
    ensures
        b == json_ws(c),
{
    c == ' ' || c == '\t' || c == '\n' || c == '\r'
}

fn x_skip_ws(chars: &Vec<char>, i: usize) -> (j: usize)
    requires
        i <= chars@.len(),
    ensures
        i <= j <= chars@.len(),
        chars@.skip(j as int) == skip_ws(chars@.skip(i as int)),
{
    let mut j = i;
    while j < chars.len() && ws_char(chars[j])
        invariant
            i <= j <= chars@.len(),
            skip_ws(chars@.skip(i as int)) == skip_ws(chars@.skip(j as int)),
        decreases chars@.len() - j,
    {
        proof {
            assert(chars@.skip(j as int)[0] == chars@[j as int]);
            assert(chars@.skip(j as int).drop_first() =~= chars@.skip(j as int + 1));
        }
        j = j + 1;
    }
    proof {
        if j < chars@.len() {
            assert(chars@.skip(j as int)[0] == chars@[j as int]);
            assert(skip_ws(chars@.skip(j as int)) == chars@.skip(j as int));
        } else {
            assert(chars@.skip(j as int).len() == 0);
            assert(skip_ws(chars@.skip(j as int)) == chars@.skip(j as int));
        }
    }
    j
}

fn unescape_exec(c: char) -> (r: Option<char>)
    ensures
        r == unescape_char(c),
{
    if c == '"' {
        Some('"')
    } else if c == '\\' {
        Some('\\')
    } else if c == '/' {
        Some('/')
    } else if c == 'n' {
        Some('\n')
    } else if c == 'r' {
        Some('\r')
    } else if c == 't' {
        Some('\t')
    } else if c == 'b' {
        Some('\x08')
    } else if c == 'f' {
        Some('\x0C')
    } else {
        None
    }
}

fn x_parse_str_body(chars: &Vec<char>, i: usize) -> (r: Option<(String, usize)>)
    requires
        i <= chars@.len(),
    ensures
        (match parse_str_body(chars@.skip(i as int)) {
            None => r is None,
            Some(p) => {
                &&& r matches Some(q)
                &&& q.0@ == p.0
                &&& q.1 <= chars@.len()
                &&& chars@.skip(q.1 as int) == p.1
            },
        }),
{
    let mut pos = i;
    let mut acc = String::new();
    loop
        invariant
            i <= pos <= chars@.len(),
            parse_str_body(chars@.skip(i as int)) == str_body_cont(chars@.skip(pos as int), acc@),
        decreases chars@.len() - pos,
    {
        if pos >= chars.len() {
            proof {
                assert(chars@.skip(pos as int).len() == 0);
            }
            return None;
        }
        let c = chars[pos];
        proof {
            assert(chars@.skip(pos as int)[0] == chars@[pos as int]);
            assert(chars@.skip(pos as int).drop_first() =~= chars@.skip(pos as int + 1));
        }
        if c == '"' {
            proof {
                assert(acc@ + Seq::<char>::empty() =~= acc@);
            }
            return Some((acc, pos + 1));
        } else if c == '\\' {
            if pos + 1 >= chars.len() {
                proof {
                    assert(chars@.skip(pos as int).len() < 2);
                }
                return None;
            }
            let e = chars[pos + 1];
            proof {
                assert(chars@.skip(pos as int)[1] == chars@[pos as int + 1]);
                assert(chars@.skip(pos as int).skip(2) =~= chars@.skip(pos as int + 2));
            }
            match unescape_exec(e) {
                None => {
                    return None;
                },
                Some(u) => {
                    let ghost acc_old = acc@;
                    push_char(&mut acc, u);
                    proof {
                        match parse_str_body(chars@.skip(pos as int + 2)) {
                            None => {},
                            Some((t, rr)) => {
                                assert(acc_old + (seq![u] + t) =~= acc@ + t);
                            },
                        }
                    }
                    pos = pos + 2;
                },
            }
        } else {
            let ghost acc_old = acc@;
            push_char(&mut acc, c);
            proof {
                match parse_str_body(chars@.skip(pos as int + 1)) {
                    None => {},
                    Some((t, rr)) => {
                        assert(acc_old + (seq![c] + t) =~= acc@ + t);
                    },
                }
            }
            pos = pos + 1;
        }
    }
}

fn digit_exec(c: char) -> (r: Option<usize>)
    ensures
        (match r {
            Some(d) => is_digit(c) && d == digit_val(c),
            None => !is_digit(c),
        }),
{
    let cu = c as u32;
    if 48 <= cu && cu <= 57 {
        Some((cu - 48) as usize)
    } else {
        None
    }
}

fn x_parse_number(chars: &Vec<char>, i: usize) -> (r: Option<(usize, usize)>)
    requires
        i <= chars@.len(),
    ensures
        (match parse_number(chars@.skip(i as int)) {
            None => r is None,
            Some(p) => {
                &&& r matches Some(q)
                &&& q.0 == p.0
                &&& q.1 <= chars@.len()
                &&& chars@.skip(q.1 as int) == p.1
            },
        }),
{
    if i >= chars.len() {
        return None;
    }
    proof {
        assert(chars@.skip(i as int)[0] == chars@[i as int]);
    }
    match digit_exec(chars[i]) {
        None => {
            return None;
        },
        Some(_) => {},
    }
    let mut pos = i;
    let mut acc: usize = 0;
    loop
        invariant
            i <= pos <= chars@.len(),
            parse_number(chars@.skip(i as int)) == parse_num_from(chars@.skip(i as int), 0),
            parse_num_from(chars@.skip(i as int), 0) == parse_num_from(
                chars@.skip(pos as int),
                acc as nat,
            ),
        decreases chars@.len() - pos,
    {
        if pos >= chars.len() {
            proof {
                assert(chars@.skip(pos as int).len() == 0);
            }
            return Some((acc, pos));
        }
        let c = chars[pos];
        proof {
            assert(chars@.skip(pos as int)[0] == chars@[pos as int]);
            assert(chars@.skip(pos as int).drop_first() =~= chars@.skip(pos as int + 1));
        }
        match digit_exec(c) {
            None => {
                return Some((acc, pos));
            },
            Some(d) => {
                match acc.checked_mul(10) {
                    None => {
                        return None;
                    },
                    Some(m) => {
                        match m.checked_add(d) {
                            None => {
                                return None;
                            },
                            Some(a) => {
                                acc = a;
                            },
                        }
                    },
                }
            },
        }
        pos = pos + 1;
    }
}

fn x_parse_value(chars: &Vec<char>, i: usize) -> (r: Option<(JsonScalar, usize)>)
    requires
        i <= chars@.len(),
    ensures
        (match parse_value(chars@.skip(i as int)) {
            None => r is None,
            Some(p) => {
                &&& r matches Some(q)
                &&& q.0@ == p.0
                &&& q.1 <= chars@.len()
                &&& chars@.skip(q.1 as int) == p.1
            },
        }),
{
    let j = x_skip_ws(chars, i);
    let ghost t = skip_ws(chars@.skip(i as int));
    proof {
        assert(t == chars@.skip(j as int));
        assert(t.len() == chars@.len() - j);
        if j < chars@.len() {
            assert(t[0] == chars@[j as int]);
        }
    }
    if j < chars.len() && chars[j] == '"' {
        proof {
            assert(t.drop_first() =~= chars@.skip(j as int + 1));
        }
        match x_parse_str_body(chars, j + 1) {
            None => None,
            Some((sv, j2)) => Some((JsonScalar::S(sv), j2)),
        }
    } else if j < chars.len() && digit_exec(chars[j]).is_some() {
        match x_parse_number(chars, j) {
            None => None,
            Some((n, j2)) => Some((JsonScalar::N(n), j2)),
        }
    } else if j < chars.len() && chars.len() - j >= 4 && chars[j] == 'n' && chars[j + 1] == 'u'
        && chars[j + 2] == 'l' && chars[j + 3] == 'l' {
        proof {
            assert(t[1] == chars@[j as int + 1]);
            assert(t[2] == chars@[j as int + 2]);
            assert(t[3] == chars@[j as int + 3]);
            assert(t.skip(4) =~= chars@.skip(j as int + 4));
        }
        Some((JsonScalar::Null, j + 4))
    } else {
        proof {
            if j < chars@.len() {
                assert(!is_digit(t[0]));
            }
        }
        None
    }
}

fn x_parse_member(chars: &Vec<char>, i: usize) -> (r: Option<((String, JsonScalar), usize)>)
    requires
        i <= chars@.len(),
    ensures
        (match parse_member(chars@.skip(i as int)) {
            None => r is None,
            Some(p) => {
                &&& r matches Some(q)
                &&& q.0.0@ == p.0.0
                &&& q.0.1@ == p.0.1
                &&& q.1 <= chars@.len()
                &&& chars@.skip(q.1 as int) == p.1
            },
        }),
{
    let j = x_skip_ws(chars, i);
    let ghost t = skip_ws(chars@.skip(i as int));
    proof {
        assert(t == chars@.skip(j as int));
        if j < chars@.len() {
            assert(t[0] == chars@[j as int]);
        }
    }
    if j < chars.len() && chars[j] == '"' {
        proof {
            assert(t.drop_first() =~= chars@.skip(j as int + 1));
        }
        match x_parse_str_body(chars, j + 1) {
            None => None,
            Some((k, j2)) => {
                let j3 = x_skip_ws(chars, j2);
                let ghost r2 = skip_ws(chars@.skip(j2 as int));
                proof {
                    assert(r2 == chars@.skip(j3 as int));
                    if j3 < chars@.len() {
                        assert(r2[0] == chars@[j3 as int]);
                    }
                }
                if j3 < chars.len() && chars[j3] == ':' {
                    proof {
                        assert(r2.drop_first() =~= chars@.skip(j3 as int + 1));
                    }
                    match x_parse_value(chars, j3 + 1) {
                        None => None,
                        Some((v, j4)) => Some(((k, v), j4)),
                    }
                } else {
                    None
                }
            },
        }
    } else {
        None
    }
}

fn x_parse_object(chars: &Vec<char>, i: usize) -> (r: Option<(Vec<(String, JsonScalar)>, usize)>)
    requires
        i <= chars@.len(),
    ensures
        (match parse_object(chars@.skip(i as int)) {
            None => r is None,
            Some(p) => {
                &&& r matches Some(q)
                &&& members_view(q.0@) == p.0
                &&& q.1 <= chars@.len()
                &&& chars@.skip(q.1 as int) == p.1
            },
        }),
{
    let j = x_skip_ws(chars, i);
    let ghost t = skip_ws(chars@.skip(i as int));
    proof {
        assert(t == chars@.skip(j as int));
        if j < chars@.len() {
            assert(t[0] == chars@[j as int]);
        }
    }
    if !(j < chars.len() && chars[j] == '{') {
        return None;
    }
    proof {
        assert(t.drop_first() =~= chars@.skip(j as int + 1));
    }
    let j1 = x_skip_ws(chars, j + 1);
    let ghost t1 = skip_ws(chars@.skip(j as int + 1));
    proof {
        assert(t1 == chars@.skip(j1 as int));
        if j1 < chars@.len() {
            assert(t1[0] == chars@[j1 as int]);
        }
    }
    if j1 < chars.len() && chars[j1] == '}' {
        let empty: Vec<(String, JsonScalar)> = Vec::new();
        proof {
            assert(t1.drop_first() =~= chars@.skip(j1 as int + 1));
            assert(members_view(empty@) =~= Seq::<(Seq<char>, JVal)>::empty());
        }
        return Some((empty, j1 + 1));
    }
    match x_parse_member(chars, j + 1) {
        None => None,
        Some((kv, r0)) => {
            let ghost obj = parse_object(chars@.skip(i as int));
            let mut acc: Vec<(String, JsonScalar)> = Vec::new();
            acc.push(kv);
            let mut cur = r0;
            proof {
                let ghost kv0 = parse_member(t.drop_first()).unwrap().0;
                assert(members_view(acc@) =~= seq![kv0]);
            }
            loop
                invariant
                    cur <= chars@.len(),
                    parse_members_rest(chars@.skip(cur as int), members_view(acc@)) == (match obj {
                        Some(p) => Some(p),
                        None => None,
                    }),
                    obj == parse_object(chars@.skip(i as int)),
                decreases chars@.len() - cur,
            {
                let jj = x_skip_ws(chars, cur);
                let ghost tt = skip_ws(chars@.skip(cur as int));
                proof {
                    assert(tt == chars@.skip(jj as int));
                    if jj < chars@.len() {
                        assert(tt[0] == chars@[jj as int]);
                    }
                }
                if jj < chars.len() && chars[jj] == '}' {
                    proof {
                        assert(tt.drop_first() =~= chars@.skip(jj as int + 1));
                    }
                    return Some((acc, jj + 1));
                }
                if !(jj < chars.len() && chars[jj] == ',') {
                    return None;
                }
                proof {
                    assert(tt.drop_first() =~= chars@.skip(jj as int + 1));
                }
                match x_parse_member(chars, jj + 1) {
                    None => {
                        return None;
                    },
                    Some((kv2, r2)) => {
                        let ghost acc_old = members_view(acc@);
                        let ghost kvv = parse_member(tt.drop_first()).unwrap().0;
                        acc.push(kv2);
                        proof {
                            assert(members_view(acc@) =~= acc_old.push(kvv));
                            lemma_parse_member_len(tt.drop_first());
                            assert(chars@.skip(r2 as int).len() < tt.drop_first().len());
                        }
                        cur = r2;
                    },
                }
            }
        },
    }
}

pub open spec fn opt_str_view(o: Option<String>) -> Option<Seq<char>> {
    match o {
        Some(s) => Some(s@),
        None => None,
    }
}

fn request_of_members_exec(ms: Vec<(String, JsonScalar)>) -> (r: Option<DaemonRequest>)
    ensures
        (match request_of_members(members_view(ms@)) {
            None => r is None,
            Some(v) => r matches Some(req) && req@ == v,
        }),
{
    let tyk = String::from_str("type");
    let qk = String::from_str("query");
    let lk = String::from_str("limit");
    let mut ty: Option<String> = None;
    let mut q: Option<String> = None;
    let mut lim: Option<Option<usize>> = None;
    let mut k: usize = 0;
    let ghost full = members_view(ms@);
    proof {
        assert(full.skip(0) =~= full);
    }
    while k < ms.len()
        invariant
            k <= ms@.len(),
            full == members_view(ms@),
            tyk@ == "type"@,
            qk@ == "query"@,
            lk@ == "limit"@,
            scan_members(full, MemberState { ty: None, query: None, limit: None })
                == scan_members(
                full.skip(k as int),
                MemberState { ty: opt_str_view(ty), query: opt_str_view(q), limit: lim },
            ),
        decreases ms@.len() - k,
    {
        let ghost st_before = MemberState {
            ty: opt_str_view(ty),
            query: opt_str_view(q),
            limit: lim,
        };
        proof {
            assert(full.skip(k as int)[0] == full[k as int]);
            assert(full.skip(k as int).drop_first() =~= full.skip(k as int + 1));
            assert(full[k as int] == (ms@[k as int].0@, ms@[k as int].1@));
        }
        let kv = &ms[k];
        if kv.0 == tyk {
            if ty.is_some() {
                return None;
            }
            match &kv.1 {
                JsonScalar::S(t) => {
                    ty = Some(t.clone());
                },
                _ => {
                    return None;
                },
            }
        } else if kv.0 == qk {
            if q.is_some() {
                return None;
            }
            match &kv.1 {
                JsonScalar::S(t) => {
                    q = Some(t.clone());
                },
                _ => {
                    return None;
                },
            }
        } else if kv.0 == lk {
            if lim.is_some() {
                return None;
            }
            match &kv.1 {
                JsonScalar::N(n) => {
                    lim = Some(Some(*n));
                },
                JsonScalar::Null => {
                    lim = Some(None);
                },
                _ => {
                    return None;
                },
            }
        } else {
            return None;
        }
        k = k + 1;
    }
    proof {
        assert(full.skip(ms@.len() as int).len() == 0);
    }
    let sk = String::from_str("Search");
    let rk = String::from_str("Refresh");
    let stk = String::from_str("Status");
    match ty {
        None => None,
        Some(t) => {
            if t == sk {
                match q {
                    Some(qs) => Some(
                        DaemonRequest::Search {
                            query: qs,
                            limit: match lim {
                                Some(l) => l,
                                None => None,
                            },
                        },
                    ),
                    None => None,
                }
            } else if t == rk {
                if q.is_some() || lim.is_some() {
                    None
                } else {
                    Some(DaemonRequest::Refresh)
                }
            } else if t == stk {
                if q.is_some() || lim.is_some() {
                    None
                } else {
                    Some(DaemonRequest::Status)
                }
            } else {
                None
            }
        },
    }
}

// ---------------------------------------------------------------------------
// The round trip: what the writer spells, the reader accepts unchanged
// ---------------------------------------------------------------------------
proof fn lemma_escape_first(s: Seq<char>)
    requires
        s.len() > 0,
    ensures
        escape_str(s) == escape_char(s[0]) + escape_str(s.drop_first()),
    decreases s.len(),
{
    if s.len() == 1 {
        assert(s.drop_last() =~= Seq::<char>::empty());
        assert(s.drop_first() =~= Seq::<char>::empty());
        assert(escape_str(Seq::<char>::empty()) =~= Seq::<char>::empty());
        assert(escape_str(s) =~= escape_char(s[0]) + escape_str(s.drop_first()));
    } else {
        lemma_escape_first(s.drop_last());
        assert(s.drop_last()[0] == s[0]);
        assert(s.drop_last().drop_first() =~= s.drop_first().drop_last());
        assert(s.drop_first().last() == s.last());
        assert(escape_str(s) =~= escape_char(s[0]) + escape_str(s.drop_first()));
    }
}

proof fn lemma_parse_escaped(q: Seq<char>, rest: Seq<char>)
    ensures
        parse_str_body(escape_str(q) + seq!['"'] + rest) == Some((q, rest)),
    decreases q.len(),
{
    let s = escape_str(q) + seq!['"'] + rest;
    if q.len() == 0 {
        assert(escape_str(q) =~= Seq::<char>::empty());
        assert(s[0] == '"');
        assert(s.drop_first() =~= rest);
        assert(Seq::<char>::empty() =~= q);
    } else {
        lemma_escape_first(q);
        lemma_parse_escaped(q.drop_first(), rest);
        let c = q[0];
        let e = escape_char(c);
        let tail = escape_str(q.drop_first()) + seq!['"'] + rest;
        assert(s =~= e + tail);
        if c == '"' || c == '\\' || c == '\n' || c == '\r' || c == '\t' {
            assert(e.len() == 2 && e[0] == '\\');
            assert(s[0] == '\\');
            assert(s.len() >= 2);
            assert(s[1] == e[1]);
            assert(unescape_char(e[1]) == Some(c));
            assert(s.skip(2) =~= tail);
            assert(seq![c] + q.drop_first() =~= q);
        } else {
            assert(e =~= seq![c]);
            assert(s[0] == c);
            assert(c != '"' && c != '\\');
            assert(s.drop_first() =~= tail);
            assert(seq![c] + q.drop_first() =~= q);
        }
    }
}

spec fn pow10(k: nat) -> nat
    decreases k,
{
    if k == 0 {
        1
    } else {
        10 * pow10((k - 1) as nat)
    }
}

proof fn lemma_digit_char(d: int)
    requires
        0 <= d <= 9,
    ensures
        is_digit(digit_char(d)),
        digit_val(digit_char(d)) == d,
{
}

proof fn lemma_dec_digits_first(n: nat)
    ensures
        dec_digits(n).len() > 0,
        is_digit(dec_digits(n)[0]),
    decreases n,
{
    if n < 10 {
        lemma_digit_char(n as int);
    } else {
        lemma_dec_digits_first(n / 10);
        assert(dec_digits(n)[0] == dec_digits(n / 10)[0]);
    }
}

proof fn lemma_parse_dec_cont(n: nat, acc: nat, rest: Seq<char>)
    requires
        acc * pow10(dec_digits(n).len()) + n <= usize::MAX,
    ensures
        parse_num_from(dec_digits(n) + rest, acc) == parse_num_from(
            rest,
            (acc * pow10(dec_digits(n).len()) + n) as nat,
        ),
    decreases n,
{
    let ds = dec_digits(n);
    if n < 10 {
        lemma_digit_char(n as int);
        assert(ds =~= seq![digit_char(n as int)]);
        let s = ds + rest;
        assert(s[0] == digit_char(n as int));
        assert(pow10(1) == 10 * pow10(0));
        assert(pow10(0) == 1);
        assert(acc * 10 + n <= usize::MAX);
        assert(s.drop_first() =~= rest);
        assert(digit_val(s[0]) == n);
    } else {
        let d = (n % 10) as int;
        let hi = n / 10;
        lemma_digit_char(d);
        let len1 = dec_digits(hi).len();
        assert(ds == dec_digits(hi) + seq![digit_char(d)]);
        assert(ds.len() == len1 + 1);
        assert(pow10((len1 + 1) as nat) == 10 * pow10(len1));
        let a1 = acc * pow10(len1) + hi;
        assert(n == 10 * hi + d);
        assert(a1 * 10 + d == acc * (10 * pow10(len1)) + n) by (nonlinear_arith)
            requires
                a1 == acc * pow10(len1) + hi,
                n == 10 * hi + d,
        ;
        assert(a1 * 10 + d <= usize::MAX);
        assert(a1 <= a1 * 10 + d) by (nonlinear_arith)
            requires
                a1 >= 0,
                d >= 0,
        ;
        lemma_parse_dec_cont(hi, acc, seq![digit_char(d)] + rest);
        assert(ds + rest =~= dec_digits(hi) + (seq![digit_char(d)] + rest));
        let mid = seq![digit_char(d)] + rest;
        assert(mid[0] == digit_char(d));
        assert(mid.drop_first() =~= rest);
        assert(parse_num_from(mid, a1) == parse_num_from(rest, (a1 * 10 + d) as nat));
    }
}

proof fn lemma_parse_dec(n: usize, rest: Seq<char>)
    requires
        rest.len() == 0 || !is_digit(rest[0]),
    ensures
        parse_number(dec_digits(n as nat) + rest) == Some((n, rest)),
{
    let s = dec_digits(n as nat) + rest;
    lemma_dec_digits_first(n as nat);
    assert(s[0] == dec_digits(n as nat)[0]);
    assert(0 * pow10(dec_digits(n as nat).len()) == 0) by (nonlinear_arith);
    lemma_parse_dec_cont(n as nat, 0, rest);
    assert(parse_num_from(rest, n as nat) == Some((n, rest)));
}

proof fn lemma_parse_value_string(q: Seq<char>, rest: Seq<char>)
    ensures
        parse_value(quoted(q) + rest) == Some((JVal::S(q), rest)),
{
    let s = quoted(q) + rest;
    assert(s[0] == '"');
    assert(!json_ws('"'));
    assert(skip_ws(s) == s);
    assert(s.drop_first() =~= escape_str(q) + seq!['"'] + rest);
    lemma_parse_escaped(q, rest);
}

proof fn lemma_parse_value_num(n: usize, rest: Seq<char>)
    requires
        rest.len() == 0 || !is_digit(rest[0]),
    ensures
        parse_value(dec_digits(n as nat) + rest) == Some((JVal::N(n), rest)),
{
    let s = dec_digits(n as nat) + rest;
    lemma_dec_digits_first(n as nat);
    assert(s[0] == dec_digits(n as nat)[0]);
    assert(is_digit(s[0]));
    assert(!json_ws(s[0]));
    assert(skip_ws(s) == s);
    assert(s[0] != '"');
    lemma_parse_dec(n, rest);
}

proof fn lemma_parse_value_null(rest: Seq<char>)
    ensures
        parse_value(seq!['n', 'u', 'l', 'l'] + rest) == Some((JVal::Null, rest)),
{
    let s = seq!['n', 'u', 'l', 'l'] + rest;
    assert(s[0] == 'n');
    assert(!json_ws('n'));
    assert(skip_ws(s) == s);
    assert(s[0] != '"');
    assert(!is_digit('n'));
    assert(s.len() >= 4 && s[1] == 'u' && s[2] == 'l' && s[3] == 'l');
    assert(s.skip(4) =~= rest);
}

proof fn lemma_parse_member_kv(k: Seq<char>, vtext: Seq<char>, v: JVal, rest: Seq<char>)
    requires
        parse_value(vtext + rest) == Some((v, rest)),
    ensures
        parse_member(quoted(k) + seq![':'] + vtext + rest) == Some(((k, v), rest)),
{
    let s = quoted(k) + seq![':'] + vtext + rest;
    assert(s[0] == '"');
    assert(!json_ws('"'));
    assert(skip_ws(s) == s);
    let after_key = seq![':'] + (vtext + rest);
    assert(s.drop_first() =~= escape_str(k) + seq!['"'] + after_key);
    lemma_parse_escaped(k, after_key);
    assert(!json_ws(':'));
    assert(after_key[0] == ':');
    assert(skip_ws(after_key) == after_key);
    assert(after_key.drop_first() =~= vtext + rest);
}

/// Round trip: every request value, spelled by the writer, is read back as
/// exactly that value.
#[verifier::rlimit(100)]
pub proof fn lemma_request_round_trip(r: RequestView)
    ensures
        spec_parse_request(spec_encode_request(r)) == Some(r),
{
    let s = spec_encode_request(r);
    assert(!json_ws('{'));
    assert(!json_ws(','));
    assert(skip_ws(Seq::<char>::empty()).len() == 0);
    match r {
        RequestView::Refresh => {
            lemma_round_trip_unit(r, "Refresh"@);
        },
        RequestView::Status => {
            lemma_round_trip_unit(r, "Status"@);
        },
        RequestView::Search { query, limit } => {
            let close = seq!['}'];
            let vlimit: Seq<char> = match limit {
                Some(l) => dec_digits(l as nat),
                None => seq!['n', 'u', 'l', 'l'],
            };
            let m3 = quoted("limit"@) + seq![':'] + vlimit + close;
            let m2 = quoted("query"@) + seq![':'] + quoted(query) + (seq![','] + m3);
            let m1 = quoted("type"@) + seq![':'] + quoted("Search"@) + (seq![','] + m2);
            assert(s =~= seq!['{'] + m1);
            assert(s[0] == '{');
            assert(skip_ws(s) == s);
            assert(s.drop_first() =~= m1);
            assert(m1[0] == '"');
            assert(skip_ws(m1) == m1);
            // first member: the tag
            lemma_parse_value_string("Search"@, seq![','] + m2);
            lemma_parse_member_kv(
                "type"@,
                quoted("Search"@),
                JVal::S("Search"@),
                seq![','] + m2,
            );
            let kv1 = ("type"@, JVal::S("Search"@));
            assert(parse_member(m1) == Some((kv1, seq![','] + m2)));
            // the members after it
            let r1 = seq![','] + m2;
            assert(skip_ws(r1) == r1);
            assert(r1[0] == ',');
            assert(r1.drop_first() =~= m2);
            lemma_parse_value_string(query, seq![','] + m3);
            assert(quoted("query"@) + seq![':'] + quoted(query) + (seq![','] + m3) =~= m2);
            lemma_parse_member_kv("query"@, quoted(query), JVal::S(query), seq![','] + m3);
            let kv2 = ("query"@, JVal::S(query));
            assert(parse_member(m2) == Some((kv2, seq![','] + m3)));
            let r2 = seq![','] + m3;
            assert(skip_ws(r2) == r2);
            assert(r2[0] == ',');
            assert(r2.drop_first() =~= m3);
            let vlim: JVal = match limit {
                Some(l) => JVal::N(l),
                None => JVal::Null,
            };
            match limit {
                Some(l) => {
                    assert(!is_digit('}'));
                    lemma_parse_value_num(l, close);
                },
                None => {
                    lemma_parse_value_null(close);
                },
            }
            assert(quoted("limit"@) + seq![':'] + vlimit + close =~= m3);
            lemma_parse_member_kv("limit"@, vlimit, vlim, close);
            let kv3 = ("limit"@, vlim);
            assert(parse_member(m3) == Some((kv3, close)));
            assert(skip_ws(close) == close);
            assert(close[0] == '}');
            assert(close.drop_first() =~= Seq::<char>::empty());
            // assemble the object
            let ms = seq![kv1, kv2, kv3];
            assert(parse_members_rest(close, seq![kv1].push(kv2).push(kv3)) == Some(
                (seq![kv1].push(kv2).push(kv3), Seq::<char>::empty()),
            ));
            assert(parse_members_rest(r2, seq![kv1].push(kv2)) == parse_members_rest(
                close,
                seq![kv1].push(kv2).push(kv3),
            ));
            assert(parse_members_rest(r1, seq![kv1]) == parse_members_rest(
                r2,
                seq![kv1].push(kv2),
            ));
            assert(parse_object(s) == Some((seq![kv1].push(kv2).push(kv3), Seq::<char>::empty())));
            assert(seq![kv1].push(kv2).push(kv3) =~= ms);
            // read the members back
            reveal_strlit("type");
            reveal_strlit("query");
            reveal_strlit("limit");
            reveal_strlit("Search");
            reveal_strlit("Refresh");
            reveal_strlit("Status");
            let st0 = MemberState { ty: None, query: None, limit: None };
            let st1 = MemberState { ty: Some("Search"@), query: None, limit: None };
            let st2 = MemberState { ty: Some("Search"@), query: Some(query), limit: None };
            let st3 = MemberState {
                ty: Some("Search"@),
                query: Some(query),
                limit: Some(limit),
            };
            assert(ms[0] == kv1 && ms[1] == kv2 && ms[2] == kv3);
            assert(ms.drop_first() =~= seq![kv2, kv3]);
            assert(seq![kv2, kv3].drop_first() =~= seq![kv3]);
            assert(seq![kv3].drop_first() =~= Seq::<(Seq<char>, JVal)>::empty());
            assert("query"@ != "type"@);
            assert("limit"@ != "type"@);
            assert("limit"@ != "query"@);
            assert(scan_members(ms, st0) == scan_members(seq![kv2, kv3], st1));
            assert(scan_members(seq![kv2, kv3], st1) == scan_members(seq![kv3], st2));
            assert(scan_members(seq![kv3], st2) == scan_members(
                Seq::<(Seq<char>, JVal)>::empty(),
                st3,
            ));
            assert(scan_members(ms, st0) == Some(st3));
            assert("Search"@ == "Search"@);
            assert(request_of_members(ms) == Some(r));
        },
    }
}

/// The round trip for the two bare variants, whose frames hold the tag alone.
proof fn lemma_round_trip_unit(r: RequestView, name: Seq<char>)
    requires
        r == (RequestView::Refresh {}) || r == (RequestView::Status {}),
        r == (RequestView::Refresh {}) ==> name == "Refresh"@,
        r == (RequestView::Status {}) ==> name == "Status"@,
        spec_encode_request(r) == seq!['{'] + quoted("type"@) + seq![':'] + quoted(name)
            + seq!['}'],
    ensures
        spec_parse_request(spec_encode_request(r)) == Some(r),
{
    let s = spec_encode_request(r);
    let close = seq!['}'];
    let m1 = quoted("type"@) + seq![':'] + quoted(name) + close;
    assert(s =~= seq!['{'] + m1);
    assert(!json_ws('{'));
    assert(s[0] == '{');
    assert(skip_ws(s) == s);
    assert(s.drop_first() =~= m1);
    assert(m1[0] == '"');
    assert(skip_ws(m1) == m1);
    lemma_parse_value_string(name, close);
    assert(quoted("type"@) + seq![':'] + quoted(name) + close =~= m1);
    lemma_parse_member_kv("type"@, quoted(name), JVal::S(name), close);
    let kv1 = ("type"@, JVal::S(name));
    assert(parse_member(m1) == Some((kv1, close)));
    assert(skip_ws(close) == close);
    assert(close[0] == '}');
    assert(close.drop_first() =~= Seq::<char>::empty());
    assert(parse_members_rest(close, seq![kv1]) == Some((seq![kv1], Seq::<char>::empty())));
    assert(parse_object(s) == Some((seq![kv1], Seq::<char>::empty())));
    assert(skip_ws(Seq::<char>::empty()).len() == 0);
    reveal_strlit("type");
    reveal_strlit("Search");
    reveal_strlit("Refresh");
    reveal_strlit("Status");
    let ms = seq![kv1];
    let st0 = MemberState { ty: None, query: None, limit: None };
    let st1 = MemberState { ty: Some(name), query: None, limit: None };
    assert(ms.drop_first() =~= Seq::<(Seq<char>, JVal)>::empty());
    assert(scan_members(ms, st0) == scan_members(Seq::<(Seq<char>, JVal)>::empty(), st1));
    assert(scan_members(ms, st0) == Some(st1));
    assert(name != "Search"@);
    assert(request_of_members(ms) == Some(r));
}

/// Decode one request frame; a frame outside the grammar is refused with a
/// diagnostic message.
pub fn parse_request(line: &str) -> (r: Result<DaemonRequest, String>)
    ensures
        (match spec_parse_request(line@) {
            None => r is Err,
            Some(v) => r matches Ok(req) && req@ == v,
        }),
{
    let chars = to_chars(line);
    proof {
        assert(chars@.skip(0) =~= line@);
    }
    match x_parse_object(&chars, 0) {
        None => Err(String::from_str("expected a JSON object")),
        Some((ms, j)) => {
            let j2 = x_skip_ws(&chars, j);
            if j2 < chars.len() {
                proof {
                    assert(skip_ws(chars@.skip(j as int)).len() > 0);
                }
                Err(String::from_str("unexpected text after the request object"))
            } else {
                proof {
                    assert(skip_ws(chars@.skip(j as int)).len() == 0);
                }
                match request_of_members_exec(ms) {
                    Some(req) => Ok(req),
                    None => Err(String::from_str("unrecognized request object")),
                }
            }
        },
    }
}

} // verus!

