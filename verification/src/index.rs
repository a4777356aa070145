//! The searchable index: a wholesale-replaceable list of file entries with a
//! freshness timestamp, a rebuild step that consumes the file-listing
//! collaborator's text output, and the ranked fuzzy query over it.

use vstd::prelude::*;
use vstd::string::*;

use crate::fuzzy::{fuzzy_indices, fuzzy_match, fuzzy_score};
use crate::rank::{insert_desc, lemma_insert_desc_at, sort_desc};
use crate::text::push_char;
use crate::types::{results_view, EntryView, FileEntry, ResultView, SearchMatch, SearchResult};

verus! {

// ---------------------------------------------------------------------------
// Parsing the listing into entries
// ---------------------------------------------------------------------------
/// ASCII whitespace, the characters a path line is not allowed to consist of.
pub open spec fn ascii_ws(c: char) -> bool {
    c == ' ' || c == '\t' || c == '\r' || c == '\n' || c == '\x0B' || c == '\x0C'
}

/// A line of nothing but whitespace carries no path.
pub open spec fn is_blank(l: Seq<char>) -> bool {
    forall|i: int| 0 <= i < l.len() ==> ascii_ws(#[trigger] l[i])
}

/// One trailing carriage return is part of the line ending, not of the path.
pub open spec fn strip_cr(l: Seq<char>) -> Seq<char> {
    if l.len() > 0 && l.last() == '\r' {
        l.drop_last()
    } else {
        l
    }
}

/// A line becomes an entry when it is not blank and its length leaves every
/// match position representable as a 32-bit character index.
pub open spec fn keep_line(l: Seq<char>) -> bool {
    !is_blank(l) && l.len() < u32::MAX as int
}

/// The entry a path line denotes: the path itself, and the display form with
/// the home prefix replaced by `~` when the prefix applies.
pub open spec fn entry_of(l: Seq<char>, home: Seq<char>) -> EntryView {
    EntryView {
        path: l,
        display_path: if home.len() <= l.len() && l.take(home.len() as int) == home {
            seq!['~'] + l.skip(home.len() as int)
        } else {
            l
        },
    }
}

pub open spec fn maybe_entry(l: Seq<char>, home: Seq<char>) -> Seq<EntryView> {
    if keep_line(l) {
        seq![entry_of(l, home)]
    } else {
        Seq::<EntryView>::empty()
    }
}

/// The entries denoted by the listing text from position `i` on, with `cur`
/// the part of the current line read so far. Lines end at `'\n'`; the final
/// line needs no terminator.
pub open spec fn entries_from(s: Seq<char>, i: int, cur: Seq<char>, home: Seq<char>) -> Seq<
    EntryView,
>
    decreases s.len() - i,
{
    if i < 0 || i >= s.len() {
        maybe_entry(cur, home)
    } else if s[i] == '\n' {
        maybe_entry(strip_cr(cur), home) + entries_from(s, i + 1, Seq::<char>::empty(), home)
    } else {
        entries_from(s, i + 1, cur.push(s[i]), home)
    }
}

/// Every entry the whole listing text denotes, in listing order.
pub open spec fn entries_of(s: Seq<char>, home: Seq<char>) -> Seq<EntryView> {
    entries_from(s, 0, Seq::<char>::empty(), home)
}

/// Display paths short enough for 32-bit match positions.
pub open spec fn entries_wf(es: Seq<EntryView>) -> bool {
    forall|i: int| 0 <= i < es.len() ==> (#[trigger] es[i]).display_path.len() <= u32::MAX as int
}

pub open spec fn entries_view(fs: Seq<FileEntry>) -> Seq<EntryView> {
    fs.map(|i: int, f: FileEntry| f@)
}

/// Only kept lines become entries, so every display path is short enough.
proof fn lemma_maybe_entry_wf(l: Seq<char>, home: Seq<char>)
    ensures
        entries_wf(maybe_entry(l, home)),
{
    if keep_line(l) {
        assert(entry_of(l, home).display_path.len() <= l.len() + 1);
    }
}

proof fn lemma_entries_from_wf(s: Seq<char>, i: int, cur: Seq<char>, home: Seq<char>)
    ensures
        entries_wf(entries_from(s, i, cur, home)),
    decreases s.len() - i,
{
    if i < 0 || i >= s.len() {
        lemma_maybe_entry_wf(cur, home);
    } else if s[i] == '\n' {
        lemma_maybe_entry_wf(strip_cr(cur), home);
        lemma_entries_from_wf(s, i + 1, Seq::<char>::empty(), home);
        let a = maybe_entry(strip_cr(cur), home);
        let b = entries_from(s, i + 1, Seq::<char>::empty(), home);
        assert forall|j: int| 0 <= j < (a + b).len() implies (#[trigger] (a + b)[j]).display_path.len()
            <= u32::MAX as int by {
            if j < a.len() {
                assert((a + b)[j] == a[j]);
            } else {
                assert((a + b)[j] == b[j - a.len()]);
            }
        }
    } else {
        lemma_entries_from_wf(s, i + 1, cur.push(s[i]), home);
    }
}

pub proof fn lemma_entries_of_wf(s: Seq<char>, home: Seq<char>)
    ensures
        entries_wf(entries_of(s, home)),
{
    lemma_entries_from_wf(s, 0, Seq::<char>::empty(), home);
}

// ---------------------------------------------------------------------------
// The query
// ---------------------------------------------------------------------------
/// The index just past the last path separator of a display path, 0 when it
/// has none: the offset every filename-relative match position is shifted by.
pub open spec fn filename_start(dp: Seq<char>) -> int
    decreases dp.len(),
{
    if dp.len() == 0 {
        0
    } else if dp.last() == '/' {
        dp.len() as int
    } else {
        filename_start(dp.drop_last())
    }
}

pub proof fn lemma_filename_start(dp: Seq<char>)
    ensures
        0 <= filename_start(dp) <= dp.len(),
        filename_start(dp) > 0 ==> dp[filename_start(dp) - 1] == '/',
        forall|i: int| filename_start(dp) <= i < dp.len() ==> dp[i] != '/',
    decreases dp.len(),
{
    if dp.len() > 0 && dp.last() != '/' {
        lemma_filename_start(dp.drop_last());
        assert forall|i: int| filename_start(dp) <= i < dp.len() implies dp[i] != '/' by {
            if i < dp.len() - 1 {
                assert(dp.drop_last()[i] != '/');
            }
        }
    }
}

/// The final path segment of a display path.
pub open spec fn filename_of(dp: Seq<char>) -> Seq<char> {
    dp.subrange(filename_start(dp), dp.len() as int)
}

pub open spec fn has_match(e: EntryView, q: Seq<char>) -> bool {
    fuzzy_score(q, filename_of(e.display_path)) is Some
}

pub open spec fn entry_score(e: EntryView, q: Seq<char>) -> u32 {
    match fuzzy_score(q, filename_of(e.display_path)) {
        Some(s) => s,
        None => 0,
    }
}

/// The primitive's unsigned score, reinterpreted as the two's-complement
/// 32-bit value the result carries.
pub open spec fn score_as_i32(s: u32) -> i32 {
    if s <= i32::MAX as u32 {
        s as i32
    } else {
        (s as int - 0x1_0000_0000) as i32
    }
}

/// The result an entry contributes when the query matches its filename.
pub open spec fn result_of(e: EntryView, q: Seq<char>) -> ResultView {
    ResultView {
        path: e.path,
        display_path: e.display_path,
        matches: fuzzy_indices(q, filename_of(e.display_path)).map(
            |i: int, k: u32| k as int + filename_start(e.display_path),
        ),
        score: score_as_i32(entry_score(e, q)) as int,
    }
}

/// The scoring pass: every matching entry's result, in entry order.
pub open spec fn scored_of(entries: Seq<EntryView>, q: Seq<char>) -> Seq<ResultView>
    decreases entries.len(),
{
    if entries.len() == 0 {
        Seq::<ResultView>::empty()
    } else {
        scored_of(entries.drop_last(), q) + (if has_match(entries.last(), q) {
            seq![result_of(entries.last(), q)]
        } else {
            Seq::<ResultView>::empty()
        })
    }
}

pub proof fn lemma_scored_of_len(entries: Seq<EntryView>, q: Seq<char>)
    ensures
        scored_of(entries, q).len() <= entries.len(),
    decreases entries.len(),
{
    if entries.len() > 0 {
        lemma_scored_of_len(entries.drop_last(), q);
    }
}

/// An empty query browses: the first `limit` entries in index order, unscored.
pub open spec fn browse_result(e: EntryView) -> ResultView {
    ResultView { path: e.path, display_path: e.display_path, matches: Seq::<int>::empty(), score: 0 }
}

pub open spec fn browse_of(entries: Seq<EntryView>, limit: nat) -> Seq<ResultView> {
    entries.take(
        if limit <= entries.len() {
            limit as int
        } else {
            entries.len() as int
        },
    ).map(|i: int, e: EntryView| browse_result(e))
}

/// An absent limit defaults to 100.
pub open spec fn spec_limit(limit: Option<usize>) -> nat {
    match limit {
        Some(l) => l as nat,
        None => 100,
    }
}

/// What a query returns: the whole entry set is scored, ranked stably by
/// descending score, and only then cut to the limit.
pub open spec fn spec_search(entries: Seq<EntryView>, q: Seq<char>, limit: nat) -> Seq<ResultView> {
    if q.len() == 0 {
        browse_of(entries, limit)
    } else {
        let sorted = sort_desc(scored_of(entries, q));
        sorted.take(
            if limit <= sorted.len() {
                limit as int
            } else {
                sorted.len() as int
            },
        )
    }
}

// ---------------------------------------------------------------------------
// The index itself
// ---------------------------------------------------------------------------
/// Relies on `std::time::SystemTime::now` and `duration_since(UNIX_EPOCH)`
/// (std): whole seconds since the Unix epoch, 0 when the clock reads earlier.
/// Nothing is promised of the value: it is a clock.
#[verifier::external_body]
fn now_secs() -> u64 {
    std::time::SystemTime::now().duration_since(std::time::UNIX_EPOCH).map(
        |d| d.as_secs(),
    ).unwrap_or(0)
}

/// Mathematical view of the index.
pub struct IndexView {
    pub entries: Seq<EntryView>,
    pub last_updated: u64,
}

/// The in-memory index: the entry list from the last successful rebuild, in
/// listing order, and the time that rebuild happened.
pub struct FileIndex {
    files: Vec<FileEntry>,
    last_updated: u64,
}

impl View for FileIndex {
    type V = IndexView;

    closed spec fn view(&self) -> IndexView {
        IndexView { entries: entries_view(self.files@), last_updated: self.last_updated }
    }
}

impl Default for FileIndex {
    fn default() -> (r: Self)
        ensures
            r@.entries.len() == 0,
            r.wf(),
    {
        FileIndex::new()
    }
}

impl FileIndex {
    /// Display paths short enough that every match position fits in `u32`;
    /// every constructor and rebuild establishes this.
    pub open spec fn wf(&self) -> bool {
        entries_wf(self@.entries)
    }

    /// A fresh, empty index.
    pub fn new() -> (r: Self)
        ensures
            r@.entries.len() == 0,
            r.wf(),
    {
        let r = FileIndex { files: Vec::new(), last_updated: now_secs() };
        proof {
            assert(entries_view(r.files@) =~= Seq::<EntryView>::empty());
        }
        r
    }

    /// Rebuild from the file-listing collaborator's newline-delimited output:
    /// one path per non-blank line, wholesale-replacing the entries and
    /// stamping the rebuild time.
    pub fn update(&mut self, listing: &str, home: &str)
        ensures
            final(self)@.entries == entries_of(listing@, home@),
            final(self).wf(),
    {
        let ghost s = listing@;
        let n = listing.unicode_len();
        let mut files: Vec<FileEntry> = Vec::new();
        let mut cur = String::new();
        let mut cur_len: usize = 0;
        let mut pending_cr: bool = false;
        let mut i: usize = 0;
        proof {
            assert(entries_view(files@) =~= Seq::<EntryView>::empty());
            assert(entries_view(files@) + entries_from(s, 0, Seq::<char>::empty(), home@)
                =~= entries_of(s, home@));
        }
        while i < n
            invariant
                i <= n,
                n == s.len(),
                s == listing@,
                cur_len == cur@.len(),
                cur@.len() + (if pending_cr { 1int } else { 0int }) <= i,
                !pending_cr ==> cur@.len() == 0 || cur@.last() != '\r',
                entries_view(files@) + entries_from(
                    s,
                    i as int,
                    cur@ + (if pending_cr { seq!['\r'] } else { Seq::<char>::empty() }),
                    home@,
                ) == entries_of(s, home@),
            decreases n - i,
        {
            let ghost cur_spec = cur@ + (if pending_cr { seq!['\r'] } else { Seq::<char>::empty() });
            let c = listing.get_char(i);
            if c == '\n' {
                proof {
                    assert(strip_cr(cur_spec) =~= cur@);
                }
                let blank = line_blank(cur.as_str(), cur_len);
                if !blank && cur_len < (u32::MAX as usize) {
                    let e = line_entry(cur, cur_len, home);
                    proof {
                        assert(maybe_entry(cur@, home@) =~= seq![entry_of(cur@, home@)]);
                    }
                    files.push(e);
                    proof {
                        assert(entries_view(files@) =~= entries_view(files@.drop_last())
                            + seq![files@.last()@]);
                    }
                } else {
                    proof {
                        assert(maybe_entry(cur@, home@) =~= Seq::<EntryView>::empty());
                    }
                }
                cur = String::new();
                cur_len = 0;
                pending_cr = false;
            } else if c == '\r' {
                if pending_cr {
                    push_char(&mut cur, '\r');
                    cur_len = cur_len + 1;
                }
                pending_cr = true;
                proof {
                    assert(cur@ + seq!['\r'] =~= cur_spec.push(c));
                }
            } else {
                if pending_cr {
                    push_char(&mut cur, '\r');
                    cur_len = cur_len + 1;
                }
                push_char(&mut cur, c);
                cur_len = cur_len + 1;
                pending_cr = false;
                proof {
                    assert(cur@ =~= cur_spec.push(c));
                }
            }
            i = i + 1;
        }
        // the final line, terminated by the end of the text
        let ghost final_line = cur@ + (if pending_cr { seq!['\r'] } else { Seq::<char>::empty() });
        let ghost emitted = entries_view(files@);
        proof {
            assert(entries_from(s, n as int, final_line, home@) == maybe_entry(final_line, home@));
        }
        if pending_cr {
            push_char(&mut cur, '\r');
            cur_len = cur_len + 1;
        }
        proof {
            assert(cur@ =~= final_line);
        }
        let blank = line_blank(cur.as_str(), cur_len);
        if !blank && cur_len < (u32::MAX as usize) {
            let e = line_entry(cur, cur_len, home);
            proof {
                assert(maybe_entry(final_line, home@) =~= seq![entry_of(final_line, home@)]);
            }
            files.push(e);
            proof {
                assert(entries_view(files@) =~= emitted + seq![entry_of(final_line, home@)]);
            }
        } else {
            proof {
                assert(maybe_entry(final_line, home@) =~= Seq::<EntryView>::empty());
                assert(entries_view(files@) =~= emitted + maybe_entry(final_line, home@));
            }
        }
        proof {
            assert(entries_view(files@) =~= entries_of(s, home@));
            lemma_entries_of_wf(s, home@);
        }
        self.files = files;
        self.last_updated = now_secs();
    }

    /// The ranked fuzzy query. Never mutates the index; the whole entry set
    /// is considered before the cut.
    pub fn search(&self, query: &str, limit: Option<usize>) -> (r: Vec<SearchResult>)
        requires
            self.wf(),
        ensures
            results_view(r@) == spec_search(self@.entries, query@, spec_limit(limit)),
    {
        let ghost entries = self@.entries;
        let ghost lim_spec = spec_limit(limit);
        let lim: usize = match limit {
            Some(l) => l,
            None => 100,
        };
        if query.unicode_len() == 0 {
            let m = if lim <= self.files.len() {
                lim
            } else {
                self.files.len()
            };
            let mut out: Vec<SearchResult> = Vec::new();
            let mut i: usize = 0;
            while i < m
                invariant
                    i <= m,
                    m <= self.files.len(),
                    m == if lim_spec <= entries.len() {
                        lim_spec as int
                    } else {
                        entries.len() as int
                    },
                    entries == entries_view(self.files@),
                    out@.len() == i,
                    forall|j: int| 0 <= j < i ==> results_view(out@)[j] == browse_result(
                        entries[j],
                    ),
                decreases m - i,
            {
                let e = &self.files[i];
                let sr = SearchResult {
                    path: e.path.clone(),
                    display_path: e.display_path.clone(),
                    matches: Vec::new(),
                    score: 0,
                };
                let ghost prev = out@;
                proof {
                    assert(sr@.matches =~= Seq::<int>::empty());
                    assert(sr@ == browse_result(entries[i as int]));
                }
                out.push(sr);
                proof {
                    assert forall|j: int| 0 <= j < i + 1 implies results_view(out@)[j]
                        == browse_result(entries[j]) by {
                        if j < i {
                            assert(results_view(prev)[j] == browse_result(entries[j]));
                            assert(out@[j] == prev[j]);
                        } else {
                            assert(out@[j] == sr);
                        }
                    }
                }
                i = i + 1;
            }
            proof {
                assert(results_view(out@) =~= browse_of(entries, lim_spec));
            }
            out
        } else {
            // score every entry against the query
            let mut scored: Vec<SearchResult> = Vec::new();
            let mut idx: usize = 0;
            proof {
                assert(results_view(scored@) =~= scored_of(entries.take(0), query@));
            }
            while idx < self.files.len()
                invariant
                    idx <= self.files.len(),
                    entries == entries_view(self.files@),
                    entries_wf(entries),
                    results_view(scored@) == scored_of(entries.take(idx as int), query@),
                decreases self.files.len() - idx,
            {
                let e = &self.files[idx];
                let dp: &String = &e.display_path;
                let dp_len = dp.as_str().unicode_len();
                proof {
                    assert(entries[idx as int] == e@);
                    assert(e@.display_path.len() <= u32::MAX as int);
                }
                // index just past the last '/'
                let mut start: usize = 0;
                let mut k: usize = 0;
                proof {
                    assert(dp@.take(0) =~= Seq::<char>::empty());
                }
                while k < dp_len
                    invariant
                        k <= dp_len,
                        dp_len == dp@.len(),
                        start <= k,
                        start as int == filename_start(dp@.take(k as int)),
                    decreases dp_len - k,
                {
                    let c = dp.as_str().get_char(k);
                    proof {
                        assert(dp@.take(k as int + 1).last() == dp@[k as int]);
                        assert(dp@.take(k as int + 1).drop_last() =~= dp@.take(k as int));
                    }
                    if c == '/' {
                        start = k + 1;
                    }
                    k = k + 1;
                }
                proof {
                    assert(dp@.take(dp_len as int) =~= dp@);
                    lemma_filename_start(dp@);
                }
                let fname = dp.as_str().substring_char(start, dp_len);
                proof {
                    assert(fname@ == filename_of(dp@));
                }
                let outcome = fuzzy_match(query, fname);
                proof {
                    assert(entries.take(idx as int + 1).drop_last() =~= entries.take(idx as int));
                    assert(entries.take(idx as int + 1).last() == entries[idx as int]);
                }
                match outcome {
                    Some((sc, idxs)) => {
                        let mut matches: Vec<SearchMatch> = Vec::new();
                        let mut j: usize = 0;
                        while j < idxs.len()
                            invariant
                                j <= idxs.len(),
                                idxs@ == fuzzy_indices(query@, fname@),
                                forall|t: int| 0 <= t < idxs@.len() ==> (idxs@[t] as int)
                                    < fname@.len(),
                                fname@ == filename_of(dp@),
                                start as int == filename_start(dp@),
                                start <= dp_len,
                                dp_len == dp@.len(),
                                dp@.len() <= u32::MAX as int,
                                matches@.len() == j,
                                forall|t: int| 0 <= t < j ==> (matches@[t].char_index as int)
                                    == (idxs@[t] as int) + start as int,
                            decreases idxs.len() - j,
                        {
                            let raw = idxs[j];
                            proof {
                                assert((raw as int) < fname@.len());
                                assert(fname@.len() == dp@.len() - start as int);
                            }
                            let ci: u32 = raw + (start as u32);
                            matches.push(SearchMatch { char_index: ci });
                            j = j + 1;
                        }
                        let score: i32 = if sc <= (i32::MAX as u32) {
                            sc as i32
                        } else {
                            ((sc as i64) - 0x1_0000_0000i64) as i32
                        };
                        proof {
                            assert(score == score_as_i32(sc));
                        }
                        let sr = SearchResult {
                            path: e.path.clone(),
                            display_path: e.display_path.clone(),
                            matches,
                            score,
                        };
                        proof {
                            assert(sr@.matches =~= result_of(e@, query@).matches);
                            assert(sr@ == result_of(e@, query@));
                            assert(has_match(entries[idx as int], query@));
                        }
                        scored.push(sr);
                        proof {
                            assert(results_view(scored@) =~= results_view(scored@.drop_last())
                                + seq![scored@.last()@]);
                            assert(results_view(scored@) == scored_of(
                                entries.take(idx as int + 1),
                                query@,
                            ));
                        }
                    },
                    None => {
                        proof {
                            assert(!has_match(entries[idx as int], query@));
                            assert(scored_of(entries.take(idx as int + 1), query@) =~= scored_of(
                                entries.take(idx as int),
                                query@,
                            ));
                        }
                    },
                }
                idx = idx + 1;
            }
            proof {
                assert(entries.take(self.files.len() as int) =~= entries);
            }
            let ghost scored_full = results_view(scored@);
            // stable descending sort: insert each result, in scan order,
            // after everything scoring at least as high
            let mut out: Vec<SearchResult> = Vec::new();
            let ghost orig = scored@;
            let scored_len = scored.len();
            let mut taken: usize = 0;
            proof {
                assert(orig.len() == scored_len);
                assert(results_view(orig.take(0)) =~= Seq::<ResultView>::empty());
            }
            while scored.len() > 0
                invariant
                    orig.len() <= usize::MAX,
                    taken + scored.len() == orig.len(),
                    scored@ == orig.skip(taken as int),
                    results_view(out@) == sort_desc(results_view(orig.take(taken as int))),
                decreases scored.len(),
            {
                let x = scored.remove(0);
                proof {
                    assert(x == orig[taken as int]);
                    assert(orig.skip(taken as int).drop_first() =~= orig.skip(taken as int + 1));
                }
                let mut pos: usize = 0;
                while pos < out.len() && out[pos].score >= x.score
                    invariant
                        pos <= out.len(),
                        forall|m: int| 0 <= m < pos ==> results_view(out@)[m].score >= x@.score,
                    decreases out.len() - pos,
                {
                    pos = pos + 1;
                }
                proof {
                    lemma_insert_desc_at(results_view(out@), x@, pos as int);
                }
                let ghost out_before = out@;
                out.insert(pos, x);
                proof {
                    assert(results_view(out@) =~= results_view(out_before).take(pos as int)
                        + seq![x@] + results_view(out_before).skip(pos as int));
                    assert(results_view(orig.take(taken as int + 1)).drop_last()
                        =~= results_view(orig.take(taken as int)));
                    assert(results_view(orig.take(taken as int + 1)).last() == orig[taken
                        as int]@);
                    assert(results_view(out@) == sort_desc(
                        results_view(orig.take(taken as int + 1)),
                    ));
                }
                taken = taken + 1;
            }
            proof {
                assert(orig.take(orig.len() as int) =~= orig);
                assert(results_view(out@) == sort_desc(scored_full));
            }
            // cut to the limit only after the full ranking
            let cut = if lim <= out.len() {
                lim
            } else {
                out.len()
            };
            let ghost out_sorted = out@;
            out.truncate(cut);
            proof {
                crate::rank::lemma_sort_desc_len(scored_full);
                assert(out@ =~= out_sorted.take(cut as int));
                assert(results_view(out@) =~= results_view(out_sorted).take(cut as int));
                assert(results_view(out@) == spec_search(entries, query@, lim_spec));
            }
            out
        }
    }

    /// The number of indexed entries.
    pub fn len(&self) -> (r: usize)
        ensures
            r == self@.entries.len(),
    {
        self.files.len()
    }

    /// Whether nothing is indexed.
    pub fn is_empty(&self) -> (r: bool)
        ensures
            r == (self@.entries.len() == 0),
    {
        self.files.is_empty()
    }

    /// Seconds since the Unix epoch at the last rebuild.
    pub fn last_updated_timestamp(&self) -> (r: u64)
        ensures
            r == self@.last_updated,
    {
        self.last_updated
    }
}

// ---------------------------------------------------------------------------
// Exec helpers for update
// ---------------------------------------------------------------------------
fn char_ws(c: char) -> (b: bool)
    ensures
        b == ascii_ws(c),
{
    c == ' ' || c == '\t' || c == '\r' || c == '\n' || c == '\x0B' || c == '\x0C'
}

fn line_blank(line: &str, line_len: usize) -> (b: bool)
    requires
        line_len == line@.len(),
    ensures
        b == is_blank(line@),
{
    let mut k: usize = 0;
    while k < line_len
        invariant
            k <= line_len,
            line_len == line@.len(),
            forall|m: int| 0 <= m < k ==> ascii_ws(#[trigger] line@[m]),
        decreases line_len - k,
    {
        if !char_ws(line.get_char(k)) {
            return false;
        }
        k = k + 1;
    }
    true
}

fn line_entry(line: String, line_len: usize, home: &str) -> (e: FileEntry)
    requires
        line_len == line@.len(),
    ensures
        e@ == entry_of(line@, home@),
{
    let hm = home.unicode_len();
    let mut matched = hm <= line_len;
    if matched {
        let mut k: usize = 0;
        while k < hm
            invariant
                k <= hm,
                hm <= line_len,
                hm == home@.len(),
                line_len == line@.len(),
                matched ==> forall|m: int| 0 <= m < k ==> line@[m] == home@[m],
                !matched ==> line@.take(hm as int) != home@,
            decreases hm - k,
        {
            if line.as_str().get_char(k) != home.get_char(k) {
                proof {
                    if matched {
                        assert(line@.take(hm as int)[k as int] != home@[k as int]);
                    }
                }
                matched = false;
            }
            k = k + 1;
        }
        proof {
            if matched {
                assert(line@.take(hm as int) =~= home@);
            }
        }
    }
    let display_path = if matched {
        let mut d = String::from_str("~");
        d.append(line.as_str().substring_char(hm, line_len));
        proof {
            reveal_strlit("~");
            assert(d@ =~= seq!['~'] + line@.skip(home@.len() as int));
        }
        d
    } else {
        line.clone()
    };
    let e = FileEntry { path: line, display_path };
    proof {
        assert(e@ == entry_of(e.path@, home@));
    }
    e
}

} // verus!
