//! The laws the library states about search as a whole: the cut happens
//! after the full ranking, browsing is plain truncation, offsets are
//! filename-relative positions shifted into the display path, and a query
//! is a pure function of the index contents.

use vstd::prelude::*;

use crate::fuzzy::fuzzy_indices;
use crate::index::{
    browse_result, entries_of, filename_of, filename_start, has_match, lemma_filename_start,
    lemma_scored_of_len, result_of, scored_of, spec_search,
};
use crate::rank::{
    distinct_scores, lemma_sort_desc_len, lemma_sort_desc_permutation_invariant,
    lemma_sort_desc_sorted, sort_desc,
};
use crate::types::{EntryView, ResultView};

verus! {

/// What one entry adds to the scoring pass: one result, or nothing.
pub open spec fn scored_one(e: EntryView, q: Seq<char>) -> Seq<ResultView> {
    if has_match(e, q) {
        seq![result_of(e, q)]
    } else {
        Seq::<ResultView>::empty()
    }
}

proof fn lemma_scored_of_remove(s: Seq<EntryView>, q: Seq<char>, j: int)
    requires
        0 <= j < s.len(),
    ensures
        scored_of(s, q).to_multiset() =~= scored_of(s.remove(j), q).to_multiset().add(
            scored_one(s[j], q).to_multiset(),
        ),
    decreases s.len(),
{
    broadcast use vstd::seq_lib::group_to_multiset_ensures;

    let tail = scored_one(s.last(), q);
    assert(scored_of(s, q) == scored_of(s.drop_last(), q) + tail);
    vstd::seq_lib::lemma_multiset_commutative(scored_of(s.drop_last(), q), tail);
    if j == s.len() - 1 {
        assert(s.remove(j) =~= s.drop_last());
        assert(s[j] == s.last());
        assert(scored_of(s.remove(j), q) == scored_of(s.drop_last(), q));
        assert(scored_one(s[j], q) == tail);
        assert((scored_of(s.drop_last(), q) + tail).to_multiset() =~= scored_of(
            s.drop_last(),
            q,
        ).to_multiset().add(tail.to_multiset()));
        assert(scored_of(s, q).to_multiset() == (scored_of(s.drop_last(), q)
            + tail).to_multiset());
        assert(scored_of(s, q).to_multiset() =~= scored_of(s.remove(j), q).to_multiset().add(
            scored_one(s[j], q).to_multiset(),
        ));
    } else {
        lemma_scored_of_remove(s.drop_last(), q, j);
        let t = s.remove(j);
        assert(t.last() == s.last());
        assert(t.drop_last() =~= s.drop_last().remove(j));
        assert(scored_of(t, q) == scored_of(t.drop_last(), q) + tail);
        vstd::seq_lib::lemma_multiset_commutative(scored_of(t.drop_last(), q), tail);
        assert(s.drop_last()[j] == s[j]);
        let a = scored_of(s.drop_last().remove(j), q).to_multiset();
        let c = scored_one(s[j], q).to_multiset();
        let w = tail.to_multiset();
        assert(scored_of(s, q).to_multiset() =~= a.add(c).add(w));
        assert(scored_of(t, q).to_multiset() =~= a.add(w));
        assert(a.add(c).add(w) =~= a.add(w).add(c));
        assert(scored_of(s, q).to_multiset() =~= scored_of(s.remove(j), q).to_multiset().add(c));
    }
}

proof fn lemma_scored_of_permutation(s: Seq<EntryView>, t: Seq<EntryView>, q: Seq<char>)
    requires
        s.to_multiset() == t.to_multiset(),
    ensures
        scored_of(s, q).to_multiset() =~= scored_of(t, q).to_multiset(),
    decreases s.len(),
{
    broadcast use vstd::seq_lib::group_to_multiset_ensures;

    assert(s.len() == s.to_multiset().len());
    assert(t.len() == t.to_multiset().len());
    if s.len() > 0 {
        let x = s.last();
        assert(s.contains(x));
        assert(t.to_multiset().count(x) > 0);
        assert(t.contains(x));
        let j = choose|j: int| 0 <= j < t.len() && t[j] == x;
        let s1 = s.drop_last();
        let t1 = t.remove(j);
        assert(s.remove(s.len() - 1) =~= s1);
        assert(s1.to_multiset() =~= s.to_multiset().remove(x));
        assert(t1.to_multiset() =~= t.to_multiset().remove(x));
        lemma_scored_of_permutation(s1, t1, q);
        lemma_scored_of_remove(s, q, s.len() - 1);
        lemma_scored_of_remove(t, q, j);
    }
}

/// Reordering the indexed entries does not change what a query returns when
/// the matched scores are distinct: ranking depends on which entries are
/// indexed, not on the order the listing produced them. (Results with equal
/// scores keep the scan order instead: `lemma_sort_desc_stable`.)
pub proof fn lemma_search_order_independent(
    s: Seq<EntryView>,
    t: Seq<EntryView>,
    q: Seq<char>,
    limit: nat,
)
    requires
        s.to_multiset() == t.to_multiset(),
        distinct_scores(scored_of(s, q)),
        q.len() > 0,
    ensures
        spec_search(s, q, limit) == spec_search(t, q, limit),
{
    lemma_scored_of_permutation(s, t, q);
    lemma_sort_desc_permutation_invariant(scored_of(s, q), scored_of(t, q));
}

/// For a non-empty query, no more than `limit` results come back, never
/// more than there are files, and every returned result scores at least as
/// high as every ranked result the cut left out.
pub proof fn lemma_search_cutoff(entries: Seq<EntryView>, q: Seq<char>, limit: nat)
    requires
        q.len() > 0,
    ensures
        spec_search(entries, q, limit).len() <= limit,
        spec_search(entries, q, limit).len() <= entries.len(),
        forall|i: int, j: int|
            0 <= i < spec_search(entries, q, limit).len() && spec_search(entries, q, limit).len()
                <= j < sort_desc(scored_of(entries, q)).len() ==> spec_search(entries, q, limit)[i].score
                >= sort_desc(scored_of(entries, q))[j].score,
{
    let scored = scored_of(entries, q);
    let sorted = sort_desc(scored);
    lemma_scored_of_len(entries, q);
    lemma_sort_desc_len(scored);
    lemma_sort_desc_sorted(scored);
    let cut = if limit <= sorted.len() {
        limit as int
    } else {
        sorted.len() as int
    };
    assert forall|i: int, j: int|
        0 <= i < spec_search(entries, q, limit).len() && spec_search(entries, q, limit).len() <= j
            < sorted.len() implies spec_search(entries, q, limit)[i].score
        >= sorted[j].score by {
        assert(spec_search(entries, q, limit)[i] == sorted[i]);
    }
}

/// An empty query browses: exactly the first `min(limit, total)` entries,
/// in index order, unscored and without match positions.
pub proof fn lemma_empty_query_browses(entries: Seq<EntryView>, limit: nat)
    ensures
        spec_search(entries, Seq::<char>::empty(), limit).len() == (if limit <= entries.len() {
            limit as int
        } else {
            entries.len() as int
        }),
        forall|i: int|
            0 <= i < spec_search(entries, Seq::<char>::empty(), limit).len() ==> spec_search(
                entries,
                Seq::<char>::empty(),
                limit,
            )[i] == browse_result(entries[i]),
{
}

/// Offset translation: each reported position is the fuzzy primitive's
/// filename-relative offset shifted by the index just past the last `/` of
/// the display path, which is 0 when it has no separator.
pub proof fn lemma_offset_translation(e: EntryView, q: Seq<char>)
    requires
        has_match(e, q),
    ensures
        result_of(e, q).matches.len() == fuzzy_indices(q, filename_of(e.display_path)).len(),
        forall|j: int|
            0 <= j < result_of(e, q).matches.len() ==> result_of(e, q).matches[j] == fuzzy_indices(
                q,
                filename_of(e.display_path),
            )[j] as int + filename_start(e.display_path),
        0 <= filename_start(e.display_path) <= e.display_path.len(),
        filename_start(e.display_path) > 0 ==> e.display_path[filename_start(e.display_path)
            - 1] == '/',
        forall|i: int|
            filename_start(e.display_path) <= i < e.display_path.len() ==> e.display_path[i]
                != '/',
{
    lemma_filename_start(e.display_path);
}

/// Rebuilding from the same listing twice yields the same entries: the new
/// entry set is a function of the listing text and the home prefix alone
/// (only the timestamp may differ between the two rebuilds).
pub proof fn lemma_rebuild_idempotent(
    listing: Seq<char>,
    home: Seq<char>,
    a: Seq<EntryView>,
    b: Seq<EntryView>,
)
    requires
        a == entries_of(listing, home),
        b == entries_of(listing, home),
    ensures
        a == b,
{
}

/// A query is a pure function of the index contents, the query string and
/// the limit: any number of searches against an unchanged index — however
/// they interleave — owe their callers one and the same result sequence.
pub proof fn lemma_search_deterministic(
    entries: Seq<EntryView>,
    q: Seq<char>,
    limit: nat,
    r1: Seq<crate::types::ResultView>,
    r2: Seq<crate::types::ResultView>,
)
    requires
        r1 == spec_search(entries, q, limit),
        r2 == spec_search(entries, q, limit),
    ensures
        r1 == r2,
{
}

} // verus!
