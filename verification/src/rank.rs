//! Stable descending ranking of search results.
//!
//! `sort_desc` is the functional specification of the ranking pass: results
//! are inserted in scan order, each one after every already-placed result
//! whose score is at least its own, so equal scores keep scan order.

use vstd::prelude::*;

use crate::types::ResultView;

verus! {

/// Insert `x` after every element of `s` whose score is at least `x.score`.
pub open spec fn insert_desc(s: Seq<ResultView>, x: ResultView) -> Seq<ResultView>
    decreases s.len(),
{
    if s.len() == 0 {
        seq![x]
    } else if s[0].score >= x.score {
        seq![s[0]] + insert_desc(s.drop_first(), x)
    } else {
        seq![x] + s
    }
}

/// Stable sort by descending score: elements are inserted in scan order.
pub open spec fn sort_desc(s: Seq<ResultView>) -> Seq<ResultView>
    decreases s.len(),
{
    if s.len() == 0 {
        Seq::<ResultView>::empty()
    } else {
        insert_desc(sort_desc(s.drop_last()), s.last())
    }
}

/// Scores never increase along the sequence.
pub open spec fn sorted_desc(s: Seq<ResultView>) -> bool {
    forall|i: int, j: int| 0 <= i <= j < s.len() ==> #[trigger] s[i].score >= #[trigger] s[j].score
}

/// The subsequence of `s` whose score is exactly `c`, in order.
pub open spec fn score_filter(s: Seq<ResultView>, c: int) -> Seq<ResultView>
    decreases s.len(),
{
    if s.len() == 0 {
        Seq::<ResultView>::empty()
    } else if s[0].score == c {
        seq![s[0]] + score_filter(s.drop_first(), c)
    } else {
        score_filter(s.drop_first(), c)
    }
}

/// No two elements share a score.
pub open spec fn distinct_scores(s: Seq<ResultView>) -> bool {
    forall|i: int, j: int| 0 <= i < j < s.len() ==> s[i].score != s[j].score
}

pub proof fn lemma_insert_desc_len(s: Seq<ResultView>, x: ResultView)
    ensures
        insert_desc(s, x).len() == s.len() + 1,
    decreases s.len(),
{
    if s.len() > 0 && s[0].score >= x.score {
        lemma_insert_desc_len(s.drop_first(), x);
    }
}

pub proof fn lemma_sort_desc_len(s: Seq<ResultView>)
    ensures
        sort_desc(s).len() == s.len(),
    decreases s.len(),
{
    if s.len() > 0 {
        lemma_sort_desc_len(s.drop_last());
        lemma_insert_desc_len(sort_desc(s.drop_last()), s.last());
    }
}

pub proof fn lemma_insert_desc_sorted(s: Seq<ResultView>, x: ResultView)
    requires
        sorted_desc(s),
    ensures
        sorted_desc(insert_desc(s, x)),
    decreases s.len(),
{
    lemma_insert_desc_len(s, x);
    if s.len() == 0 {
    } else if s[0].score >= x.score {
        assert(sorted_desc(s.drop_first()));
        lemma_insert_desc_sorted(s.drop_first(), x);
        lemma_insert_desc_len(s.drop_first(), x);
        let t = insert_desc(s, x);
        let u = insert_desc(s.drop_first(), x);
        assert forall|i: int, j: int| 0 <= i <= j < t.len() implies t[i].score >= t[j].score by {
            if i == 0 {
                if j > 0 {
                    lemma_insert_desc_head_score(s.drop_first(), x);
                    assert(t[j] == u[j - 1]);
                }
            } else {
                assert(t[i] == u[i - 1] && t[j] == u[j - 1]);
            }
        }
    }
}

/// Every element of `insert_desc(s, x)` is `x` or an element of `s`; in
/// particular its head score is at most the larger of `x`'s and `s`'s head.
proof fn lemma_insert_desc_head_score(s: Seq<ResultView>, x: ResultView)
    requires
        sorted_desc(s),
    ensures
        s.len() > 0 ==> insert_desc(s, x)[0].score <= if s[0].score >= x.score {
            s[0].score
        } else {
            x.score
        },
        s.len() == 0 ==> insert_desc(s, x)[0] == x,
{
}

pub proof fn lemma_sort_desc_sorted(s: Seq<ResultView>)
    ensures
        sorted_desc(sort_desc(s)),
    decreases s.len(),
{
    if s.len() > 0 {
        lemma_sort_desc_sorted(s.drop_last());
        lemma_insert_desc_sorted(sort_desc(s.drop_last()), s.last());
    }
}

proof fn lemma_score_filter_none(s: Seq<ResultView>, c: int)
    requires
        forall|i: int| 0 <= i < s.len() ==> s[i].score != c,
    ensures
        score_filter(s, c) =~= Seq::<ResultView>::empty(),
    decreases s.len(),
{
    if s.len() > 0 {
        assert(forall|i: int| 0 <= i < s.drop_first().len() ==> s.drop_first()[i].score != c);
        lemma_score_filter_none(s.drop_first(), c);
    }
}

proof fn lemma_insert_desc_filter(s: Seq<ResultView>, x: ResultView, c: int)
    requires
        sorted_desc(s),
    ensures
        score_filter(insert_desc(s, x), c) == if x.score == c {
            score_filter(s, c).push(x)
        } else {
            score_filter(s, c)
        },
    decreases s.len(),
{
    if s.len() == 0 {
        let t = insert_desc(s, x);
        assert(t =~= seq![x]);
        assert(t[0] == x);
        assert(t.drop_first() =~= Seq::<ResultView>::empty());
        assert(score_filter(Seq::<ResultView>::empty(), c) =~= Seq::<ResultView>::empty());
        assert(score_filter(t.drop_first(), c) == score_filter(Seq::<ResultView>::empty(), c));
        if x.score == c {
            assert(score_filter(t, c) =~= score_filter(s, c).push(x));
        } else {
            assert(score_filter(t, c) =~= score_filter(s, c));
        }
    } else if s[0].score >= x.score {
        let t = insert_desc(s, x);
        let u = insert_desc(s.drop_first(), x);
        assert(sorted_desc(s.drop_first()));
        lemma_insert_desc_filter(s.drop_first(), x, c);
        assert(t.drop_first() =~= u);
        assert(t[0] == s[0]);
        if x.score == c {
            if s[0].score == c {
                assert(score_filter(t, c) =~= (seq![s[0]] + score_filter(s.drop_first(), c)).push(
                    x,
                ));
                assert(score_filter(s, c).push(x) =~= (seq![s[0]] + score_filter(
                    s.drop_first(),
                    c,
                )).push(x));
            } else {
                assert(score_filter(t, c) == score_filter(s.drop_first(), c).push(x));
                assert(score_filter(s, c) == score_filter(s.drop_first(), c));
            }
        }
    } else {
        let t = insert_desc(s, x);
        assert(t[0] == x);
        assert(t.drop_first() =~= s);
        if x.score == c {
            assert(forall|i: int| 0 <= i < s.len() ==> (#[trigger] s[i]).score != c);
            lemma_score_filter_none(s, c);
            assert(score_filter(t, c) =~= seq![x] + score_filter(s, c));
            assert(score_filter(t, c) =~= score_filter(s, c).push(x));
        }
    }
}

proof fn lemma_score_filter_last(s: Seq<ResultView>, c: int)
    requires
        s.len() > 0,
    ensures
        score_filter(s, c) == score_filter(s.drop_last(), c) + (if s.last().score == c {
            seq![s.last()]
        } else {
            Seq::<ResultView>::empty()
        }),
    decreases s.len(),
{
    if s.len() == 1 {
        if s.last().score == c {
            assert(score_filter(s, c) =~= score_filter(s.drop_last(), c) + seq![s.last()]);
        } else {
            assert(score_filter(s, c) =~= score_filter(s.drop_last(), c));
        }
    } else {
        lemma_score_filter_last(s.drop_first(), c);
        assert(s.drop_first().last() == s.last());
        assert(s.drop_first().drop_last() =~= s.drop_last().drop_first());
        assert(s.drop_last()[0] == s[0]);
        if s[0].score == c {
            assert(score_filter(s, c) == seq![s[0]] + score_filter(s.drop_first(), c));
            assert(score_filter(s.drop_last(), c) == seq![s[0]] + score_filter(
                s.drop_last().drop_first(),
                c,
            ));
            if s.last().score == c {
                assert(score_filter(s, c) =~= score_filter(s.drop_last(), c) + seq![s.last()]);
            } else {
                assert(score_filter(s, c) =~= score_filter(s.drop_last(), c));
            }
        } else {
            if s.last().score == c {
                assert(score_filter(s, c) =~= score_filter(s.drop_last(), c) + seq![s.last()]);
            } else {
                assert(score_filter(s, c) =~= score_filter(s.drop_last(), c));
            }
        }
    }
}

/// Ranking is stable: for any score, the results carrying that score come
/// out of the sort in exactly the order the scoring pass produced them.
pub proof fn lemma_sort_desc_stable(s: Seq<ResultView>, c: int)
    ensures
        score_filter(sort_desc(s), c) == score_filter(s, c),
    decreases s.len(),
{
    if s.len() > 0 {
        lemma_sort_desc_stable(s.drop_last(), c);
        lemma_sort_desc_sorted(s.drop_last());
        lemma_insert_desc_filter(sort_desc(s.drop_last()), s.last(), c);
        lemma_score_filter_last(s, c);
        if s.last().score == c {
            assert(score_filter(s.drop_last(), c) + seq![s.last()] =~= score_filter(
                s.drop_last(),
                c,
            ).push(s.last()));
        } else {
            assert(score_filter(s.drop_last(), c) + Seq::<ResultView>::empty() =~= score_filter(
                s.drop_last(),
                c,
            ));
        }
    }
}

proof fn lemma_insert_desc_multiset(s: Seq<ResultView>, x: ResultView)
    ensures
        insert_desc(s, x).to_multiset() =~= s.to_multiset().insert(x),
    decreases s.len(),
{
    broadcast use vstd::seq_lib::group_to_multiset_ensures;

    if s.len() == 0 {
        assert(insert_desc(s, x) =~= Seq::<ResultView>::empty().push(x));
    } else if s[0].score >= x.score {
        lemma_insert_desc_multiset(s.drop_first(), x);
        let t = insert_desc(s, x);
        assert(t[0] == s[0]);
        assert(t.remove(0) =~= insert_desc(s.drop_first(), x));
        assert(t.remove(0).to_multiset() =~= t.to_multiset().remove(t[0]));
        assert(s.remove(0) =~= s.drop_first());
        assert(s.remove(0).to_multiset() =~= s.to_multiset().remove(s[0]));
        assert(t.to_multiset().contains(t[0]));
        assert(s.to_multiset().contains(s[0]));
        assert(t.to_multiset() =~= t.to_multiset().remove(t[0]).insert(t[0]));
        assert(s.to_multiset() =~= s.to_multiset().remove(s[0]).insert(s[0]));
        assert(t.to_multiset() =~= s.drop_first().to_multiset().insert(x).insert(s[0]));
        assert(s.drop_first().to_multiset().insert(x).insert(s[0]) =~= s.drop_first().to_multiset().insert(
            s[0],
        ).insert(x));
    } else {
        let t = insert_desc(s, x);
        assert(t[0] == x);
        assert(t.remove(0) =~= s);
        assert(t.remove(0).to_multiset() =~= t.to_multiset().remove(t[0]));
        assert(t.to_multiset().contains(t[0]));
        assert(t.to_multiset() =~= t.to_multiset().remove(t[0]).insert(t[0]));
    }
}

/// The sort is a permutation: nothing is added, dropped or changed.
pub proof fn lemma_sort_desc_multiset(s: Seq<ResultView>)
    ensures
        sort_desc(s).to_multiset() =~= s.to_multiset(),
    decreases s.len(),
{
    broadcast use vstd::seq_lib::group_to_multiset_ensures;

    if s.len() > 0 {
        lemma_sort_desc_multiset(s.drop_last());
        lemma_insert_desc_multiset(sort_desc(s.drop_last()), s.last());
        assert(s =~= s.drop_last().push(s.last()));
        assert(s.drop_last().push(s.last()).to_multiset() =~= s.drop_last().to_multiset().insert(
            s.last(),
        ));
    }
}

proof fn lemma_sorted_desc_unique(a: Seq<ResultView>, b: Seq<ResultView>)
    requires
        sorted_desc(a),
        sorted_desc(b),
        a.to_multiset() == b.to_multiset(),
        distinct_scores(a),
    ensures
        a == b,
    decreases a.len(),
{
    broadcast use vstd::seq_lib::group_to_multiset_ensures;

    assert(a.len() == a.to_multiset().len());
    assert(b.len() == b.to_multiset().len());
    if a.len() == 0 {
        assert(a =~= b);
    } else {
        assert(a.contains(a[0]));
        assert(b.to_multiset().count(a[0]) > 0);
        assert(b.contains(a[0]));
        let k = choose|k: int| 0 <= k < b.len() && b[k] == a[0];
        assert(b.contains(b[0]));
        assert(a.to_multiset().count(b[0]) > 0);
        assert(a.contains(b[0]));
        let m = choose|m: int| 0 <= m < a.len() && a[m] == b[0];
        assert(b[0].score >= b[k].score);
        assert(a[0].score >= a[m].score);
        assert(a[0].score == b[0].score);
        if m != 0 {
            assert(a[0].score != a[m].score);
            assert(false);
        }
        assert(a[0] == b[0]);
        let ta = a.remove(0);
        let tb = b.remove(0);
        assert(ta.to_multiset() =~= a.to_multiset().remove(a[0]));
        assert(tb.to_multiset() =~= b.to_multiset().remove(b[0]));
        assert(sorted_desc(ta)) by {
            assert(forall|i: int, j: int| 0 <= i <= j < ta.len() ==> ta[i] == a[i + 1] && ta[j]
                == a[j + 1]);
        }
        assert(sorted_desc(tb)) by {
            assert(forall|i: int, j: int| 0 <= i <= j < tb.len() ==> tb[i] == b[i + 1] && tb[j]
                == b[j + 1]);
        }
        assert(distinct_scores(ta)) by {
            assert(forall|i: int, j: int| 0 <= i < j < ta.len() ==> ta[i] == a[i + 1] && ta[j]
                == a[j + 1]);
        }
        lemma_sorted_desc_unique(ta, tb);
        assert(a =~= b) by {
            assert(forall|i: int| 0 < i < a.len() ==> a[i] == ta[i - 1] && b[i] == tb[i - 1]);
        }
    }
}

proof fn lemma_distinct_scores_sorted(s: Seq<ResultView>)
    requires
        distinct_scores(s),
    ensures
        distinct_scores(sort_desc(s)),
{
    broadcast use vstd::seq_lib::group_to_multiset_ensures;

    let t = sort_desc(s);
    lemma_sort_desc_multiset(s);
    assert forall|i: int, j: int| 0 <= i < j < t.len() implies t[i].score != t[j].score by {
        if t[i].score == t[j].score {
            if t[i] == t[j] {
                let u = t.remove(i);
                assert(u.to_multiset() =~= t.to_multiset().remove(t[i]));
                assert(u[j - 1] == t[j]);
                assert(u.contains(t[j]));
                assert(u.to_multiset().count(t[j]) > 0);
                assert(s.to_multiset().count(t[i]) >= 2);
                assert(s.contains(t[i]));
                let p = choose|p: int| 0 <= p < s.len() && s[p] == t[i];
                let v = s.remove(p);
                assert(v.to_multiset() =~= s.to_multiset().remove(s[p]));
                assert(v.to_multiset().count(t[i]) > 0);
                assert(v.contains(t[i]));
                let q0 = choose|q0: int| 0 <= q0 < v.len() && v[q0] == t[i];
                if q0 < p {
                    assert(s[q0] == v[q0]);
                    assert(s[q0].score == s[p].score);
                } else {
                    assert(s[q0 + 1] == v[q0]);
                    assert(s[q0 + 1].score == s[p].score);
                }
                assert(false);
            } else {
                assert(t.contains(t[i]));
                assert(s.to_multiset().count(t[i]) > 0);
                assert(s.contains(t[i]));
                assert(t.contains(t[j]));
                assert(s.to_multiset().count(t[j]) > 0);
                assert(s.contains(t[j]));
                let p = choose|p: int| 0 <= p < s.len() && s[p] == t[i];
                let q0 = choose|q0: int| 0 <= q0 < s.len() && s[q0] == t[j];
                assert(s[p].score == s[q0].score);
                assert(p != q0);
                assert(false);
            }
        }
    }
}

/// Reordering the scored results does not change the ranking when all
/// scores are distinct: the sort of any permutation is the same sequence.
pub proof fn lemma_sort_desc_permutation_invariant(s: Seq<ResultView>, t: Seq<ResultView>)
    requires
        s.to_multiset() == t.to_multiset(),
        distinct_scores(s),
    ensures
        sort_desc(s) == sort_desc(t),
{
    lemma_sort_desc_multiset(s);
    lemma_sort_desc_multiset(t);
    lemma_sort_desc_sorted(s);
    lemma_sort_desc_sorted(t);
    lemma_distinct_scores_sorted(s);
    lemma_sorted_desc_unique(sort_desc(s), sort_desc(t));
}

/// Where the scan found the first strictly-smaller score, the insertion
/// lands: `insert_desc` splits `s` exactly there.
pub proof fn lemma_insert_desc_at(s: Seq<ResultView>, x: ResultView, pos: int)
    requires
        0 <= pos <= s.len(),
        forall|m: int| 0 <= m < pos ==> s[m].score >= x.score,
        pos < s.len() ==> s[pos].score < x.score,
    ensures
        insert_desc(s, x) =~= s.take(pos) + seq![x] + s.skip(pos),
    decreases pos,
{
    if pos == 0 {
        if s.len() > 0 {
            assert(s[0].score < x.score);
        }
    } else {
        lemma_insert_desc_at(s.drop_first(), x, pos - 1);
        assert(s.drop_first().take(pos - 1) =~= s.take(pos).drop_first());
        assert(s.drop_first().skip(pos - 1) =~= s.skip(pos));
    }
}

} // verus!
