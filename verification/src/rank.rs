//! Ranker: totally orders score records ascending by distance — equal
//! distances keep their input order, a deterministic secondary key — and
//! truncates to the first `k`. Distances order the entries but are not part
//! of the emitted output.

use vstd::prelude::*;
use crate::score::ScoreRecord;
use crate::score::score_views;

verus! {

/// Inserts `x` into the already-sorted `s`, in front of the first entry
/// whose distance is not smaller, so earlier input stays in front of equal
/// distances.
pub open spec fn spec_insert_score(
    x: (Seq<u8>, nat),
    s: Seq<(Seq<u8>, nat)>,
) -> Seq<(Seq<u8>, nat)>
    decreases s.len(),
{
    if s.len() == 0 {
        seq![x]
    } else if x.1 <= s[0].1 {
        seq![x] + s
    } else {
        seq![s[0]] + spec_insert_score(x, s.drop_first())
    }
}

/// Stable ascending sort by distance: each entry is inserted in front of the
/// later entries of equal distance.
pub open spec fn spec_sort_scores(s: Seq<(Seq<u8>, nat)>) -> Seq<(Seq<u8>, nat)>
    decreases s.len(),
{
    if s.len() == 0 {
        s
    } else {
        spec_insert_score(s[0], spec_sort_scores(s.drop_first()))
    }
}

/// Ascending by distance.
pub open spec fn sorted_by_distance(s: Seq<(Seq<u8>, nat)>) -> bool {
    forall|i: int, j: int| 0 <= i <= j < s.len() ==> s[i].1 <= s[j].1
}

/// At most `k` entries of the sorted bag: all of them when `k` exceeds the
/// bag's size.
pub open spec fn spec_rank(s: Seq<(Seq<u8>, nat)>, k: int) -> Seq<(Seq<u8>, nat)> {
    let n = if k <= s.len() {
        k
    } else {
        s.len() as int
    };
    spec_sort_scores(s).take(n)
}

proof fn lemma_insert_score_len(x: (Seq<u8>, nat), s: Seq<(Seq<u8>, nat)>)
    ensures
        spec_insert_score(x, s).len() == s.len() + 1,
    decreases s.len(),
{
    if s.len() > 0 && !(x.1 <= s[0].1) {
        lemma_insert_score_len(x, s.drop_first());
    }
}

proof fn lemma_sort_scores_len(s: Seq<(Seq<u8>, nat)>)
    ensures
        spec_sort_scores(s).len() == s.len(),
    decreases s.len(),
{
    if s.len() > 0 {
        lemma_sort_scores_len(s.drop_first());
        lemma_insert_score_len(s[0], spec_sort_scores(s.drop_first()));
    }
}

proof fn lemma_insert_score_sorted(x: (Seq<u8>, nat), s: Seq<(Seq<u8>, nat)>)
    requires
        sorted_by_distance(s),
    ensures
        sorted_by_distance(spec_insert_score(x, s)),
        forall|j: int|
            0 <= j < spec_insert_score(x, s).len() ==> spec_insert_score(x, s)[j] == x
                || s.contains(spec_insert_score(x, s)[j]),
    decreases s.len(),
{
    lemma_insert_score_len(x, s);
    if s.len() == 0 {
    } else if x.1 <= s[0].1 {
        let r = seq![x] + s;
        assert forall|i: int, j: int| 0 <= i <= j < r.len() implies r[i].1 <= r[j].1 by {
            if i > 0 {
                assert(r[i] == s[i - 1] && r[j] == s[j - 1]);
            } else if j > 0 {
                assert(r[j] == s[j - 1]);
                assert(s[0].1 <= s[j - 1].1);
            }
        }
        assert forall|j: int| 0 <= j < r.len() implies r[j] == x || s.contains(r[j]) by {
            if j > 0 {
                assert(r[j] == s[j - 1]);
            }
        }
    } else {
        let d = s.drop_first();
        assert forall|i: int, j: int| 0 <= i <= j < d.len() implies d[i].1 <= d[j].1 by {
            assert(d[i] == s[i + 1] && d[j] == s[j + 1]);
        }
        lemma_insert_score_sorted(x, d);
        let t = spec_insert_score(x, d);
        let r = seq![s[0]] + t;
        assert forall|j: int| 0 <= j < r.len() implies r[j] == x || s.contains(r[j]) by {
            if j == 0 {
                assert(s[0] == s[0]);
                assert(s.contains(s[0]));
            } else {
                assert(r[j] == t[j - 1]);
                if t[j - 1] == x {
                } else {
                    let w = choose|w: int| 0 <= w < d.len() && d[w] == t[j - 1];
                    assert(s[w + 1] == t[j - 1]);
                    assert(s.contains(s[w + 1]));
                }
            }
        }
        assert forall|i: int, j: int| 0 <= i <= j < r.len() implies r[i].1 <= r[j].1 by {
            if i == 0 && j > 0 {
                if t[j - 1] == x {
                    assert(s[0].1 <= x.1);
                } else {
                    let w = choose|w: int| 0 <= w < d.len() && d[w] == t[j - 1];
                    assert(s[0].1 <= s[w + 1].1);
                }
            } else if i > 0 {
                assert(r[i] == t[i - 1] && r[j] == t[j - 1]);
            }
        }
    }
}

proof fn lemma_sort_scores_sorted(s: Seq<(Seq<u8>, nat)>)
    ensures
        sorted_by_distance(spec_sort_scores(s)),
    decreases s.len(),
{
    if s.len() > 0 {
        lemma_sort_scores_sorted(s.drop_first());
        lemma_insert_score_sorted(s[0], spec_sort_scores(s.drop_first()));
    }
}

proof fn lemma_insert_score_multiset(x: (Seq<u8>, nat), s: Seq<(Seq<u8>, nat)>)
    ensures
        spec_insert_score(x, s).to_multiset() == s.to_multiset().insert(x),
    decreases s.len(),
{
    broadcast use vstd::seq_lib::group_to_multiset_ensures;

    if s.len() == 0 {
        assert(seq![x] =~= s.push(x));
    } else if x.1 <= s[0].1 {
        assert(seq![x] + s =~= s.insert(0, x));
        vstd::seq_lib::to_multiset_insert(s, 0, x);
    } else {
        let d = s.drop_first();
        lemma_insert_score_multiset(x, d);
        assert(seq![s[0]] + spec_insert_score(x, d) =~= spec_insert_score(x, d).insert(0, s[0]));
        vstd::seq_lib::to_multiset_insert(spec_insert_score(x, d), 0, s[0]);
        assert(s =~= d.insert(0, s[0]));
        vstd::seq_lib::to_multiset_insert(d, 0, s[0]);
        assert(d.to_multiset().insert(x).insert(s[0]) =~= d.to_multiset().insert(s[0]).insert(x));
    }
}

proof fn lemma_sort_scores_multiset(s: Seq<(Seq<u8>, nat)>)
    ensures
        spec_sort_scores(s).to_multiset() == s.to_multiset(),
    decreases s.len(),
{
    broadcast use vstd::seq_lib::group_to_multiset_ensures;

    if s.len() > 0 {
        let d = s.drop_first();
        lemma_sort_scores_multiset(d);
        lemma_insert_score_multiset(s[0], spec_sort_scores(d));
        assert(s =~= d.insert(0, s[0]));
        vstd::seq_lib::to_multiset_insert(d, 0, s[0]);
    }
}

/// Rank-correctness law: ranking keeps `min(k, n)` of the `n` entries; the
/// sorted whole is a permutation of the bag, ascending by distance; and each
/// selected entry's distance is at most every unselected entry's distance.
pub proof fn lemma_rank_correct(bag: Seq<(Seq<u8>, nat)>, k: int)
    requires
        k >= 0,
    ensures
        spec_rank(bag, k).len() == if k <= bag.len() {
            k
        } else {
            bag.len() as int
        },
        spec_sort_scores(bag).to_multiset() == bag.to_multiset(),
        sorted_by_distance(spec_sort_scores(bag)),
        spec_rank(bag, k) == spec_sort_scores(bag).take(spec_rank(bag, k).len() as int),
        forall|i: int, j: int|
            0 <= i < spec_rank(bag, k).len() && spec_rank(bag, k).len() <= j < bag.len()
                ==> spec_rank(bag, k)[i].1 <= spec_sort_scores(bag)[j].1,
{
    lemma_sort_scores_len(bag);
    lemma_sort_scores_sorted(bag);
    lemma_sort_scores_multiset(bag);
    let n = if k <= bag.len() {
        k
    } else {
        bag.len() as int
    };
    assert forall|i: int, j: int|
        0 <= i < n && n <= j < bag.len() implies spec_rank(bag, k)[i].1 <= spec_sort_scores(
        bag,
    )[j].1 by {
        assert(spec_rank(bag, k)[i] == spec_sort_scores(bag)[i]);
    }
}

/// Inserts one score into an already-sorted vector, keeping it sorted and
/// placing the new entry behind existing entries of equal distance.
fn insert_by_distance(v: &mut Vec<ScoreRecord>, x: ScoreRecord)
    ensures
        score_views(final(v)@) == spec_insert_score(
            (x.id@, x.distance as nat),
            score_views(old(v)@),
        ),
{
    let ghost v0 = old(v)@;
    let mut idx: usize = 0;
    while idx < v.len() && v[idx].distance < x.distance
        invariant
            idx <= v@.len(),
            v@ == v0,
            forall|j: int| 0 <= j < idx ==> v@[j].distance < x.distance,
        decreases v@.len() - idx,
    {
        idx = idx + 1;
    }
    v.insert(idx, x);
    proof {
        lemma_insert_score_at(
            (x.id@, x.distance as nat),
            score_views(v0),
            idx as int,
        );
        assert(score_views(v0.insert(idx as int, x)) =~= score_views(v0).insert(
            idx as int,
            (x.id@, x.distance as nat),
        ));
    }
}

proof fn lemma_insert_score_at(x: (Seq<u8>, nat), s: Seq<(Seq<u8>, nat)>, idx: int)
    requires
        0 <= idx <= s.len(),
        forall|j: int| 0 <= j < idx ==> s[j].1 < x.1,
        idx < s.len() ==> x.1 <= s[idx].1,
    ensures
        spec_insert_score(x, s) == s.insert(idx, x),
    decreases s.len(),
{
    if idx == 0 {
        if s.len() == 0 {
            assert(seq![x] =~= s.insert(0, x));
        } else {
            assert(seq![x] + s =~= s.insert(0, x));
        }
    } else {
        let d = s.drop_first();
        assert forall|j: int| 0 <= j < idx - 1 implies d[j].1 < x.1 by {
            assert(d[j] == s[j + 1]);
        }
        if idx - 1 < d.len() {
            assert(d[idx - 1] == s[idx]);
        }
        lemma_insert_score_at(x, d, idx - 1);
        assert(seq![s[0]] + d.insert(idx - 1, x) =~= s.insert(idx, x));
    }
}

/// Sorts the bag ascending by distance; equal distances keep input order.
pub fn sort_by_distance(bag: Vec<ScoreRecord>) -> (r: Vec<ScoreRecord>)
    ensures
        score_views(r@) == spec_sort_scores(score_views(bag@)),
{
    let ghost sv = score_views(bag@);
    let mut rest = bag;
    let mut r: Vec<ScoreRecord> = Vec::new();
    proof {
        assert(rest@ =~= rest@.take(rest@.len() as int));
        assert(score_views(rest@).skip(rest@.len() as int)
            =~= Seq::<(Seq<u8>, nat)>::empty());
        assert(score_views(r@) =~= Seq::<(Seq<u8>, nat)>::empty());
    }
    while rest.len() > 0
        invariant
            rest@.len() <= sv.len(),
            sv == score_views(bag@),
            rest@ == bag@.take(rest@.len() as int),
            score_views(r@) == spec_sort_scores(sv.skip(rest@.len() as int)),
        decreases rest@.len(),
    {
        let ghost n0 = rest@.len() as int;
        let x = rest.pop().unwrap();
        proof {
            assert(rest@ =~= bag@.take(n0 - 1));
            assert(x == bag@[n0 - 1]);
            let t = sv.skip(n0 - 1);
            assert(t[0] == (x.id@, x.distance as nat));
            assert(t.drop_first() =~= sv.skip(n0));
            assert(spec_sort_scores(t) == spec_insert_score(t[0], spec_sort_scores(sv.skip(n0))));
        }
        insert_by_distance(&mut r, x);
    }
    proof {
        assert(sv.skip(0) =~= sv);
    }
    r
}

/// Ranks the bag: ascending by distance, equal distances in input order,
/// truncated to the first `k`. When `k` exceeds the bag's size, every entry
/// is returned, with no error.
pub fn rank(bag: Vec<ScoreRecord>, k: usize) -> (r: Vec<ScoreRecord>)
    ensures
        score_views(r@) == spec_rank(score_views(bag@), k as int),
        r@.len() == if k as int <= bag@.len() {
            k as int
        } else {
            bag@.len() as int
        },
{
    let ghost sv = score_views(bag@);
    let mut r = sort_by_distance(bag);
    proof {
        lemma_sort_scores_len(sv);
    }
    r.truncate(k);
    proof {
        let n = if k as int <= sv.len() {
            k as int
        } else {
            sv.len() as int
        };
        assert(score_views(r@) =~= spec_sort_scores(sv).take(n));
    }
    r
}

} // verus!
