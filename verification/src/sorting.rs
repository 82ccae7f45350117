//! Score-ordered index permutations.
//!
//! Both the top-k trim and the suppressor consume candidate indices ordered
//! ascending by score, so that the highest-scoring candidate sits at the end
//! of a pop-from-the-back work list. Ties are broken by index, larger index
//! first, which makes the order strict and total and the sorted permutation
//! unique.

use vstd::prelude::*;

verus! {

use crate::boxes::CandModel;
use crate::boxes::DetectionBoxes;

/// Strict total order on two distinct row indices: `i` sits before `j` on the
/// work list when its score is lower, or on a tie when its index is larger
/// (so of two equal scores the smaller index is popped first).
pub open spec fn key_lt(scores: Seq<int>, i: int, j: int) -> bool {
    scores[i] < scores[j] || (scores[i] == scores[j] && i > j)
}

/// The index sequence is strictly ascending with respect to [`key_lt`].
pub open spec fn sorted_stack(scores: Seq<int>, s: Seq<int>) -> bool {
    forall|p: int, q: int|
        0 <= p < q < s.len() ==> key_lt(scores, #[trigger] s[p], #[trigger] s[q])
}

/// Inserts `v` into a sorted index sequence, scanning from the back.
pub open spec fn spec_insert(scores: Seq<int>, s: Seq<int>, v: int) -> Seq<int>
    decreases s.len(),
{
    if s.len() == 0 {
        seq![v]
    } else if key_lt(scores, s.last(), v) {
        s.push(v)
    } else {
        spec_insert(scores, s.drop_last(), v).push(s.last())
    }
}

/// The indices `0 .. n` ordered ascending by [`key_lt`].
pub open spec fn sort_idx(scores: Seq<int>, n: int) -> Seq<int>
    decreases n,
{
    if n <= 0 {
        Seq::empty()
    } else {
        spec_insert(scores, sort_idx(scores, n - 1), n - 1)
    }
}

/// The scores of a row sequence, as unbounded integers.
pub open spec fn row_scores(rows: Seq<CandModel>) -> Seq<int> {
    rows.map_values(|c: CandModel| c.score)
}

/// The scores of a stored column, as unbounded integers.
pub open spec fn int_scores(s: Seq<i64>) -> Seq<int> {
    s.map_values(|v: i64| v as int)
}

/// An index vector seen as a sequence of integers.
pub open spec fn idxs(v: Seq<usize>) -> Seq<int> {
    v.map_values(|u: usize| u as int)
}

/// What [`spec_insert`] yields: one element longer, still sorted, and holding
/// exactly the old elements plus `v`.
pub proof fn lemma_spec_insert_props(scores: Seq<int>, s: Seq<int>, v: int)
    requires
        sorted_stack(scores, s),
        forall|p: int| 0 <= p < s.len() ==> #[trigger] s[p] != v,
    ensures
        spec_insert(scores, s, v).len() == s.len() + 1,
        sorted_stack(scores, spec_insert(scores, s, v)),
        forall|p: int|
            0 <= p < spec_insert(scores, s, v).len() ==> (#[trigger] spec_insert(scores, s, v)[p]
                == v || s.contains(spec_insert(scores, s, v)[p])),
        forall|x: int|
            #[trigger] spec_insert(scores, s, v).contains(x) <==> (s.contains(x) || x == v),
    decreases s.len(),
{
    let out = spec_insert(scores, s, v);
    if s.len() == 0 {
        assert(out =~= seq![v]);
        assert forall|x: int| #[trigger] out.contains(x) <==> (s.contains(x) || x == v) by {
            if x == v {
                assert(out[0] == v);
            }
        }
    } else if key_lt(scores, s.last(), v) {
        assert(out =~= s.push(v));
        assert forall|p: int, q: int| 0 <= p < q < out.len() implies key_lt(
            scores,
            #[trigger] out[p],
            #[trigger] out[q],
        ) by {
            if q == out.len() - 1 {
                if p < s.len() - 1 {
                    assert(key_lt(scores, s[p], s.last()));
                }
            }
        }
        assert forall|x: int| #[trigger] out.contains(x) <==> (s.contains(x) || x == v) by {
            if s.contains(x) {
                let w = choose|w: int| 0 <= w < s.len() && s[w] == x;
                assert(out[w] == x);
            }
            if x == v {
                assert(out[s.len() as int] == v);
            }
            if out.contains(x) {
                let w = choose|w: int| 0 <= w < out.len() && out[w] == x;
                if w < s.len() {
                    assert(s[w] == x);
                }
            }
        }
    } else {
        let head = s.drop_last();
        let tail = s.last();
        // totality of the order: the last element is not `v`, so `v` goes
        // strictly before it
        assert(key_lt(scores, v, tail));
        lemma_spec_insert_props(scores, head, v);
        let inner = spec_insert(scores, head, v);
        assert(out =~= inner.push(tail));
        assert forall|p: int, q: int| 0 <= p < q < out.len() implies key_lt(
            scores,
            #[trigger] out[p],
            #[trigger] out[q],
        ) by {
            if q == out.len() - 1 {
                if inner[p] == v {
                } else {
                    assert(head.contains(inner[p]));
                    let w = choose|w: int| 0 <= w < head.len() && head[w] == inner[p];
                    assert(s[w] == inner[p]);
                    assert(key_lt(scores, s[w], tail));
                }
            }
        }
        assert forall|x: int| #[trigger] out.contains(x) <==> (s.contains(x) || x == v) by {
            if out.contains(x) {
                let w = choose|w: int| 0 <= w < out.len() && out[w] == x;
                if w < inner.len() {
                    assert(inner.contains(x));
                    if head.contains(x) {
                        let u = choose|u: int| 0 <= u < head.len() && head[u] == x;
                        assert(s[u] == x);
                    }
                } else {
                    assert(s[s.len() - 1] == x);
                }
            }
            if s.contains(x) {
                let w = choose|w: int| 0 <= w < s.len() && s[w] == x;
                if w == s.len() - 1 {
                    assert(out[out.len() - 1] == x);
                } else {
                    assert(head[w] == x);
                    assert(inner.contains(x));
                    let u = choose|u: int| 0 <= u < inner.len() && inner[u] == x;
                    assert(out[u] == x);
                }
            }
            if x == v {
                assert(inner.contains(v));
                let u = choose|u: int| 0 <= u < inner.len() && inner[u] == v;
                assert(out[u] == v);
            }
        }
        assert forall|p: int|
            0 <= p < out.len() implies (#[trigger] out[p] == v || s.contains(out[p])) by {
            if p < inner.len() {
                if inner[p] != v {
                    assert(head.contains(inner[p]));
                    let u = choose|u: int| 0 <= u < head.len() && head[u] == inner[p];
                    assert(s[u] == inner[p]);
                }
            } else {
                assert(s[s.len() - 1] == out[p]);
            }
        }
    }
}

/// What [`sort_idx`] yields: a sorted permutation of `0 .. n`.
pub proof fn lemma_sort_idx_props(scores: Seq<int>, n: int)
    requires
        0 <= n,
    ensures
        sort_idx(scores, n).len() == n,
        sorted_stack(scores, sort_idx(scores, n)),
        forall|p: int| 0 <= p < n ==> 0 <= #[trigger] sort_idx(scores, n)[p] < n,
        forall|i: int| 0 <= i < n ==> sort_idx(scores, n).contains(i),
    decreases n,
{
    if n > 0 {
        lemma_sort_idx_props(scores, n - 1);
        let prev = sort_idx(scores, n - 1);
        lemma_spec_insert_props(scores, prev, n - 1);
        let out = sort_idx(scores, n);
        assert forall|p: int| 0 <= p < n implies 0 <= #[trigger] out[p] < n by {
            if out[p] != n - 1 {
                assert(prev.contains(out[p]));
                let w = choose|w: int| 0 <= w < prev.len() && prev[w] == out[p];
            }
        }
        assert forall|i: int| 0 <= i < n implies out.contains(i) by {
            if i < n - 1 {
                assert(prev.contains(i));
            }
        }
    }
}

/// A sorted index sequence has no duplicates, so two sorted sequences of the
/// same length holding the same elements are equal.
pub proof fn lemma_sorted_unique(scores: Seq<int>, s1: Seq<int>, s2: Seq<int>)
    requires
        sorted_stack(scores, s1),
        sorted_stack(scores, s2),
        s1.len() == s2.len(),
        forall|x: int| s1.contains(x) <==> s2.contains(x),
    ensures
        s1 =~= s2,
    decreases s1.len(),
{
    if s1.len() > 0 {
        let l1 = s1.last();
        let l2 = s2.last();
        assert(s1.contains(l1));
        assert(s2.contains(l2));
        assert(s2.contains(l1));
        assert(s1.contains(l2));
        let q = choose|q: int| 0 <= q < s2.len() && s2[q] == l1;
        let p = choose|p: int| 0 <= p < s1.len() && s1[p] == l2;
        if q < s2.len() - 1 && p < s1.len() - 1 {
            assert(key_lt(scores, l1, l2));
            assert(key_lt(scores, l2, l1));
            assert(false);
        }
        assert(l1 == l2);
        let h1 = s1.drop_last();
        let h2 = s2.drop_last();
        assert forall|x: int| h1.contains(x) <==> h2.contains(x) by {
            lemma_head_contains(scores, s1, x);
            lemma_head_contains(scores, s2, x);
        }
        lemma_sorted_unique(scores, h1, h2);
        assert(s1 =~= h1.push(l1));
        assert(s2 =~= h2.push(l2));
    }
}

/// Membership in a sorted sequence without its last element.
proof fn lemma_head_contains(scores: Seq<int>, s: Seq<int>, x: int)
    requires
        sorted_stack(scores, s),
        s.len() > 0,
    ensures
        s.drop_last().contains(x) <==> (s.contains(x) && x != s.last()),
{
    let h = s.drop_last();
    if h.contains(x) {
        let w = choose|w: int| 0 <= w < h.len() && h[w] == x;
        assert(s[w] == x);
        assert(key_lt(scores, s[w], s.last()));
    }
    if s.contains(x) && x != s.last() {
        let w = choose|w: int| 0 <= w < s.len() && s[w] == x;
        assert(w < s.len() - 1);
        assert(h[w] == x);
    }
}

/// Where a fresh element lands when inserted into a sorted sequence: at the
/// first position from the back whose predecessor is below it.
pub proof fn lemma_insert_at(scores: Seq<int>, s: Seq<int>, v: int, p: int)
    requires
        sorted_stack(scores, s),
        0 <= p <= s.len(),
        forall|q: int| p <= q < s.len() ==> key_lt(scores, v, #[trigger] s[q]),
        p > 0 ==> key_lt(scores, s[p - 1], v),
    ensures
        spec_insert(scores, s, v) =~= s.insert(p, v),
    decreases s.len(),
{
    if s.len() == 0 {
        assert(spec_insert(scores, s, v) =~= s.insert(0, v));
    } else if p == s.len() {
        assert(key_lt(scores, s.last(), v));
        assert(spec_insert(scores, s, v) =~= s.insert(p, v));
    } else {
        assert(key_lt(scores, v, s.last()));
        lemma_insert_at(scores, s.drop_last(), v, p);
        assert(spec_insert(scores, s, v) =~= s.drop_last().insert(p, v).push(s.last()));
        assert(s.drop_last().insert(p, v).push(s.last()) =~= s.insert(p, v));
    }
}

/// Whether row `a` comes before row `b` on the work list.
fn before_lt(scores: &Vec<i64>, a: usize, b: usize) -> (r: bool)
    requires
        a < scores@.len(),
        b < scores@.len(),
    ensures
        r == key_lt(int_scores(scores@), a as int, b as int),
{
    scores[a] < scores[b] || (scores[a] == scores[b] && a > b)
}

/// Insertion sort over row indices: returns `0 .. scores.len()` ordered
/// ascending by score, ties broken larger index first.
pub fn sort_indices(scores: &Vec<i64>) -> (r: Vec<usize>)
    ensures
        idxs(r@) == sort_idx(int_scores(scores@), scores@.len() as int),
        r@.len() == scores@.len(),
        forall|p: int| 0 <= p < r@.len() ==> #[trigger] r@[p] < scores@.len(),
{
    let n = scores.len();
    let ghost sc = int_scores(scores@);
    let mut out: Vec<usize> = Vec::new();
    let mut i: usize = 0;
    while i < n
        invariant
            i <= n,
            n == scores@.len(),
            sc == int_scores(scores@),
            out@.len() == i,
            idxs(out@) == sort_idx(sc, i as int),
            forall|p: int| 0 <= p < out@.len() ==> #[trigger] out@[p] < i,
        decreases n - i,
    {
        proof {
            lemma_sort_idx_props(sc, i as int);
        }
        let mut p: usize = out.len();
        while p > 0 && before_lt(scores, i, out[p - 1])
            invariant
                p <= out@.len(),
                i < n,
                n == scores@.len(),
                sc == int_scores(scores@),
                out@.len() == i,
                idxs(out@) == sort_idx(sc, i as int),
                forall|q: int| 0 <= q < out@.len() ==> #[trigger] out@[q] < i,
                forall|q: int| p <= q < out@.len() ==> key_lt(sc, i as int, #[trigger] out@[q] as int),
            decreases p,
        {
            proof {
                assert(idxs(out@)[p - 1] == out@[p - 1] as int);
            }
            p = p - 1;
        }
        proof {
            let so = idxs(out@);
            if p > 0 {
                assert(so[p - 1] == out@[p - 1] as int);
                assert(!key_lt(sc, i as int, so[p - 1]));
                assert(so[p - 1] != i as int);
                assert(key_lt(sc, so[p - 1], i as int));
            }
            assert forall|q: int| p <= q < so.len() implies key_lt(sc, i as int, #[trigger] so[q]) by {
                assert(so[q] == out@[q] as int);
            }
            lemma_insert_at(sc, so, i as int, p as int);
        }
        let ghost so = idxs(out@);
        out.insert(p, i);
        proof {
            assert(idxs(out@) =~= so.insert(p as int, i as int));
            assert(idxs(out@) =~= sort_idx(sc, (i + 1) as int));
        }
        i = i + 1;
    }
    proof {
        lemma_sort_idx_props(sc, n as int);
        assert forall|p: int| 0 <= p < out@.len() implies #[trigger] out@[p] < scores@.len() by {
            assert(idxs(out@)[p] == out@[p] as int);
        }
    }
    out
}

/// What trimming keeps: the sorted permutation with the `n - k` lowest-score
/// positions dropped, re-materialized in ascending score order.
pub open spec fn trim_spec(rows: Seq<CandModel>, k: int) -> Seq<CandModel> {
    let order = sort_idx(row_scores(rows), rows.len() as int);
    let kept = if rows.len() > k {
        order.skip(rows.len() - k)
    } else {
        order
    };
    kept.map_values(|i: int| rows[i])
}

impl DetectionBoxes {
    /// Orders all rows by descending score, keeps the `len` best, and stores
    /// the survivors in ascending score order, so the suppressor can pop the
    /// highest score from the back. Of two equal scores the earlier row is
    /// treated as the better one.
    pub fn sort_by_score_and_trim(&mut self, len: usize)
        requires
            old(self).wf(),
        ensures
            final(self).wf(),
            final(self).rows() == trim_spec(old(self).rows(), len as int),
            final(self).len == if old(self).len > len {
                len as int
            } else {
                old(self).len as int
            },
    {
        proof {
            assert(int_scores(self.scores@) =~= row_scores(self.rows()));
        }
        let ghost sc = row_scores(self.rows());
        let ghost orows = self.rows();
        let order = sort_indices(&self.scores);
        let n = self.len;
        proof {
            lemma_sort_idx_props(sc, n as int);
        }
        let start: usize = if n > len {
            n - len
        } else {
            0
        };
        let mut nx1: Vec<i64> = Vec::new();
        let mut ny1: Vec<i64> = Vec::new();
        let mut nx2: Vec<i64> = Vec::new();
        let mut ny2: Vec<i64> = Vec::new();
        let mut ns: Vec<i64> = Vec::new();
        let mut nc: Vec<i64> = Vec::new();
        let mut p: usize = start;
        while p < n
            invariant
                start <= p <= n,
                n == self.len,
                self.wf(),
                sc == row_scores(self.rows()),
                orows == self.rows(),
                order@.len() == n,
                idxs(order@) == sort_idx(sc, n as int),
                forall|q: int| 0 <= q < order@.len() ==> #[trigger] order@[q] < n,
                nx1@.len() == p - start && ny1@.len() == p - start && nx2@.len() == p - start
                    && ny2@.len() == p - start && ns@.len() == p - start && nc@.len() == p - start,
                forall|j: int|
                    0 <= j < p - start ==> zip_rows_at(nx1@, ny1@, nx2@, ny2@, ns@, nc@, j)
                        == orows[idxs(order@)[start + j]],
            decreases n - p,
        {
            let idx = order[p];
            let ghost bx1 = nx1@;
            let ghost by1 = ny1@;
            let ghost bx2 = nx2@;
            let ghost by2 = ny2@;
            let ghost bs = ns@;
            let ghost bc = nc@;
            nx1.push(self.x1[idx]);
            ny1.push(self.y1[idx]);
            nx2.push(self.x2[idx]);
            ny2.push(self.y2[idx]);
            ns.push(self.scores[idx]);
            nc.push(self.classes[idx]);
            proof {
                let jn = (p - start) as int;
                assert(idxs(order@)[p as int] == order@[p as int] as int);
                assert(zip_rows_at(nx1@, ny1@, nx2@, ny2@, ns@, nc@, jn) == orows[idx as int]);
                assert forall|j: int|
                    0 <= j < jn implies zip_rows_at(nx1@, ny1@, nx2@, ny2@, ns@, nc@, j) == orows[
                    idxs(order@)[start + j]
                ] by {
                    assert(nx1@[j] == bx1[j] && ny1@[j] == by1[j] && nx2@[j] == bx2[j] && ny2@[j]
                        == by2[j] && ns@[j] == bs[j] && nc@[j] == bc[j]);
                    assert(zip_rows_at(bx1, by1, bx2, by2, bs, bc, j) == orows[idxs(order@)[start
                        + j]]);
                }
            }
            p = p + 1;
        }
        self.x1 = nx1;
        self.y1 = ny1;
        self.x2 = nx2;
        self.y2 = ny2;
        self.scores = ns;
        self.classes = nc;
        self.len = n - start;
        proof {
            let kept = if orows.len() > len as int {
                sort_idx(sc, n as int).skip(orows.len() - len as int)
            } else {
                sort_idx(sc, n as int)
            };
            assert forall|j: int| 0 <= j < self.rows().len() implies self.rows()[j]
                == trim_spec(orows, len as int)[j] by {
                assert(zip_rows_at(
                    self.x1@, self.y1@, self.x2@, self.y2@, self.scores@, self.classes@, j,
                ) == orows[idxs(order@)[start + j]]);
                assert(kept[j] == idxs(order@)[start + j]);
            }
            assert(self.rows() =~= trim_spec(orows, len as int));
        }
    }
}

/// The row a set of columns describes at position `j`.
pub open spec fn zip_rows_at(
    x1: Seq<i64>,
    y1: Seq<i64>,
    x2: Seq<i64>,
    y2: Seq<i64>,
    scores: Seq<i64>,
    classes: Seq<i64>,
    j: int,
) -> CandModel {
    crate::boxes::zip_rows(x1, y1, x2, y2, scores, classes)[j]
}

/// `order` witnesses that trimming `rows` to `k` keeps the `k` largest
/// scores: it is a permutation of all row positions, the trimmed result is
/// exactly the rows at its last `k` positions, and every score in the dropped
/// prefix lies at or below every score in the kept suffix.
pub open spec fn is_top_k_split(rows: Seq<CandModel>, k: int, order: Seq<int>) -> bool {
    &&& order.len() == rows.len()
    &&& (forall|p: int| 0 <= p < order.len() ==> 0 <= #[trigger] order[p] < rows.len())
    &&& (forall|i: int| 0 <= i < rows.len() ==> order.contains(i))
    &&& (forall|p: int, q: int|
        0 <= p < q < order.len() ==> #[trigger] order[p] != #[trigger] order[q])
    &&& trim_spec(rows, k) =~= order.skip(rows.len() - k).map_values(|i: int| rows[i])
    &&& (forall|p: int, q: int|
        0 <= p < rows.len() - k <= q < rows.len() ==> rows[#[trigger] order[p]].score <= rows[
            #[trigger] order[q]
        ].score)
}

/// Trimming to `k` of `n >= k` rows keeps exactly `k` rows, every kept row is
/// one of the original rows, the kept rows come out ascending by score, and
/// the original rows split into the kept ones and dropped ones with every
/// dropped score at or below every kept score: the kept scores are the `k`
/// largest, as witnessed by the sorted permutation.
pub proof fn lemma_trim_keeps_top_k(rows: Seq<CandModel>, k: int)
    requires
        0 <= k <= rows.len(),
    ensures
        trim_spec(rows, k).len() == k,
        forall|p: int|
            0 <= p < k ==> exists|i: int|
                0 <= i < rows.len() && #[trigger] trim_spec(rows, k)[p] == rows[i],
        forall|p: int, q: int|
            0 <= p < q < k ==> trim_spec(rows, k)[p].score <= trim_spec(rows, k)[q].score,
        is_top_k_split(rows, k, sort_idx(row_scores(rows), rows.len() as int)),
{
    let sc = row_scores(rows);
    let n = rows.len() as int;
    lemma_sort_idx_props(sc, n);
    let order = sort_idx(sc, n);
    assert forall|p: int, q: int| 0 <= p < q < order.len() implies #[trigger] order[p]
        != #[trigger] order[q] by {
        assert(key_lt(sc, order[p], order[q]));
    }
    assert forall|p: int, q: int|
        0 <= p < n - k <= q < n implies rows[#[trigger] order[p]].score
        <= rows[#[trigger] order[q]].score by {
        if p < q {
            assert(key_lt(sc, order[p], order[q]));
            assert(sc[order[p]] == rows[order[p]].score);
            assert(sc[order[q]] == rows[order[q]].score);
        }
    }
    let kept = if n > k {
        order.skip(n - k)
    } else {
        order
    };
    assert(trim_spec(rows, k) == kept.map_values(|i: int| rows[i]));
    assert forall|p: int|
        0 <= p < k implies exists|i: int|
        0 <= i < rows.len() && #[trigger] trim_spec(rows, k)[p] == rows[i] by {
        let i = kept[p];
        assert(0 <= i < rows.len());
        assert(trim_spec(rows, k)[p] == rows[i]);
    }
    assert forall|p: int, q: int|
        0 <= p < q < k implies trim_spec(rows, k)[p].score <= trim_spec(rows, k)[q].score by {
        assert(key_lt(sc, kept[p], kept[q]));
        assert(sc[kept[p]] == rows[kept[p]].score);
        assert(sc[kept[q]] == rows[kept[q]].score);
        assert(trim_spec(rows, k)[p] == rows[kept[p]]);
        assert(trim_spec(rows, k)[q] == rows[kept[q]]);
    }
    assert(trim_spec(rows, k) =~= order.skip(rows.len() - k).map_values(|i: int| rows[i]));
}

} // verus!
