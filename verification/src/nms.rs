//! Greedy non-maximum suppression.
//!
//! The suppressor pops the highest-scoring remaining candidate, accepts it,
//! and discards every remaining candidate whose intersection-over-union with
//! the accepted box exceeds the threshold. In non-agnostic mode every box is
//! first offset by `class * MAX_WH`, which moves boxes of different classes
//! into disjoint coordinate bands so they never overlap in the geometric
//! test. Thresholds are strict: overlap above the threshold is suppressed,
//! overlap at or below it survives.

use vstd::prelude::*;

verus! {

use vstd::arithmetic::div_mod::lemma_div_is_ordered;
use vstd::arithmetic::div_mod::lemma_div_pos_is_pos;
use vstd::arithmetic::div_mod::lemma_div_multiples_vanish;
use crate::boxes::CandModel;
use crate::boxes::Candidate;
use crate::boxes::DetectionBoxes;
use crate::boxes::cand_ok;
use crate::fixed::CLASS_LIMIT;
use crate::fixed::DEFAULT_EPSILON;
use crate::fixed::EPSILON_LIMIT;
use crate::fixed::MAX_OUTPUT_BOXES;
use crate::fixed::MAX_WH;
use crate::fixed::SCALE;
use crate::fixed::SHIFT_LIMIT;
use crate::fixed::wide_mul;
use crate::sorting::idxs;
use crate::sorting::int_scores;
use crate::sorting::lemma_sort_idx_props;
use crate::sorting::row_scores;
use crate::sorting::sort_idx;
use crate::sorting::sort_indices;

/// Largest area a shifted box can have.
pub const AREA_LIMIT: i128 = 12_960_000_000_000_000_000_000_000_000_000;

/// Clamp to zero from below.
pub open spec fn max0(v: int) -> int {
    if v > 0 {
        v
    } else {
        0
    }
}

/// The smaller of two integers.
pub open spec fn min2(a: int, b: int) -> int {
    if a < b {
        a
    } else {
        b
    }
}

/// The larger of two integers.
pub open spec fn max2(a: int, b: int) -> int {
    if a > b {
        a
    } else {
        b
    }
}

/// A row with the per-class coordinate offset applied (no offset in
/// class-agnostic mode).
pub open spec fn shift_cand(c: CandModel, agnostic: bool) -> CandModel {
    let off = if agnostic {
        0
    } else {
        c.class * (MAX_WH as int)
    };
    CandModel {
        x1: c.x1 + off,
        y1: c.y1 + off,
        x2: c.x2 + off,
        y2: c.y2 + off,
        score: c.score,
        class: c.class,
    }
}

/// All rows with the per-class offset applied.
pub open spec fn shifted_rows(rows: Seq<CandModel>, agnostic: bool) -> Seq<CandModel> {
    rows.map_values(|c: CandModel| shift_cand(c, agnostic))
}

/// Area of a box, degenerate extents clamped to zero.
pub open spec fn area_of(c: CandModel) -> int {
    max0(c.x2 - c.x1) * max0(c.y2 - c.y1)
}

/// Intersection area of two boxes.
pub open spec fn inter_of(a: CandModel, b: CandModel) -> int {
    max0(min2(a.x2, b.x2) - max2(a.x1, b.x1)) * max0(min2(a.y2, b.y2) - max2(a.y1, b.y1))
}

/// Union area of two boxes, with the stability epsilon added.
pub open spec fn union_of(a: CandModel, b: CandModel, eps: int) -> int {
    area_of(a) + area_of(b) - inter_of(a, b) + eps
}

/// Whether `b` is suppressed by the accepted box `a`: the overlap ratio
/// strictly exceeds the threshold, compared exactly by cross-multiplication
/// (`inter / union > thr` if and only if `inter * SCALE > thr * union`).
pub open spec fn suppress(a: CandModel, b: CandModel, thr: int, eps: int) -> bool {
    inter_of(a, b) * (SCALE as int) > thr * union_of(a, b, eps)
}

/// Intersection-over-union as a fixed-point value: `inter * SCALE / union`,
/// truncated.
pub open spec fn iou_spec(a: CandModel, b: CandModel, eps: int) -> int {
    inter_of(a, b) * (SCALE as int) / union_of(a, b, eps)
}

/// The indices of `s` that the accepted box `cur` does not suppress, in
/// order.
pub open spec fn keep_filter(
    shifted: Seq<CandModel>,
    cur: int,
    s: Seq<int>,
    thr: int,
    eps: int,
) -> Seq<int> {
    s.filter(|j: int| !suppress(shifted[cur], shifted[j], thr, eps))
}

/// One greedy suppression pass: pop the last (highest-scoring) index of the
/// work list, accept it, drop every remaining index it suppresses, and
/// continue until the work list is empty or the output already holds more
/// than `MAX_OUTPUT_BOXES` indices.
pub open spec fn nms_rec(
    shifted: Seq<CandModel>,
    stack: Seq<int>,
    acc: Seq<int>,
    thr: int,
    eps: int,
) -> Seq<int>
    decreases stack.len(),
    via nms_rec_decreases
{
    if stack.len() == 0 {
        acc
    } else if acc.len() > MAX_OUTPUT_BOXES {
        acc
    } else {
        nms_rec(
            shifted,
            keep_filter(shifted, stack.last(), stack.drop_last(), thr, eps),
            acc.push(stack.last()),
            thr,
            eps,
        )
    }
}

#[via_fn]
proof fn nms_rec_decreases(
    shifted: Seq<CandModel>,
    stack: Seq<int>,
    acc: Seq<int>,
    thr: int,
    eps: int,
) {
    if stack.len() != 0 && !(acc.len() > MAX_OUTPUT_BOXES) {
        stack.drop_last().lemma_filter_len(
            |j: int| !suppress(shifted[stack.last()], shifted[j], thr, eps),
        );
    }
}

/// The resolved epsilon of an optional argument.
pub open spec fn eps_value(epsilon: Option<i64>) -> int {
    match epsilon {
        Some(e) => e as int,
        None => DEFAULT_EPSILON as int,
    }
}

/// The resolved class-agnostic flag of an optional argument.
pub open spec fn agnostic_value(agnostic: Option<bool>) -> bool {
    match agnostic {
        Some(a) => a,
        None => false,
    }
}

/// The accepted indices of a full suppression run over `rows`: the work list
/// is all row indices ordered ascending by score.
pub open spec fn nms_seq(rows: Seq<CandModel>, thr: int, eps: int, agnostic: bool) -> Seq<int> {
    nms_rec(
        shifted_rows(rows, agnostic),
        sort_idx(row_scores(rows), rows.len() as int),
        Seq::empty(),
        thr,
        eps,
    )
}

/// The intersection of two boxes is contained in each, and areas are never
/// negative.
pub proof fn lemma_inter_le_area(a: CandModel, b: CandModel)
    ensures
        0 <= inter_of(a, b),
        inter_of(a, b) <= area_of(a),
        inter_of(a, b) <= area_of(b),
        0 <= area_of(a),
{
    let iw = max0(min2(a.x2, b.x2) - max2(a.x1, b.x1));
    let ih = max0(min2(a.y2, b.y2) - max2(a.y1, b.y1));
    let wa = max0(a.x2 - a.x1);
    let ha = max0(a.y2 - a.y1);
    let wb = max0(b.x2 - b.x1);
    let hb = max0(b.y2 - b.y1);
    assert(0 <= iw <= wa && iw <= wb && 0 <= ih <= ha && ih <= hb);
    assert(0 <= iw * ih && iw * ih <= wa * ha && iw * ih <= wb * hb && 0 <= wa * ha)
        by (nonlinear_arith)
        requires
            0 <= iw <= wa,
            iw <= wb,
            0 <= ih <= ha,
            ih <= hb,
            0 <= wa,
            0 <= wb,
            0 <= ha,
            0 <= hb,
    ;
}

/// Intersection-over-union is symmetric, and so is the suppression test.
pub proof fn lemma_iou_symmetric(a: CandModel, b: CandModel, thr: int, eps: int)
    ensures
        inter_of(a, b) == inter_of(b, a),
        union_of(a, b, eps) == union_of(b, a, eps),
        iou_spec(a, b, eps) == iou_spec(b, a, eps),
        suppress(a, b, thr, eps) == suppress(b, a, thr, eps),
{
}

/// In non-agnostic mode a box is never suppressed by a box of another class,
/// provided all horizontal coordinates lie in one window `[lo, lo + MAX_WH)`
/// of the width the per-class offset separates (`MAX_WH` is chosen larger
/// than any plausible image dimension, so real boxes always do).
pub proof fn lemma_cross_class_never_suppressed(
    a: CandModel,
    b: CandModel,
    thr: int,
    eps: int,
    lo: int,
)
    requires
        a.class != b.class,
        0 <= a.class <= CLASS_LIMIT,
        0 <= b.class <= CLASS_LIMIT,
        lo <= a.x1 < lo + MAX_WH,
        lo <= a.x2 < lo + MAX_WH,
        lo <= b.x1 < lo + MAX_WH,
        lo <= b.x2 < lo + MAX_WH,
        0 <= thr,
        0 <= eps,
    ensures
        !suppress(shift_cand(a, false), shift_cand(b, false), thr, eps),
{
    let sa = shift_cand(a, false);
    let sb = shift_cand(b, false);
    assert((a.class - b.class) * (MAX_WH as int) >= MAX_WH as int || (b.class - a.class) * (
    MAX_WH as int) >= MAX_WH as int) by (nonlinear_arith)
        requires
            a.class != b.class,
            0 <= a.class,
            0 <= b.class,
    ;
    assert(min2(sa.x2, sb.x2) - max2(sa.x1, sb.x1) < 0);
    assert(inter_of(sa, sb) == 0);
    lemma_inter_le_area(sa, sb);
    assert(union_of(sa, sb, eps) >= 0);
    assert(thr * union_of(sa, sb, eps) >= 0) by (nonlinear_arith)
        requires
            0 <= thr,
            0 <= union_of(sa, sb, eps),
    ;
}

/// Area of one box, exactly.
fn area_i128(c: &Candidate) -> (r: i128)
    requires
        -SHIFT_LIMIT <= c.x1 <= SHIFT_LIMIT,
        -SHIFT_LIMIT <= c.y1 <= SHIFT_LIMIT,
        -SHIFT_LIMIT <= c.x2 <= SHIFT_LIMIT,
        -SHIFT_LIMIT <= c.y2 <= SHIFT_LIMIT,
    ensures
        r as int == area_of(c@),
        0 <= r <= AREA_LIMIT,
{
    let dx = c.x2 - c.x1;
    let dy = c.y2 - c.y1;
    let dxc: i64 = if dx > 0 {
        dx
    } else {
        0
    };
    let dyc: i64 = if dy > 0 {
        dy
    } else {
        0
    };
    let r = wide_mul(dxc, dyc);
    proof {
        assert(0 <= (dxc as int) * (dyc as int) <= AREA_LIMIT as int) by (nonlinear_arith)
            requires
                0 <= dxc as int <= 2 * (SHIFT_LIMIT as int),
                0 <= dyc as int <= 2 * (SHIFT_LIMIT as int),
        ;
    }
    r
}

/// Whether the accepted box `a` suppresses `b`, decided exactly by
/// cross-multiplication.
fn suppressed_by(a: &Candidate, b: &Candidate, area_a: i128, area_b: i128, thr: i64, eps: i64) -> (r:
    bool)
    requires
        -SHIFT_LIMIT <= a.x1 <= SHIFT_LIMIT,
        -SHIFT_LIMIT <= a.y1 <= SHIFT_LIMIT,
        -SHIFT_LIMIT <= a.x2 <= SHIFT_LIMIT,
        -SHIFT_LIMIT <= a.y2 <= SHIFT_LIMIT,
        -SHIFT_LIMIT <= b.x1 <= SHIFT_LIMIT,
        -SHIFT_LIMIT <= b.y1 <= SHIFT_LIMIT,
        -SHIFT_LIMIT <= b.x2 <= SHIFT_LIMIT,
        -SHIFT_LIMIT <= b.y2 <= SHIFT_LIMIT,
        area_a as int == area_of(a@),
        area_b as int == area_of(b@),
        0 <= area_a <= AREA_LIMIT,
        0 <= area_b <= AREA_LIMIT,
        0 <= thr <= SCALE,
        0 <= eps <= EPSILON_LIMIT,
    ensures
        r == suppress(a@, b@, thr as int, eps as int),
{
    let xx1 = if a.x1 > b.x1 {
        a.x1
    } else {
        b.x1
    };
    let yy1 = if a.y1 > b.y1 {
        a.y1
    } else {
        b.y1
    };
    let xx2 = if a.x2 < b.x2 {
        a.x2
    } else {
        b.x2
    };
    let yy2 = if a.y2 < b.y2 {
        a.y2
    } else {
        b.y2
    };
    let iw = xx2 - xx1;
    let ih = yy2 - yy1;
    let iwc: i64 = if iw > 0 {
        iw
    } else {
        0
    };
    let ihc: i64 = if ih > 0 {
        ih
    } else {
        0
    };
    let inter = wide_mul(iwc, ihc);
    proof {
        assert(0 <= (iwc as int) * (ihc as int) <= AREA_LIMIT as int) by (nonlinear_arith)
            requires
                0 <= iwc as int <= 2 * (SHIFT_LIMIT as int),
                0 <= ihc as int <= 2 * (SHIFT_LIMIT as int),
        ;
        assert(inter as int == inter_of(a@, b@));
    }
    let union_v: i128 = area_a + area_b - inter + (eps as i128);
    let lhs: i128 = inter * (SCALE as i128);
    proof {
        assert(inter as int * (SCALE as int) <= AREA_LIMIT as int * (SCALE as int)
            && inter as int * (SCALE as int) >= 0) by (nonlinear_arith)
            requires
                0 <= inter as int <= AREA_LIMIT as int,
        ;
    }
    proof {
        assert((thr as int) * (union_v as int) <= (SCALE as int) * (3 * (AREA_LIMIT as int) + (
        EPSILON_LIMIT as int)) && (thr as int) * (union_v as int) >= -((SCALE as int) * (3 * (
        AREA_LIMIT as int) + (EPSILON_LIMIT as int)))) by (nonlinear_arith)
            requires
                0 <= thr as int <= SCALE as int,
                -(3 * (AREA_LIMIT as int)) <= union_v as int <= 3 * (AREA_LIMIT as int) + (
                EPSILON_LIMIT as int),
        ;
    }
    let rhs: i128 = (thr as i128) * union_v;
    lhs > rhs
}

/// Intersection-over-union of two boxes as a fixed-point ratio in
/// `[0, SCALE]`.
pub fn iou_scaled(a: &Candidate, b: &Candidate, epsilon: i64) -> (r: i64)
    requires
        -SHIFT_LIMIT <= a.x1 <= SHIFT_LIMIT,
        -SHIFT_LIMIT <= a.y1 <= SHIFT_LIMIT,
        -SHIFT_LIMIT <= a.x2 <= SHIFT_LIMIT,
        -SHIFT_LIMIT <= a.y2 <= SHIFT_LIMIT,
        -SHIFT_LIMIT <= b.x1 <= SHIFT_LIMIT,
        -SHIFT_LIMIT <= b.y1 <= SHIFT_LIMIT,
        -SHIFT_LIMIT <= b.x2 <= SHIFT_LIMIT,
        -SHIFT_LIMIT <= b.y2 <= SHIFT_LIMIT,
        1 <= epsilon <= EPSILON_LIMIT,
    ensures
        r as int == iou_spec(a@, b@, epsilon as int),
        0 <= r <= SCALE,
{
    let area_a = area_i128(a);
    let area_b = area_i128(b);
    let xx1 = if a.x1 > b.x1 {
        a.x1
    } else {
        b.x1
    };
    let yy1 = if a.y1 > b.y1 {
        a.y1
    } else {
        b.y1
    };
    let xx2 = if a.x2 < b.x2 {
        a.x2
    } else {
        b.x2
    };
    let yy2 = if a.y2 < b.y2 {
        a.y2
    } else {
        b.y2
    };
    let iw = xx2 - xx1;
    let ih = yy2 - yy1;
    let iwc: i64 = if iw > 0 {
        iw
    } else {
        0
    };
    let ihc: i64 = if ih > 0 {
        ih
    } else {
        0
    };
    let inter = wide_mul(iwc, ihc);
    proof {
        assert(0 <= (iwc as int) * (ihc as int) <= AREA_LIMIT as int) by (nonlinear_arith)
            requires
                0 <= iwc as int <= 2 * (SHIFT_LIMIT as int),
                0 <= ihc as int <= 2 * (SHIFT_LIMIT as int),
        ;
        assert(inter as int == inter_of(a@, b@));
        lemma_inter_le_area(a@, b@);
    }
    let union_v: i128 = area_a + area_b - inter + (epsilon as i128);
    let num: i128 = inter * (SCALE as i128);
    proof {
        assert(inter as int * (SCALE as int) <= AREA_LIMIT as int * (SCALE as int)
            && inter as int * (SCALE as int) >= 0) by (nonlinear_arith)
            requires
                0 <= inter as int <= AREA_LIMIT as int,
        ;
        assert(union_v as int >= inter as int + epsilon as int);
        assert(num as int <= (union_v as int) * (SCALE as int)) by (nonlinear_arith)
            requires
                num as int == (inter as int) * (SCALE as int),
                union_v as int >= inter as int + 1,
                0 <= inter as int,
        ;
    }
    let q: u128 = (num as u128) / (union_v as u128);
    proof {
        lemma_div_pos_is_pos(num as int, union_v as int);
        lemma_div_is_ordered(num as int, (union_v as int) * (SCALE as int), union_v as int);
        lemma_div_multiples_vanish(SCALE as int, union_v as int);
        assert((union_v as int) * (SCALE as int) / (union_v as int) == SCALE as int);
        assert(q as int == iou_spec(a@, b@, epsilon as int));
        assert(q <= SCALE as u128);
    }
    q as i64
}

/// The rows with the per-class offset applied, materialized.
fn shift_boxes(boxes: &DetectionBoxes, agnostic: bool) -> (r: Vec<Candidate>)
    requires
        boxes.wf(),
        forall|i: int| 0 <= i < boxes.rows().len() ==> cand_ok(#[trigger] boxes.rows()[i]),
    ensures
        r@.len() == boxes.len,
        forall|i: int| 0 <= i < r@.len() ==> #[trigger] r@[i]@ == shifted_rows(
            boxes.rows(),
            agnostic,
        )[i],
        forall|i: int|
            0 <= i < r@.len() ==> -SHIFT_LIMIT <= #[trigger] r@[i].x1 <= SHIFT_LIMIT && -SHIFT_LIMIT
                <= r@[i].y1 <= SHIFT_LIMIT && -SHIFT_LIMIT <= r@[i].x2 <= SHIFT_LIMIT
                && -SHIFT_LIMIT <= r@[i].y2 <= SHIFT_LIMIT,
{
    let n = boxes.len;
    let mut out: Vec<Candidate> = Vec::new();
    let mut i: usize = 0;
    while i < n
        invariant
            i <= n,
            n == boxes.len,
            boxes.wf(),
            forall|j: int| 0 <= j < boxes.rows().len() ==> cand_ok(#[trigger] boxes.rows()[j]),
            out@.len() == i,
            forall|j: int| 0 <= j < i ==> #[trigger] out@[j]@ == shifted_rows(
                boxes.rows(),
                agnostic,
            )[j],
            forall|j: int|
                0 <= j < i ==> -SHIFT_LIMIT <= #[trigger] out@[j].x1 <= SHIFT_LIMIT && -SHIFT_LIMIT
                    <= out@[j].y1 <= SHIFT_LIMIT && -SHIFT_LIMIT <= out@[j].x2 <= SHIFT_LIMIT
                    && -SHIFT_LIMIT <= out@[j].y2 <= SHIFT_LIMIT,
        decreases n - i,
    {
        proof {
            assert(cand_ok(boxes.rows()[i as int]));
        }
        let off: i64 = if agnostic {
            0
        } else {
            boxes.classes[i] * MAX_WH
        };
        let c = Candidate {
            x1: boxes.x1[i] + off,
            y1: boxes.y1[i] + off,
            x2: boxes.x2[i] + off,
            y2: boxes.y2[i] + off,
            score: boxes.scores[i],
            class: boxes.classes[i],
        };
        out.push(c);
        proof {
            assert(out@[i as int]@ == shift_cand(boxes.rows()[i as int], agnostic));
        }
        i = i + 1;
    }
    out
}

/// Non-maximum suppression over one image's detection set. Returns the
/// indices of the surviving rows, highest score first; of two equal scores
/// the earlier row is accepted first. Accepts at most `MAX_OUTPUT_BOXES + 1`
/// rows, matching the off-by-one boundary of the size check it preserves.
pub fn nms(
    boxes: &DetectionBoxes,
    iou_threshold: i64,
    epsilon: Option<i64>,
    agnostic: Option<bool>,
) -> (r: Vec<usize>)
    requires
        boxes.wf(),
        forall|i: int| 0 <= i < boxes.rows().len() ==> cand_ok(#[trigger] boxes.rows()[i]),
        0 <= iou_threshold <= SCALE,
        0 <= eps_value(epsilon) <= EPSILON_LIMIT,
    ensures
        idxs(r@) == nms_seq(
            boxes.rows(),
            iou_threshold as int,
            eps_value(epsilon),
            agnostic_value(agnostic),
        ),
        forall|p: int| 0 <= p < r@.len() ==> #[trigger] r@[p] < boxes.len,
{
    let eps: i64 = match epsilon {
        Some(e) => e,
        None => DEFAULT_EPSILON,
    };
    let ag: bool = match agnostic {
        Some(a) => a,
        None => false,
    };
    let n = boxes.len;
    let ghost srows = shifted_rows(boxes.rows(), ag);
    let ghost sc = row_scores(boxes.rows());
    let shifted = shift_boxes(boxes, ag);
    let areas = compute_areas(&shifted);
    let mut stack: Vec<usize> = sort_indices(&boxes.scores);
    proof {
        assert(int_scores(boxes.scores@) =~= sc);
        lemma_sort_idx_props(sc, n as int);
    }
    let ghost goal = nms_seq(boxes.rows(), iou_threshold as int, eps as int, ag);
    let mut results: Vec<usize> = Vec::new();
    proof {
        assert(idxs(results@) =~= Seq::<int>::empty());
        assert(srows.len() == n);
    }
    while stack.len() > 0 && results.len() <= MAX_OUTPUT_BOXES
        invariant
            n == boxes.len,
            boxes.wf(),
            srows.len() == n,
            shifted@.len() == n,
            areas@.len() == n,
            forall|i: int| 0 <= i < n ==> #[trigger] shifted@[i]@ == srows[i],
            forall|i: int|
                0 <= i < n ==> -SHIFT_LIMIT <= #[trigger] shifted@[i].x1 <= SHIFT_LIMIT
                    && -SHIFT_LIMIT <= shifted@[i].y1 <= SHIFT_LIMIT && -SHIFT_LIMIT
                    <= shifted@[i].x2 <= SHIFT_LIMIT && -SHIFT_LIMIT <= shifted@[i].y2
                    <= SHIFT_LIMIT,
            forall|i: int| 0 <= i < n ==> #[trigger] areas@[i] as int == area_of(srows[i]),
            forall|i: int| 0 <= i < n ==> 0 <= #[trigger] areas@[i] <= AREA_LIMIT,
            srows == shifted_rows(boxes.rows(), ag),
            forall|p: int| 0 <= p < stack@.len() ==> #[trigger] stack@[p] < n,
            forall|p: int| 0 <= p < results@.len() ==> #[trigger] results@[p] < n,
            0 <= iou_threshold <= SCALE,
            0 <= eps <= EPSILON_LIMIT,
            nms_rec(srows, idxs(stack@), idxs(results@), iou_threshold as int, eps as int)
                == goal,
        decreases stack@.len(),
    {
        let ghost pre_stack = idxs(stack@);
        let ghost pre_acc = idxs(results@);
        let popped = stack.pop();
        let cur: usize = match popped {
            Some(c) => c,
            None => {
                proof {
                    assert(false);
                }
                0
            },
        };
        results.push(cur);
        proof {
            assert(idxs(stack@) =~= pre_stack.drop_last());
            assert(pre_stack.last() == cur as int);
            assert(idxs(results@) =~= pre_acc.push(cur as int));
            reveal_with_fuel(Seq::filter, 2);
            assert(idxs(stack@).take(0) =~= Seq::<int>::empty());
            assert(keep_filter(
                srows,
                cur as int,
                Seq::<int>::empty(),
                iou_threshold as int,
                eps as int,
            ) =~= Seq::<int>::empty());
        }
        let mut kept: Vec<usize> = Vec::new();
        let mut t: usize = 0;
        while t < stack.len()
            invariant
                t <= stack@.len(),
                cur < n,
                n == boxes.len,
                boxes.wf(),
                srows.len() == n,
                shifted@.len() == n,
                areas@.len() == n,
                forall|i: int| 0 <= i < n ==> #[trigger] shifted@[i]@ == srows[i],
                forall|i: int|
                    0 <= i < n ==> -SHIFT_LIMIT <= #[trigger] shifted@[i].x1 <= SHIFT_LIMIT
                        && -SHIFT_LIMIT <= shifted@[i].y1 <= SHIFT_LIMIT && -SHIFT_LIMIT
                        <= shifted@[i].x2 <= SHIFT_LIMIT && -SHIFT_LIMIT <= shifted@[i].y2
                        <= SHIFT_LIMIT,
                forall|i: int| 0 <= i < n ==> #[trigger] areas@[i] as int == area_of(srows[i]),
            forall|i: int| 0 <= i < n ==> 0 <= #[trigger] areas@[i] <= AREA_LIMIT,
                forall|p: int| 0 <= p < stack@.len() ==> #[trigger] stack@[p] < n,
                forall|p: int| 0 <= p < kept@.len() ==> #[trigger] kept@[p] < n,
                0 <= iou_threshold <= SCALE,
                0 <= eps <= EPSILON_LIMIT,
                idxs(kept@) == keep_filter(
                    srows,
                    cur as int,
                    idxs(stack@).take(t as int),
                    iou_threshold as int,
                    eps as int,
                ),
            decreases stack@.len() - t,
        {
            let j = stack[t];
            let sup = suppressed_by(
                &shifted[cur],
                &shifted[j],
                areas[cur],
                areas[j],
                iou_threshold,
                eps,
            );
            proof {
                reveal_with_fuel(Seq::filter, 2);
                let s = idxs(stack@);
                assert(s.take(t as int + 1).drop_last() =~= s.take(t as int));
                assert(s.take(t as int + 1).last() == s[t as int]);
                assert(s[t as int] == j as int);
                assert(shifted@[cur as int]@ == srows[cur as int]);
                assert(shifted@[j as int]@ == srows[j as int]);
                assert(sup == suppress(
                    srows[cur as int],
                    srows[j as int],
                    iou_threshold as int,
                    eps as int,
                ));
                assert(keep_filter(srows, cur as int, s.take(t as int + 1), iou_threshold as int,
                    eps as int) == if !suppress(
                    srows[cur as int],
                    srows[j as int],
                    iou_threshold as int,
                    eps as int,
                ) {
                    keep_filter(srows, cur as int, s.take(t as int), iou_threshold as int,
                        eps as int).push(j as int)
                } else {
                    keep_filter(srows, cur as int, s.take(t as int), iou_threshold as int,
                        eps as int)
                });
            }
            let ghost pre_kept = idxs(kept@);
            if !sup {
                kept.push(j);
                proof {
                    assert(idxs(kept@) =~= pre_kept.push(j as int));
                }
            }
            t = t + 1;
        }
        proof {
            assert(idxs(stack@).take(stack@.len() as int) =~= idxs(stack@));
            assert(nms_rec(srows, pre_stack, pre_acc, iou_threshold as int, eps as int) == nms_rec(
                srows,
                keep_filter(
                    srows,
                    cur as int,
                    pre_stack.drop_last(),
                    iou_threshold as int,
                    eps as int,
                ),
                pre_acc.push(cur as int),
                iou_threshold as int,
                eps as int,
            ));
        }
        stack = kept;
    }
    proof {
        if idxs(stack@).len() == 0 {
            assert(nms_rec(srows, idxs(stack@), idxs(results@), iou_threshold as int, eps as int)
                == idxs(results@));
        } else {
            assert(idxs(results@).len() > MAX_OUTPUT_BOXES);
            assert(nms_rec(srows, idxs(stack@), idxs(results@), iou_threshold as int, eps as int)
                == idxs(results@));
        }
    }
    results
}

/// Areas of all shifted rows, precomputed.
fn compute_areas(shifted: &Vec<Candidate>) -> (r: Vec<i128>)
    requires
        forall|i: int|
            0 <= i < shifted@.len() ==> -SHIFT_LIMIT <= #[trigger] shifted@[i].x1 <= SHIFT_LIMIT
                && -SHIFT_LIMIT <= shifted@[i].y1 <= SHIFT_LIMIT && -SHIFT_LIMIT <= shifted@[i].x2
                <= SHIFT_LIMIT && -SHIFT_LIMIT <= shifted@[i].y2 <= SHIFT_LIMIT,
    ensures
        r@.len() == shifted@.len(),
        forall|i: int| 0 <= i < r@.len() ==> #[trigger] r@[i] as int == area_of(shifted@[i]@),
        forall|i: int| 0 <= i < r@.len() ==> 0 <= #[trigger] r@[i] <= AREA_LIMIT,
{
    let n = shifted.len();
    let mut out: Vec<i128> = Vec::new();
    let mut i: usize = 0;
    while i < n
        invariant
            i <= n,
            n == shifted@.len(),
            out@.len() == i,
            forall|j: int|
                0 <= j < shifted@.len() ==> -SHIFT_LIMIT <= #[trigger] shifted@[j].x1
                    <= SHIFT_LIMIT && -SHIFT_LIMIT <= shifted@[j].y1 <= SHIFT_LIMIT && -SHIFT_LIMIT
                    <= shifted@[j].x2 <= SHIFT_LIMIT && -SHIFT_LIMIT <= shifted@[j].y2
                    <= SHIFT_LIMIT,
            forall|j: int| 0 <= j < i ==> #[trigger] out@[j] as int == area_of(shifted@[j]@),
            forall|j: int| 0 <= j < i ==> 0 <= #[trigger] out@[j] <= AREA_LIMIT,
        decreases n - i,
    {
        let a = area_i128(&shifted[i]);
        out.push(a);
        i = i + 1;
    }
    out
}

} // verus!

verus! {

use crate::sorting::key_lt;
use crate::sorting::lemma_sorted_unique;
use crate::sorting::sorted_stack;

/// Every index the filter keeps comes from the work list, is not suppressed
/// by the accepted box, and the kept list is no longer than the work list.
proof fn lemma_keep_filter_props(
    shifted: Seq<CandModel>,
    cur: int,
    s: Seq<int>,
    thr: int,
    eps: int,
)
    ensures
        keep_filter(shifted, cur, s, thr, eps).len() <= s.len(),
        forall|p: int|
            0 <= p < keep_filter(shifted, cur, s, thr, eps).len() ==> exists|q: int|
                0 <= q < s.len() && s[q] == #[trigger] keep_filter(shifted, cur, s, thr, eps)[p],
        forall|p: int|
            0 <= p < keep_filter(shifted, cur, s, thr, eps).len() ==> !suppress(
                shifted[cur],
                shifted[#[trigger] keep_filter(shifted, cur, s, thr, eps)[p]],
                thr,
                eps,
            ),
    decreases s.len(),
{
    reveal_with_fuel(Seq::filter, 2);
    let out = keep_filter(shifted, cur, s, thr, eps);
    if s.len() == 0 {
    } else {
        let head = s.drop_last();
        lemma_keep_filter_props(shifted, cur, head, thr, eps);
        let inner = keep_filter(shifted, cur, head, thr, eps);
        assert forall|p: int| 0 <= p < out.len() implies exists|q: int|
            0 <= q < s.len() && s[q] == #[trigger] out[p] by {
            if p < inner.len() {
                assert(out[p] == inner[p]);
                let q = choose|q: int| 0 <= q < head.len() && head[q] == inner[p];
                assert(s[q] == out[p]);
            } else {
                assert(out[p] == s.last());
                assert(s[s.len() - 1] == out[p]);
            }
        }
    }
}

/// Filtering a sorted work list keeps it sorted.
proof fn lemma_keep_filter_sorted(
    scores: Seq<int>,
    shifted: Seq<CandModel>,
    cur: int,
    s: Seq<int>,
    thr: int,
    eps: int,
)
    requires
        sorted_stack(scores, s),
    ensures
        sorted_stack(scores, keep_filter(shifted, cur, s, thr, eps)),
    decreases s.len(),
{
    reveal_with_fuel(Seq::filter, 2);
    let out = keep_filter(shifted, cur, s, thr, eps);
    if s.len() > 0 {
        let head = s.drop_last();
        lemma_keep_filter_sorted(scores, shifted, cur, head, thr, eps);
        lemma_keep_filter_props(shifted, cur, head, thr, eps);
        let inner = keep_filter(shifted, cur, head, thr, eps);
        assert forall|p: int, q: int| 0 <= p < q < out.len() implies key_lt(
            scores,
            #[trigger] out[p],
            #[trigger] out[q],
        ) by {
            if q < inner.len() {
                assert(key_lt(scores, inner[p], inner[q]));
            } else if out[q] == s.last() && q == out.len() - 1 && out.len() == inner.len() + 1 {
                let w = choose|w: int| 0 <= w < head.len() && head[w] == inner[p];
                assert(key_lt(scores, s[w], s.last()));
            }
        }
    }
}

/// A filter that rejects nothing returns the work list unchanged.
proof fn lemma_keep_filter_all(
    shifted: Seq<CandModel>,
    cur: int,
    s: Seq<int>,
    thr: int,
    eps: int,
)
    requires
        forall|p: int|
            0 <= p < s.len() ==> !suppress(shifted[cur], shifted[#[trigger] s[p]], thr, eps),
    ensures
        keep_filter(shifted, cur, s, thr, eps) == s,
    decreases s.len(),
{
    reveal_with_fuel(Seq::filter, 2);
    if s.len() > 0 {
        lemma_keep_filter_all(shifted, cur, s.drop_last(), thr, eps);
        assert(!suppress(shifted[cur], shifted[s[s.len() - 1]], thr, eps));
        assert(keep_filter(shifted, cur, s, thr, eps) =~= s.drop_last().push(s.last()));
        assert(s.drop_last().push(s.last()) =~= s);
    }
}

/// What a greedy suppression run yields, given a sorted work list whose
/// entries all lie below the already accepted ones: the result is accepted in
/// strictly descending score order, no accepted box suppresses another, and
/// at most one more than `MAX_OUTPUT_BOXES` boxes come out.
proof fn lemma_nms_rec_props(
    shifted: Seq<CandModel>,
    scores: Seq<int>,
    stack: Seq<int>,
    acc: Seq<int>,
    thr: int,
    eps: int,
    n: int,
)
    requires
        shifted.len() == n,
        scores.len() == n,
        forall|i: int| 0 <= i < n ==> scores[i] == (#[trigger] shifted[i]).score,
        sorted_stack(scores, stack),
        forall|p: int| 0 <= p < stack.len() ==> 0 <= #[trigger] stack[p] < n,
        forall|p: int| 0 <= p < acc.len() ==> 0 <= #[trigger] acc[p] < n,
        forall|p: int, q: int| 0 <= p < q < acc.len() ==> key_lt(scores, #[trigger] acc[q], #[trigger] acc[p]),
        forall|p: int, q: int|
            0 <= p < stack.len() && 0 <= q < acc.len() ==> key_lt(
                scores,
                #[trigger] stack[p],
                #[trigger] acc[q],
            ),
        forall|p: int, q: int|
            0 <= p < q < acc.len() ==> !suppress(
                shifted[#[trigger] acc[p]],
                shifted[#[trigger] acc[q]],
                thr,
                eps,
            ),
        forall|p: int, q: int|
            0 <= p < stack.len() && 0 <= q < acc.len() ==> !suppress(
                shifted[#[trigger] acc[q]],
                shifted[#[trigger] stack[p]],
                thr,
                eps,
            ),
    ensures
        forall|p: int|
            0 <= p < nms_rec(shifted, stack, acc, thr, eps).len() ==> 0 <= #[trigger] nms_rec(
                shifted,
                stack,
                acc,
                thr,
                eps,
            )[p] < n,
        forall|p: int, q: int|
            0 <= p < q < nms_rec(shifted, stack, acc, thr, eps).len() ==> key_lt(
                scores,
                #[trigger] nms_rec(shifted, stack, acc, thr, eps)[q],
                #[trigger] nms_rec(shifted, stack, acc, thr, eps)[p],
            ),
        forall|p: int, q: int|
            0 <= p < q < nms_rec(shifted, stack, acc, thr, eps).len() ==> !suppress(
                shifted[#[trigger] nms_rec(shifted, stack, acc, thr, eps)[p]],
                shifted[#[trigger] nms_rec(shifted, stack, acc, thr, eps)[q]],
                thr,
                eps,
            ),
        acc.len() <= MAX_OUTPUT_BOXES + 1 ==> nms_rec(shifted, stack, acc, thr, eps).len()
            <= MAX_OUTPUT_BOXES + 1,
    decreases stack.len(),
{
    if stack.len() == 0 {
    } else if acc.len() > MAX_OUTPUT_BOXES {
    } else {
        let cur = stack.last();
        let head = stack.drop_last();
        let next = keep_filter(shifted, cur, head, thr, eps);
        let acc2 = acc.push(cur);
        lemma_keep_filter_props(shifted, cur, head, thr, eps);
        lemma_keep_filter_sorted(scores, shifted, cur, head, thr, eps);
        assert forall|p: int| 0 <= p < next.len() implies 0 <= #[trigger] next[p] < n by {
            let q = choose|q: int| 0 <= q < head.len() && head[q] == next[p];
            assert(0 <= stack[q] < n);
        }
        assert forall|p: int, q: int|
            0 <= p < next.len() && 0 <= q < acc2.len() implies key_lt(
            scores,
            #[trigger] next[p],
            #[trigger] acc2[q],
        ) by {
            let w = choose|w: int| 0 <= w < head.len() && head[w] == next[p];
            assert(head[w] == stack[w]);
            assert(key_lt(scores, stack[w], stack[stack.len() - 1]));
            if q < acc.len() {
                assert(key_lt(scores, stack[w], acc[q]));
            }
        }
        assert forall|p: int, q: int|
            0 <= p < next.len() && 0 <= q < acc2.len() implies !suppress(
            shifted[#[trigger] acc2[q]],
            shifted[#[trigger] next[p]],
            thr,
            eps,
        ) by {
            let w = choose|w: int| 0 <= w < head.len() && head[w] == next[p];
            if q < acc.len() {
                assert(!suppress(shifted[acc[q]], shifted[stack[w]], thr, eps));
            } else {
                assert(acc2[q] == cur);
                assert(!suppress(shifted[cur], shifted[next[p]], thr, eps));
            }
        }
        assert forall|p: int, q: int| 0 <= p < q < acc2.len() implies !suppress(
            shifted[#[trigger] acc2[p]],
            shifted[#[trigger] acc2[q]],
            thr,
            eps,
        ) by {
            if q == acc2.len() - 1 {
                assert(acc2[q] == cur);
                assert(cur == stack[stack.len() - 1]);
                assert(!suppress(shifted[acc[p]], shifted[cur], thr, eps));
            }
        }
        assert forall|p: int, q: int| 0 <= p < q < acc2.len() implies key_lt(
            scores,
            #[trigger] acc2[q],
            #[trigger] acc2[p],
        ) by {
            if q == acc2.len() - 1 {
                assert(cur == stack[stack.len() - 1]);
                assert(key_lt(scores, cur, acc[p]));
            }
        }
        lemma_nms_rec_props(shifted, scores, next, acc2, thr, eps, n);
    }
}

/// Indices `k .. m` as a pop-from-the-back work list: `[m-1, m-2, .., k]`.
pub open spec fn desc_range(m: int, k: int) -> Seq<int> {
    Seq::new((m - k) as nat, |p: int| m - 1 - p)
}

/// Indices `0 .. k` in order.
pub open spec fn range_seq(k: int) -> Seq<int> {
    Seq::new(k as nat, |p: int| p)
}

/// A suppression run over boxes none of which suppresses another accepts all
/// of them, in work-list order.
proof fn lemma_nms_rec_identity(shifted: Seq<CandModel>, m: int, k: int, thr: int, eps: int)
    requires
        0 <= k <= m <= MAX_OUTPUT_BOXES + 1,
        shifted.len() == m,
        forall|p: int, q: int|
            0 <= p < m && 0 <= q < m && p != q ==> !suppress(
                #[trigger] shifted[p],
                #[trigger] shifted[q],
                thr,
                eps,
            ),
    ensures
        nms_rec(shifted, desc_range(m, k), range_seq(k), thr, eps) == range_seq(m),
    decreases m - k,
{
    let stack = desc_range(m, k);
    let acc = range_seq(k);
    if k == m {
        assert(stack.len() == 0);
        assert(acc =~= range_seq(m));
    } else {
        assert(stack.len() == m - k);
        assert(acc.len() == k);
        assert(k <= MAX_OUTPUT_BOXES);
        let cur = stack.last();
        assert(cur == k);
        let head = stack.drop_last();
        assert forall|p: int|
            0 <= p < head.len() implies !suppress(shifted[cur], shifted[#[trigger] head[p]], thr, eps) by {
            assert(head[p] == m - 1 - p);
            assert(head[p] != k);
        }
        lemma_keep_filter_all(shifted, cur, head, thr, eps);
        assert(head =~= desc_range(m, k + 1));
        assert(acc.push(cur) =~= range_seq(k + 1));
        lemma_nms_rec_identity(shifted, m, k + 1, thr, eps);
    }
}

/// Suppression is idempotent on its own output: gather the accepted rows of
/// one run (in acceptance order) into a new detection set and run the
/// suppressor again with the same thresholds, and every row is accepted
/// again, in the same order, with nothing further suppressed.
pub proof fn lemma_nms_idempotent(rows: Seq<CandModel>, thr: int, eps: int, agnostic: bool)
    ensures
        ({
            let picked = nms_seq(rows, thr, eps, agnostic);
            let kept = picked.map_values(|i: int| rows[i]);
            nms_seq(kept, thr, eps, agnostic) == range_seq(picked.len() as int)
        }),
{
    let n = rows.len() as int;
    let shifted = shifted_rows(rows, agnostic);
    let scores = row_scores(rows);
    let stack0 = sort_idx(scores, n);
    lemma_sort_idx_props(scores, n);
    assert forall|i: int| 0 <= i < n implies scores[i] == (#[trigger] shifted[i]).score by {
        assert(shifted[i] == shift_cand(rows[i], agnostic));
    }
    assert(Seq::<int>::empty().len() == 0);
    lemma_nms_rec_props(shifted, scores, stack0, Seq::empty(), thr, eps, n);
    let picked = nms_seq(rows, thr, eps, agnostic);
    assert(picked == nms_rec(shifted, stack0, Seq::empty(), thr, eps));
    let m = picked.len() as int;
    assert(m <= MAX_OUTPUT_BOXES + 1);
    let kept = picked.map_values(|i: int| rows[i]);
    let kscores = row_scores(kept);
    let kshifted = shifted_rows(kept, agnostic);
    assert(kept.len() == m);
    assert forall|p: int| 0 <= p < m implies #[trigger] kshifted[p] == shifted[picked[p]] by {
        assert(kept[p] == rows[picked[p]]);
        assert(kshifted[p] == shift_cand(kept[p], agnostic));
        assert(shifted[picked[p]] == shift_cand(rows[picked[p]], agnostic));
    }
    assert forall|p: int, q: int|
        0 <= p < m && 0 <= q < m && p != q implies !suppress(
        #[trigger] kshifted[p],
        #[trigger] kshifted[q],
        thr,
        eps,
    ) by {
        if p < q {
            assert(!suppress(shifted[picked[p]], shifted[picked[q]], thr, eps));
        } else {
            assert(!suppress(shifted[picked[q]], shifted[picked[p]], thr, eps));
            lemma_iou_symmetric(shifted[picked[q]], shifted[picked[p]], thr, eps);
        }
    }
    // the re-run work list is exactly [m-1, .., 0]
    assert forall|p: int| 0 <= p < m implies #[trigger] kscores[p] == scores[picked[p]] by {
        assert(kept[p] == rows[picked[p]]);
    }
    let dr = desc_range(m, 0);
    assert(dr.len() == m);
    assert forall|p: int, q: int| 0 <= p < q < dr.len() implies key_lt(
        kscores,
        #[trigger] dr[p],
        #[trigger] dr[q],
    ) by {
        let i = m - 1 - p;
        let j = m - 1 - q;
        assert(dr[p] == i && dr[q] == j && j < i);
        assert(key_lt(scores, picked[i], picked[j]));
        assert(kscores[i] == scores[picked[i]] && kscores[j] == scores[picked[j]]);
    }
    let ksort = sort_idx(kscores, m);
    lemma_sort_idx_props(kscores, m);
    assert forall|x: int| ksort.contains(x) <==> dr.contains(x) by {
        if ksort.contains(x) {
            let w = choose|w: int| 0 <= w < ksort.len() && ksort[w] == x;
            assert(0 <= x < m);
            assert(dr[m - 1 - x] == x);
        }
        if dr.contains(x) {
            let w = choose|w: int| 0 <= w < dr.len() && dr[w] == x;
            assert(0 <= x < m);
            assert(ksort.contains(x));
        }
    }
    lemma_sorted_unique(kscores, ksort, dr);
    lemma_nms_rec_identity(kshifted, m, 0, thr, eps);
    assert(range_seq(0) =~= Seq::<int>::empty());
    assert(nms_seq(kept, thr, eps, agnostic) == nms_rec(kshifted, ksort, Seq::empty(), thr, eps));
    assert(nms_seq(kept, thr, eps, agnostic) == range_seq(m));
}

} // verus!

verus! {

/// The accepted indices come out highest score first: each points at a row,
/// none repeats, acceptance order never increases in score, no accepted box
/// suppresses another, and at most `MAX_OUTPUT_BOXES + 1` are accepted.
pub proof fn lemma_nms_accepts_best_first(rows: Seq<CandModel>, thr: int, eps: int, agnostic: bool)
    ensures
        ({
            let picked = nms_seq(rows, thr, eps, agnostic);
            &&& (forall|p: int| 0 <= p < picked.len() ==> 0 <= #[trigger] picked[p] < rows.len())
            &&& (forall|p: int, q: int|
                0 <= p < q < picked.len() ==> #[trigger] picked[p] != #[trigger] picked[q])
            &&& (forall|p: int, q: int|
                0 <= p < q < picked.len() ==> rows[#[trigger] picked[q]].score <= rows[
                    #[trigger] picked[p]
                ].score)
            &&& (forall|p: int, q: int|
                0 <= p < q < picked.len() ==> !suppress(
                    shift_cand(rows[#[trigger] picked[p]], agnostic),
                    shift_cand(rows[#[trigger] picked[q]], agnostic),
                    thr,
                    eps,
                ))
            &&& picked.len() <= MAX_OUTPUT_BOXES + 1
        }),
{
    let n = rows.len() as int;
    let shifted = shifted_rows(rows, agnostic);
    let scores = row_scores(rows);
    let stack0 = sort_idx(scores, n);
    lemma_sort_idx_props(scores, n);
    assert forall|i: int| 0 <= i < n implies scores[i] == (#[trigger] shifted[i]).score by {
        assert(shifted[i] == shift_cand(rows[i], agnostic));
    }
    lemma_nms_rec_props(shifted, scores, stack0, Seq::empty(), thr, eps, n);
    let picked = nms_seq(rows, thr, eps, agnostic);
    assert(picked == nms_rec(shifted, stack0, Seq::empty(), thr, eps));
    assert forall|p: int, q: int| 0 <= p < q < picked.len() implies rows[#[trigger] picked[q]].score
        <= rows[#[trigger] picked[p]].score by {
        assert(key_lt(scores, picked[q], picked[p]));
        assert(scores[picked[p]] == rows[picked[p]].score);
        assert(scores[picked[q]] == rows[picked[q]].score);
    }
    assert forall|p: int, q: int| 0 <= p < q < picked.len() implies !suppress(
        shift_cand(rows[#[trigger] picked[p]], agnostic),
        shift_cand(rows[#[trigger] picked[q]], agnostic),
        thr,
        eps,
    ) by {
        assert(!suppress(shifted[picked[p]], shifted[picked[q]], thr, eps));
        assert(shifted[picked[p]] == shift_cand(rows[picked[p]], agnostic));
        assert(shifted[picked[q]] == shift_cand(rows[picked[q]], agnostic));
    }
    assert forall|p: int, q: int| 0 <= p < q < picked.len() implies #[trigger] picked[p]
        != #[trigger] picked[q] by {
        assert(key_lt(scores, picked[q], picked[p]));
    }
}

} // verus!
