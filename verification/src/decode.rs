//! Decoding raw detection-head tensors into image-space candidate boxes, and
//! the full post-processing pipeline.
//!
//! A raw tensor holds, per image, anchor slot and grid cell, the channels
//! `[box_cx, box_cy, box_w, box_h, objectness, class_0 .. class_{C-1}]`. A
//! cell is skipped when its objectness is at or below the confidence
//! threshold; otherwise one candidate is emitted for every class whose
//! confidence times objectness strictly exceeds the threshold. Decoding stops
//! for an image once `MAX_DECODE_BOXES` candidates have been gathered.

use vstd::prelude::*;

verus! {

use crate::boxes::CandModel;
use crate::boxes::DetectionBoxes;
use crate::boxes::PostprocessError;
use crate::boxes::cand_ok;
use crate::boxes::centered_box_to_ltrb_bulk;
use crate::boxes::zip_rows;
use crate::fixed::ANCHOR_LIMIT;
use crate::fixed::CLASS_LIMIT;
use crate::fixed::GRID_LIMIT;
use crate::fixed::HALF_UNIT;
use crate::fixed::MAX_DECODE_BOXES;
use crate::fixed::SCALE;
use crate::fixed::STRIDE_LIMIT;
use crate::fixed::VAL_LIMIT;
use crate::fixed::fp_mul;
use crate::fixed::fp_mul_spec;
use crate::fixed::half_spec;
use crate::fixed::lemma_fp_mul_bound;

/// Bound on a decoded center coordinate.
pub const CENTER_LIMIT: i64 = 20_000_000_000_000;

/// Bound on a decoded box extent.
pub const EXTENT_LIMIT: i64 = 400_000_000_000_000;

/// Bound on an anchor extent after pre-scaling by the stride.
pub const AXY_LIMIT: i64 = 1_000_000_000_000;

/// Bound on the grid-relative center term before the stride is applied.
pub const INNER_LIMIT: i64 = 101_000_000_000;

/// The inputs [`RawTensor::new`] accepts: the shape product equals the
/// buffer length, every dimension is within `GRID_LIMIT`, and every value is
/// within `VAL_LIMIT`.
pub open spec fn tensor_args_ok(
    data: Seq<i64>,
    batch: usize,
    anchors: usize,
    grid_h: usize,
    grid_w: usize,
    channels: usize,
) -> bool {
    &&& batch <= GRID_LIMIT
    &&& anchors <= GRID_LIMIT
    &&& grid_h <= GRID_LIMIT
    &&& grid_w <= GRID_LIMIT
    &&& channels <= GRID_LIMIT
    &&& data.len() == batch * anchors * grid_h * grid_w * channels
    &&& forall|i: int| 0 <= i < data.len() ==> -VAL_LIMIT <= #[trigger] data[i] <= VAL_LIMIT
}

/// The configuration [`RustPostprocessor::new`] accepts: a trailing anchor
/// dimension of two, table and stride lengths matching the shape, and all
/// extents and strides within limits.
pub open spec fn config_args_ok(
    anchors: Seq<i64>,
    num_scales: usize,
    num_anchors: usize,
    last_dim: usize,
    strides: Seq<i64>,
) -> bool {
    &&& last_dim == 2
    &&& num_scales <= GRID_LIMIT
    &&& num_anchors <= GRID_LIMIT
    &&& anchors.len() == num_scales * num_anchors * 2
    &&& strides.len() == num_scales
    &&& forall|i: int| 0 <= i < anchors.len() ==> -ANCHOR_LIMIT <= #[trigger] anchors[i] <= ANCHOR_LIMIT
    &&& forall|i: int| 0 <= i < strides.len() ==> -STRIDE_LIMIT <= #[trigger] strides[i] <= STRIDE_LIMIT
}

/// One detection scale's raw tensor: a flat buffer with the logical shape
/// `[batch, anchors, grid_h, grid_w, channels]`. Values are fixed-point and
/// bounded by `VAL_LIMIT`; the shape always matches the buffer length.
#[derive(Clone, Debug)]
pub struct RawTensor {
    pub data: Vec<i64>,
    pub batch: usize,
    pub anchors: usize,
    pub grid_h: usize,
    pub grid_w: usize,
    pub channels: usize,
}

impl RawTensor {
    /// Shape consistent with the buffer, dimensions within limits, values
    /// bounded.
    pub open spec fn wf(&self) -> bool {
        &&& self.data@.len() == self.batch * self.anchors * self.grid_h * self.grid_w
            * self.channels
        &&& self.batch <= GRID_LIMIT
        &&& self.anchors <= GRID_LIMIT
        &&& self.grid_h <= GRID_LIMIT
        &&& self.grid_w <= GRID_LIMIT
        &&& self.channels <= GRID_LIMIT
        &&& forall|i: int|
            0 <= i < self.data@.len() ==> -VAL_LIMIT <= #[trigger] self.data@[i] <= VAL_LIMIT
    }

    pub open spec fn spec_batch(&self) -> int {
        self.batch as int
    }

    pub open spec fn spec_anchors(&self) -> int {
        self.anchors as int
    }

    pub open spec fn spec_grid_h(&self) -> int {
        self.grid_h as int
    }

    pub open spec fn spec_grid_w(&self) -> int {
        self.grid_w as int
    }

    pub open spec fn spec_channels(&self) -> int {
        self.channels as int
    }

    /// Position of channel `c` of cell `(b, a, y, x)` in the flat buffer.
    pub open spec fn flat_index(&self, b: int, a: int, y: int, x: int, c: int) -> int {
        (((b * self.anchors + a) * self.grid_h + y) * self.grid_w + x) * self.channels + c
    }

    /// The value of channel `c` of cell `(b, a, y, x)`.
    pub open spec fn at_spec(&self, b: int, a: int, y: int, x: int, c: int) -> int {
        self.data@[self.flat_index(b, a, y, x, c)] as int
    }

    /// Builds a tensor from a flat buffer and its shape. Rejected exactly
    /// when the arguments break [`tensor_args_ok`]: the shape product must
    /// equal the buffer length, every dimension must be within `GRID_LIMIT`,
    /// and every value within `VAL_LIMIT`.
    pub fn new(
        data: Vec<i64>,
        batch: usize,
        anchors: usize,
        grid_h: usize,
        grid_w: usize,
        channels: usize,
    ) -> (r: Result<Self, PostprocessError>)
        ensures
            match r {
                Ok(t) => {
                    &&& tensor_args_ok(data@, batch, anchors, grid_h, grid_w, channels)
                    &&& t.wf()
                    &&& t.batch == batch && t.anchors == anchors && t.grid_h == grid_h && t.grid_w
                        == grid_w && t.channels == channels
                    &&& t.data@ == data@
                },
                Err(e) => {
                    &&& e == PostprocessError::InvalidInput
                    &&& !tensor_args_ok(data@, batch, anchors, grid_h, grid_w, channels)
                },
            },
    {
        if batch > GRID_LIMIT || anchors > GRID_LIMIT || grid_h > GRID_LIMIT || grid_w > GRID_LIMIT
            || channels > GRID_LIMIT {
            return Err(PostprocessError::InvalidInput);
        }
        proof {
            assert((batch * anchors) <= GRID_LIMIT * GRID_LIMIT && (batch * anchors * grid_h) <= (
            GRID_LIMIT * GRID_LIMIT) * GRID_LIMIT && (batch * anchors * grid_h * grid_w) <= ((
            GRID_LIMIT * GRID_LIMIT) * GRID_LIMIT) * GRID_LIMIT && (batch * anchors * grid_h
                * grid_w * channels) <= (((GRID_LIMIT * GRID_LIMIT) * GRID_LIMIT) * GRID_LIMIT)
                * GRID_LIMIT) by (nonlinear_arith)
                requires
                    batch <= GRID_LIMIT,
                    anchors <= GRID_LIMIT,
                    grid_h <= GRID_LIMIT,
                    grid_w <= GRID_LIMIT,
                    channels <= GRID_LIMIT,
            ;
        }
        let p: u128 = (batch as u128) * (anchors as u128) * (grid_h as u128) * (grid_w as u128) * (
        channels as u128);
        proof {
            assert(p as int == batch * anchors * grid_h * grid_w * channels);
        }
        if p != data.len() as u128 {
            return Err(PostprocessError::InvalidInput);
        }
        let mut i: usize = 0;
        let n = data.len();
        while i < n
            invariant
                i <= n,
                n == data@.len(),
                forall|j: int| 0 <= j < i ==> -VAL_LIMIT <= #[trigger] data@[j] <= VAL_LIMIT,
            decreases n - i,
        {
            if data[i] > VAL_LIMIT || data[i] < -VAL_LIMIT {
                proof {
                    assert(!(-VAL_LIMIT <= data@[i as int] <= VAL_LIMIT));
                }
                return Err(PostprocessError::InvalidInput);
            }
            i = i + 1;
        }
        Ok(RawTensor { data, batch, anchors, grid_h, grid_w, channels })
    }

    /// Reads channel `c` of cell `(b, a, y, x)`.
    fn at(&self, b: usize, a: usize, y: usize, x: usize, c: usize) -> (r: i64)
        requires
            self.wf(),
            b < self.batch,
            a < self.anchors,
            y < self.grid_h,
            x < self.grid_w,
            c < self.channels,
        ensures
            r as int == self.at_spec(b as int, a as int, y as int, x as int, c as int),
            -VAL_LIMIT <= r <= VAL_LIMIT,
    {
        let dl = self.data.len();
        proof {
            lemma_flat_in_range(
                self,
                b as int,
                a as int,
                y as int,
                x as int,
                c as int,
            );
        }
        let i1: usize = b * self.anchors + a;
        let i2: usize = i1 * self.grid_h + y;
        let i3: usize = i2 * self.grid_w + x;
        let i4: usize = i3 * self.channels + c;
        self.data[i4]
    }
}

/// A flat cell index stays strictly below the full shape product, and so do
/// all its intermediate terms.
proof fn lemma_flatten_step(i: int, im: int, j: int, jm: int)
    requires
        0 <= i < im,
        0 <= j < jm,
    ensures
        0 <= i * jm + j < im * jm,
    decreases 0int,
{
    assert(0 <= i * jm + j < im * jm) by (nonlinear_arith)
        requires
            0 <= i < im,
            0 <= j < jm,
    ;
}

/// The flat index of an in-range cell is in range for the buffer, and every
/// intermediate product fits in a machine word.
proof fn lemma_flat_in_range(t: &RawTensor, b: int, a: int, y: int, x: int, c: int)
    requires
        t.wf(),
        0 <= b < t.batch,
        0 <= a < t.anchors,
        0 <= y < t.grid_h,
        0 <= x < t.grid_w,
        0 <= c < t.channels,
    ensures
        0 <= t.flat_index(b, a, y, x, c) < t.data@.len(),
        b * t.anchors + a < t.batch * t.anchors,
        (b * t.anchors + a) * t.grid_h + y < t.batch * t.anchors * t.grid_h,
        ((b * t.anchors + a) * t.grid_h + y) * t.grid_w + x < t.batch * t.anchors * t.grid_h
            * t.grid_w,
        t.batch * t.anchors * t.grid_h * t.grid_w <= t.data@.len(),
        t.batch * t.anchors * t.grid_h <= t.data@.len(),
        t.batch * t.anchors <= t.data@.len(),
{
    let d1 = b * t.anchors + a;
    let m1 = t.batch * t.anchors;
    lemma_flatten_step(b, t.batch as int, a, t.anchors as int);
    let d2 = d1 * t.grid_h + y;
    let m2 = m1 * t.grid_h;
    lemma_flatten_step(d1, m1, y, t.grid_h as int);
    let d3 = d2 * t.grid_w + x;
    let m3 = m2 * t.grid_w;
    lemma_flatten_step(d2, m2, x, t.grid_w as int);
    let d4 = d3 * t.channels + c;
    let m4 = m3 * t.channels;
    lemma_flatten_step(d3, m3, c, t.channels as int);
    assert(m1 <= m4 && m2 <= m4 && m3 <= m4) by (nonlinear_arith)
        requires
            m2 == m1 * t.grid_h,
            m3 == m2 * t.grid_w,
            m4 == m3 * t.channels,
            0 < t.grid_h,
            0 < t.grid_w,
            0 < t.channels,
            0 <= m1,
    ;
}

/// The decoded candidate for class `c` of cell `(b, a, y, x)`: the anchor and
/// stride formula applied to the cell's channels, converted to corner form.
pub open spec fn decoded_cand(
    t: RawTensor,
    stride: int,
    ax: int,
    ay: int,
    b: int,
    a: int,
    y: int,
    x: int,
    c: int,
) -> CandModel {
    let bx = t.at_spec(b, a, y, x, 0);
    let by = t.at_spec(b, a, y, x, 1);
    let bw = t.at_spec(b, a, y, x, 2);
    let bh = t.at_spec(b, a, y, x, 3);
    let obj = t.at_spec(b, a, y, x, 4);
    let conf = t.at_spec(b, a, y, x, 5 + c);
    let cy = fp_mul_spec(2 * by - (HALF_UNIT as int) + y * (SCALE as int), stride);
    let cx = fp_mul_spec(2 * bx - (HALF_UNIT as int) + x * (SCALE as int), stride);
    let h = 4 * fp_mul_spec(fp_mul_spec(bh, bh), ay);
    let w = 4 * fp_mul_spec(fp_mul_spec(bw, bw), ax);
    CandModel {
        x1: cx - half_spec(w),
        y1: cy - half_spec(h),
        x2: cx + half_spec(w),
        y2: cy + half_spec(h),
        score: fp_mul_spec(conf, obj),
        class: c,
    }
}

/// The candidates of classes `0 .. c_upto` of one grid cell: none when the
/// cell's objectness is at or below the threshold, otherwise one per class
/// whose confidence times objectness strictly exceeds the threshold.
pub open spec fn cell_take(
    t: RawTensor,
    thr: int,
    stride: int,
    ax: int,
    ay: int,
    b: int,
    a: int,
    y: int,
    x: int,
    c_upto: int,
) -> Seq<CandModel>
    decreases c_upto,
{
    if c_upto <= 0 {
        Seq::empty()
    } else {
        let pre = cell_take(t, thr, stride, ax, ay, b, a, y, x, c_upto - 1);
        let c = c_upto - 1;
        if t.at_spec(b, a, y, x, 4) > thr && fp_mul_spec(
            t.at_spec(b, a, y, x, 5 + c),
            t.at_spec(b, a, y, x, 4),
        ) > thr {
            pre.push(decoded_cand(t, stride, ax, ay, b, a, y, x, c))
        } else {
            pre
        }
    }
}

/// The candidates of grid columns `0 .. x_upto` of one grid row.
pub open spec fn row_take(
    t: RawTensor,
    thr: int,
    stride: int,
    ax: int,
    ay: int,
    b: int,
    a: int,
    y: int,
    x_upto: int,
) -> Seq<CandModel>
    decreases x_upto,
{
    if x_upto <= 0 {
        Seq::empty()
    } else {
        row_take(t, thr, stride, ax, ay, b, a, y, x_upto - 1) + cell_take(
            t,
            thr,
            stride,
            ax,
            ay,
            b,
            a,
            y,
            x_upto - 1,
            t.spec_channels() - 5,
        )
    }
}

/// The candidates of grid rows `0 .. y_upto` of one anchor slot.
pub open spec fn anchor_take(
    t: RawTensor,
    thr: int,
    stride: int,
    ax: int,
    ay: int,
    b: int,
    a: int,
    y_upto: int,
) -> Seq<CandModel>
    decreases y_upto,
{
    if y_upto <= 0 {
        Seq::empty()
    } else {
        anchor_take(t, thr, stride, ax, ay, b, a, y_upto - 1) + row_take(
            t,
            thr,
            stride,
            ax,
            ay,
            b,
            a,
            y_upto - 1,
            t.spec_grid_w(),
        )
    }
}

/// A postprocessor: the anchor table (flattened `[scale][anchor][2]`
/// width-height pairs) and one stride per scale, fixed at construction.
#[derive(Clone, Debug)]
pub struct RustPostprocessor {
    pub anchors: Vec<i64>,
    pub num_scales: usize,
    pub num_anchors: usize,
    pub strides: Vec<i64>,
}

impl RustPostprocessor {
    /// Table sizes agree and all extents and strides are within limits.
    pub open spec fn wf(&self) -> bool {
        &&& self.anchors@.len() == self.num_scales * self.num_anchors * 2
        &&& self.strides@.len() == self.num_scales
        &&& self.num_scales <= GRID_LIMIT
        &&& self.num_anchors <= GRID_LIMIT
        &&& forall|i: int|
            0 <= i < self.anchors@.len() ==> -ANCHOR_LIMIT <= #[trigger] self.anchors@[i]
                <= ANCHOR_LIMIT
        &&& forall|i: int|
            0 <= i < self.strides@.len() ==> -STRIDE_LIMIT <= #[trigger] self.strides@[i]
                <= STRIDE_LIMIT
    }

    /// The anchor width of slot `a` of scale `s`.
    pub open spec fn anchor_w(&self, s: int, a: int) -> int {
        self.anchors@[(s * self.num_anchors + a) * 2] as int
    }

    /// The anchor height of slot `a` of scale `s`.
    pub open spec fn anchor_h(&self, s: int, a: int) -> int {
        self.anchors@[(s * self.num_anchors + a) * 2 + 1] as int
    }

    /// The stride of scale `s`.
    pub open spec fn stride_at(&self, s: int) -> int {
        self.strides@[s] as int
    }

    /// Builds a postprocessor from a flattened anchor table of shape
    /// `[num_scales, num_anchors, last_dim]` and a stride list. Rejected
    /// exactly when the arguments break [`config_args_ok`]: the trailing
    /// dimension must be two, the table and stride lengths must match the
    /// shape, and all extents and strides must be within limits.
    pub fn new(
        anchors: Vec<i64>,
        num_scales: usize,
        num_anchors: usize,
        last_dim: usize,
        strides: Vec<i64>,
    ) -> (r: Result<Self, PostprocessError>)
        ensures
            match r {
                Ok(p) => {
                    &&& config_args_ok(anchors@, num_scales, num_anchors, last_dim, strides@)
                    &&& p.wf()
                    &&& last_dim == 2
                    &&& p.anchors@ == anchors@ && p.strides@ == strides@ && p.num_scales
                        == num_scales && p.num_anchors == num_anchors
                },
                Err(e) => {
                    &&& e == PostprocessError::InvalidConfig
                    &&& !config_args_ok(anchors@, num_scales, num_anchors, last_dim, strides@)
                },
            },
    {
        if last_dim != 2 || num_scales > GRID_LIMIT || num_anchors > GRID_LIMIT {
            return Err(PostprocessError::InvalidConfig);
        }
        proof {
            assert(num_scales * num_anchors <= GRID_LIMIT * GRID_LIMIT && num_scales * num_anchors
                * 2 <= (GRID_LIMIT * GRID_LIMIT) * 2) by (nonlinear_arith)
                requires
                    num_scales <= GRID_LIMIT,
                    num_anchors <= GRID_LIMIT,
            ;
        }
        let table: u128 = (num_scales as u128) * (num_anchors as u128) * 2;
        proof {
            assert(table as int == num_scales * num_anchors * 2);
        }
        if anchors.len() as u128 != table || strides.len() != num_scales {
            return Err(PostprocessError::InvalidConfig);
        }
        let mut i: usize = 0;
        let n = anchors.len();
        while i < n
            invariant
                i <= n,
                n == anchors@.len(),
                forall|j: int| 0 <= j < i ==> -ANCHOR_LIMIT <= #[trigger] anchors@[j] <= ANCHOR_LIMIT,
            decreases n - i,
        {
            if anchors[i] > ANCHOR_LIMIT || anchors[i] < -ANCHOR_LIMIT {
                proof {
                    assert(!(-ANCHOR_LIMIT <= anchors@[i as int] <= ANCHOR_LIMIT));
                }
                return Err(PostprocessError::InvalidConfig);
            }
            i = i + 1;
        }
        let mut k: usize = 0;
        let m = strides.len();
        while k < m
            invariant
                k <= m,
                m == strides@.len(),
                forall|j: int| 0 <= j < k ==> -STRIDE_LIMIT <= #[trigger] strides@[j] <= STRIDE_LIMIT,
            decreases m - k,
        {
            if strides[k] > STRIDE_LIMIT || strides[k] < -STRIDE_LIMIT {
                proof {
                    assert(!(-STRIDE_LIMIT <= strides@[k as int] <= STRIDE_LIMIT));
                }
                return Err(PostprocessError::InvalidConfig);
            }
            k = k + 1;
        }
        Ok(RustPostprocessor { anchors, num_scales, num_anchors, strides })
    }
}

/// The candidates of anchor slots `0 .. a_upto` of one scale, for one image.
pub open spec fn scale_take(
    p: RustPostprocessor,
    t: RawTensor,
    thr: int,
    b: int,
    s: int,
    a_upto: int,
) -> Seq<CandModel>
    decreases a_upto,
{
    if a_upto <= 0 {
        Seq::empty()
    } else {
        let a = a_upto - 1;
        let stride = p.stride_at(s);
        scale_take(p, t, thr, b, s, a_upto - 1) + anchor_take(
            t,
            thr,
            stride,
            fp_mul_spec(p.anchor_w(s, a), stride),
            fp_mul_spec(p.anchor_h(s, a), stride),
            b,
            a,
            t.spec_grid_h(),
        )
    }
}

/// The candidates of scales `0 .. s_upto`, for one image, before the cap.
pub open spec fn img_take(
    p: RustPostprocessor,
    tensors: Seq<RawTensor>,
    thr: int,
    b: int,
    s_upto: int,
) -> Seq<CandModel>
    decreases s_upto,
{
    if s_upto <= 0 {
        Seq::empty()
    } else {
        img_take(p, tensors, thr, b, s_upto - 1) + scale_take(
            p,
            tensors[s_upto - 1],
            thr,
            b,
            s_upto - 1,
            p.num_anchors as int,
        )
    }
}

/// The decode cap: everything past the first `MAX_DECODE_BOXES` candidates
/// of an image is dropped.
pub open spec fn capped(s: Seq<CandModel>) -> Seq<CandModel> {
    if s.len() > MAX_DECODE_BOXES {
        s.take(MAX_DECODE_BOXES as int)
    } else {
        s
    }
}

/// One image's decoded candidates: the per-scale candidates in scale order,
/// capped.
pub open spec fn img_cands(
    p: RustPostprocessor,
    tensors: Seq<RawTensor>,
    thr: int,
    b: int,
) -> Seq<CandModel> {
    capped(img_take(p, tensors, thr, b, p.num_scales as int))
}

/// The raw tensors fit the postprocessor: one per scale, matching anchor
/// slots, at least the five base channels, and one common channel count and
/// batch size.
pub open spec fn shapes_ok(p: RustPostprocessor, tensors: Seq<RawTensor>) -> bool {
    &&& tensors.len() == p.num_scales
    &&& forall|s: int| 0 <= s < tensors.len() ==> (#[trigger] tensors[s]).wf()
    &&& forall|s: int|
        0 <= s < tensors.len() ==> (#[trigger] tensors[s]).spec_anchors() == p.num_anchors
    &&& forall|s: int| 0 <= s < tensors.len() ==> (#[trigger] tensors[s]).spec_channels() >= 5
    &&& forall|s: int|
        0 <= s < tensors.len() ==> (#[trigger] tensors[s]).spec_channels() == tensors[0].spec_channels()
    &&& forall|s: int|
        0 <= s < tensors.len() ==> (#[trigger] tensors[s]).spec_batch() == tensors[0].spec_batch()
}

/// Appending one candidate to a capped sequence extends it only while the
/// cap has room.
proof fn lemma_capped_push(s: Seq<CandModel>, c: CandModel)
    ensures
        capped(s.push(c)) == if s.len() < MAX_DECODE_BOXES {
            capped(s).push(c)
        } else {
            capped(s)
        },
{
    if s.len() < MAX_DECODE_BOXES {
        assert(capped(s.push(c)) =~= capped(s).push(c));
    } else {
        assert(capped(s.push(c)) =~= capped(s));
    }
}

/// A cell whose objectness is at or below the threshold contributes no
/// candidate at all.
pub proof fn lemma_low_objectness_no_candidates(
    t: RawTensor,
    thr: int,
    stride: int,
    ax: int,
    ay: int,
    b: int,
    a: int,
    y: int,
    x: int,
    c_upto: int,
)
    requires
        t.at_spec(b, a, y, x, 4) <= thr,
    ensures
        cell_take(t, thr, stride, ax, ay, b, a, y, x, c_upto) == Seq::<CandModel>::empty(),
    decreases c_upto,
{
    if c_upto > 0 {
        lemma_low_objectness_no_candidates(t, thr, stride, ax, ay, b, a, y, x, c_upto - 1);
    }
}

} // verus!

verus! {

use crate::fixed::lemma_half_bound;

/// The candidate rows a set of pending center-form columns describes.
pub open spec fn pending_rows(
    pcy: Seq<i64>,
    pcx: Seq<i64>,
    pw: Seq<i64>,
    ph: Seq<i64>,
    ps: Seq<i64>,
    pc: Seq<i64>,
) -> Seq<CandModel> {
    Seq::new(
        pcy.len(),
        |i: int|
            CandModel {
                x1: pcx[i] - half_spec(pw[i] as int),
                y1: pcy[i] - half_spec(ph[i] as int),
                x2: pcx[i] + half_spec(pw[i] as int),
                y2: pcy[i] + half_spec(ph[i] as int),
                score: ps[i] as int,
                class: pc[i] as int,
            },
    )
}

/// Equal lengths and in-range values for pending center-form columns.
pub open spec fn pending_ok(
    pcy: Seq<i64>,
    pcx: Seq<i64>,
    pw: Seq<i64>,
    ph: Seq<i64>,
    ps: Seq<i64>,
    pc: Seq<i64>,
) -> bool {
    &&& pcx.len() == pcy.len() && pw.len() == pcy.len() && ph.len() == pcy.len() && ps.len()
        == pcy.len() && pc.len() == pcy.len()
    &&& forall|i: int| 0 <= i < pcy.len() ==> -CENTER_LIMIT <= #[trigger] pcy[i] <= CENTER_LIMIT
    &&& forall|i: int| 0 <= i < pcx.len() ==> -CENTER_LIMIT <= #[trigger] pcx[i] <= CENTER_LIMIT
    &&& forall|i: int| 0 <= i < pw.len() ==> -EXTENT_LIMIT <= #[trigger] pw[i] <= EXTENT_LIMIT
    &&& forall|i: int| 0 <= i < ph.len() ==> -EXTENT_LIMIT <= #[trigger] ph[i] <= EXTENT_LIMIT
    &&& forall|i: int| 0 <= i < pc.len() ==> 0 <= #[trigger] pc[i] <= CLASS_LIMIT
}

/// Every row of well-bounded pending columns is a well-bounded candidate.
proof fn lemma_pending_rows_ok(
    pcy: Seq<i64>,
    pcx: Seq<i64>,
    pw: Seq<i64>,
    ph: Seq<i64>,
    ps: Seq<i64>,
    pc: Seq<i64>,
)
    requires
        pending_ok(pcy, pcx, pw, ph, ps, pc),
    ensures
        forall|i: int|
            0 <= i < pending_rows(pcy, pcx, pw, ph, ps, pc).len() ==> cand_ok(
                #[trigger] pending_rows(pcy, pcx, pw, ph, ps, pc)[i],
            ),
{
    assert forall|i: int|
        0 <= i < pending_rows(pcy, pcx, pw, ph, ps, pc).len() implies cand_ok(
        #[trigger] pending_rows(pcy, pcx, pw, ph, ps, pc)[i],
    ) by {
        lemma_half_bound(pw[i] as int, EXTENT_LIMIT as int);
        lemma_half_bound(ph[i] as int, EXTENT_LIMIT as int);
    }
}

impl RustPostprocessor {
    /// Decodes one batch of raw per-scale tensors into one detection set per
    /// image: per scale, anchor slot and grid cell, the anchor and stride
    /// formula is applied and every class whose confidence times objectness
    /// strictly exceeds the threshold yields one row, until the per-image cap
    /// is reached. Rejected (before producing anything) unless the tensors
    /// fit the anchor table and agree on batch size and channel count.
    #[verifier::loop_isolation(false)]
    pub fn box_decode(&self, inputs: &Vec<RawTensor>, conf_threshold: i64) -> (r: Result<
        Vec<DetectionBoxes>,
        PostprocessError,
    >)
        requires
            self.wf(),
            forall|s: int| 0 <= s < inputs@.len() ==> (#[trigger] inputs@[s]).wf(),
        ensures
            match r {
                Ok(out) => {
                    &&& shapes_ok(*self, inputs@)
                    &&& out@.len() == (if inputs@.len() == 0 {
                        0int
                    } else {
                        inputs@[0].spec_batch()
                    })
                    &&& forall|b: int| 0 <= b < out@.len() ==> (#[trigger] out@[b]).wf()
                    &&& forall|b: int|
                        0 <= b < out@.len() ==> (#[trigger] out@[b]).rows() == img_cands(
                            *self,
                            inputs@,
                            conf_threshold as int,
                            b,
                        )
                    &&& forall|b: int, i: int|
                        0 <= b < out@.len() && 0 <= i < out@[b].rows().len() ==> cand_ok(
                            #[trigger] out@[b].rows()[i],
                        )
                },
                Err(e) => {
                    &&& e == PostprocessError::InvalidInput
                    &&& !shapes_ok(*self, inputs@)
                },
            },
    {
        let ns = self.num_scales;
        let alen = self.anchors.len();
        if inputs.len() != ns {
            return Err(PostprocessError::InvalidInput);
        }
        let mut s0: usize = 0;
        while s0 < ns
            invariant
                s0 <= ns,
                forall|s: int|
                    0 <= s < s0 ==> (#[trigger] inputs@[s]).spec_anchors() == self.num_anchors
                        && inputs@[s].spec_channels() >= 5 && inputs@[s].spec_channels()
                        == inputs@[0].spec_channels() && inputs@[s].spec_batch()
                        == inputs@[0].spec_batch(),
            decreases ns - s0,
        {
            let bad: bool = inputs[s0].anchors != self.num_anchors || inputs[s0].channels < 5
                || inputs[s0].channels != inputs[0].channels || inputs[s0].batch
                != inputs[0].batch;
            if bad {
                proof {
                    assert(!shapes_ok(*self, inputs@));
                }
                return Err(PostprocessError::InvalidInput);
            }
            s0 = s0 + 1;
        }
        proof {
            assert(shapes_ok(*self, inputs@));
        }
        let ghost thr = conf_threshold as int;
        let batch: usize = if ns == 0 {
            0
        } else {
            inputs[0].batch
        };
        let mut out: Vec<DetectionBoxes> = Vec::new();
        let mut b: usize = 0;
        while b < batch
            invariant
                b <= batch,
                out@.len() == b,
                forall|bb: int| 0 <= bb < b ==> (#[trigger] out@[bb]).wf(),
                forall|bb: int|
                    0 <= bb < b ==> (#[trigger] out@[bb]).rows() == img_cands(
                        *self,
                        inputs@,
                        thr,
                        bb,
                    ),
                forall|bb: int, i: int|
                    0 <= bb < b && 0 <= i < out@[bb].rows().len() ==> cand_ok(
                        #[trigger] out@[bb].rows()[i],
                    ),
            decreases batch - b,
        {
            let mut db = DetectionBoxes::empty();
            proof {
                assert(img_take(*self, inputs@, thr, b as int, 0) =~= Seq::<CandModel>::empty());
            }
            let mut s: usize = 0;
            while s < ns
                invariant
                    s <= ns,
                    db.wf(),
                    db.len <= MAX_DECODE_BOXES,
                    db.rows() == capped(img_take(*self, inputs@, thr, b as int, s as int)),
                    forall|i: int| 0 <= i < db.rows().len() ==> cand_ok(#[trigger] db.rows()[i]),
                decreases ns - s,
            {
                let t = &inputs[s];
                let stride = self.strides[s];
                let gh = t.grid_h;
                let gw = t.grid_w;
                let na = t.anchors;
                let ncl = t.channels - 5;
                let mut pcy: Vec<i64> = Vec::new();
                let mut pcx: Vec<i64> = Vec::new();
                let mut pww: Vec<i64> = Vec::new();
                let mut phh: Vec<i64> = Vec::new();
                let mut psc: Vec<i64> = Vec::new();
                let mut pcl: Vec<i64> = Vec::new();
                let ghost cum = img_take(*self, inputs@, thr, b as int, s as int);
                proof {
                    assert(cum + scale_take(*self, *t, thr, b as int, s as int, 0) =~= cum);
                }
                let mut a: usize = 0;
                while a < na
                    invariant
                        a <= na,
                        pending_ok(pcy@, pcx@, pww@, phh@, psc@, pcl@),
                        db.rows() + pending_rows(pcy@, pcx@, pww@, phh@, psc@, pcl@) == capped(
                            cum + scale_take(*self, *t, thr, b as int, s as int, a as int),
                        ),
                    decreases na - a,
                {
                    proof {
                        lemma_flatten_step(
                            s as int,
                            ns as int,
                            a as int,
                            self.num_anchors as int,
                        );
                    }
                    let ai = (s * self.num_anchors + a) * 2;
                    proof {
                        lemma_fp_mul_bound(
                            self.anchors@[ai as int] as int,
                            stride as int,
                            ANCHOR_LIMIT as int,
                            STRIDE_LIMIT as int,
                        );
                        lemma_fp_mul_bound(
                            self.anchors@[ai as int + 1] as int,
                            stride as int,
                            ANCHOR_LIMIT as int,
                            STRIDE_LIMIT as int,
                        );
                    }
                    let ax = fp_mul(self.anchors[ai], stride);
                    let ay = fp_mul(self.anchors[ai + 1], stride);
                    let ghost scale_pre = scale_take(*self, *t, thr, b as int, s as int, a as int);
                    proof {
                        assert(anchor_take(*t, thr, stride as int, ax as int, ay as int, b as int,
                            a as int, 0) =~= Seq::<CandModel>::empty());
                        assert(scale_pre + Seq::<CandModel>::empty() =~= scale_pre);
                    }
                    let mut y: usize = 0;
                    while y < gh
                        invariant
                            y <= gh,
                            pending_ok(pcy@, pcx@, pww@, phh@, psc@, pcl@),
                            db.rows() + pending_rows(pcy@, pcx@, pww@, phh@, psc@, pcl@) == capped(
                                cum + (scale_pre + anchor_take(
                                    *t,
                                    thr,
                                    stride as int,
                                    ax as int,
                                    ay as int,
                                    b as int,
                                    a as int,
                                    y as int,
                                )),
                            ),
                        decreases gh - y,
                    {
                        let ghost anchor_pre = anchor_take(
                            *t,
                            thr,
                            stride as int,
                            ax as int,
                            ay as int,
                            b as int,
                            a as int,
                            y as int,
                        );
                        proof {
                            assert(row_take(*t, thr, stride as int, ax as int, ay as int, b as int,
                                a as int, y as int, 0) =~= Seq::<CandModel>::empty());
                            assert(anchor_pre + Seq::<CandModel>::empty() =~= anchor_pre);
                        }
                        let mut x: usize = 0;
                        while x < gw
                            invariant
                                x <= gw,
                                pending_ok(pcy@, pcx@, pww@, phh@, psc@, pcl@),
                                db.rows() + pending_rows(pcy@, pcx@, pww@, phh@, psc@, pcl@)
                                    == capped(
                                    cum + (scale_pre + (anchor_pre + row_take(
                                        *t,
                                        thr,
                                        stride as int,
                                        ax as int,
                                        ay as int,
                                        b as int,
                                        a as int,
                                        y as int,
                                        x as int,
                                    ))),
                                ),
                            decreases gw - x,
                        {
                            let ghost row_pre = row_take(
                                *t,
                                thr,
                                stride as int,
                                ax as int,
                                ay as int,
                                b as int,
                                a as int,
                                y as int,
                                x as int,
                            );
                            let obj = t.at(b, a, y, x, 4);
                            if obj > conf_threshold {
                                let bx = t.at(b, a, y, x, 0);
                                let by = t.at(b, a, y, x, 1);
                                let bw = t.at(b, a, y, x, 2);
                                let bh = t.at(b, a, y, x, 3);
                                let inner_y: i64 = 2 * by - HALF_UNIT + (y as i64) * SCALE;
                                let inner_x: i64 = 2 * bx - HALF_UNIT + (x as i64) * SCALE;
                                proof {
                                    lemma_fp_mul_bound(
                                        inner_y as int,
                                        stride as int,
                                        INNER_LIMIT as int,
                                        STRIDE_LIMIT as int,
                                    );
                                    lemma_fp_mul_bound(
                                        inner_x as int,
                                        stride as int,
                                        INNER_LIMIT as int,
                                        STRIDE_LIMIT as int,
                                    );
                                    lemma_fp_mul_bound(
                                        bh as int,
                                        bh as int,
                                        VAL_LIMIT as int,
                                        VAL_LIMIT as int,
                                    );
                                    lemma_fp_mul_bound(
                                        bw as int,
                                        bw as int,
                                        VAL_LIMIT as int,
                                        VAL_LIMIT as int,
                                    );
                                }
                                let cy = fp_mul(inner_y, stride);
                                let cx = fp_mul(inner_x, stride);
                                let bh2 = fp_mul(bh, bh);
                                let bw2 = fp_mul(bw, bw);
                                proof {
                                    lemma_fp_mul_bound(
                                        bh2 as int,
                                        ay as int,
                                        100_000_000,
                                        AXY_LIMIT as int,
                                    );
                                    lemma_fp_mul_bound(
                                        bw2 as int,
                                        ax as int,
                                        100_000_000,
                                        AXY_LIMIT as int,
                                    );
                                }
                                let hh: i64 = 4 * fp_mul(bh2, ay);
                                let ww: i64 = 4 * fp_mul(bw2, ax);
                                let mut c: usize = 0;
                                while c < ncl
                                    invariant
                                        c <= ncl,
                                        pending_ok(pcy@, pcx@, pww@, phh@, psc@, pcl@),
                                        db.rows() + pending_rows(pcy@, pcx@, pww@, phh@, psc@, pcl@)
                                            == capped(
                                            cum + (scale_pre + (anchor_pre + (row_pre + cell_take(
                                                *t,
                                                thr,
                                                stride as int,
                                                ax as int,
                                                ay as int,
                                                b as int,
                                                a as int,
                                                y as int,
                                                x as int,
                                                c as int,
                                            )))),
                                        ),
                                    decreases ncl - c,
                                {
                                    let ghost done = cum + (scale_pre + (anchor_pre + (row_pre
                                        + cell_take(
                                        *t,
                                        thr,
                                        stride as int,
                                        ax as int,
                                        ay as int,
                                        b as int,
                                        a as int,
                                        y as int,
                                        x as int,
                                        c as int,
                                    ))));
                                    let conf = t.at(b, a, y, x, 5 + c);
                                    proof {
                                        lemma_fp_mul_bound(
                                            conf as int,
                                            obj as int,
                                            VAL_LIMIT as int,
                                            VAL_LIMIT as int,
                                        );
                                    }
                                    let score = fp_mul(conf, obj);
                                    let ghost cand = decoded_cand(
                                        *t,
                                        stride as int,
                                        ax as int,
                                        ay as int,
                                        b as int,
                                        a as int,
                                        y as int,
                                        x as int,
                                        c as int,
                                    );
                                    proof {
                                        assert(cell_take(*t, thr, stride as int, ax as int,
                                            ay as int, b as int, a as int, y as int, x as int,
                                            c as int + 1) == if t.at_spec(b as int, a as int,
                                            y as int, x as int, 4) > thr && fp_mul_spec(
                                            t.at_spec(b as int, a as int, y as int, x as int,
                                            5 + c),
                                            t.at_spec(b as int, a as int, y as int, x as int, 4),
                                        ) > thr {
                                            cell_take(*t, thr, stride as int, ax as int, ay as int,
                                                b as int, a as int, y as int, x as int,
                                                c as int).push(cand)
                                        } else {
                                            cell_take(*t, thr, stride as int, ax as int, ay as int,
                                                b as int, a as int, y as int, x as int, c as int)
                                        });
                                    }
                                    if score > conf_threshold {
                                        proof {
                                            lemma_capped_push(done, cand);
                                            assert(done.push(cand) =~= cum + (scale_pre + (
                                            anchor_pre + (row_pre + cell_take(*t, thr,
                                                stride as int, ax as int, ay as int, b as int,
                                                a as int, y as int, x as int, c as int).push(
                                                cand,
                                            )))));
                                        }
                                        if db.len + pcy.len() < MAX_DECODE_BOXES {
                                            let ghost bcy = pcy@;
                                            let ghost bcx = pcx@;
                                            let ghost bww = pww@;
                                            let ghost bhh = phh@;
                                            let ghost bsc = psc@;
                                            let ghost bcl = pcl@;
                                            pcy.push(cy);
                                            pcx.push(cx);
                                            pww.push(ww);
                                            phh.push(hh);
                                            psc.push(score);
                                            pcl.push(c as i64);
                                            proof {
                                                assert(pending_rows(pcy@, pcx@, pww@, phh@, psc@,
                                                    pcl@) =~= pending_rows(bcy, bcx, bww, bhh, bsc,
                                                    bcl).push(cand));
                                            }
                                        } else {
                                            proof {
                                                assert(db.rows().len() + pending_rows(pcy@, pcx@,
                                                    pww@, phh@, psc@, pcl@).len() == capped(
                                                    done,
                                                ).len());
                                            }
                                        }
                                    }
                                    c = c + 1;
                                }
                                proof {
                                    assert(row_take(*t, thr, stride as int, ax as int, ay as int,
                                        b as int, a as int, y as int, x as int + 1) == row_pre
                                        + cell_take(*t, thr, stride as int, ax as int, ay as int,
                                        b as int, a as int, y as int, x as int,
                                        t.spec_channels() - 5));
                                    assert((anchor_pre + (row_pre + cell_take(*t, thr,
                                        stride as int, ax as int, ay as int, b as int, a as int,
                                        y as int, x as int, t.spec_channels() - 5))) =~= (
                                    anchor_pre + row_take(*t, thr, stride as int, ax as int,
                                        ay as int, b as int, a as int, y as int, x as int + 1)));
                                }
                            } else {
                                proof {
                                    lemma_low_objectness_no_candidates(
                                        *t,
                                        thr,
                                        stride as int,
                                        ax as int,
                                        ay as int,
                                        b as int,
                                        a as int,
                                        y as int,
                                        x as int,
                                        t.spec_channels() - 5,
                                    );
                                    assert(row_take(*t, thr, stride as int, ax as int, ay as int,
                                        b as int, a as int, y as int, x as int + 1) == row_pre
                                        + cell_take(*t, thr, stride as int, ax as int, ay as int,
                                        b as int, a as int, y as int, x as int,
                                        t.spec_channels() - 5));
                                    assert(row_pre + cell_take(*t, thr, stride as int, ax as int,
                                        ay as int, b as int, a as int, y as int, x as int,
                                        t.spec_channels() - 5) =~= row_pre);
                                    assert((anchor_pre + (row_pre + cell_take(*t, thr,
                                        stride as int, ax as int, ay as int, b as int, a as int,
                                        y as int, x as int, t.spec_channels() - 5))) =~= (
                                    anchor_pre + row_take(*t, thr, stride as int, ax as int,
                                        ay as int, b as int, a as int, y as int, x as int + 1)));
                                }
                            }
                            x = x + 1;
                        }
                        proof {
                            assert(anchor_take(*t, thr, stride as int, ax as int, ay as int,
                                b as int, a as int, y as int + 1) == anchor_pre + row_take(*t, thr,
                                stride as int, ax as int, ay as int, b as int, a as int, y as int,
                                t.spec_grid_w()));
                            assert((scale_pre + (anchor_pre + row_take(*t, thr, stride as int,
                                ax as int, ay as int, b as int, a as int, y as int,
                                t.spec_grid_w()))) =~= (scale_pre + anchor_take(*t, thr,
                                stride as int, ax as int, ay as int, b as int, a as int,
                                y as int + 1)));
                        }
                        y = y + 1;
                    }
                    proof {
                        assert(scale_take(*self, *t, thr, b as int, s as int, a as int + 1)
                            == scale_pre + anchor_take(*t, thr, self.stride_at(s as int),
                            fp_mul_spec(self.anchor_w(s as int, a as int), self.stride_at(
                            s as int)), fp_mul_spec(self.anchor_h(s as int, a as int),
                            self.stride_at(s as int)), b as int, a as int, t.spec_grid_h()));
                        assert(self.anchor_w(s as int, a as int) == self.anchors@[ai as int] as int);
                        assert(self.anchor_h(s as int, a as int) == self.anchors@[ai as int
                            + 1] as int);
                        assert(ax as int == fp_mul_spec(self.anchor_w(s as int, a as int),
                            self.stride_at(s as int)));
                        assert(ay as int == fp_mul_spec(self.anchor_h(s as int, a as int),
                            self.stride_at(s as int)));
                    }
                    a = a + 1;
                }
                let conv = centered_box_to_ltrb_bulk(&pcy, &pcx, &pww, &phh);
                match conv {
                    Ok(corners) => {
                        let (cx1, cy1, cx2, cy2) = corners;
                        proof {
                            lemma_pending_rows_ok(pcy@, pcx@, pww@, phh@, psc@, pcl@);
                            assert(zip_rows(cx1@, cy1@, cx2@, cy2@, psc@, pcl@) =~= pending_rows(
                                pcy@,
                                pcx@,
                                pww@,
                                phh@,
                                psc@,
                                pcl@,
                            ));
                        }
                        let ghost pre_rows = db.rows();
                        let ar = db.append(cx1, cy1, cx2, cy2, psc, pcl);
                        match ar {
                            Ok(()) => {
                                proof {
                                    assert(img_take(*self, inputs@, thr, b as int, s as int + 1)
                                        == cum + scale_take(*self, inputs@[s as int], thr, b as int,
                                        s as int, self.num_anchors as int));
                                    assert(db.rows() == capped(img_take(*self, inputs@, thr,
                                        b as int, s as int + 1)));
                                }
                            },
                            Err(_) => {
                                proof {
                                    assert(false);
                                }
                                return Err(PostprocessError::InvalidInput);
                            },
                        }
                    },
                    Err(_) => {
                        proof {
                            assert(false);
                        }
                        return Err(PostprocessError::InvalidInput);
                    },
                }
                s = s + 1;
            }
            out.push(db);
            b = b + 1;
        }
        Ok(out)
    }
}

} // verus!

verus! {

use crate::fixed::EPSILON_LIMIT;
use crate::fixed::MAX_NMS_BOXES;
use crate::nms::agnostic_value;
use crate::nms::eps_value;
use crate::nms::nms;
use crate::nms::nms_seq;
use crate::sorting::idxs;
use crate::sorting::lemma_trim_keeps_top_k;
use crate::sorting::trim_spec;

/// One final detection: the candidate's index in the suppressed set, its box
/// as (top, left, bottom, right), its score and its class id.
#[derive(Clone, Copy, Debug, PartialEq, Eq, Structural)]
pub struct DetectionRecord {
    pub index: usize,
    pub top: i64,
    pub left: i64,
    pub bottom: i64,
    pub right: i64,
    pub score: i64,
    pub class_id: i64,
}

/// Mathematical view of one final detection.
pub struct RecordModel {
    pub index: int,
    pub top: int,
    pub left: int,
    pub bottom: int,
    pub right: int,
    pub score: int,
    pub class_id: int,
}

impl View for DetectionRecord {
    type V = RecordModel;

    open spec fn view(&self) -> RecordModel {
        RecordModel {
            index: self.index as int,
            top: self.top as int,
            left: self.left as int,
            bottom: self.bottom as int,
            right: self.right as int,
            score: self.score as int,
            class_id: self.class_id as int,
        }
    }
}

/// The records the picked rows materialize into, in pick order.
pub open spec fn records_spec(rows: Seq<CandModel>, picked: Seq<int>) -> Seq<RecordModel> {
    Seq::new(
        picked.len(),
        |p: int|
            RecordModel {
                index: picked[p],
                top: rows[picked[p]].y1,
                left: rows[picked[p]].x1,
                bottom: rows[picked[p]].y2,
                right: rows[picked[p]].x2,
                score: rows[picked[p]].score,
                class_id: rows[picked[p]].class,
            },
    )
}

/// One image's candidates as the suppressor sees them: the decoded rows,
/// trimmed to the `MAX_NMS_BOXES` best when there are more.
pub open spec fn trimmed_img(
    p: RustPostprocessor,
    tensors: Seq<RawTensor>,
    thr: int,
    b: int,
) -> Seq<CandModel> {
    let rows = img_cands(p, tensors, thr, b);
    if rows.len() > MAX_NMS_BOXES {
        trim_spec(rows, MAX_NMS_BOXES as int)
    } else {
        rows
    }
}

/// One image's final detections: decode, trim, suppress, materialize.
pub open spec fn postprocess_img(
    p: RustPostprocessor,
    tensors: Seq<RawTensor>,
    conf: int,
    iou: int,
    eps: int,
    agnostic: bool,
    b: int,
) -> Seq<RecordModel> {
    let rows = trimmed_img(p, tensors, conf, b);
    records_spec(rows, nms_seq(rows, iou, eps, agnostic))
}

impl RustPostprocessor {
    /// The full pipeline for one batch: decode every scale, trim each image's
    /// set to the `MAX_NMS_BOXES` best when it is larger, suppress, and
    /// return each image's surviving detections in suppression order
    /// (highest score first). Rejected, before any work, on the same inputs
    /// `box_decode` rejects.
    #[verifier::loop_isolation(false)]
    pub fn postprocess(
        &self,
        inputs: &Vec<RawTensor>,
        conf_threshold: i64,
        iou_threshold: i64,
        epsilon: Option<i64>,
        agnostic: Option<bool>,
    ) -> (r: Result<Vec<Vec<DetectionRecord>>, PostprocessError>)
        requires
            self.wf(),
            forall|s: int| 0 <= s < inputs@.len() ==> (#[trigger] inputs@[s]).wf(),
            0 <= iou_threshold <= SCALE,
            0 <= eps_value(epsilon) <= EPSILON_LIMIT,
        ensures
            match r {
                Ok(out) => {
                    &&& shapes_ok(*self, inputs@)
                    &&& out@.len() == (if inputs@.len() == 0 {
                        0int
                    } else {
                        inputs@[0].spec_batch()
                    })
                    &&& forall|b: int|
                        0 <= b < out@.len() ==> (#[trigger] out@[b])@.map_values(
                            |rec: DetectionRecord| rec@,
                        ) == postprocess_img(
                            *self,
                            inputs@,
                            conf_threshold as int,
                            iou_threshold as int,
                            eps_value(epsilon),
                            agnostic_value(agnostic),
                            b,
                        )
                },
                Err(e) => {
                    &&& e == PostprocessError::InvalidInput
                    &&& !shapes_ok(*self, inputs@)
                },
            },
    {
        let decoded = self.box_decode(inputs, conf_threshold);
        let mut dboxes = match decoded {
            Ok(v) => v,
            Err(e) => {
                return Err(e);
            },
        };
        let batch = dboxes.len();
        let ghost odbs = dboxes@;
        let ghost conf = conf_threshold as int;
        let ghost iou = iou_threshold as int;
        let ghost eps = eps_value(epsilon);
        let ghost ag = agnostic_value(agnostic);
        let mut out: Vec<Vec<DetectionRecord>> = Vec::new();
        let mut bi: usize = 0;
        while bi < batch
            invariant
                bi <= batch,
                dboxes@ =~= odbs.skip(bi as int),
                out@.len() == bi,
                forall|b: int|
                    0 <= b < bi ==> (#[trigger] out@[b])@.map_values(|rec: DetectionRecord| rec@)
                        == postprocess_img(*self, inputs@, conf, iou, eps, ag, b),
            decreases batch - bi,
        {
            let mut db = dboxes.remove(0);
            proof {
                assert(db == odbs[bi as int]);
                assert(dboxes@ =~= odbs.skip(bi as int + 1));
                assert(db.rows() == img_cands(*self, inputs@, conf, bi as int));
            }
            let ghost drows = db.rows();
            if db.len > MAX_NMS_BOXES {
                db.sort_by_score_and_trim(MAX_NMS_BOXES);
                proof {
                    lemma_trim_keeps_top_k(drows, MAX_NMS_BOXES as int);
                    assert forall|i: int| 0 <= i < db.rows().len() implies cand_ok(
                        #[trigger] db.rows()[i],
                    ) by {
                        let w = choose|w: int| 0 <= w < drows.len() && db.rows()[i] == drows[w];
                        assert(cand_ok(drows[w]));
                    }
                }
            }
            proof {
                assert(db.rows() == trimmed_img(*self, inputs@, conf, bi as int));
            }
            let picked = nms(&db, iou_threshold, epsilon, agnostic);
            let np = picked.len();
            let mut recs: Vec<DetectionRecord> = Vec::new();
            let mut pi: usize = 0;
            while pi < np
                invariant
                    pi <= np,
                    np == picked@.len(),
                    recs@.len() == pi,
                    forall|q: int|
                        0 <= q < pi ==> (#[trigger] recs@[q])@ == records_spec(
                            db.rows(),
                            idxs(picked@),
                        )[q],
                decreases np - pi,
            {
                let idx = picked[pi];
                let rec = DetectionRecord {
                    index: idx,
                    top: db.y1[idx],
                    left: db.x1[idx],
                    bottom: db.y2[idx],
                    right: db.x2[idx],
                    score: db.scores[idx],
                    class_id: db.classes[idx],
                };
                recs.push(rec);
                proof {
                    assert(idxs(picked@)[pi as int] == picked@[pi as int] as int);
                    assert(recs@[pi as int]@ == records_spec(db.rows(), idxs(picked@))[pi as int]);
                }
                pi = pi + 1;
            }
            proof {
                assert(recs@.map_values(|rec: DetectionRecord| rec@) =~= records_spec(
                    db.rows(),
                    idxs(picked@),
                ));
                assert(recs@.map_values(|rec: DetectionRecord| rec@) == postprocess_img(
                    *self,
                    inputs@,
                    conf,
                    iou,
                    eps,
                    ag,
                    bi as int,
                ));
            }
            out.push(recs);
            bi = bi + 1;
        }
        Ok(out)
    }
}

} // verus!
