// End-to-end tests of the decoder, the suppressor and the pipeline, on
// fixed-point values (an i64 holds the real value times one million).

use yolo_postprocess::boxes::DetectionBoxes;
use yolo_postprocess::boxes::PostprocessError;
use yolo_postprocess::decode::RawTensor;
use yolo_postprocess::decode::RustPostprocessor;
use yolo_postprocess::fixed::SCALE;
use yolo_postprocess::nms::nms;

const UNIT: i64 = SCALE;

fn one_cell_tensor(values: Vec<i64>) -> RawTensor {
    // batch 1, one anchor slot, a 1x1 grid, 5 + 1 channels
    RawTensor::new(values, 1, 1, 1, 1, 6).unwrap()
}

fn single_scale_postprocessor() -> RustPostprocessor {
    // one scale, one anchor of extent 1.25 (so 10.0 after pre-scaling by the
    // stride 8.0)
    RustPostprocessor::new(
        vec![1_250_000, 1_250_000],
        1,
        1,
        2,
        vec![8 * UNIT],
    )
    .unwrap()
}

#[test]
fn decode_single_cell_scenario() {
    // objectness 0.9 and one class confidence 0.9 at threshold 0.5, stride 8,
    // pre-scaled anchor (10, 10), grid cell (0, 0), raw offsets all 0.5:
    // score 0.81, center (4, 4), extent (10, 10), corners (-1, -1, 9, 9)
    let post = single_scale_postprocessor();
    let tensor = one_cell_tensor(vec![500_000, 500_000, 500_000, 500_000, 900_000, 900_000]);
    let out = post.box_decode(&vec![tensor], 500_000).unwrap();
    assert_eq!(out.len(), 1);
    let db = &out[0];
    assert_eq!(db.len, 1);
    assert_eq!(db.x1[0], -1 * UNIT);
    assert_eq!(db.y1[0], -1 * UNIT);
    assert_eq!(db.x2[0], 9 * UNIT);
    assert_eq!(db.y2[0], 9 * UNIT);
    assert_eq!(db.scores[0], 810_000);
    assert_eq!(db.classes[0], 0);
}

#[test]
fn decode_skips_low_objectness() {
    // objectness exactly at the threshold contributes nothing: the bound is
    // strict
    let post = single_scale_postprocessor();
    let tensor = one_cell_tensor(vec![500_000, 500_000, 500_000, 500_000, 500_000, 1_000_000]);
    let out = post.box_decode(&vec![tensor], 500_000).unwrap();
    assert_eq!(out[0].len, 0);
}

#[test]
fn decode_skips_low_class_product() {
    // objectness passes, but confidence times objectness stays at or below
    // the threshold: 0.6 * 0.6 = 0.36 <= 0.5
    let post = single_scale_postprocessor();
    let tensor = one_cell_tensor(vec![500_000, 500_000, 500_000, 500_000, 600_000, 600_000]);
    let out = post.box_decode(&vec![tensor], 500_000).unwrap();
    assert_eq!(out[0].len, 0);
}

#[test]
fn decode_rejects_batch_mismatch() {
    // two scales whose tensors disagree on batch size fail as a whole
    let post = RustPostprocessor::new(
        vec![1_250_000, 1_250_000, 1_250_000, 1_250_000],
        2,
        1,
        2,
        vec![8 * UNIT, 16 * UNIT],
    )
    .unwrap();
    let t1 = RawTensor::new(vec![0; 6], 1, 1, 1, 1, 6).unwrap();
    let t2 = RawTensor::new(vec![0; 12], 2, 1, 1, 1, 6).unwrap();
    let r = post.box_decode(&vec![t1, t2], 500_000);
    assert_eq!(r.unwrap_err(), PostprocessError::InvalidInput);
}

#[test]
fn decode_rejects_wrong_scale_count() {
    let post = single_scale_postprocessor();
    let r = post.box_decode(&vec![], 500_000);
    assert_eq!(r.unwrap_err(), PostprocessError::InvalidInput);
}

#[test]
fn nms_two_overlapping_same_class() {
    // two perfectly overlapping boxes of one class, scores 0.9 and 0.5, IoU
    // threshold 0.5: only the 0.9 box survives
    let db = DetectionBoxes::new(
        vec![0, 0],
        vec![0, 0],
        vec![10 * UNIT, 10 * UNIT],
        vec![10 * UNIT, 10 * UNIT],
        vec![900_000, 500_000],
        vec![0, 0],
    )
    .unwrap();
    let picked = nms(&db, 500_000, None, None);
    assert_eq!(picked, vec![0]);
}

#[test]
fn nms_cross_class_modes() {
    // two boxes at one location with different classes: non-agnostic keeps
    // both, agnostic keeps one
    let db = DetectionBoxes::new(
        vec![0, 0],
        vec![0, 0],
        vec![10 * UNIT, 10 * UNIT],
        vec![10 * UNIT, 10 * UNIT],
        vec![900_000, 800_000],
        vec![0, 1],
    )
    .unwrap();
    let both = nms(&db, 500_000, None, Some(false));
    assert_eq!(both, vec![0, 1]);
    let one = nms(&db, 500_000, None, Some(true));
    assert_eq!(one, vec![0]);
}

#[test]
fn nms_equal_scores_earlier_index_first() {
    // two distant boxes with equal scores: both survive, the earlier row is
    // accepted first
    let db = DetectionBoxes::new(
        vec![0, 100 * UNIT],
        vec![0, 100 * UNIT],
        vec![10 * UNIT, 110 * UNIT],
        vec![10 * UNIT, 110 * UNIT],
        vec![700_000, 700_000],
        vec![0, 0],
    )
    .unwrap();
    let picked = nms(&db, 500_000, None, None);
    assert_eq!(picked, vec![0, 1]);
}

#[test]
fn nms_idempotent_on_its_output() {
    // run the suppressor, gather the accepted rows, run it again: every row
    // is accepted again in the same order
    let db = DetectionBoxes::new(
        vec![0, 0, 50 * UNIT, 50 * UNIT],
        vec![0, 0, 0, UNIT],
        vec![10 * UNIT, 10 * UNIT, 60 * UNIT, 60 * UNIT],
        vec![10 * UNIT, 10 * UNIT, 10 * UNIT, 11 * UNIT],
        vec![900_000, 500_000, 800_000, 700_000],
        vec![0, 0, 0, 0],
    )
    .unwrap();
    let picked = nms(&db, 300_000, None, None);
    let mut x1 = Vec::new();
    let mut y1 = Vec::new();
    let mut x2 = Vec::new();
    let mut y2 = Vec::new();
    let mut sc = Vec::new();
    let mut cl = Vec::new();
    for &i in &picked {
        x1.push(db.x1[i]);
        y1.push(db.y1[i]);
        x2.push(db.x2[i]);
        y2.push(db.y2[i]);
        sc.push(db.scores[i]);
        cl.push(db.classes[i]);
    }
    let kept = DetectionBoxes::new(x1, y1, x2, y2, sc, cl).unwrap();
    let again = nms(&kept, 300_000, None, None);
    let identity: Vec<usize> = (0..kept.len).collect();
    assert_eq!(again, identity);
}

#[test]
fn nms_accepts_at_most_one_over_the_cap() {
    // the output-size check permits one more box than the stated maximum:
    // 302 disjoint boxes yield 301 survivors
    let n: usize = 302;
    let mut x1 = Vec::new();
    let mut y1 = Vec::new();
    let mut x2 = Vec::new();
    let mut y2 = Vec::new();
    let mut sc = Vec::new();
    let mut cl = Vec::new();
    for i in 0..n {
        let base = (i as i64) * 100 * UNIT;
        x1.push(base);
        y1.push(0);
        x2.push(base + 10 * UNIT);
        y2.push(10 * UNIT);
        sc.push(900_000 - (i as i64));
        cl.push(0);
    }
    let db = DetectionBoxes::new(x1, y1, x2, y2, sc, cl).unwrap();
    let picked = nms(&db, 500_000, None, None);
    assert_eq!(picked.len(), 301);
    assert_eq!(picked[0], 0);
}

#[test]
fn postprocess_single_cell_records() {
    let post = single_scale_postprocessor();
    let tensor = one_cell_tensor(vec![500_000, 500_000, 500_000, 500_000, 900_000, 900_000]);
    let out = post
        .postprocess(&vec![tensor], 500_000, 500_000, None, None)
        .unwrap();
    assert_eq!(out.len(), 1);
    assert_eq!(out[0].len(), 1);
    let rec = out[0][0];
    assert_eq!(rec.index, 0);
    assert_eq!(rec.top, -1 * UNIT);
    assert_eq!(rec.left, -1 * UNIT);
    assert_eq!(rec.bottom, 9 * UNIT);
    assert_eq!(rec.right, 9 * UNIT);
    assert_eq!(rec.score, 810_000);
    assert_eq!(rec.class_id, 0);
}

#[test]
fn postprocess_nothing_over_threshold_is_empty_not_error() {
    // zero scales' worth of candidates after filtering: an empty list per
    // image, not an error
    let post = single_scale_postprocessor();
    let tensor = one_cell_tensor(vec![0, 0, 0, 0, 0, 0]);
    let out = post
        .postprocess(&vec![tensor], 500_000, 500_000, None, None)
        .unwrap();
    assert_eq!(out.len(), 1);
    assert!(out[0].is_empty());
}

#[test]
fn postprocess_orders_by_descending_score() {
    // a 1x2 grid with two passing cells; the higher score comes out first
    let post = single_scale_postprocessor();
    let data = vec![
        // cell (0, 0): score 0.64
        500_000, 500_000, 500_000, 500_000, 800_000, 800_000,
        // cell (0, 1): score 0.81
        500_000, 500_000, 500_000, 500_000, 900_000, 900_000,
    ];
    let tensor = RawTensor::new(data, 1, 1, 1, 2, 6).unwrap();
    let out = post
        .postprocess(&vec![tensor], 500_000, 500_000, None, None)
        .unwrap();
    assert_eq!(out[0].len(), 2);
    assert_eq!(out[0][0].index, 1);
    assert_eq!(out[0][0].score, 810_000);
    assert_eq!(out[0][1].index, 0);
    assert_eq!(out[0][1].score, 640_000);
}

#[test]
fn tensor_rejects_shape_mismatch() {
    let r = RawTensor::new(vec![0; 5], 1, 1, 1, 1, 6);
    assert_eq!(r.unwrap_err(), PostprocessError::InvalidInput);
}

#[test]
fn tensor_rejects_out_of_range_value() {
    let r = RawTensor::new(vec![0, 0, 0, 0, 0, 20_000_000], 1, 1, 1, 1, 6);
    assert_eq!(r.unwrap_err(), PostprocessError::InvalidInput);
}

#[test]
fn postprocessor_rejects_bad_trailing_dimension() {
    let r = RustPostprocessor::new(vec![UNIT, UNIT, UNIT], 1, 1, 3, vec![8 * UNIT]);
    assert_eq!(r.unwrap_err(), PostprocessError::InvalidConfig);
}

#[test]
fn postprocessor_rejects_stride_count_mismatch() {
    let r = RustPostprocessor::new(vec![UNIT, UNIT], 1, 1, 2, vec![8 * UNIT, 16 * UNIT]);
    assert_eq!(r.unwrap_err(), PostprocessError::InvalidConfig);
}

#[test]
fn postprocess_zero_scales_is_empty_batch() {
    let post = RustPostprocessor::new(vec![], 0, 0, 2, vec![]).unwrap();
    let out = post
        .postprocess(&vec![], 500_000, 500_000, None, None)
        .unwrap();
    assert!(out.is_empty());
}

#[test]
fn decode_two_scales_two_images() {
    // two scales with different strides; per-image sets concatenate the
    // scales in order
    let post = RustPostprocessor::new(
        vec![1_250_000, 1_250_000, 1_250_000, 1_250_000],
        2,
        1,
        2,
        vec![8 * UNIT, 16 * UNIT],
    )
    .unwrap();
    let cell = [500_000i64, 500_000, 500_000, 500_000, 900_000, 900_000];
    let mut data = Vec::new();
    for _ in 0..2 {
        data.extend_from_slice(&cell);
    }
    let t1 = RawTensor::new(data.clone(), 2, 1, 1, 1, 6).unwrap();
    let t2 = RawTensor::new(data, 2, 1, 1, 1, 6).unwrap();
    let out = post.box_decode(&vec![t1, t2], 500_000).unwrap();
    assert_eq!(out.len(), 2);
    for db in &out {
        assert_eq!(db.len, 2);
        // stride 8, scaled anchor 10: center 4, extent 10
        assert_eq!(db.x1[0], -1 * UNIT);
        assert_eq!(db.x2[0], 9 * UNIT);
        // stride 16, scaled anchor 20: center 8, extent 4 * 0.25 * 20 = 20
        assert_eq!(db.x1[1], -2 * UNIT);
        assert_eq!(db.x2[1], 18 * UNIT);
        assert_eq!(db.scores[0], 810_000);
        assert_eq!(db.scores[1], 810_000);
    }
}

#[test]
fn decode_caps_candidates_per_image() {
    // a 101 x 100 grid of passing cells yields 10100 candidates; the cap
    // keeps the first 10000
    let post = single_scale_postprocessor();
    let cell = [500_000i64, 500_000, 500_000, 500_000, 900_000, 900_000];
    let mut data = Vec::new();
    for _ in 0..(101 * 100) {
        data.extend_from_slice(&cell);
    }
    let tensor = RawTensor::new(data, 1, 1, 101, 100, 6).unwrap();
    let out = post.box_decode(&vec![tensor], 500_000).unwrap();
    assert_eq!(out[0].len, 10_000);
}

#[test]
fn postprocessor_rejects_out_of_range_anchor() {
    // an anchor extent beyond ANCHOR_LIMIT (ten thousand) is refused
    let r = RustPostprocessor::new(vec![10_000_000_000_001, UNIT], 1, 1, 2, vec![8 * UNIT]);
    assert_eq!(r.unwrap_err(), PostprocessError::InvalidConfig);
}

#[test]
fn postprocessor_rejects_out_of_range_stride() {
    // a stride beyond STRIDE_LIMIT (one hundred) is refused
    let r = RustPostprocessor::new(vec![UNIT, UNIT], 1, 1, 2, vec![101 * UNIT]);
    assert_eq!(r.unwrap_err(), PostprocessError::InvalidConfig);
}
