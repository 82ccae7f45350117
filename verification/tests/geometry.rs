// Tests of the box-geometry utilities and the detection-set container.

use yolo_postprocess::boxes::Candidate;
use yolo_postprocess::boxes::DetectionBoxes;
use yolo_postprocess::boxes::PostprocessError;
use yolo_postprocess::boxes::centered_box_to_ltrb_bulk;
use yolo_postprocess::fixed::SCALE;
use yolo_postprocess::nms::iou_scaled;

const UNIT: i64 = SCALE;

#[test]
fn corner_conversion_exact() {
    // center (4, 4), extent (10, 10): corners (-1, -1, 9, 9)
    let (x1, y1, x2, y2) = centered_box_to_ltrb_bulk(
        &vec![4 * UNIT],
        &vec![4 * UNIT],
        &vec![10 * UNIT],
        &vec![10 * UNIT],
    )
    .unwrap();
    assert_eq!(x1, vec![-1 * UNIT]);
    assert_eq!(y1, vec![-1 * UNIT]);
    assert_eq!(x2, vec![9 * UNIT]);
    assert_eq!(y2, vec![9 * UNIT]);
}

#[test]
fn corner_conversion_rejects_length_mismatch() {
    let r = centered_box_to_ltrb_bulk(&vec![0], &vec![0], &vec![0, 0], &vec![0]);
    assert_eq!(r.unwrap_err(), PostprocessError::InvalidInput);
}

#[test]
fn boxes_new_rejects_length_mismatch() {
    let r = DetectionBoxes::new(vec![0], vec![0], vec![0], vec![0], vec![0, 0], vec![0]);
    assert_eq!(r.unwrap_err(), PostprocessError::InvalidInput);
}

#[test]
fn boxes_append_is_atomic() {
    let mut db = DetectionBoxes::empty();
    db.append(vec![1], vec![2], vec![3], vec![4], vec![5], vec![6]).unwrap();
    assert_eq!(db.len, 1);
    // a mismatched append changes nothing at all
    let r = db.append(vec![7, 8], vec![9], vec![9], vec![9], vec![9], vec![9]);
    assert_eq!(r.unwrap_err(), PostprocessError::InvalidInput);
    assert_eq!(db.len, 1);
    assert_eq!(db.x1, vec![1]);
    assert_eq!(db.scores, vec![5]);
}

#[test]
fn sort_and_trim_keeps_top_k_ascending() {
    // scores 0.3, 0.1, 0.4, 0.2; keep the two best, lowest kept score first
    let mut db = DetectionBoxes::new(
        vec![10, 11, 12, 13],
        vec![20, 21, 22, 23],
        vec![30, 31, 32, 33],
        vec![40, 41, 42, 43],
        vec![300_000, 100_000, 400_000, 200_000],
        vec![0, 1, 2, 3],
    )
    .unwrap();
    db.sort_by_score_and_trim(2);
    assert_eq!(db.len, 2);
    assert_eq!(db.scores, vec![300_000, 400_000]);
    assert_eq!(db.x1, vec![10, 12]);
    assert_eq!(db.classes, vec![0, 2]);
}

#[test]
fn sort_and_trim_with_large_k_reorders_only() {
    let mut db = DetectionBoxes::new(
        vec![10, 11],
        vec![20, 21],
        vec![30, 31],
        vec![40, 41],
        vec![900_000, 100_000],
        vec![0, 1],
    )
    .unwrap();
    db.sort_by_score_and_trim(5);
    assert_eq!(db.len, 2);
    assert_eq!(db.scores, vec![100_000, 900_000]);
    assert_eq!(db.x1, vec![11, 10]);
}

#[test]
fn iou_is_symmetric_and_exact() {
    let a = Candidate { x1: 0, y1: 0, x2: 10 * UNIT, y2: 10 * UNIT, score: 0, class: 0 };
    let b = Candidate { x1: 0, y1: 0, x2: 5 * UNIT, y2: 10 * UNIT, score: 0, class: 0 };
    let ab = iou_scaled(&a, &b, 10);
    let ba = iou_scaled(&b, &a, 10);
    assert_eq!(ab, ba);
    // inter 5e13, union 1e14 + 1e-5: the ratio truncates just under one half
    assert_eq!(ab, 499_999);
}

#[test]
fn iou_of_disjoint_boxes_is_zero() {
    let a = Candidate { x1: 0, y1: 0, x2: UNIT, y2: UNIT, score: 0, class: 0 };
    let b = Candidate { x1: 5 * UNIT, y1: 5 * UNIT, x2: 6 * UNIT, y2: 6 * UNIT, score: 0, class: 0 };
    assert_eq!(iou_scaled(&a, &b, 10), 0);
}

#[test]
fn iou_epsilon_guards_zero_area() {
    // two zero-area boxes: the epsilon keeps the denominator positive
    let a = Candidate { x1: UNIT, y1: UNIT, x2: UNIT, y2: UNIT, score: 0, class: 0 };
    assert_eq!(iou_scaled(&a, &a, 10), 0);
}
