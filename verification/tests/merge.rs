//! Merging of boxes.
use postprocessor::iou::{box_iou, AreaShare};
use postprocessor::merge::{
    merge_detections, merge_detections_contained, BoxMeasure, MergeRule, PairMeasure,
};
use postprocessor::reading::{bits_of_level, level_of_bits, Level, LEVEL_LIMIT};
use postprocessor::types::{Detection, Extent, Rect};

/// The reading of a real. What is not a number reads lower than everything.
fn level(value: f32) -> Level {
    level_or(value, Level::MIN)
}

/// The reading of a real, and of what is not a number.
fn level_or(value: f32, not_a_number: Level) -> Level {
    level_of_bits(value.to_bits()).unwrap_or(not_a_number)
}

/// The real behind a reading.
fn number(level: Level) -> f32 {
    if level.unsigned_abs() > LEVEL_LIMIT {
        return f32::NAN;
    }
    f32::from_bits(bits_of_level(level))
}

/// The four edges of a box.
fn extent(rect: &Rect) -> Extent {
    Extent {
        left: rect.x,
        top: rect.y,
        right: level(number(rect.x) + number(rect.width)),
        bottom: level(number(rect.y) + number(rect.height)),
    }
}

/// The box of a detection.
fn rect_of(d: &Detection) -> Rect {
    Rect {
        x: d.x,
        y: d.y,
        width: d.width,
        height: d.height,
    }
}

/// The areas of two boxes.
fn area_share(a: &Rect, b: &Rect) -> AreaShare {
    let (ax, ay, aw, ah) = (number(a.x), number(a.y), number(a.width), number(a.height));
    let (bx, by, bw, bh) = (number(b.x), number(b.y), number(b.width), number(b.height));
    let ix1 = ax.max(bx);
    let iy1 = ay.max(by);
    let ix2 = (ax + aw).min(bx + bw);
    let iy2 = (ay + ah).min(by + bh);
    let inter = (ix2 - ix1).max(0.0) * (iy2 - iy1).max(0.0);
    let union = aw * ah + bw * bh - inter;
    AreaShare {
        union: level(union),
        ratio: level(inter / union),
    }
}

/// The overlap of two boxes.
fn overlap(a: &Rect, b: &Rect) -> Level {
    box_iou(&extent(a), &extent(b), &area_share(a, b))
}

/// How much of its height a fragment may be off an edge of a box.
const FRAGMENT_EDGE: f32 = 0.05;

fn box_measures(detections: &[Detection]) -> Vec<BoxMeasure> {
    detections
        .iter()
        .map(|d| {
            let e = extent(&rect_of(d));
            BoxMeasure {
                extent: e,
                area: level(number(d.width) * number(d.height)),
                tolerance: level((number(e.bottom) - number(e.top)) * FRAGMENT_EDGE),
            }
        })
        .collect()
}

fn pair_measure(a: &BoxMeasure, b: &BoxMeasure) -> PairMeasure {
    let ix1 = number(a.extent.left).max(number(b.extent.left));
    let iy1 = number(a.extent.top).max(number(b.extent.top));
    let ix2 = number(a.extent.right).min(number(b.extent.right));
    let iy2 = number(a.extent.bottom).min(number(b.extent.bottom));
    let inter = (ix2 - ix1).max(0.0) * (iy2 - iy1).max(0.0);
    let union = number(a.area) + number(b.area) - inter;
    PairMeasure {
        left_gap: level_or((number(a.extent.left) - number(b.extent.left)).abs(), Level::MAX),
        top_gap: level_or((number(a.extent.top) - number(b.extent.top)).abs(), Level::MAX),
        bottom_gap: level_or(
            (number(a.extent.bottom) - number(b.extent.bottom)).abs(),
            Level::MAX,
        ),
        inter: level(inter),
        share: level(inter / number(a.area).min(number(b.area))),
        union: level(union),
        ratio: level(inter / union),
    }
}

fn minus(a: Level, b: Level) -> Level {
    level(number(a) - number(b))
}

/// Merges boxes of the same class that are close or overlap.
fn merge(
    detections: &Vec<Detection>,
    iou_threshold: f32,
    close_threshold: f32,
) -> Vec<Detection> {
    let boxes = box_measures(detections);
    let relate = |a: usize, b: usize| pair_measure(&boxes[a], &boxes[b]);
    merge_detections(
        detections,
        &boxes,
        &relate,
        &minus,
        level_or(iou_threshold, Level::MAX),
        level(close_threshold),
    )
}

/// Merges boxes of the same class, where for the listed classes enough of the smaller box
/// has to be inside the other.
fn merge_contained(
    detections: &Vec<Detection>,
    iou_threshold: f32,
    close_threshold: f32,
    contained: &Vec<String>,
    min_share: f32,
) -> Vec<Detection> {
    let boxes = box_measures(detections);
    let relate = |a: usize, b: usize| pair_measure(&boxes[a], &boxes[b]);
    let rule = MergeRule {
        iou_threshold: level_or(iou_threshold, Level::MAX),
        close_threshold: level(close_threshold),
        min_share: level(min_share),
    };
    merge_detections_contained(detections, &boxes, &relate, &minus, &rule, contained)
}

fn det(x: f32, y: f32, w: f32, h: f32, conf: f32, label: &str) -> Detection {
    Detection {
        x: level(x),
        y: level(y),
        width: level(w),
        height: level(h),
        confidence: level(conf),
        label: label.to_string(),
    }
}

#[test]
fn merge_empty_input() {
    assert!(merge(&Vec::new(), 0.5, 0.1).is_empty());
}

#[test]
fn single_detection_unchanged() {
    let input = vec![det(0.1, 0.1, 0.2, 0.2, 0.9, "person")];
    let out = merge(&input, 0.5, 0.1);
    assert_eq!(out.len(), 1);
    assert!((number(out[0].x) - 0.1).abs() < 1e-6);
    assert!((number(out[0].confidence) - 0.9).abs() < 1e-6);
}

#[test]
fn overlapping_boxes_merged_to_union() {
    let input = vec![
        det(0.1, 0.1, 0.2, 0.2, 0.7, "person"),
        det(0.15, 0.15, 0.2, 0.2, 0.9, "person"),
    ];
    let out = merge(&input, 0.01, 0.001);
    assert_eq!(out.len(), 1);
    let m = &out[0];
    assert!((number(m.x) - 0.1).abs() < 1e-6);
    assert!((number(m.y) - 0.1).abs() < 1e-6);
    assert!((number(m.width) - 0.25).abs() < 1e-6);
    assert!((number(m.height) - 0.25).abs() < 1e-6);
    assert!((number(m.confidence) - 0.9).abs() < 1e-6);
}

#[test]
fn close_corners_merged_even_without_iou() {
    let input = vec![
        det(0.10, 0.10, 0.05, 0.05, 0.8, "person"),
        det(0.12, 0.12, 0.05, 0.05, 0.7, "person"),
    ];
    let out = merge(&input, 0.5, 0.05);
    assert_eq!(out.len(), 1);
}

#[test]
fn different_labels_not_merged() {
    let input = vec![
        det(0.1, 0.1, 0.2, 0.2, 0.7, "person"),
        det(0.1, 0.1, 0.2, 0.2, 0.9, "car"),
    ];
    let out = merge(&input, 0.01, 0.001);
    assert_eq!(out.len(), 2);
}

#[test]
fn distant_boxes_not_merged() {
    let input = vec![
        det(0.1, 0.1, 0.05, 0.05, 0.7, "person"),
        det(0.8, 0.8, 0.05, 0.05, 0.9, "person"),
    ];
    let out = merge(&input, 0.5, 0.01);
    assert_eq!(out.len(), 2);
}

#[test]
fn three_box_chain() {
    let input = vec![
        det(0.10, 0.10, 0.10, 0.10, 0.5, "person"),
        det(0.15, 0.15, 0.10, 0.10, 0.6, "person"),
        det(0.20, 0.20, 0.10, 0.10, 0.7, "person"),
    ];
    let out = merge(&input, 0.01, 0.001);
    assert_eq!(out.len(), 1);
    let m = &out[0];
    assert!((number(m.x) - 0.1).abs() < 1e-6);
    assert!((number(m.width) - 0.2).abs() < 1e-6);
}

#[test]
fn contained_label_keeps_two_people_apart() {
    // one lying, one sitting, iou above 0.3 but only half inside
    let input = vec![
        det(0.863, 0.474, 0.103, 0.197, 0.52, "person"),
        det(0.920, 0.449, 0.080, 0.235, 0.51, "person"),
    ];
    let people = vec!["person".to_string()];
    assert_eq!(merge(&input, 0.3, 0.0).len(), 1);
    assert_eq!(merge_contained(&input, 0.3, 0.0, &people, 0.85).len(), 2);
}

#[test]
fn contained_label_still_merges_a_fragment() {
    // the legs of a person inside the full box
    let input = vec![
        det(0.549, 0.046, 0.080, 0.333, 0.80, "person"),
        det(0.549, 0.233, 0.066, 0.149, 0.60, "person"),
    ];
    let people = vec!["person".to_string()];
    let out = merge_contained(&input, 0.3, 0.0, &people, 0.85);
    assert_eq!(out.len(), 1);
    assert!((number(out[0].confidence) - 0.80).abs() < 1e-6);
}

#[test]
fn contained_label_merges_a_small_fragment_cut_at_a_seam() {
    // the legs below a window edge and a crouching child's head, both far below iou 0.3
    // but on the body's bottom or top edge
    let people = vec!["person".to_string()];
    let legs = vec![
        det(0.570, 0.147, 0.062, 0.213, 0.90, "person"),
        det(0.573, 0.289, 0.034, 0.071, 0.77, "person"),
    ];
    let head = vec![
        det(0.430, 0.773, 0.102, 0.226, 0.80, "person"),
        det(0.433, 0.775, 0.071, 0.076, 0.44, "person"),
    ];
    assert_eq!(merge_contained(&legs, 0.3, 0.0, &Vec::new(), 0.0).len(), 2);
    assert_eq!(merge_contained(&legs, 0.3, 0.0, &people, 0.85).len(), 1);
    assert_eq!(merge_contained(&head, 0.3, 0.0, &people, 0.85).len(), 1);
}

#[test]
fn contained_label_keeps_a_person_hidden_inside_another_box() {
    // a woman on the sofa behind the man, 94 % inside his box
    let input = vec![
        det(0.871, 0.431, 0.129, 0.248, 0.70, "person"),
        det(0.868, 0.524, 0.052, 0.120, 0.53, "person"),
    ];
    let people = vec!["person".to_string()];
    assert_eq!(merge_contained(&input, 0.3, 0.0, &people, 0.85).len(), 2);
}

#[test]
fn other_labels_ignore_the_containment_rule() {
    let input = vec![
        det(0.863, 0.474, 0.103, 0.197, 0.52, "vehicle"),
        det(0.920, 0.449, 0.080, 0.235, 0.51, "vehicle"),
    ];
    let people = vec!["person".to_string()];
    assert_eq!(merge_contained(&input, 0.3, 0.0, &people, 0.85).len(), 1);
}

#[test]
fn classes_come_out_in_the_order_they_first_appear() {
    let input = vec![
        det(0.1, 0.1, 0.1, 0.1, 0.7, "car"),
        det(0.5, 0.5, 0.1, 0.1, 0.9, "person"),
        det(0.8, 0.1, 0.1, 0.1, 0.8, "car"),
    ];
    let out = merge(&input, 0.5, 0.001);
    let labels: Vec<&str> = out.iter().map(|d| d.label.as_str()).collect();
    assert_eq!(labels, vec!["car", "car", "person"]);
    assert_eq!(out[0].x, level(0.1));
    assert_eq!(out[1].x, level(0.8));
}

/// A chain of three cars, two persons that belong together, and two boxes on their own.
fn crowd() -> Vec<Detection> {
    vec![
        det(0.10, 0.10, 0.20, 0.20, 0.5, "car"),
        det(0.60, 0.60, 0.10, 0.20, 0.7, "person"),
        det(0.15, 0.10, 0.20, 0.20, 0.9, "car"),
        det(0.80, 0.10, 0.10, 0.10, 0.4, "car"),
        det(0.62, 0.60, 0.10, 0.20, 0.6, "person"),
        det(0.20, 0.12, 0.20, 0.20, 0.8, "car"),
        det(0.10, 0.80, 0.10, 0.10, 0.3, "dog"),
    ]
}

type Row = (Level, Level, Level, Level, Level, String);

fn rows(boxes: &[Detection]) -> Vec<Row> {
    let mut rows: Vec<Row> = boxes
        .iter()
        .map(|d| (d.x, d.y, d.width, d.height, d.confidence, d.label.clone()))
        .collect();
    rows.sort();
    rows
}

#[test]
fn the_order_of_the_boxes_does_not_matter() {
    let input = crowd();
    let expected = rows(&merge(&input, 0.3, 0.001));
    assert_eq!(expected.len(), 4);
    for turn in 0..input.len() {
        let mut turned = input.clone();
        turned.rotate_left(turn);
        assert_eq!(rows(&merge(&turned, 0.3, 0.001)), expected);
        turned.reverse();
        assert_eq!(rows(&merge(&turned, 0.3, 0.001)), expected);
    }
}

#[test]
fn every_box_is_covered() {
    let input = crowd();
    let out = merge(&input, 0.3, 0.001);
    assert!(out.len() <= input.len());
    for d in &input {
        let right = number(d.x) + number(d.width) - 1e-6;
        let bottom = number(d.y) + number(d.height) - 1e-6;
        assert!(out.iter().any(|o| {
            o.label == d.label
                && o.confidence >= d.confidence
                && o.x <= d.x
                && o.y <= d.y
                && number(o.x) + number(o.width) >= right
                && number(o.y) + number(o.height) >= bottom
        }));
    }
}

#[test]
fn boxes_that_do_not_overlap_share_nothing() {
    let input = vec![
        det(0.10, 0.10, 0.01, 0.10, 0.9, "person"),
        det(0.12, 0.10, 0.01, 0.10, 0.8, "person"),
    ];
    let persons = vec!["person".to_string()];
    assert_eq!(merge_contained(&input, 0.3, 0.05, &persons, 0.6).len(), 2);
    assert_eq!(merge_contained(&input, 0.3, 0.05, &vec![], 0.6).len(), 1);
}

#[test]
fn merged_boxes_end_at_the_edges_of_the_image() {
    let input = vec![
        det(-0.1, -0.1, 0.5, 0.5, 0.7, "car"),
        det(-0.05, -0.05, 0.5, 0.5, 0.9, "car"),
    ];
    let out = merge(&input, 0.1, 0.001);
    assert_eq!(out.len(), 1);
    assert_eq!((number(out[0].x), number(out[0].y)), (0.0, 0.0));
    assert!((number(out[0].width) - 0.45).abs() < 1e-6);
}

#[test]
fn boxes_outside_the_image_are_merged_away() {
    let input = vec![
        det(1.1, 0.1, 0.2, 0.2, 0.7, "car"),
        det(1.1, 0.1, 0.2, 0.2, 0.9, "car"),
    ];
    assert!(merge(&input, 0.1, 0.001).is_empty());
}
