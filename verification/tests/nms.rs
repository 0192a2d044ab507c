//! Suppression of overlapping boxes.
use std::cell::RefCell;

use postprocessor::iou::{box_iou, AreaShare};
use postprocessor::nms::{nms, nms_indices};
use postprocessor::reading::{
    bits_of_level, bits_of_stamp, level_of_bits, stamp_of_bits, Level, Stamp, LEVEL_LIMIT,
    STAMP_LIMIT,
};
use postprocessor::types::{Detection, Extent, Rect};
use wide::f32x8;

/// The reading of a real. What is not a number reads lower than everything.
fn level(value: f32) -> Level {
    level_or(value, Level::MIN)
}

/// The reading of a real, and of what is not a number.
fn level_or(value: f32, not_a_number: Level) -> Level {
    level_of_bits(value.to_bits()).unwrap_or(not_a_number)
}

/// The real behind a reading.
fn number(level: Level) -> f32 {
    if level.unsigned_abs() > LEVEL_LIMIT {
        return f32::NAN;
    }
    f32::from_bits(bits_of_level(level))
}

/// The reading of a 64-bit real. What is not a number reads lower than everything.
fn stamp(value: f64) -> Stamp {
    stamp_of_bits(value.to_bits()).unwrap_or(Stamp::MIN)
}

/// The real behind a 64-bit reading.
fn time(stamp: Stamp) -> f64 {
    if stamp.unsigned_abs() > STAMP_LIMIT {
        return f64::NAN;
    }
    f64::from_bits(bits_of_stamp(stamp))
}

/// The four edges of a box.
fn extent(rect: &Rect) -> Extent {
    Extent {
        left: rect.x,
        top: rect.y,
        right: level(number(rect.x) + number(rect.width)),
        bottom: level(number(rect.y) + number(rect.height)),
    }
}

/// The box of a detection.
fn rect_of(d: &Detection) -> Rect {
    Rect {
        x: d.x,
        y: d.y,
        width: d.width,
        height: d.height,
    }
}

/// The areas of two boxes.
fn area_share(a: &Rect, b: &Rect) -> AreaShare {
    let (ax, ay, aw, ah) = (number(a.x), number(a.y), number(a.width), number(a.height));
    let (bx, by, bw, bh) = (number(b.x), number(b.y), number(b.width), number(b.height));
    let ix1 = ax.max(bx);
    let iy1 = ay.max(by);
    let ix2 = (ax + aw).min(bx + bw);
    let iy2 = (ay + ah).min(by + bh);
    let inter = (ix2 - ix1).max(0.0) * (iy2 - iy1).max(0.0);
    let union = aw * ah + bw * bh - inter;
    AreaShare {
        union: level(union),
        ratio: level(inter / union),
    }
}

/// The overlap of two boxes.
fn overlap(a: &Rect, b: &Rect) -> Level {
    box_iou(&extent(a), &extent(b), &area_share(a, b))
}

/// The edges and areas of boxes, side by side.
struct Columns {
    x1: Vec<f32>,
    y1: Vec<f32>,
    x2: Vec<f32>,
    y2: Vec<f32>,
    areas: Vec<f32>,
}

impl Columns {
    fn new(detections: &[Detection]) -> Self {
        let lanes = detections.len().div_ceil(8) * 8;
        let mut columns = Columns {
            x1: vec![0.0; lanes],
            y1: vec![0.0; lanes],
            x2: vec![0.0; lanes],
            y2: vec![0.0; lanes],
            areas: vec![0.0; lanes],
        };
        for (i, d) in detections.iter().enumerate() {
            let (x, y, w, h) = (number(d.x), number(d.y), number(d.width), number(d.height));
            columns.x1[i] = x;
            columns.y1[i] = y;
            columns.x2[i] = x + w;
            columns.y2[i] = y + h;
            columns.areas[i] = w * h;
        }
        columns
    }

    /// The areas of box `a` and each other box, eight at a time.
    fn row(&self, a: usize) -> Vec<AreaShare> {
        let ax1 = f32x8::splat(self.x1[a]);
        let ay1 = f32x8::splat(self.y1[a]);
        let ax2 = f32x8::splat(self.x2[a]);
        let ay2 = f32x8::splat(self.y2[a]);
        let area = f32x8::splat(self.areas[a]);
        let zero = f32x8::splat(0.0);
        let mut row = Vec::with_capacity(self.x1.len());
        for at in (0..self.x1.len()).step_by(8) {
            let ix1 = ax1.fast_max(lanes(&self.x1, at));
            let iy1 = ay1.fast_max(lanes(&self.y1, at));
            let ix2 = ax2.fast_min(lanes(&self.x2, at));
            let iy2 = ay2.fast_min(lanes(&self.y2, at));
            let inter = (ix2 - ix1).fast_max(zero) * (iy2 - iy1).fast_max(zero);
            let union = area + lanes(&self.areas, at) - inter;
            let ratio: [f32; 8] = (inter / union).into();
            let union: [f32; 8] = union.into();
            for lane in 0..8 {
                row.push(AreaShare {
                    union: level(union[lane]),
                    ratio: level(ratio[lane]),
                });
            }
        }
        row
    }
}

fn lanes(column: &[f32], at: usize) -> f32x8 {
    let mut eight = [0.0; 8];
    eight.copy_from_slice(&column[at..at + 8]);
    f32x8::new(eight)
}

fn extents(detections: &[Detection]) -> Vec<Extent> {
    detections.iter().map(|d| extent(&rect_of(d))).collect()
}

/// The detections that survive, the best first.
fn suppress(
    detections: &Vec<Detection>,
    iou_threshold: f32,
    max_detections: Option<usize>,
) -> Vec<Detection> {
    let columns = Columns::new(detections);
    let row: RefCell<Option<(usize, Vec<AreaShare>)>> = RefCell::new(None);
    let share = |a: usize, b: usize| areas_of(&columns, &row, a, b);
    nms(
        detections,
        &extents(detections),
        &share,
        level_or(iou_threshold, Level::MAX),
        max_detections,
    )
}

/// The numbers of the detections that survive, the best first.
fn suppress_indices(detections: &Vec<Detection>, iou_threshold: f32) -> Vec<usize> {
    let columns = Columns::new(detections);
    let row: RefCell<Option<(usize, Vec<AreaShare>)>> = RefCell::new(None);
    let share = |a: usize, b: usize| areas_of(&columns, &row, a, b);
    nms_indices(
        detections,
        &extents(detections),
        &share,
        level_or(iou_threshold, Level::MAX),
    )
}

/// The areas of two boxes, out of the row that is computed for the first one.
fn areas_of(
    columns: &Columns,
    row: &RefCell<Option<(usize, Vec<AreaShare>)>>,
    a: usize,
    b: usize,
) -> AreaShare {
    let mut row = row.borrow_mut();
    match row.as_ref() {
        Some((of, shares)) if *of == a => shares[b],
        _ => {
            let shares = columns.row(a);
            let share = shares[b];
            *row = Some((a, shares));
            share
        }
    }
}

fn det(x: f32, y: f32, w: f32, h: f32, conf: f32, label: &str) -> Detection {
    Detection {
        x: level(x),
        y: level(y),
        width: level(w),
        height: level(h),
        confidence: level(conf),
        label: label.to_string(),
    }
}

#[test]
fn nms_empty_input() {
    assert!(suppress(&Vec::new(), 0.5, None).is_empty());
}

#[test]
fn single_box_kept() {
    let input = vec![det(0.1, 0.1, 0.2, 0.2, 0.9, "person")];
    let out = suppress(&input, 0.5, None);
    assert_eq!(out.len(), 1);
}

#[test]
fn duplicate_boxes_suppressed() {
    let input = vec![
        det(0.1, 0.1, 0.2, 0.2, 0.9, "person"),
        det(0.1, 0.1, 0.2, 0.2, 0.8, "person"),
        det(0.1, 0.1, 0.2, 0.2, 0.7, "person"),
    ];
    let out = suppress(&input, 0.5, None);
    assert_eq!(out.len(), 1);
    assert!((number(out[0].confidence) - 0.9).abs() < 1e-6);
}

#[test]
fn different_classes_kept() {
    let input = vec![
        det(0.1, 0.1, 0.2, 0.2, 0.9, "person"),
        det(0.1, 0.1, 0.2, 0.2, 0.8, "car"),
    ];
    let out = suppress(&input, 0.5, None);
    assert_eq!(out.len(), 2);
}

#[test]
fn many_overlapping_simd_path() {
    let mut input = Vec::new();
    for i in 0..20 {
        input.push(det(0.1, 0.1, 0.2, 0.2, 0.9 - i as f32 * 0.001, "person"));
    }
    let out = suppress(&input, 0.5, None);
    assert_eq!(out.len(), 1);
}

#[test]
fn max_detections_cap() {
    let input = vec![
        det(0.0, 0.0, 0.1, 0.1, 0.9, "a"),
        det(0.2, 0.2, 0.1, 0.1, 0.85, "b"),
        det(0.4, 0.4, 0.1, 0.1, 0.8, "c"),
        det(0.6, 0.6, 0.1, 0.1, 0.75, "d"),
    ];
    let out = suppress(&input, 0.5, Some(2));
    assert_eq!(out.len(), 2);
    assert!((number(out[0].confidence) - 0.9).abs() < 1e-6);
    assert!((number(out[1].confidence) - 0.85).abs() < 1e-6);
}

#[test]
fn output_sorted_by_confidence() {
    let input = vec![
        det(0.0, 0.0, 0.1, 0.1, 0.5, "a"),
        det(0.2, 0.2, 0.1, 0.1, 0.9, "b"),
        det(0.4, 0.4, 0.1, 0.1, 0.7, "c"),
    ];
    let out = suppress(&input, 0.5, None);
    assert_eq!(out.len(), 3);
    assert!(out[0].confidence > out[1].confidence);
    assert!(out[1].confidence > out[2].confidence);
}

#[test]
fn a_limit_only_cuts_off_the_tail() {
    let mut input = Vec::new();
    for i in 0..30 {
        let x = (i % 6) as f32 * 0.15;
        let y = (i / 6) as f32 * 0.07;
        let label = if i % 4 == 0 { "a" } else { "b" };
        input.push(det(x, y, 0.12, 0.12, 0.3 + (i * 7 % 30) as f32 * 0.02, label));
    }
    let texts = |boxes: &[Detection]| -> Vec<String> {
        boxes.iter().map(|d| format!("{:?}", d)).collect()
    };
    let full = texts(&suppress(&input, 0.2, None));
    assert!(full.len() > 3 && full.len() < input.len());
    for most in 1..=40usize {
        let kept = texts(&suppress(&input, 0.2, Some(most)));
        assert_eq!(kept, full[..most.min(full.len())].to_vec());
    }
    let numbers = suppress_indices(&input, 0.2);
    let picked: Vec<Detection> = numbers.iter().map(|&i| input[i].clone()).collect();
    assert_eq!(texts(&picked), full);
    let mut once = numbers.clone();
    once.sort();
    once.dedup();
    assert_eq!(once.len(), numbers.len());
    assert!(picked.windows(2).all(|w| w[0].confidence >= w[1].confidence));
}

#[test]
fn indices_point_into_the_input() {
    let input = vec![
        det(0.0, 0.0, 0.1, 0.1, 0.5, "a"),
        det(0.2, 0.2, 0.1, 0.1, 0.9, "a"),
        det(0.21, 0.2, 0.1, 0.1, 0.7, "a"),
        det(0.6, 0.6, 0.1, 0.1, 0.9, "a"),
    ];
    assert_eq!(suppress_indices(&input, 0.5), vec![1, 3, 0]);
}

#[test]
fn one_survivor_is_kept_even_if_none_is_asked_for() {
    let input = vec![
        det(0.0, 0.0, 0.1, 0.1, 0.5, "a"),
        det(0.2, 0.2, 0.1, 0.1, 0.9, "a"),
    ];
    let out = suppress(&input, 0.5, Some(0));
    assert_eq!(out.len(), 1);
    assert_eq!(out[0].confidence, level(0.9));
}

#[test]
fn only_the_best_candidates_are_looked_at() {
    // the sixty-four best ones all overlap, so the far one behind them is never met
    let mut input = Vec::new();
    for _ in 0..64 {
        input.push(det(0.1, 0.1, 0.2, 0.2, 0.9, "a"));
    }
    input.push(det(0.6, 0.6, 0.2, 0.2, 0.1, "a"));
    assert_eq!(suppress(&input, 0.5, Some(2)).len(), 1);
    assert_eq!(suppress(&input, 0.5, None).len(), 2);
}

#[test]
fn a_survivor_suppressed_by_nobody_stays_though_it_overlaps_a_suppressed_one() {
    let input = vec![
        det(0.0, 0.0, 0.4, 0.4, 0.9, "a"),
        det(0.1, 0.0, 0.4, 0.4, 0.8, "a"),
        det(0.2, 0.0, 0.4, 0.4, 0.7, "a"),
    ];
    assert_eq!(suppress_indices(&input, 0.5), vec![0, 2]);
}
