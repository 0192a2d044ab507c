//! Overlaps of boxes.
use postprocessor::iou::{box_iou, overlapping, AreaShare};
use postprocessor::reading::{bits_of_level, level_of_bits, Level, LEVEL_LIMIT};
use postprocessor::types::{Extent, Rect};

/// The reading of a real. What is not a number reads lower than everything.
fn level(value: f32) -> Level {
    level_or(value, Level::MIN)
}

/// The reading of a real, and of what is not a number.
fn level_or(value: f32, not_a_number: Level) -> Level {
    level_of_bits(value.to_bits()).unwrap_or(not_a_number)
}

/// The real behind a reading.
fn number(level: Level) -> f32 {
    if level.unsigned_abs() > LEVEL_LIMIT {
        return f32::NAN;
    }
    f32::from_bits(bits_of_level(level))
}

/// The four edges of a box.
fn extent(rect: &Rect) -> Extent {
    Extent {
        left: rect.x,
        top: rect.y,
        right: level(number(rect.x) + number(rect.width)),
        bottom: level(number(rect.y) + number(rect.height)),
    }
}

/// The areas of two boxes.
fn area_share(a: &Rect, b: &Rect) -> AreaShare {
    let (ax, ay, aw, ah) = (number(a.x), number(a.y), number(a.width), number(a.height));
    let (bx, by, bw, bh) = (number(b.x), number(b.y), number(b.width), number(b.height));
    let ix1 = ax.max(bx);
    let iy1 = ay.max(by);
    let ix2 = (ax + aw).min(bx + bw);
    let iy2 = (ay + ah).min(by + bh);
    let inter = (ix2 - ix1).max(0.0) * (iy2 - iy1).max(0.0);
    let union = aw * ah + bw * bh - inter;
    AreaShare {
        union: level(union),
        ratio: level(inter / union),
    }
}

/// The overlap of two boxes.
fn overlap(a: &Rect, b: &Rect) -> Level {
    box_iou(&extent(a), &extent(b), &area_share(a, b))
}

fn iou(a: [f32; 4], b: [f32; 4]) -> f32 {
    let rect = |r: [f32; 4]| Rect {
        x: level(r[0]),
        y: level(r[1]),
        width: level(r[2]),
        height: level(r[3]),
    };
    number(overlap(&rect(a), &rect(b)))
}

#[test]
fn perfect_overlap() {
    let a = [0.1, 0.1, 0.2, 0.2];
    let b = [0.1, 0.1, 0.2, 0.2];
    assert!((iou(a, b) - 1.0).abs() < 1e-6);
}

#[test]
fn no_overlap() {
    let a = [0.0, 0.0, 0.1, 0.1];
    let b = [0.5, 0.5, 0.1, 0.1];
    assert_eq!(iou(a, b), 0.0);
}

#[test]
fn half_overlap_horizontal() {
    let a = [0.0, 0.0, 0.2, 0.2];
    let b = [0.1, 0.0, 0.2, 0.2];
    let v = iou(a, b);
    assert!((v - 1.0 / 3.0).abs() < 1e-6, "got {v}");
}

#[test]
fn contained() {
    let a = [0.0, 0.0, 1.0, 1.0];
    let b = [0.25, 0.25, 0.5, 0.5];
    let v = iou(a, b);
    assert!((v - 0.25).abs() < 1e-6, "got {v}");
}

#[test]
fn zero_area() {
    let a = [0.0, 0.0, 0.0, 0.0];
    let b = [0.0, 0.0, 0.5, 0.5];
    assert_eq!(iou(a, b), 0.0);
}

#[test]
fn overlap_is_symmetric() {
    let a = [0.1, 0.2, 0.3, 0.3];
    let b = [0.2, 0.1, 0.3, 0.3];
    assert_eq!(iou(a, b), iou(b, a));
    assert!(iou(a, b) > 0.0);
}

#[test]
fn overlap_is_never_negative() {
    for i in 0..10 {
        for j in 0..10 {
            let a = [0.1, 0.1, 0.05 * i as f32, 0.3];
            let b = [0.05 * j as f32, 0.2, 0.2, 0.1];
            let share = iou(a, b);
            assert!((0.0..=1.0).contains(&share));
            assert_eq!(share, iou(b, a));
        }
    }
}

#[test]
fn touching_boxes_do_not_overlap() {
    assert_eq!(iou([0.0, 0.0, 0.5, 0.5], [0.5, 0.0, 0.5, 0.5]), 0.0);
    assert_eq!(iou([0.0, 0.0, 0.5, 0.5], [0.0, 0.5, 0.5, 0.5]), 0.0);
}

#[test]
fn the_share_only_counts_for_a_union_with_an_area() {
    let a = Extent {
        left: 0,
        top: 0,
        right: 10,
        bottom: 10,
    };
    let b = Extent {
        left: 5,
        top: 5,
        right: 15,
        bottom: 15,
    };
    assert!(overlapping(&a, &b));
    assert_eq!(box_iou(&a, &b, &AreaShare { union: 1, ratio: 7 }), 7);
    assert_eq!(box_iou(&a, &b, &AreaShare { union: 0, ratio: 7 }), 0);
    let c = Extent {
        left: 10,
        top: 0,
        right: 20,
        bottom: 10,
    };
    assert!(!overlapping(&a, &c));
    assert_eq!(box_iou(&a, &c, &AreaShare { union: 1, ratio: 7 }), 0);
}
