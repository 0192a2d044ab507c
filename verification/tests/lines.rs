//! Lines and crossings.
use postprocessor::line_crossing::{
    prepare_lines, segment_intersection, CrossingDirection, DetectionLineInput,
    LineDirectionFilter, LineEnds, PreparedLine, SegmentMeasure,
};
use postprocessor::reading::{
    bits_of_level, bits_of_stamp, level_of_bits, stamp_of_bits, Level, Stamp, LEVEL_LIMIT,
    STAMP_LIMIT,
};
use postprocessor::types::{Point, UiPoint};

/// The reading of a real. What is not a number reads lower than everything.
fn level(value: f32) -> Level {
    level_or(value, Level::MIN)
}

/// The reading of a real, and of what is not a number.
fn level_or(value: f32, not_a_number: Level) -> Level {
    level_of_bits(value.to_bits()).unwrap_or(not_a_number)
}

/// The real behind a reading.
fn number(level: Level) -> f32 {
    if level.unsigned_abs() > LEVEL_LIMIT {
        return f32::NAN;
    }
    f32::from_bits(bits_of_level(level))
}

/// The reading of a 64-bit real. What is not a number reads lower than everything.
fn stamp(value: f64) -> Stamp {
    stamp_of_bits(value.to_bits()).unwrap_or(Stamp::MIN)
}

/// The real behind a 64-bit reading.
fn time(stamp: Stamp) -> f64 {
    if stamp.unsigned_abs() > STAMP_LIMIT {
        return f64::NAN;
    }
    f64::from_bits(bits_of_stamp(stamp))
}

/// The place of a drawn point in the image.
fn scaled(p: &UiPoint) -> Point {
    Point {
        x: level((time(p.x) / 100.0) as f32),
        y: level((time(p.y) / 100.0) as f32),
    }
}

/// How a movement lies to a line.
fn segment_measure(from: &Point, to: &Point, line: &PreparedLine) -> SegmentMeasure {
    let (ax, ay) = (number(from.x), number(from.y));
    let (bx, by) = (number(to.x), number(to.y));
    let (cx, cy) = (number(line.p1.x), number(line.p1.y));
    let (dx, dy) = (number(line.p2.x), number(line.p2.y));
    let denom = (bx - ax) * (dy - cy) - (by - ay) * (dx - cx);
    let t = ((cx - ax) * (dy - cy) - (cy - ay) * (dx - cx)) / denom;
    let u = ((cx - ax) * (by - ay) - (cy - ay) * (bx - ax)) / denom;
    SegmentMeasure {
        denom: level_or(denom.abs(), Level::MAX),
        along_track: level(t),
        along_line: level(u),
        cross: level((bx - ax) * (dy - cy) - (by - ay) * (dx - cx)),
    }
}

fn line(name: &str, p1: [f64; 2], p2: [f64; 2]) -> DetectionLineInput {
    let ui = |p: [f64; 2]| UiPoint {
        x: stamp(p[0]),
        y: stamp(p[1]),
    };
    DetectionLineInput {
        name: name.to_string(),
        direction: LineDirectionFilter::Both,
        labels: Vec::new(),
        points: [ui(p1), ui(p2)],
    }
}

/// The line as it was drawn.
fn drawn_ends(a: &UiPoint, b: &UiPoint, _aspect_ratio: Level) -> LineEnds {
    LineEnds {
        p1: scaled(a),
        p2: scaled(b),
    }
}

fn prepare(lines: Vec<DetectionLineInput>) -> Vec<PreparedLine> {
    prepare_lines(&lines, level(1.0), &drawn_ends)
}

fn point(x: f32, y: f32) -> Point {
    Point {
        x: level(x),
        y: level(y),
    }
}

fn drawn(c: [f32; 2], d: [f32; 2]) -> PreparedLine {
    PreparedLine {
        name: "line".to_string(),
        direction: LineDirectionFilter::Both,
        labels: Vec::new(),
        p1: point(c[0], c[1]),
        p2: point(d[0], d[1]),
    }
}

fn intersection(a: [f32; 2], b: [f32; 2], c: [f32; 2], d: [f32; 2]) -> f32 {
    let m = segment_measure(&point(a[0], a[1]), &point(b[0], b[1]), &drawn(c, d));
    number(segment_intersection(&m))
}

#[test]
fn prepare_keeps_the_drawn_line() {
    let prepared = prepare(vec![line("h", [10.0, 50.0], [90.0, 60.0])]);
    assert_eq!(prepared.len(), 1);
    let p = &prepared[0];
    assert_eq!([number(p.p1.x), number(p.p1.y)], [0.1, 0.5]);
    assert_eq!([number(p.p2.x), number(p.p2.y)], [0.9, 0.6]);
}

#[test]
fn segment_intersection_basic() {
    let cross = intersection([0.0, 0.0], [1.0, 1.0], [0.0, 1.0], [1.0, 0.0]);
    assert!(cross != 0.0);
}

#[test]
fn segment_intersection_no_overlap() {
    let cross = intersection([0.0, 0.0], [1.0, 0.0], [0.0, 1.0], [1.0, 1.0]);
    assert_eq!(cross, 0.0);
}

#[test]
fn segment_intersection_disjoint() {
    let cross = intersection([0.0, 0.0], [0.1, 0.1], [0.5, 0.5], [0.6, 0.6]);
    assert_eq!(cross, 0.0);
}

#[test]
fn cross_sign_indicates_direction() {
    let cross_lr = intersection([0.4, 0.5], [0.6, 0.5], [0.5, 0.0], [0.5, 1.0]);
    assert!(cross_lr > 0.0);
    let cross_rl = intersection([0.6, 0.5], [0.4, 0.5], [0.5, 0.0], [0.5, 1.0]);
    assert!(cross_rl < 0.0);
}

#[test]
fn a_line_watches_its_labels_in_lower_case() {
    let mut input = line("gate", [0.0, 50.0], [100.0, 50.0]);
    input.labels = vec!["Car".to_string()];
    let prepared = prepare(vec![input]);
    assert_eq!(prepared[0].labels, vec!["car".to_string()]);
    let m = SegmentMeasure {
        denom: level(1.0),
        along_track: level(0.5),
        along_line: level(0.5),
        cross: level(-0.5),
    };
    assert_eq!(
        prepared[0].crossing(&"car".to_string(), &m),
        Some(CrossingDirection::BToA)
    );
    assert_eq!(prepared[0].crossing(&"person".to_string(), &m), None);
}

#[test]
fn a_line_reports_only_its_direction() {
    let mut input = line("gate", [0.0, 50.0], [100.0, 50.0]);
    input.direction = LineDirectionFilter::AToB;
    let prepared = prepare(vec![input]);
    let there = SegmentMeasure {
        denom: level(1.0),
        along_track: level(0.0),
        along_line: level(1.0),
        cross: level(0.5),
    };
    let back = SegmentMeasure {
        cross: level(-0.5),
        ..there
    };
    let label = "car".to_string();
    assert_eq!(
        prepared[0].crossing(&label, &there),
        Some(CrossingDirection::AToB)
    );
    assert_eq!(prepared[0].crossing(&label, &back), None);
}

#[test]
fn a_crossing_needs_a_meeting_point_on_both() {
    let hit = SegmentMeasure {
        denom: level(1.0),
        along_track: level(0.5),
        along_line: level(0.5),
        cross: level(0.25),
    };
    assert_eq!(segment_intersection(&hit), level(0.25));
    let past = SegmentMeasure {
        along_track: level(1.01),
        ..hit
    };
    assert_eq!(segment_intersection(&past), 0);
    let beside = SegmentMeasure {
        along_line: level(-0.01),
        ..hit
    };
    assert_eq!(segment_intersection(&beside), 0);
    let parallel = SegmentMeasure {
        denom: level(1e-13),
        ..hit
    };
    assert_eq!(segment_intersection(&parallel), 0);
}
