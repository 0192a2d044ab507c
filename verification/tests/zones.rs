//! Zones and masks.
use postprocessor::polygon::{EdgeMeasure, PolygonMeasure, SideMeasure};
use postprocessor::reading::{
    bits_of_level, bits_of_stamp, level_of_bits, stamp_of_bits, Level, Stamp, LEVEL_LIMIT,
    STAMP_LIMIT,
};
use postprocessor::types::{Detection, Extent, Point, Rect, Shift, UiPoint};
use postprocessor::zone_filter::{
    filter_detections, filter_indices, prepare_zones, zone_accepts_label, Placement, PreparedZone,
    PreparedZones, ZoneFilterMode, ZoneInput, ZoneMatchType,
};

/// The reading of a real. What is not a number reads lower than everything.
fn level(value: f32) -> Level {
    level_or(value, Level::MIN)
}

/// The reading of a real, and of what is not a number.
fn level_or(value: f32, not_a_number: Level) -> Level {
    level_of_bits(value.to_bits()).unwrap_or(not_a_number)
}

/// The real behind a reading.
fn number(level: Level) -> f32 {
    if level.unsigned_abs() > LEVEL_LIMIT {
        return f32::NAN;
    }
    f32::from_bits(bits_of_level(level))
}

/// The reading of a 64-bit real. What is not a number reads lower than everything.
fn stamp(value: f64) -> Stamp {
    stamp_of_bits(value.to_bits()).unwrap_or(Stamp::MIN)
}

/// The real behind a 64-bit reading.
fn time(stamp: Stamp) -> f64 {
    if stamp.unsigned_abs() > STAMP_LIMIT {
        return f64::NAN;
    }
    f64::from_bits(bits_of_stamp(stamp))
}

/// The four edges of a box.
fn extent(rect: &Rect) -> Extent {
    Extent {
        left: rect.x,
        top: rect.y,
        right: level(number(rect.x) + number(rect.width)),
        bottom: level(number(rect.y) + number(rect.height)),
    }
}

/// The box of a detection.
fn rect_of(d: &Detection) -> Rect {
    Rect {
        x: d.x,
        y: d.y,
        width: d.width,
        height: d.height,
    }
}

/// The place of a drawn point in the image.
fn scaled(p: &UiPoint) -> Point {
    Point {
        x: level((time(p.x) / 100.0) as f32),
        y: level((time(p.y) / 100.0) as f32),
    }
}

/// The distance of two places.
fn gap(a: &Point, b: &Point) -> Shift {
    Shift {
        x: level((number(a.x) - number(b.x)).abs()),
        y: level((number(a.y) - number(b.y)).abs()),
    }
}

fn edge_measure(p: (f32, f32), end: (f32, f32), start: (f32, f32)) -> EdgeMeasure {
    let (px, py) = p;
    let (xi, yi) = end;
    let (xj, yj) = start;
    let slope = (yj - yi) / (xj - xi);
    EdgeMeasure {
        run: level_or((xi - xj).abs(), Level::MAX),
        offset: level_or((px - xi).abs(), Level::MAX),
        residual: level_or((py - (slope * px + (yi - slope * xi))).abs(), Level::MAX),
        meet_x: level((xj - xi) * (py - yi) / (yj - yi) + xi),
    }
}

fn side_measure(
    a1: (f32, f32),
    a2: (f32, f32),
    b1: (f32, f32),
    b2: (f32, f32),
) -> SideMeasure {
    let denom = (b2.1 - b1.1) * (a2.0 - a1.0) - (b2.0 - b1.0) * (a2.1 - a1.1);
    let ua = ((b2.0 - b1.0) * (a1.1 - b1.1) - (b2.1 - b1.1) * (a1.0 - b1.0)) / denom;
    let ub = ((a2.0 - a1.0) * (a1.1 - b1.1) - (a2.1 - a1.1) * (a1.0 - b1.0)) / denom;
    SideMeasure {
        denom: level_or(denom.abs(), Level::MAX),
        along_side: level(ua),
        along_edge: level(ub),
    }
}

/// How a box lies to a polygon.
fn polygon_measure(e: &Extent, polygon: &[Point]) -> PolygonMeasure {
    let (left, top) = (number(e.left), number(e.top));
    let (right, bottom) = (number(e.right), number(e.bottom));
    let corners = [(left, top), (right, top), (right, bottom), (left, bottom)];
    let vertices: Vec<(f32, f32)> = polygon.iter().map(|p| (number(p.x), number(p.y))).collect();
    let n = vertices.len();
    PolygonMeasure {
        corners: corners
            .iter()
            .map(|&corner| {
                (0..n)
                    .map(|i| edge_measure(corner, vertices[i], vertices[(i + n - 1) % n]))
                    .collect()
            })
            .collect(),
        sides: (1..n)
            .map(|i| {
                (0..4)
                    .map(|s| {
                        side_measure(
                            corners[s],
                            corners[(s + 1) % 4],
                            vertices[i - 1],
                            vertices[i],
                        )
                    })
                    .collect()
            })
            .collect(),
    }
}

/// Where detections lie in the image and to the zones.
fn placements(detections: &[Detection], zones: &PreparedZones) -> Vec<Placement> {
    detections
        .iter()
        .map(|d| {
            let e = extent(&rect_of(d));
            Placement {
                extent: e,
                masks: zones
                    .privacy_masks
                    .iter()
                    .map(|z| polygon_measure(&e, &z.points))
                    .collect(),
                zones: zones
                    .active_zones
                    .iter()
                    .map(|z| polygon_measure(&e, &z.points))
                    .collect(),
            }
        })
        .collect()
}

fn det(x: f32, y: f32, w: f32, h: f32, label: &str) -> Detection {
    Detection {
        x: level(x),
        y: level(y),
        width: level(w),
        height: level(h),
        confidence: level(0.9),
        label: label.to_string(),
    }
}

fn ui(points: &[[f64; 2]]) -> Vec<UiPoint> {
    points
        .iter()
        .map(|p| UiPoint {
            x: stamp(p[0]),
            y: stamp(p[1]),
        })
        .collect()
}

fn rect_zone(
    x1: f64,
    y1: f64,
    x2: f64,
    y2: f64,
    mode: ZoneFilterMode,
    mt: ZoneMatchType,
    labels: Vec<String>,
) -> ZoneInput {
    ZoneInput {
        labels,
        filter: mode,
        match_type: mt,
        is_privacy_mask: false,
        points: ui(&[[x1, y1], [x2, y1], [x2, y2], [x1, y2]]),
    }
}

fn prepare(zones: Vec<ZoneInput>) -> PreparedZones {
    prepare_zones(&zones, &scaled, &gap)
}

fn filter(detections: Vec<Detection>, zones: &PreparedZones, min: f32) -> Vec<Detection> {
    let placed = placements(&detections, zones);
    filter_detections(detections, &placed, zones, level(min))
}

#[test]
fn a_zone_is_closed_where_it_was_drawn() {
    let places = |zone: &PreparedZone| -> Vec<[f32; 2]> {
        zone.points
            .iter()
            .map(|p| [number(p.x), number(p.y)])
            .collect()
    };
    let square = rect_zone(
        10.0,
        20.0,
        90.0,
        80.0,
        ZoneFilterMode::Include,
        ZoneMatchType::Contain,
        vec![],
    );
    let mut mask = square.clone();
    mask.is_privacy_mask = true;
    mask.points = ui(&[[20.0, 30.0], [50.0, 30.0], [20.0, 75.0], [20.0, 30.0]]);
    let mut bare = square.clone();
    bare.points = vec![];
    let prepared = prepare(vec![square, mask, bare]);
    assert_eq!(
        places(&prepared.active_zones[0]),
        vec![[0.1, 0.2], [0.9, 0.2], [0.9, 0.8], [0.1, 0.8], [0.1, 0.2]]
    );
    assert!(prepared.active_zones[1].points.is_empty());
    // this one was closed already
    assert_eq!(
        places(&prepared.privacy_masks[0]),
        vec![[0.2, 0.3], [0.5, 0.3], [0.2, 0.75], [0.2, 0.3]]
    );
}

#[test]
fn confidence_filter_only() {
    let zones = prepare(vec![]);
    let mut a = det(0.1, 0.1, 0.2, 0.2, "person");
    a.confidence = level(0.4);
    let mut b = det(0.3, 0.3, 0.2, 0.2, "person");
    b.confidence = level(0.8);
    let out = filter(vec![a, b], &zones, 0.5);
    assert_eq!(out.len(), 1);
    assert!(number(out[0].confidence) >= 0.5);
}

#[test]
fn include_zone_contains_box() {
    let zones = prepare(vec![rect_zone(
        25.0,
        25.0,
        75.0,
        75.0,
        ZoneFilterMode::Include,
        ZoneMatchType::Contain,
        vec![],
    )]);
    let inside = det(0.30, 0.30, 0.20, 0.20, "person");
    let outside = det(0.85, 0.85, 0.10, 0.10, "person");
    let out = filter(vec![inside, outside], &zones, 0.0);
    assert_eq!(out.len(), 1);
}

#[test]
fn include_intersect_keeps_partial_overlap() {
    let zones = prepare(vec![rect_zone(
        25.0,
        25.0,
        75.0,
        75.0,
        ZoneFilterMode::Include,
        ZoneMatchType::Intersect,
        vec![],
    )]);
    let partial = det(0.70, 0.30, 0.20, 0.20, "person");
    let out = filter(vec![partial], &zones, 0.0);
    assert_eq!(out.len(), 1);
}

#[test]
fn exclude_zone_drops_box() {
    let zones = prepare(vec![rect_zone(
        25.0,
        25.0,
        75.0,
        75.0,
        ZoneFilterMode::Exclude,
        ZoneMatchType::Intersect,
        vec![],
    )]);
    let inside = det(0.30, 0.30, 0.20, 0.20, "person");
    let outside = det(0.05, 0.05, 0.10, 0.10, "person");
    let out = filter(vec![inside, outside], &zones, 0.0);
    assert_eq!(out.len(), 1);
    assert!((number(out[0].x) - 0.05).abs() < 1e-6);
}

#[test]
fn privacy_mask_drops_contained_box() {
    let mut mask = rect_zone(
        0.0,
        0.0,
        50.0,
        50.0,
        ZoneFilterMode::Include,
        ZoneMatchType::Intersect,
        vec![],
    );
    mask.is_privacy_mask = true;
    let zones = prepare(vec![mask]);
    let inside = det(0.10, 0.10, 0.20, 0.20, "person");
    let outside = det(0.60, 0.60, 0.20, 0.20, "person");
    let out = filter(vec![inside, outside], &zones, 0.0);
    assert_eq!(out.len(), 1);
    assert!((number(out[0].x) - 0.60).abs() < 1e-6);
}

#[test]
fn label_filter_restricts_globally() {
    let zones = prepare(vec![rect_zone(
        0.0,
        0.0,
        100.0,
        100.0,
        ZoneFilterMode::Include,
        ZoneMatchType::Intersect,
        vec!["car".to_string()],
    )]);
    let person = det(0.30, 0.30, 0.20, 0.20, "person");
    let car = det(0.30, 0.30, 0.20, 0.20, "car");
    let out = filter(vec![person, car], &zones, 0.0);
    assert_eq!(out.len(), 1);
    assert_eq!(out[0].label, "car");
}

#[test]
fn label_zone_with_other_label_zone_combined() {
    let zones = prepare(vec![
        rect_zone(
            0.0,
            0.0,
            100.0,
            100.0,
            ZoneFilterMode::Include,
            ZoneMatchType::Intersect,
            vec!["person".to_string()],
        ),
        rect_zone(
            0.0,
            0.0,
            100.0,
            100.0,
            ZoneFilterMode::Include,
            ZoneMatchType::Intersect,
            vec!["car".to_string()],
        ),
    ]);
    let person = det(0.30, 0.30, 0.20, 0.20, "person");
    let car = det(0.30, 0.30, 0.20, 0.20, "car");
    let cat = det(0.30, 0.30, 0.20, 0.20, "cat");
    let out = filter(vec![person, car, cat], &zones, 0.0);
    assert_eq!(out.len(), 2);
}

fn hof_zone() -> ZoneInput {
    ZoneInput {
        labels: vec![
            "motion".to_string(),
            "person".to_string(),
            "vehicle".to_string(),
            "animal".to_string(),
        ],
        filter: ZoneFilterMode::Include,
        match_type: ZoneMatchType::Contain,
        is_privacy_mask: false,
        points: ui(&[
            [0.0, 39.0],
            [7.0, 25.0],
            [50.0, 22.0],
            [50.0, 33.0],
            [63.0, 34.0],
            [64.0, 19.0],
            [75.0, 20.0],
            [82.0, 13.0],
            [92.0, 42.0],
            [100.0, 80.0],
            [100.0, 100.0],
            [0.0, 100.0],
            [0.0, 70.0],
        ]),
    }
}

#[test]
fn hof_zone_street_motion_filtered() {
    let zones = prepare(vec![hof_zone()]);
    let street_car = det(0.35, 0.05, 0.15, 0.10, "motion");
    let out = filter(vec![street_car], &zones, 0.0);
    assert_eq!(out.len(), 0, "street motion should be filtered out");
}

#[test]
fn hof_zone_courtyard_motion_passes() {
    let zones = prepare(vec![hof_zone()]);
    let courtyard = det(0.30, 0.60, 0.15, 0.15, "motion");
    let out = filter(vec![courtyard], &zones, 0.0);
    assert_eq!(out.len(), 1, "courtyard motion should pass");
}

#[test]
fn hof_zone_boundary_straddling_filtered() {
    let zones = prepare(vec![hof_zone()]);
    let straddling = det(0.45, 0.15, 0.10, 0.20, "motion");
    let out = filter(vec![straddling], &zones, 0.0);
    assert_eq!(
        out.len(),
        0,
        "boundary-straddling motion should be filtered (Contain)"
    );
}

#[test]
fn hof_zone_near_top_boundary_inside() {
    let zones = prepare(vec![hof_zone()]);
    let near_boundary = det(0.78, 0.20, 0.04, 0.07, "motion");
    let out = filter(vec![near_boundary], &zones, 0.0);
    assert_eq!(
        out.len(),
        1,
        "motion just inside the zone boundary should pass"
    );
}

#[test]
fn hof_zone_left_edge_outside() {
    let zones = prepare(vec![hof_zone()]);
    let left_top = det(0.0, 0.30, 0.05, 0.05, "motion");
    let out = filter(vec![left_top], &zones, 0.0);
    assert_eq!(
        out.len(),
        0,
        "motion above left zone boundary should be filtered"
    );
}

#[test]
fn hof_zone_mixed_street_and_courtyard() {
    let zones = prepare(vec![hof_zone()]);
    let street = det(0.20, 0.02, 0.12, 0.08, "motion");
    let courtyard = det(0.40, 0.70, 0.10, 0.10, "motion");
    let straddling = det(0.50, 0.18, 0.10, 0.15, "motion");
    let out = filter(vec![street, courtyard, straddling], &zones, 0.0);
    assert_eq!(out.len(), 1, "only courtyard motion should pass");
    assert!(
        (number(out[0].y) - 0.70).abs() < 1e-6,
        "the surviving detection should be the courtyard one"
    );
}

#[test]
fn hof_zone_person_on_street_filtered() {
    let zones = prepare(vec![hof_zone()]);
    let person_street = det(0.40, 0.05, 0.05, 0.12, "person");
    let person_yard = det(0.40, 0.50, 0.05, 0.12, "person");
    let out = filter(vec![person_street, person_yard], &zones, 0.0);
    assert_eq!(out.len(), 1, "person on street should be filtered");
    assert!((number(out[0].y) - 0.50).abs() < 1e-6);
}

#[test]
fn hof_zone_large_motion_bbox_filtered() {
    let zones = prepare(vec![hof_zone()]);
    let large = det(0.0, 0.0, 1.0, 1.0, "motion");
    let out = filter(vec![large], &zones, 0.0);
    assert_eq!(
        out.len(),
        0,
        "full-frame motion bbox should be filtered (top corners outside)"
    );
}

#[test]
fn auto_close_polygon() {
    let zone = ZoneInput {
        labels: vec![],
        filter: ZoneFilterMode::Include,
        match_type: ZoneMatchType::Intersect,
        is_privacy_mask: false,
        points: ui(&[[0.0, 0.0], [100.0, 0.0], [100.0, 100.0], [0.0, 100.0]]),
    };
    let zones = prepare(vec![zone]);
    assert_eq!(zones.active_zones[0].points.len(), 5);
    let first = zones.active_zones[0].points[0];
    let last = zones.active_zones[0].points[4];
    assert!((number(first.x) - number(last.x)).abs() < 1e-6);
    assert!((number(first.y) - number(last.y)).abs() < 1e-6);
}

#[test]
fn a_closed_polygon_is_not_closed_again() {
    let zone = ZoneInput {
        labels: vec![],
        filter: ZoneFilterMode::Include,
        match_type: ZoneMatchType::Intersect,
        is_privacy_mask: false,
        points: ui(&[[0.0, 0.0], [100.0, 0.0], [100.0, 100.0], [0.0, 0.0]]),
    };
    let zones = prepare(vec![zone]);
    assert_eq!(zones.active_zones[0].points.len(), 4);
}

#[test]
fn labels_are_compared_in_lower_case() {
    let zones = prepare(vec![rect_zone(
        0.0,
        0.0,
        100.0,
        100.0,
        ZoneFilterMode::Include,
        ZoneMatchType::Intersect,
        vec!["PERSON".to_string(), "Person".to_string()],
    )]);
    assert_eq!(zones.all_labels, vec!["person".to_string()]);
    assert!(zone_accepts_label(&zones.active_zones[0], &"person".to_string()));
    assert!(!zone_accepts_label(&zones.active_zones[0], &"PERSON".to_string()));
    let out = filter(vec![det(0.3, 0.3, 0.2, 0.2, "pErSoN")], &zones, 0.0);
    assert_eq!(out.len(), 1);
}

#[test]
fn exclusion_wins_over_inclusion() {
    let zones = prepare(vec![
        rect_zone(
            0.0,
            0.0,
            100.0,
            100.0,
            ZoneFilterMode::Include,
            ZoneMatchType::Intersect,
            vec![],
        ),
        rect_zone(
            0.0,
            0.0,
            50.0,
            50.0,
            ZoneFilterMode::Exclude,
            ZoneMatchType::Intersect,
            vec![],
        ),
    ]);
    let out = filter(
        vec![
            det(0.4, 0.4, 0.3, 0.3, "person"),
            det(0.6, 0.6, 0.2, 0.2, "person"),
        ],
        &zones,
        0.0,
    );
    assert_eq!(out.len(), 1);
    assert_eq!(out[0].x, level(0.6));
}

#[test]
fn a_mask_drops_what_a_zone_keeps() {
    let mut mask = rect_zone(
        0.0,
        0.0,
        100.0,
        100.0,
        ZoneFilterMode::Include,
        ZoneMatchType::Intersect,
        vec![],
    );
    mask.is_privacy_mask = true;
    let zone = rect_zone(
        0.0,
        0.0,
        100.0,
        100.0,
        ZoneFilterMode::Include,
        ZoneMatchType::Intersect,
        vec![],
    );
    let zones = prepare(vec![zone, mask]);
    assert!(filter(vec![det(0.3, 0.3, 0.2, 0.2, "person")], &zones, 0.0).is_empty());
}

#[test]
fn only_a_contained_box_is_excluded_where_containment_is_asked_for() {
    let kept = |match_type: ZoneMatchType, detections: Vec<Detection>| {
        let zones = prepare(vec![rect_zone(
            25.0,
            25.0,
            75.0,
            75.0,
            ZoneFilterMode::Exclude,
            match_type,
            vec![],
        )]);
        let placed = placements(&detections, &zones);
        filter_indices(&detections, &placed, &zones, level(0.0))
    };
    let straddling = || det(0.70, 0.30, 0.20, 0.20, "person");
    let inside = || det(0.30, 0.30, 0.20, 0.20, "person");
    let outside = || det(0.80, 0.80, 0.10, 0.10, "person");
    assert_eq!(kept(ZoneMatchType::Contain, vec![straddling()]), vec![0]);
    assert_eq!(
        kept(ZoneMatchType::Contain, vec![inside(), straddling(), outside()]),
        vec![1, 2]
    );
    assert_eq!(
        kept(ZoneMatchType::Intersect, vec![inside(), straddling(), outside()]),
        vec![2]
    );
}

#[test]
fn kept_numbers_go_up() {
    let zones = prepare(vec![]);
    let mut detections = Vec::new();
    for i in 0..6 {
        let mut d = det(0.1, 0.1, 0.2, 0.2, "person");
        d.confidence = level(if i % 2 == 0 { 0.9 } else { 0.1 });
        detections.push(d);
    }
    let placed = placements(&detections, &zones);
    assert_eq!(
        filter_indices(&detections, &placed, &zones, level(0.5)),
        vec![0, 2, 4]
    );
}

#[test]
fn a_polygon_with_two_points_holds_nothing() {
    let zone = ZoneInput {
        labels: vec![],
        filter: ZoneFilterMode::Include,
        match_type: ZoneMatchType::Contain,
        is_privacy_mask: false,
        points: ui(&[[0.0, 0.0], [0.0, 0.0]]),
    };
    let zones = prepare(vec![zone]);
    assert!(filter(vec![det(0.3, 0.3, 0.2, 0.2, "person")], &zones, 0.0).is_empty());
}
