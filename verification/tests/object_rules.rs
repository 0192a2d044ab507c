//! The object tracker, fed by hand.
use postprocessor::engine::{
    engine_settings, latest_look, reid_basis, EngineSettings, ReidBasis, ReidSettings,
};
use postprocessor::line_crossing::{
    DetectionLineInput, LineCrossingEvent, LineDirectionFilter, LineEnds, PreparedLine,
    SegmentMeasure,
};
use postprocessor::polygon::{EdgeMeasure, PolygonMeasure, SideMeasure};
use postprocessor::reading::{
    bits_of_level, bits_of_stamp, level_of_bits, stamp_of_bits, Level, Stamp, LEVEL_LIMIT,
    STAMP_LIMIT,
};
use postprocessor::track::TrackSegment;
use postprocessor::tracker::{ObjectTracker, ReidCounter, UpdateResult};
use postprocessor::tracker_model::{ClassRun, ObjectTrackerConfig, RawTrack};
use postprocessor::types::{Detection, Extent, Point, Rect, Shift, TrackedDetection, UiPoint};
use postprocessor::zone_filter::{Placement, PreparedZones};

/// The reading of a real. What is not a number reads lower than everything.
fn level(value: f32) -> Level {
    level_or(value, Level::MIN)
}

/// The reading of a real, and of what is not a number.
fn level_or(value: f32, not_a_number: Level) -> Level {
    level_of_bits(value.to_bits()).unwrap_or(not_a_number)
}

/// The real behind a reading.
fn number(level: Level) -> f32 {
    if level.unsigned_abs() > LEVEL_LIMIT {
        return f32::NAN;
    }
    f32::from_bits(bits_of_level(level))
}

/// The reading of a 64-bit real. What is not a number reads lower than everything.
fn stamp(value: f64) -> Stamp {
    stamp_of_bits(value.to_bits()).unwrap_or(Stamp::MIN)
}

/// The real behind a 64-bit reading.
fn time(stamp: Stamp) -> f64 {
    if stamp.unsigned_abs() > STAMP_LIMIT {
        return f64::NAN;
    }
    f64::from_bits(bits_of_stamp(stamp))
}

/// The four edges of a box.
fn extent(rect: &Rect) -> Extent {
    Extent {
        left: rect.x,
        top: rect.y,
        right: level(number(rect.x) + number(rect.width)),
        bottom: level(number(rect.y) + number(rect.height)),
    }
}

/// The box of a detection.
fn rect_of(d: &Detection) -> Rect {
    Rect {
        x: d.x,
        y: d.y,
        width: d.width,
        height: d.height,
    }
}

/// The place of a drawn point in the image.
fn scaled(p: &UiPoint) -> Point {
    Point {
        x: level((time(p.x) / 100.0) as f32),
        y: level((time(p.y) / 100.0) as f32),
    }
}

/// The center of a box.
fn center(r: &Rect) -> Point {
    Point {
        x: level(number(r.x) + number(r.width) * 0.5),
        y: level(number(r.y) + number(r.height) * 0.5),
    }
}

/// How a movement lies to a line.
fn segment_measure(from: &Point, to: &Point, line: &PreparedLine) -> SegmentMeasure {
    let (ax, ay) = (number(from.x), number(from.y));
    let (bx, by) = (number(to.x), number(to.y));
    let (cx, cy) = (number(line.p1.x), number(line.p1.y));
    let (dx, dy) = (number(line.p2.x), number(line.p2.y));
    let denom = (bx - ax) * (dy - cy) - (by - ay) * (dx - cx);
    let t = ((cx - ax) * (dy - cy) - (cy - ay) * (dx - cx)) / denom;
    let u = ((cx - ax) * (by - ay) - (cy - ay) * (bx - ax)) / denom;
    SegmentMeasure {
        denom: level_or(denom.abs(), Level::MAX),
        along_track: level(t),
        along_line: level(u),
        cross: level((bx - ax) * (dy - cy) - (by - ay) * (dx - cx)),
    }
}

fn edge_measure(p: (f32, f32), end: (f32, f32), start: (f32, f32)) -> EdgeMeasure {
    let (px, py) = p;
    let (xi, yi) = end;
    let (xj, yj) = start;
    let slope = (yj - yi) / (xj - xi);
    EdgeMeasure {
        run: level_or((xi - xj).abs(), Level::MAX),
        offset: level_or((px - xi).abs(), Level::MAX),
        residual: level_or((py - (slope * px + (yi - slope * xi))).abs(), Level::MAX),
        meet_x: level((xj - xi) * (py - yi) / (yj - yi) + xi),
    }
}

fn side_measure(
    a1: (f32, f32),
    a2: (f32, f32),
    b1: (f32, f32),
    b2: (f32, f32),
) -> SideMeasure {
    let denom = (b2.1 - b1.1) * (a2.0 - a1.0) - (b2.0 - b1.0) * (a2.1 - a1.1);
    let ua = ((b2.0 - b1.0) * (a1.1 - b1.1) - (b2.1 - b1.1) * (a1.0 - b1.0)) / denom;
    let ub = ((a2.0 - a1.0) * (a1.1 - b1.1) - (a2.1 - a1.1) * (a1.0 - b1.0)) / denom;
    SideMeasure {
        denom: level_or(denom.abs(), Level::MAX),
        along_side: level(ua),
        along_edge: level(ub),
    }
}

/// How a box lies to a polygon.
fn polygon_measure(e: &Extent, polygon: &[Point]) -> PolygonMeasure {
    let (left, top) = (number(e.left), number(e.top));
    let (right, bottom) = (number(e.right), number(e.bottom));
    let corners = [(left, top), (right, top), (right, bottom), (left, bottom)];
    let vertices: Vec<(f32, f32)> = polygon.iter().map(|p| (number(p.x), number(p.y))).collect();
    let n = vertices.len();
    PolygonMeasure {
        corners: corners
            .iter()
            .map(|&corner| {
                (0..n)
                    .map(|i| edge_measure(corner, vertices[i], vertices[(i + n - 1) % n]))
                    .collect()
            })
            .collect(),
        sides: (1..n)
            .map(|i| {
                (0..4)
                    .map(|s| {
                        side_measure(
                            corners[s],
                            corners[(s + 1) % 4],
                            vertices[i - 1],
                            vertices[i],
                        )
                    })
                    .collect()
            })
            .collect(),
    }
}

/// Where detections lie in the image and to the zones.
fn placements(detections: &[Detection], zones: &PreparedZones) -> Vec<Placement> {
    detections
        .iter()
        .map(|d| {
            let e = extent(&rect_of(d));
            Placement {
                extent: e,
                masks: zones
                    .privacy_masks
                    .iter()
                    .map(|z| polygon_measure(&e, &z.points))
                    .collect(),
                zones: zones
                    .active_zones
                    .iter()
                    .map(|z| polygon_measure(&e, &z.points))
                    .collect(),
            }
        })
        .collect()
}

fn det(label: &str, confidence: f32) -> Detection {
    Detection {
        x: level(0.3),
        y: level(0.3),
        width: level(0.2),
        height: level(0.2),
        confidence: level(confidence),
        label: label.to_string(),
    }
}

fn raw(engine_id: i64, x: f32, last_frame: Option<u64>) -> RawTrack {
    RawTrack {
        engine_id,
        x: level(x),
        y: level(0.4),
        width: level(0.2),
        height: level(-0.1),
        confidence: level(0.9),
        age: 4,
        speed: level(0.5),
        velocity_x: level(0.3),
        velocity_y: level(0.4),
        last_frame,
    }
}

fn run(label: &str, raws: Vec<RawTrack>) -> ClassRun {
    let alive = raws.iter().map(|r| r.engine_id).collect();
    ClassRun {
        label: label.to_string(),
        raws,
        alive,
    }
}

/// The line as it was drawn.
fn drawn_ends(a: &UiPoint, b: &UiPoint, _aspect_ratio: Level) -> LineEnds {
    LineEnds {
        p1: scaled(a),
        p2: scaled(b),
    }
}

fn movement(a: &Point, b: &Point) -> Shift {
    Shift {
        x: level_or((number(a.x) - number(b.x)).abs(), Level::MAX),
        y: level_or((number(a.y) - number(b.y)).abs(), Level::MAX),
    }
}

fn crossing(segment: &TrackSegment, line: &PreparedLine) -> SegmentMeasure {
    segment_measure(&segment.from, &segment.to, line)
}

/// Hands the tracker a frame with these detections and what the engines make of it.
fn frame(
    t: &mut ObjectTracker,
    detections: Vec<Detection>,
    runs: Vec<ClassRun>,
) -> UpdateResult {
    let placed = placements(&detections, t.zones());
    t.plan(detections, &placed);
    t.update(&runs, stamp(100.0), &center, &movement, &crossing)
}

fn ids(result: &UpdateResult) -> Vec<u32> {
    result.tracks.iter().map(|t| t.track_id).collect()
}

#[test]
fn a_plan_has_an_entry_for_each_class_met_so_far() {
    let mut t = ObjectTracker::new(ObjectTrackerConfig::default());
    t.set_min_confidence(level(0.5));
    let detections = vec![
        det("person", 0.9),
        det("car", 0.9),
        det("person", 0.8),
        det("cat", 0.4),
    ];
    let placed = placements(&detections, t.zones());
    assert_eq!(t.filter_indices(&detections, &placed), vec![0, 1, 2]);
    let plans = t.plan(detections, &placed);
    let sizes: Vec<(&str, usize)> = plans
        .iter()
        .map(|p| (p.label.as_str(), p.detections.len()))
        .collect();
    assert_eq!(sizes, vec![("person", 2), ("car", 1)]);
    assert_eq!(t.frame_seq(), 1);
    frame(&mut t, vec![], vec![run("person", vec![]), run("car", vec![])]);
    let plans = t.plan(vec![], &vec![]);
    let sizes: Vec<(&str, usize)> = plans
        .iter()
        .map(|p| (p.label.as_str(), p.detections.len()))
        .collect();
    assert_eq!(sizes, vec![("person", 0), ("car", 0)]);
    assert_eq!(t.frame_seq(), 3);
}

#[test]
fn a_held_object_keeps_its_id_and_no_id_is_given_twice() {
    let mut t = ObjectTracker::new(ObjectTrackerConfig::default());
    let first = frame(
        &mut t,
        vec![det("person", 0.9), det("car", 0.9)],
        vec![
            run("person", vec![raw(5, 0.3, Some(1)), raw(9, 0.6, Some(1))]),
            run("car", vec![raw(5, 0.3, Some(1))]),
        ],
    );
    assert_eq!(ids(&first), vec![1, 2, 3]);
    let second = frame(
        &mut t,
        vec![det("person", 0.9), det("car", 0.9)],
        vec![
            run("person", vec![raw(9, 0.6, Some(2))]),
            run("car", vec![raw(5, 0.3, Some(2)), raw(6, 0.5, Some(2))]),
        ],
    );
    assert_eq!(ids(&second), vec![2, 3, 4]);
    // the engine let go of the first person, so its number stands for somebody new
    let third = frame(
        &mut t,
        vec![det("person", 0.9)],
        vec![run("person", vec![raw(5, 0.3, Some(3))])],
    );
    assert_eq!(ids(&third), vec![5]);
}

#[test]
fn reports_are_cleaned_up() {
    let mut t = ObjectTracker::new(ObjectTrackerConfig::default());
    let mut young = raw(6, 0.3, None);
    young.age = -2;
    let result = frame(
        &mut t,
        vec![det("person", 0.9)],
        vec![run("person", vec![raw(5, 0.3, Some(1)), young, raw(7, 0.3, Some(0))])],
    );
    let first = &result.tracks[0];
    assert_eq!(first.label, "person");
    assert_eq!(first.width, level(0.2));
    assert_eq!(first.height, 0);
    assert_eq!(first.track_age, 4);
    assert_eq!(first.track_speed, level(0.5));
    assert_eq!(first.track_velocity_x, level(0.3));
    assert_eq!(first.track_velocity_y, level(0.4));
    assert_eq!(result.tracks[1].track_age, 0);
    let lost: Vec<bool> = result.tracks.iter().map(|t| t.track_lost).collect();
    assert_eq!(lost, vec![false, true, true]);
}

#[test]
fn a_line_fires_once_for_a_track_and_never_for_a_first_sight() {
    let mut t = ObjectTracker::new(ObjectTrackerConfig::default());
    let ui = |x: f64, y: f64| UiPoint {
        x: stamp(x),
        y: stamp(y),
    };
    let lines = vec![DetectionLineInput {
        name: "gate".to_string(),
        direction: LineDirectionFilter::Both,
        labels: vec![],
        points: [ui(50.0, 0.0), ui(50.0, 100.0)],
    }];
    t.set_lines(&lines, level(1.0), &drawn_ends);
    let mut fired = Vec::new();
    for x in [0.3, 0.3, 0.5, 0.3, 0.5] {
        let runs = vec![run("person", vec![raw(5, x, Some(1))])];
        fired.push(frame(&mut t, vec![det("person", 0.9)], runs).crossings.len());
    }
    assert_eq!(fired, vec![0, 0, 1, 0, 0]);
    t.set_lines(&lines, level(1.0), &drawn_ends);
    let runs = vec![run("person", vec![raw(5, 0.3, Some(1))])];
    let again = frame(&mut t, vec![det("person", 0.9)], runs);
    assert_eq!(again.crossings.len(), 1);
    assert_eq!(time(again.crossings[0].timestamp_ms), 100.0);
    assert_eq!(again.crossings[0].track_id, 1);
}

#[test]
fn a_name_is_crossed_once_though_a_track_is_reported_twice() {
    let mut t = ObjectTracker::new(ObjectTrackerConfig::default());
    let ui = |x: f64, y: f64| UiPoint {
        x: stamp(x),
        y: stamp(y),
    };
    let line = |x: f64| DetectionLineInput {
        name: "street".to_string(),
        direction: LineDirectionFilter::Both,
        labels: vec![],
        points: [ui(x, 0.0), ui(x, 100.0)],
    };
    let lines = vec![line(50.0), line(55.0)];
    t.set_lines(&lines, level(1.0), &drawn_ends);
    let twice = |x: f32| run("person", vec![raw(5, x, Some(1)), raw(5, x, Some(1))]);
    let first = frame(&mut t, vec![det("person", 0.9)], vec![twice(0.3)]);
    assert!(first.crossings.is_empty());
    let second = frame(&mut t, vec![det("person", 0.9)], vec![twice(0.5)]);
    assert_eq!(ids(&second), vec![1, 1]);
    assert_eq!(second.crossings.len(), 1);
    assert!(second.crossings.iter().all(|c| c.track_id == 1 && c.line_name == "street"));
    let third = frame(&mut t, vec![det("person", 0.9)], vec![twice(0.5)]);
    assert!(third.crossings.is_empty());
}

#[test]
fn a_second_look_at_the_same_tracks_finds_no_crossing() {
    let mut t = ObjectTracker::new(ObjectTrackerConfig::default());
    let ui = |x: f64, y: f64| UiPoint {
        x: stamp(x),
        y: stamp(y),
    };
    let line = |name: &str, x: f64| DetectionLineInput {
        name: name.to_string(),
        direction: LineDirectionFilter::Both,
        labels: vec![],
        points: [ui(x, 0.0), ui(x, 100.0)],
    };
    let lines = vec![line("gate", 50.0), line("gate", 52.0), line("door", 55.0), line("far", 90.0)];
    t.set_lines(&lines, level(1.0), &drawn_ends);
    let seen = frame(
        &mut t,
        vec![det("person", 0.9)],
        vec![run("person", vec![raw(5, 0.3, Some(1))])],
    );
    let moved = |track_id: u32| TrackedDetection {
        x: level(0.5),
        track_id,
        ..seen.tracks[0].clone()
    };
    // the second track was never seen before
    let tracks = vec![moved(1), moved(7)];
    let look = |t: &mut ObjectTracker, ms: f64| -> Vec<LineCrossingEvent> {
        t.compute_crossings(&tracks, stamp(ms), &center, &movement, &crossing)
    };
    let first = look(&mut t, 200.0);
    let named: Vec<(u32, &str)> = first
        .iter()
        .map(|e| (e.track_id, e.line_name.as_str()))
        .collect();
    assert_eq!(named, vec![(1, "gate"), (1, "door")]);
    assert!(first.iter().all(|e| time(e.timestamp_ms) == 200.0));
    assert!(look(&mut t, 200.0).is_empty());
    assert!(look(&mut t, 300.0).is_empty());
}

#[test]
fn crossings_of_tracks_that_are_gone_are_forgotten() {
    let mut t = ObjectTracker::new(ObjectTrackerConfig::default());
    let ui = |x: f64, y: f64| UiPoint {
        x: stamp(x),
        y: stamp(y),
    };
    let lines = vec![DetectionLineInput {
        name: "gate".to_string(),
        direction: LineDirectionFilter::Both,
        labels: vec![],
        points: [ui(50.0, 0.0), ui(50.0, 100.0)],
    }];
    t.set_lines(&lines, level(1.0), &drawn_ends);
    let mut fired = Vec::new();
    for round in 0..2 {
        for x in [0.3, 0.5] {
            let runs = vec![run("person", vec![raw(5, x, Some(1))])];
            let result = frame(&mut t, vec![det("person", 0.9)], runs);
            assert_eq!(ids(&result), vec![round + 1]);
            fired.push(result.crossings.len());
        }
        // the engine lets the object go
        frame(&mut t, vec![], vec![run("person", vec![])]);
        assert_eq!(t.track_count(), 0);
    }
    assert_eq!(fired, vec![0, 1, 0, 1]);
}

#[test]
fn only_dead_tracks_that_can_still_be_matched_are_refreshed() {
    let mut t = ObjectTracker::new(ObjectTrackerConfig::default());
    t.set_reid_hit_counter_max(20);
    let counter = |hit_counter, reid_hit_counter| ReidCounter {
        hit_counter,
        reid_hit_counter,
    };
    let mut counters = vec![
        counter(-1, Some(3)),
        counter(-1, None),
        counter(2, Some(3)),
        counter(0, Some(3)),
    ];
    t.refresh_reid(&mut counters);
    assert_eq!(
        counters,
        vec![
            counter(-1, Some(20)),
            counter(-1, None),
            counter(2, Some(3)),
            counter(0, Some(3)),
        ]
    );
    t.set_reid_hit_counter_max(0);
    assert_eq!(t.config().reid_hit_counter_max, None);
    let mut counters = vec![counter(-1, Some(3))];
    t.refresh_reid(&mut counters);
    assert_eq!(counters, vec![counter(-1, Some(3))]);
}

#[test]
fn a_reset_starts_over() {
    let mut t = ObjectTracker::new(ObjectTrackerConfig::default());
    frame(
        &mut t,
        vec![det("person", 0.9)],
        vec![run("person", vec![raw(5, 0.3, Some(1)), raw(6, 0.5, Some(1))])],
    );
    assert_eq!(t.track_count(), 2);
    t.reset();
    assert_eq!(t.track_count(), 0);
    assert_eq!(t.frame_seq(), 1);
    let again = frame(
        &mut t,
        vec![det("person", 0.9)],
        vec![run("person", vec![raw(5, 0.3, Some(1))])],
    );
    assert_eq!(ids(&again), vec![1]);
}

#[test]
fn an_engine_is_set_up_for_looks_only_if_they_are_asked_for() {
    let mut config = ObjectTrackerConfig::default();
    let plain = EngineSettings {
        iou_threshold: level(0.3),
        hit_counter_max: 15,
        initialization_delay: 3,
        reid: None,
    };
    assert_eq!(engine_settings(&config), plain);
    config.reid_hit_counter_max = Some(20);
    assert_eq!(
        engine_settings(&config),
        EngineSettings {
            reid: Some(ReidSettings {
                hit_counter_max: 20,
                distance_threshold: stamp(0.4),
                past_detections: 3,
            }),
            ..plain
        }
    );
}

#[test]
fn dead_tracks_are_compared_by_looks_before_boxes() {
    assert_eq!(reid_basis(true, true, 0, 0), ReidBasis::Looks);
    assert_eq!(reid_basis(true, false, 4, 4), ReidBasis::Boxes);
    assert_eq!(reid_basis(false, true, 4, 5), ReidBasis::Boxes);
    assert_eq!(reid_basis(false, false, 3, 4), ReidBasis::Never);
    assert_eq!(reid_basis(false, false, 4, 3), ReidBasis::Never);
    assert_eq!(latest_look(&vec![true, true, false]), Some(1));
    assert_eq!(latest_look(&vec![false, false]), None);
    assert_eq!(latest_look(&vec![]), None);
}

#[test]
fn the_usual_tracker() {
    let config = ObjectTrackerConfig::default();
    assert_eq!(number(config.iou_threshold), 0.3);
    assert_eq!(config.hit_counter_max, 15);
    assert_eq!(config.initialization_delay, 3);
    assert_eq!(config.reid_hit_counter_max, None);
    assert_eq!(time(config.reid_embedding_threshold), 0.4);
}
