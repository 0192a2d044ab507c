//! Recorded sessions.
use postprocessor::iou::{box_iou, AreaShare};
use postprocessor::line_crossing::{
    DetectionLineInput, LineDirectionFilter, LineEnds, PreparedLine, SegmentMeasure,
};
use postprocessor::polygon::{EdgeMeasure, PolygonMeasure, SideMeasure};
use postprocessor::reading::{
    bits_of_level, bits_of_stamp, level_of_bits, stamp_of_bits, Level, Stamp, LEVEL_LIMIT,
    STAMP_LIMIT,
};
use postprocessor::replay::{
    engine_tick, latency_stats, EngineTick, LatencyStats, Replay, ReplaySummary, Sight,
};
use postprocessor::replay_input::{
    apply_config, change_setting, read_jsonl, split_lines, to_line_input, to_zone_input, trim,
    ReplayConfig, ReplayLine, ReplayZone, SettingValue,
};
use postprocessor::semantic::{SemanticEvent, TrackSnapshot, TrackState};
use postprocessor::track::{Measure, Sighting, TrackSegment, WorldConfig, WorldTrack};
use postprocessor::types::{CameraMotion, Detection, Extent, Point, Rect, Shift, UiPoint};
use postprocessor::world::{CameraWorld, WorldUpdate};
use postprocessor::world_model::Lapse;
use postprocessor::zone_filter::{
    Placement, PreparedZones, ZoneFilterMode, ZoneInput, ZoneMatchType,
};
use serde_json::Value;
use trackforge::trackers::byte_track::ByteTrack;

/// The reading of a real. What is not a number reads lower than everything.
fn level(value: f32) -> Level {
    level_or(value, Level::MIN)
}

/// The reading of a real, and of what is not a number.
fn level_or(value: f32, not_a_number: Level) -> Level {
    level_of_bits(value.to_bits()).unwrap_or(not_a_number)
}

/// The real behind a reading.
fn number(level: Level) -> f32 {
    if level.unsigned_abs() > LEVEL_LIMIT {
        return f32::NAN;
    }
    f32::from_bits(bits_of_level(level))
}

/// The reading of a 64-bit real. What is not a number reads lower than everything.
fn stamp(value: f64) -> Stamp {
    stamp_of_bits(value.to_bits()).unwrap_or(Stamp::MIN)
}

/// The real behind a 64-bit reading.
fn time(stamp: Stamp) -> f64 {
    if stamp.unsigned_abs() > STAMP_LIMIT {
        return f64::NAN;
    }
    f64::from_bits(bits_of_stamp(stamp))
}

/// The four edges of a box.
fn extent(rect: &Rect) -> Extent {
    Extent {
        left: rect.x,
        top: rect.y,
        right: level(number(rect.x) + number(rect.width)),
        bottom: level(number(rect.y) + number(rect.height)),
    }
}

/// The box of a detection.
fn rect_of(d: &Detection) -> Rect {
    Rect {
        x: d.x,
        y: d.y,
        width: d.width,
        height: d.height,
    }
}

/// The areas of two boxes.
fn area_share(a: &Rect, b: &Rect) -> AreaShare {
    let (ax, ay, aw, ah) = (number(a.x), number(a.y), number(a.width), number(a.height));
    let (bx, by, bw, bh) = (number(b.x), number(b.y), number(b.width), number(b.height));
    let ix1 = ax.max(bx);
    let iy1 = ay.max(by);
    let ix2 = (ax + aw).min(bx + bw);
    let iy2 = (ay + ah).min(by + bh);
    let inter = (ix2 - ix1).max(0.0) * (iy2 - iy1).max(0.0);
    let union = aw * ah + bw * bh - inter;
    AreaShare {
        union: level(union),
        ratio: level(inter / union),
    }
}

/// The overlap of two boxes.
fn overlap(a: &Rect, b: &Rect) -> Level {
    box_iou(&extent(a), &extent(b), &area_share(a, b))
}

/// The place of a drawn point in the image.
fn scaled(p: &UiPoint) -> Point {
    Point {
        x: level((time(p.x) / 100.0) as f32),
        y: level((time(p.y) / 100.0) as f32),
    }
}

/// The distance of two places.
fn gap(a: &Point, b: &Point) -> Shift {
    Shift {
        x: level((number(a.x) - number(b.x)).abs()),
        y: level((number(a.y) - number(b.y)).abs()),
    }
}

/// The center of a box.
fn center(r: &Rect) -> Point {
    Point {
        x: level(number(r.x) + number(r.width) * 0.5),
        y: level(number(r.y) + number(r.height) * 0.5),
    }
}

/// The ends of the line across a drawn handle: the handle turned by a right angle about its
/// middle, in an image of this aspect ratio.
fn crossing_ends(a: &UiPoint, b: &UiPoint, aspect_ratio: Level) -> LineEnds {
    let (a, b, aspect_ratio) = (scaled(a), scaled(b), number(aspect_ratio));
    let (ax, ay) = (number(a.x), number(a.y));
    let (bx, by) = (number(b.x), number(b.y));
    let (mx, my) = ((ax + bx) / 2.0, (ay + by) / 2.0);
    let (dx, dy) = ((bx - ax) * aspect_ratio, by - ay);
    let (nx, ny) = (-dy / aspect_ratio / 2.0, dx / 2.0);
    LineEnds {
        p1: Point {
            x: level(mx - nx),
            y: level(my - ny),
        },
        p2: Point {
            x: level(mx + nx),
            y: level(my + ny),
        },
    }
}

/// How a movement lies to a line.
fn segment_measure(from: &Point, to: &Point, line: &PreparedLine) -> SegmentMeasure {
    let (ax, ay) = (number(from.x), number(from.y));
    let (bx, by) = (number(to.x), number(to.y));
    let (cx, cy) = (number(line.p1.x), number(line.p1.y));
    let (dx, dy) = (number(line.p2.x), number(line.p2.y));
    let denom = (bx - ax) * (dy - cy) - (by - ay) * (dx - cx);
    let t = ((cx - ax) * (dy - cy) - (cy - ay) * (dx - cx)) / denom;
    let u = ((cx - ax) * (by - ay) - (cy - ay) * (bx - ax)) / denom;
    SegmentMeasure {
        denom: level_or(denom.abs(), Level::MAX),
        along_track: level(t),
        along_line: level(u),
        cross: level((bx - ax) * (dy - cy) - (by - ay) * (dx - cx)),
    }
}

fn edge_measure(p: (f32, f32), end: (f32, f32), start: (f32, f32)) -> EdgeMeasure {
    let (px, py) = p;
    let (xi, yi) = end;
    let (xj, yj) = start;
    let slope = (yj - yi) / (xj - xi);
    EdgeMeasure {
        run: level_or((xi - xj).abs(), Level::MAX),
        offset: level_or((px - xi).abs(), Level::MAX),
        residual: level_or((py - (slope * px + (yi - slope * xi))).abs(), Level::MAX),
        meet_x: level((xj - xi) * (py - yi) / (yj - yi) + xi),
    }
}

fn side_measure(
    a1: (f32, f32),
    a2: (f32, f32),
    b1: (f32, f32),
    b2: (f32, f32),
) -> SideMeasure {
    let denom = (b2.1 - b1.1) * (a2.0 - a1.0) - (b2.0 - b1.0) * (a2.1 - a1.1);
    let ua = ((b2.0 - b1.0) * (a1.1 - b1.1) - (b2.1 - b1.1) * (a1.0 - b1.0)) / denom;
    let ub = ((a2.0 - a1.0) * (a1.1 - b1.1) - (a2.1 - a1.1) * (a1.0 - b1.0)) / denom;
    SideMeasure {
        denom: level_or(denom.abs(), Level::MAX),
        along_side: level(ua),
        along_edge: level(ub),
    }
}

/// How a box lies to a polygon.
fn polygon_measure(e: &Extent, polygon: &[Point]) -> PolygonMeasure {
    let (left, top) = (number(e.left), number(e.top));
    let (right, bottom) = (number(e.right), number(e.bottom));
    let corners = [(left, top), (right, top), (right, bottom), (left, bottom)];
    let vertices: Vec<(f32, f32)> = polygon.iter().map(|p| (number(p.x), number(p.y))).collect();
    let n = vertices.len();
    PolygonMeasure {
        corners: corners
            .iter()
            .map(|&corner| {
                (0..n)
                    .map(|i| edge_measure(corner, vertices[i], vertices[(i + n - 1) % n]))
                    .collect()
            })
            .collect(),
        sides: (1..n)
            .map(|i| {
                (0..4)
                    .map(|s| {
                        side_measure(
                            corners[s],
                            corners[(s + 1) % 4],
                            vertices[i - 1],
                            vertices[i],
                        )
                    })
                    .collect()
            })
            .collect(),
    }
}

/// Where detections lie in the image and to the zones.
fn placements(detections: &[Detection], zones: &PreparedZones) -> Vec<Placement> {
    detections
        .iter()
        .map(|d| {
            let e = extent(&rect_of(d));
            Placement {
                extent: e,
                masks: zones
                    .privacy_masks
                    .iter()
                    .map(|z| polygon_measure(&e, &z.points))
                    .collect(),
                zones: zones
                    .active_zones
                    .iter()
                    .map(|z| polygon_measure(&e, &z.points))
                    .collect(),
            }
        })
        .collect()
}

/// What a cut-off picture is worth compared with a whole one.
const CUT_WORTH: f32 = 0.3;

/// How much better a picture has to be to replace the best one.
const CLEARLY_BETTER: f32 = 1.25;

struct World {
    inner: CameraWorld,
    engine: ByteTrack,
}

fn new_engine() -> ByteTrack {
    ByteTrack::new(0.5, 30, 0.9, 0.5)
}

impl World {
    fn new(config: WorldConfig) -> Self {
        World {
            inner: CameraWorld::new(config),
            engine: new_engine(),
        }
    }

    fn set_zones(&mut self, zones: Vec<ZoneInput>) {
        self.inner.set_zones(&zones, &scaled, &gap);
    }

    fn set_min_confidence(&mut self, min_confidence: f32) {
        self.inner.set_min_confidence(level(min_confidence));
    }

    fn filter_indices(&self, detections: &Vec<Detection>) -> Vec<u32> {
        assert!(detections.len() <= u32::MAX as usize, "too many detections");
        self.inner
            .filter_indices(detections, &placements(detections, self.inner.zones()))
    }

    fn set_lines(&mut self, lines: Vec<DetectionLineInput>, aspect_ratio: f32) {
        assert!(lines.len() <= u32::MAX as usize, "too many lines");
        self.inner
            .set_lines(&lines, level(aspect_ratio), &crossing_ends);
    }

    fn notify_camera_move(&mut self) {
        self.inner.notify_camera_move();
    }

    fn ingest(
        &mut self,
        t_ms: f64,
        detections: &Vec<Detection>,
        camera_motion: Option<(f32, f32)>,
    ) -> WorldUpdate {
        assert!(detections.len() <= u32::MAX as usize, "too many detections");
        let placed = placements(detections, self.inner.zones());
        let since_last = stamp(t_ms - time(self.inner.last_t_ms()));
        let motion = camera_motion.map(|(x, y)| CameraMotion {
            x: level(x),
            y: level(y),
        });
        let (dx, dy) = match (self.inner.pose(), camera_motion) {
            (Some(before), Some((x, y))) => (x - number(before.x), y - number(before.y)),
            _ => (0.0, 0.0),
        };
        let shift = |r: &Rect| Rect {
            x: level(number(r.x) + dx),
            y: level(number(r.y) + dy),
            width: r.width,
            height: r.height,
        };
        let feed = self
            .inner
            .prepare(stamp(t_ms), since_last, &motion, &shift, detections, &placed);
        if feed.restart {
            self.engine = new_engine();
        }
        let fed = feed
            .entries
            .iter()
            .map(|entry| {
                let d = &detections[entry.index as usize];
                (
                    [number(d.x), number(d.y), number(d.width), number(d.height)],
                    number(d.confidence),
                    entry.class as i64,
                )
            })
            .collect();
        let sightings: Vec<Sighting> = self
            .engine
            .update(fed)
            .into_iter()
            .map(|t| Sighting {
                engine_id: t.track_id as u32,
                class_id: t.class_id,
                is_activated: t.is_activated,
                bbox: Rect {
                    x: level(t.tlwh[0]),
                    y: level(t.tlwh[1]),
                    width: level(t.tlwh[2]),
                    height: level(t.tlwh[3]),
                },
                score: level_or(t.score, i32::MAX),
            })
            .collect();
        assert!(
            self.inner.next_id() as u64 + sightings.len() as u64 <= u32::MAX as u64,
            "ids have run out"
        );
        let assess = |track: &WorldTrack, s: &Sighting| measure(track, s, t_ms);
        let lapse = |track: &WorldTrack| Lapse {
            since_seen: stamp(t_ms - time(track.last_seen_ms)),
            rest: stamp(time(track.last_seen_ms) - time(track.still_since_ms)),
        };
        let cross = |segment: &TrackSegment, line: &PreparedLine| {
            segment_measure(&segment.from, &segment.to, line)
        };
        self.inner
            .ingest(&sightings, &overlap, &assess, &lapse, &cross)
    }
}

/// A sighting measured against the object it is taken for; floating point throughout. The
/// movement is averaged over ticks of 200 ms, so that jitter cancels out.
fn measure(track: &WorldTrack, s: &Sighting, t_ms: f64) -> Measure {
    let center = |r: &Rect| {
        (
            number(r.x) + number(r.width) / 2.0,
            number(r.y) + number(r.height) / 2.0,
        )
    };
    let (cx, cy) = center(&s.bbox);
    let (px, py) = center(&track.bbox);
    let dt = (t_ms - time(track.last_seen_ms)).max(1.0);
    let scale = (200.0_f32 / dt as f32).min(1.0);
    let vx = number(track.velocity_x) * 0.6 + (cx - px) * scale * 0.4;
    let vy = number(track.velocity_y) * 0.6 + (cy - py) * scale * 0.4;
    let (x, y) = (number(s.bbox.x), number(s.bbox.y));
    let (w, h) = (number(s.bbox.width), number(s.bbox.height));
    let shot = number(s.score) * (w * h).sqrt();
    Measure {
        since_first: stamp(t_ms - time(track.first_seen_ms)),
        since_still: stamp(t_ms - time(track.still_since_ms)),
        velocity_x: level(vx),
        velocity_y: level(vy),
        speed: level((vx.powi(2) + vy.powi(2)).sqrt()),
        from: Point {
            x: level(px),
            y: level(py),
        },
        to: Point {
            x: level(cx),
            y: level(cy),
        },
        shift_x: level_or((px - cx).abs(), i32::MAX),
        shift_y: level_or((py - cy).abs(), i32::MAX),
        overlap: overlap(&track.anchor, &s.bbox),
        right: level(x + w),
        bottom: level(y + h),
        shot: level(shot),
        cut_shot: level(shot * CUT_WORTH),
        shot_bar: level(number(track.best_shot_score) * CLEARLY_BETTER),
    }
}

const TICK_MS: f64 = 200.0;

#[derive(Debug, Clone)]
struct ReplayTick {
    t_ms: f64,
    detections: Vec<Detection>,
}

fn run_world(ticks: &[ReplayTick], keep_events: bool) -> ReplaySummary {
    let mut world = World::new(WorldConfig::default());
    let mut replay = Replay::new(keep_events);
    for tick in ticks {
        let update = world.ingest(tick.t_ms, &tick.detections, None);
        let step = engine_tick(&update);
        let count = tick.detections.len() as u64;
        assert!(replay.has_room(count, &step));
        let age = |t: Stamp| stamp(tick.t_ms - time(t));
        replay.run_step(stamp(tick.t_ms), count, 0, &step, &age, &overlap);
    }
    replay.summary()
}

fn canon(mut summary: ReplaySummary) -> String {
    summary.tick_latency = LatencyStats {
        sum_us: 0,
        count: 0,
        p50_us: 0,
        p95_us: 0,
        max_us: 0,
    };
    format!("{summary:?}")
}

fn events(summary: &ReplaySummary, kind: &str) -> Option<u64> {
    summary
        .events_by_type
        .iter()
        .find(|k| k.kind == kind)
        .map(|k| k.count)
}

fn det(x: f32, y: f32, w: f32, h: f32, confidence: f32, label: &str) -> Detection {
    Detection {
        x: level(x),
        y: level(y),
        width: level(w),
        height: level(h),
        confidence: level(confidence),
        label: label.to_string(),
    }
}

fn tick(index: usize, detections: Vec<Detection>) -> ReplayTick {
    ReplayTick {
        t_ms: index as f64 * TICK_MS,
        detections,
    }
}

fn parked_car_flicker() -> Vec<ReplayTick> {
    let mut ticks = Vec::new();
    for session in 0..6 {
        let base = session * 250;
        for i in 0..12 {
            let confidence = if i % 2 == 0 { 0.55 } else { 0.72 };
            ticks.push(tick(
                base + i,
                vec![det(0.4, 0.1, 0.25, 0.12, confidence, "vehicle")],
            ));
        }
        for i in 12..250 {
            ticks.push(tick(base + i, Vec::new()));
        }
    }
    ticks
}

fn gate_visit() -> Vec<ReplayTick> {
    let mut ticks = Vec::new();
    for i in 0..30 {
        let x = 0.05 + i as f32 * 0.01;
        ticks.push(tick(i, vec![det(x, 0.4, 0.2, 0.15, 0.85, "vehicle")]));
    }
    for i in 30..180 {
        ticks.push(tick(i, vec![det(0.35, 0.4, 0.2, 0.15, 0.85, "vehicle")]));
    }
    for i in 180..220 {
        let x = 0.35 + (i - 180) as f32 * 0.012;
        ticks.push(tick(i, vec![det(x, 0.4, 0.2, 0.15, 0.85, "vehicle")]));
    }
    ticks
}

fn passing_car() -> Vec<ReplayTick> {
    let mut ticks = Vec::new();
    for i in 0..120 {
        let mut detections = vec![det(0.45, 0.5, 0.22, 0.16, 0.8, "vehicle")];
        if (20..80).contains(&i) {
            let x = -0.1 + (i - 20) as f32 * 0.015;
            detections.push(det(x, 0.45, 0.25, 0.18, 0.85, "vehicle"));
        }
        ticks.push(tick(i, detections));
    }
    ticks
}

#[test]
fn deterministic_across_runs() {
    for scenario in [parked_car_flicker(), gate_visit(), passing_car()] {
        let a = run_world(&scenario, true);
        let b = run_world(&scenario, true);
        assert_eq!(canon(a), canon(b));
    }
}

#[test]
fn world_baselines() {
    let flicker = run_world(&parked_car_flicker(), true);
    println!("world parked_car_flicker: {flicker:?}");
    assert_eq!(
        flicker.tracks_created, 1,
        "one car, one identity across all decode gaps"
    );
    assert_eq!(flicker.identity_churn, 0);

    let gate = run_world(&gate_visit(), true);
    println!("world gate_visit: {gate:?}");
    assert_eq!(gate.tracks_created, 1);
    assert_eq!(gate.identity_churn, 0);
    assert_eq!(
        events(&gate, "objectSettled"),
        Some(1),
        "waiting at a gate settles"
    );
    assert_eq!(events(&gate, "objectWoke"), Some(1), "driving on wakes");

    let passing = run_world(&passing_car(), true);
    println!("world passing_car: {passing:?}");
    assert_eq!(passing.tracks_created, 2);
    assert_eq!(passing.identity_churn, 0);

    let a = run_world(&parked_car_flicker(), true);
    let b = run_world(&parked_car_flicker(), true);
    assert_eq!(canon(a), canon(b));
}

fn tick_to_json(tick: &ReplayTick) -> String {
    let detections = tick
        .detections
        .iter()
        .map(|d| {
            let mut object = Value::Null;
            object["x"] = Value::from(number(d.x));
            object["y"] = Value::from(number(d.y));
            object["width"] = Value::from(number(d.width));
            object["height"] = Value::from(number(d.height));
            object["confidence"] = Value::from(number(d.confidence));
            object["label"] = Value::from(d.label.clone());
            object
        })
        .collect();
    let mut object = Value::Null;
    object["tMs"] = Value::from(tick.t_ms);
    object["detections"] = Value::Array(detections);
    serde_json::to_string(&object).unwrap()
}

fn tick_from_json(line: &str) -> ReplayTick {
    let value: Value = serde_json::from_str(line).unwrap();
    let detections = value["detections"]
        .as_array()
        .unwrap()
        .iter()
        .map(|d| {
            let part = |name: &str| d[name].as_f64().unwrap() as f32;
            det(
                part("x"),
                part("y"),
                part("width"),
                part("height"),
                part("confidence"),
                d["label"].as_str().unwrap(),
            )
        })
        .collect();
    ReplayTick {
        t_ms: value["tMs"].as_f64().unwrap(),
        detections,
    }
}

#[test]
fn jsonl_roundtrip() {
    let scenario = gate_visit();
    let jsonl: String = scenario
        .iter()
        .map(|t| tick_to_json(t) + "\n")
        .collect();
    let parsed: Vec<ReplayTick> =
        read_jsonl(&jsonl, &|line: &String| Ok::<ReplayTick, String>(tick_from_json(line)))
            .unwrap();
    assert_eq!(parsed.len(), scenario.len());
    let a = run_world(&scenario, true);
    let b = run_world(&parsed, true);
    assert_eq!(canon(a), canon(b));
}

#[test]
fn empty_lines_are_not_read() {
    let input = "\n  {\"a\": 1}\t\r\n\r\n \u{3000}\n{\"b\":\n2}".to_string();
    assert_eq!(
        split_lines(&input),
        vec!["{\"a\": 1}".to_string(), "{\"b\":".to_string(), "2}".to_string()]
    );
    assert!(split_lines(&String::new()).is_empty());
    assert!(split_lines(&" \n\t\n".to_string()).is_empty());
}

fn whole_numbers(text: &str) -> Result<Vec<i64>, String> {
    read_jsonl(&text.to_string(), &|line: &String| {
        serde_json::from_str::<i64>(line).map_err(|_| line.clone())
    })
}

#[test]
fn a_session_with_a_bad_line_is_not_read_at_all() {
    assert_eq!(whole_numbers(" 3 \n\n-4\r\n  \n5"), Ok(vec![3, -4, 5]));
    assert_eq!(whole_numbers("3\nthree\n4\nfour"), Err("three".to_string()));
    assert_eq!(whole_numbers("3\n 4 5 \n"), Err("4 5".to_string()));
    assert_eq!(whole_numbers(""), Ok(vec![]));
    assert_eq!(whole_numbers("\n \n"), Ok(vec![]));
}

#[test]
fn what_was_written_line_by_line_is_read_back() {
    let items: Vec<i64> = vec![0, 17, -2_000_000_000, 17];
    let text: String = items
        .iter()
        .map(|n| serde_json::to_string(n).unwrap() + "\n")
        .collect();
    assert_eq!(whole_numbers(&text), Ok(items));
}

#[test]
fn trimming_takes_white_space_off_both_ends() {
    let line: Vec<char> = " \t a b \u{a0}".chars().collect();
    assert_eq!(trim(&line), "a b");
    assert_eq!(trim(&vec![' ']), "");
    assert_eq!(trim(&vec!['x']), "x");
}

#[test]
fn white_space_is_what_unicode_says() {
    for code in 0..=0x10_ffff {
        if let Some(c) = char::from_u32(code) {
            let white = matches!(
                code,
                0x9..=0xd
                    | 0x20
                    | 0x85
                    | 0xa0
                    | 0x1680
                    | 0x2000..=0x200a
                    | 0x2028
                    | 0x2029
                    | 0x202f
                    | 0x205f
                    | 0x3000
            );
            assert_eq!(trim(&vec![c]).is_empty(), white, "{code:x}");
        }
    }
}

fn snapshot(id: u32, x: f32, label: &str) -> TrackSnapshot {
    TrackSnapshot {
        track_id: id,
        label: label.to_string(),
        x: level(x),
        y: level(0.4),
        width: level(0.2),
        height: level(0.2),
        confidence: level(0.9),
        speed: 0,
        velocity_x: 0,
        velocity_y: 0,
        state: TrackState::Active,
    }
}

fn sight(id: u32, x: f32, label: &str) -> Sight {
    Sight {
        snapshot: snapshot(id, x, label),
        lost: false,
    }
}

fn step(replay: &mut Replay, t_ms: f64, micros: u64, tick: &EngineTick) {
    let age = |t: Stamp| stamp(t_ms - time(t));
    replay.run_step(stamp(t_ms), 2, micros, tick, &age, &overlap);
}

fn engine(
    tracks: Vec<Sight>,
    created: Vec<u32>,
    removed: Vec<u32>,
    extra_events: Vec<SemanticEvent>,
) -> EngineTick {
    EngineTick {
        tracks,
        created,
        removed,
        extra_events,
    }
}

/// A session in which one object goes and, after a while, another one comes.
fn changeover(pause_ms: f64, x: f32, label: &str) -> ReplaySummary {
    let mut replay = Replay::new(true);
    step(
        &mut replay,
        0.0,
        5,
        &engine(
            vec![sight(1, 0.4, "person")],
            vec![1],
            vec![],
            vec![],
        ),
    );
    step(
        &mut replay,
        1_000.0,
        1,
        &engine(
            vec![],
            vec![],
            vec![1],
            vec![],
        ),
    );
    step(
        &mut replay,
        1_000.0 + pause_ms,
        3,
        &engine(
            vec![sight(2, x, label)],
            vec![2],
            vec![],
            vec![],
        ),
    );
    replay.summary()
}

#[test]
fn a_tick_is_counted() {
    let summary = changeover(1_000.0, 0.4, "person");
    assert_eq!(summary.ticks, 3);
    assert_eq!(summary.detections_in, 6);
    assert_eq!(summary.tracks_created, 2);
    assert_eq!(summary.tracks_removed, 1);
    assert_eq!(summary.events.len(), 3);
    assert_eq!(time(summary.events[1].t_ms), 1_000.0);
    assert_eq!(summary.events[1].event.kind(), "objectDeparted");
    let kinds: Vec<(&str, u64)> = summary
        .events_by_type
        .iter()
        .map(|k| (k.kind.as_str(), k.count))
        .collect();
    assert_eq!(kinds, vec![("objectDeparted", 1), ("objectEntered", 2)]);
    assert_eq!(
        summary.tick_latency,
        LatencyStats {
            sum_us: 9,
            count: 3,
            p50_us: 3,
            p95_us: 3,
            max_us: 5
        }
    );
}

#[test]
fn one_who_comes_back_under_another_id_is_churn() {
    assert_eq!(changeover(1_000.0, 0.4, "person").identity_churn, 1);
    assert_eq!(changeover(119_000.0, 0.45, "person").identity_churn, 1);
    // too late, elsewhere, of another class
    assert_eq!(changeover(121_000.0, 0.4, "person").identity_churn, 0);
    assert_eq!(changeover(1_000.0, 0.7, "person").identity_churn, 0);
    assert_eq!(changeover(1_000.0, 0.4, "vehicle").identity_churn, 0);
}

#[test]
fn events_are_counted_even_if_they_are_not_kept() {
    let mut replay = Replay::new(false);
    step(
        &mut replay,
        0.0,
        1,
        &engine(
            vec![],
            vec![],
            vec![],
            vec![SemanticEvent::BestShotUpdated(snapshot(1, 0.4, "person"))],
        ),
    );
    let summary = replay.summary();
    assert!(summary.events.is_empty());
    assert_eq!(events(&summary, "bestShotUpdated"), Some(1));
    assert_eq!(events(&summary, "objectLost"), None);
}

#[test]
fn what_is_lost_and_found_is_reported_once() {
    let mut replay = Replay::new(true);
    for (i, lost) in [false, true, true, false, false].into_iter().enumerate() {
        let seen = Sight {
            snapshot: snapshot(1, 0.4, "person"),
            lost,
        };
        let tick = engine(vec![seen], vec![], vec![], vec![]);
        step(&mut replay, i as f64 * 200.0, 1, &tick);
    }
    let summary = replay.summary();
    let kinds: Vec<(&str, f64)> = summary
        .events
        .iter()
        .map(|e| (e.event.kind(), time(e.t_ms)))
        .collect();
    assert_eq!(kinds, vec![("objectLost", 200.0), ("objectRecovered", 600.0)]);
}

#[test]
fn an_object_that_was_never_seen_is_only_counted() {
    let mut replay = Replay::new(true);
    step(&mut replay, 0.0, 1, &engine(vec![], vec![7], vec![8], vec![]));
    let summary = replay.summary();
    assert_eq!((summary.tracks_created, summary.tracks_removed), (1, 1));
    assert!(summary.events.is_empty());
}

#[test]
fn latencies_are_ranked() {
    let none = latency_stats(&mut vec![]);
    assert_eq!(
        none,
        LatencyStats {
            sum_us: 0,
            count: 0,
            p50_us: 0,
            p95_us: 0,
            max_us: 0
        }
    );
    let mut hundred: Vec<u64> = (1..=100).rev().collect();
    assert_eq!(
        latency_stats(&mut hundred),
        LatencyStats {
            sum_us: 5050,
            count: 100,
            p50_us: 50,
            p95_us: 95,
            max_us: 100
        }
    );
    assert_eq!(hundred, (1..=100).collect::<Vec<u64>>());
    let one = latency_stats(&mut vec![7]);
    assert_eq!((one.p50_us, one.p95_us, one.max_us), (7, 7, 7));
    let mut four = vec![40, 10, 30, 20];
    assert_eq!(
        latency_stats(&mut four),
        LatencyStats {
            sum_us: 100,
            count: 4,
            p50_us: 20,
            p95_us: 30,
            max_us: 40
        }
    );
    assert_eq!(four, vec![10, 20, 30, 40]);
}

#[test]
fn playing_again_gives_the_same_but_for_the_time() {
    let play = |slowness: u64| {
        let mut replay = Replay::new(true);
        for i in 0..6u32 {
            let t_ms = i as f64 * 500.0;
            let tick = if i % 2 == 0 {
                engine(vec![sight(i, 0.4, "person")], vec![i], vec![], vec![])
            } else {
                engine(vec![], vec![], vec![i - 1], vec![])
            };
            step(&mut replay, t_ms, slowness * (i as u64 + 1), &tick);
        }
        replay.summary()
    };
    let (quick, slow) = (play(1), play(10));
    assert_eq!(quick.tick_latency.sum_us, 21);
    assert_eq!(slow.tick_latency.sum_us, 210);
    assert_eq!(quick.identity_churn, 2);
    assert_eq!(canon(quick), canon(slow));
}

fn zone(filter: &str, match_type: &str) -> ReplayZone {
    ReplayZone {
        labels: vec!["Car".to_string()],
        filter: filter.to_string(),
        match_type: match_type.to_string(),
        is_privacy_mask: false,
        points: [[0.0, 0.0], [50.0, 0.0], [50.0, 50.0]]
            .iter()
            .map(|p| UiPoint {
                x: stamp(p[0]),
                y: stamp(p[1]),
            })
            .collect(),
    }
}

fn line(direction: &str, points: usize) -> ReplayLine {
    ReplayLine {
        name: "gate".to_string(),
        direction: direction.to_string(),
        labels: vec![],
        points: (0..points)
            .map(|i| UiPoint {
                x: stamp(i as f64),
                y: stamp(50.0),
            })
            .collect(),
    }
}

#[test]
fn recorded_zones_need_known_words() {
    let z = to_zone_input(&zone("include", "intersect")).unwrap();
    assert_eq!(z.filter, ZoneFilterMode::Include);
    assert_eq!(z.match_type, ZoneMatchType::Intersect);
    assert_eq!(z.labels, vec!["Car".to_string()]);
    assert_eq!(z.points.len(), 3);
    let z = to_zone_input(&zone("exclude", "contain")).unwrap();
    assert_eq!(z.filter, ZoneFilterMode::Exclude);
    assert_eq!(z.match_type, ZoneMatchType::Contain);
    assert!(to_zone_input(&zone("Include", "contain")).is_none());
    assert!(to_zone_input(&zone("include", "inside")).is_none());
}

#[test]
fn recorded_lines_need_a_direction_and_two_points() {
    for (word, direction) in [
        ("both", LineDirectionFilter::Both),
        ("a-to-b", LineDirectionFilter::AToB),
        ("b-to-a", LineDirectionFilter::BToA),
    ] {
        assert_eq!(to_line_input(&line(word, 2)).unwrap().direction, direction);
    }
    assert!(to_line_input(&line("a_to_b", 2)).is_none());
    assert!(to_line_input(&line("both", 1)).is_none());
    assert!(to_line_input(&line("both", 3)).is_none());
}

#[test]
fn a_config_changes_what_it_names() {
    let mut world = CameraWorld::new(WorldConfig::default());
    let mut aspect = level(1.5);
    let config = ReplayConfig {
        zones: Some(vec![
            zone("include", "contain"),
            zone("include", "inside"),
            zone("exclude", "intersect"),
        ]),
        min_confidence: Some(level(0.4)),
        lines: Some(vec![line("both", 2), line("both", 3)]),
        aspect_ratio: Some(level(2.0)),
    };
    apply_config(&mut world, &config, &mut aspect, &scaled, &gap, &crossing_ends);
    assert_eq!(number(aspect), 2.0);
    assert_eq!(world.zones().active_zones.len(), 2);
    assert_eq!(world.zones().all_labels, vec!["car".to_string()]);
    let nothing = ReplayConfig {
        zones: None,
        min_confidence: None,
        lines: None,
        aspect_ratio: None,
    };
    apply_config(&mut world, &nothing, &mut aspect, &scaled, &gap, &crossing_ends);
    assert_eq!(number(aspect), 2.0);
    assert_eq!(world.zones().active_zones.len(), 2);
}

#[test]
fn settings_are_changed_by_name() {
    let value = SettingValue {
        span: stamp(1_234.0),
        level: level(0.5),
        ticks: 9,
        count: 11,
    };
    let mut config = WorldConfig::default();
    for name in [
        "gapResetMs",
        "departGraceMs",
        "settleDefaultMs",
        "settleVehicleMs",
        "settlePersonMs",
        "stationarySpeed",
        "reassocIou",
        "wakeTicks",
        "confirmMs",
        "maxDormant",
    ] {
        assert!(
            change_setting(&mut config, &name.to_string(), &value),
            "{name} is a setting"
        );
    }
    assert_eq!(
        config,
        WorldConfig {
            gap_reset_ms: stamp(1_234.0),
            depart_grace_ms: stamp(1_234.0),
            settle_default_ms: stamp(1_234.0),
            settle_vehicle_ms: stamp(1_234.0),
            settle_person_ms: stamp(1_234.0),
            stationary_speed: level(0.5),
            reassoc_iou: level(0.5),
            wake_ticks: 9,
            confirm_ms: stamp(1_234.0),
            max_dormant: 11,
        }
    );
    assert!(!change_setting(&mut config, &"gap".to_string(), &value));
}

#[test]
fn the_usual_rules() {
    let config = WorldConfig::default();
    assert_eq!(time(config.gap_reset_ms), 5_000.0);
    assert_eq!(time(config.depart_grace_ms), 5_000.0);
    assert_eq!(time(config.settle_ms(&"cat".to_string())), 10_000.0);
    assert_eq!(time(config.settle_ms(&"vehicle".to_string())), 8_000.0);
    assert_eq!(time(config.settle_ms(&"person".to_string())), 120_000.0);
    assert_eq!(number(config.stationary_speed), 0.002);
    assert_eq!(number(config.reassoc_iou), 0.3);
    assert_eq!(config.wake_ticks, 3);
    assert_eq!(time(config.confirm_ms), 500.0);
    assert_eq!(config.max_dormant, 50);
}
