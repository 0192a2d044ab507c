//! The world, fed by its tracking engine.
use postprocessor::iou::{box_iou, AreaShare};
use postprocessor::line_crossing::{
    DetectionLineInput, LineDirectionFilter, LineEnds, PreparedLine, SegmentMeasure,
};
use postprocessor::polygon::{EdgeMeasure, PolygonMeasure, SideMeasure};
use postprocessor::reading::{
    bits_of_level, bits_of_stamp, level_of_bits, stamp_of_bits, Level, Stamp, LEVEL_LIMIT,
    STAMP_LIMIT,
};
use postprocessor::semantic::{SemanticEvent, TrackState};
use postprocessor::track::{Measure, Sighting, TrackSegment, WorldConfig, WorldTrack};
use postprocessor::types::{CameraMotion, Detection, Extent, Point, Rect, Shift, UiPoint};
use postprocessor::world::{CameraWorld, WorldUpdate};
use postprocessor::world_model::Lapse;
use postprocessor::zone_filter::{
    Placement, PreparedZones, ZoneFilterMode, ZoneInput, ZoneMatchType,
};
use trackforge::trackers::byte_track::ByteTrack;

/// The reading of a real. What is not a number reads lower than everything.
fn level(value: f32) -> Level {
    level_or(value, Level::MIN)
}

/// The reading of a real, and of what is not a number.
fn level_or(value: f32, not_a_number: Level) -> Level {
    level_of_bits(value.to_bits()).unwrap_or(not_a_number)
}

/// The real behind a reading.
fn number(level: Level) -> f32 {
    if level.unsigned_abs() > LEVEL_LIMIT {
        return f32::NAN;
    }
    f32::from_bits(bits_of_level(level))
}

/// The reading of a 64-bit real. What is not a number reads lower than everything.
fn stamp(value: f64) -> Stamp {
    stamp_of_bits(value.to_bits()).unwrap_or(Stamp::MIN)
}

/// The real behind a 64-bit reading.
fn time(stamp: Stamp) -> f64 {
    if stamp.unsigned_abs() > STAMP_LIMIT {
        return f64::NAN;
    }
    f64::from_bits(bits_of_stamp(stamp))
}

/// The four edges of a box.
fn extent(rect: &Rect) -> Extent {
    Extent {
        left: rect.x,
        top: rect.y,
        right: level(number(rect.x) + number(rect.width)),
        bottom: level(number(rect.y) + number(rect.height)),
    }
}

/// The box of a detection.
fn rect_of(d: &Detection) -> Rect {
    Rect {
        x: d.x,
        y: d.y,
        width: d.width,
        height: d.height,
    }
}

/// The areas of two boxes.
fn area_share(a: &Rect, b: &Rect) -> AreaShare {
    let (ax, ay, aw, ah) = (number(a.x), number(a.y), number(a.width), number(a.height));
    let (bx, by, bw, bh) = (number(b.x), number(b.y), number(b.width), number(b.height));
    let ix1 = ax.max(bx);
    let iy1 = ay.max(by);
    let ix2 = (ax + aw).min(bx + bw);
    let iy2 = (ay + ah).min(by + bh);
    let inter = (ix2 - ix1).max(0.0) * (iy2 - iy1).max(0.0);
    let union = aw * ah + bw * bh - inter;
    AreaShare {
        union: level(union),
        ratio: level(inter / union),
    }
}

/// The overlap of two boxes.
fn overlap(a: &Rect, b: &Rect) -> Level {
    box_iou(&extent(a), &extent(b), &area_share(a, b))
}

/// The place of a drawn point in the image.
fn scaled(p: &UiPoint) -> Point {
    Point {
        x: level((time(p.x) / 100.0) as f32),
        y: level((time(p.y) / 100.0) as f32),
    }
}

/// The distance of two places.
fn gap(a: &Point, b: &Point) -> Shift {
    Shift {
        x: level((number(a.x) - number(b.x)).abs()),
        y: level((number(a.y) - number(b.y)).abs()),
    }
}

/// The center of a box.
fn center(r: &Rect) -> Point {
    Point {
        x: level(number(r.x) + number(r.width) * 0.5),
        y: level(number(r.y) + number(r.height) * 0.5),
    }
}

/// The ends of the line across a drawn handle: the handle turned by a right angle about its
/// middle, in an image of this aspect ratio.
fn crossing_ends(a: &UiPoint, b: &UiPoint, aspect_ratio: Level) -> LineEnds {
    let (a, b, aspect_ratio) = (scaled(a), scaled(b), number(aspect_ratio));
    let (ax, ay) = (number(a.x), number(a.y));
    let (bx, by) = (number(b.x), number(b.y));
    let (mx, my) = ((ax + bx) / 2.0, (ay + by) / 2.0);
    let (dx, dy) = ((bx - ax) * aspect_ratio, by - ay);
    let (nx, ny) = (-dy / aspect_ratio / 2.0, dx / 2.0);
    LineEnds {
        p1: Point {
            x: level(mx - nx),
            y: level(my - ny),
        },
        p2: Point {
            x: level(mx + nx),
            y: level(my + ny),
        },
    }
}

/// How a movement lies to a line.
fn segment_measure(from: &Point, to: &Point, line: &PreparedLine) -> SegmentMeasure {
    let (ax, ay) = (number(from.x), number(from.y));
    let (bx, by) = (number(to.x), number(to.y));
    let (cx, cy) = (number(line.p1.x), number(line.p1.y));
    let (dx, dy) = (number(line.p2.x), number(line.p2.y));
    let denom = (bx - ax) * (dy - cy) - (by - ay) * (dx - cx);
    let t = ((cx - ax) * (dy - cy) - (cy - ay) * (dx - cx)) / denom;
    let u = ((cx - ax) * (by - ay) - (cy - ay) * (bx - ax)) / denom;
    SegmentMeasure {
        denom: level_or(denom.abs(), Level::MAX),
        along_track: level(t),
        along_line: level(u),
        cross: level((bx - ax) * (dy - cy) - (by - ay) * (dx - cx)),
    }
}

fn edge_measure(p: (f32, f32), end: (f32, f32), start: (f32, f32)) -> EdgeMeasure {
    let (px, py) = p;
    let (xi, yi) = end;
    let (xj, yj) = start;
    let slope = (yj - yi) / (xj - xi);
    EdgeMeasure {
        run: level_or((xi - xj).abs(), Level::MAX),
        offset: level_or((px - xi).abs(), Level::MAX),
        residual: level_or((py - (slope * px + (yi - slope * xi))).abs(), Level::MAX),
        meet_x: level((xj - xi) * (py - yi) / (yj - yi) + xi),
    }
}

fn side_measure(
    a1: (f32, f32),
    a2: (f32, f32),
    b1: (f32, f32),
    b2: (f32, f32),
) -> SideMeasure {
    let denom = (b2.1 - b1.1) * (a2.0 - a1.0) - (b2.0 - b1.0) * (a2.1 - a1.1);
    let ua = ((b2.0 - b1.0) * (a1.1 - b1.1) - (b2.1 - b1.1) * (a1.0 - b1.0)) / denom;
    let ub = ((a2.0 - a1.0) * (a1.1 - b1.1) - (a2.1 - a1.1) * (a1.0 - b1.0)) / denom;
    SideMeasure {
        denom: level_or(denom.abs(), Level::MAX),
        along_side: level(ua),
        along_edge: level(ub),
    }
}

/// How a box lies to a polygon.
fn polygon_measure(e: &Extent, polygon: &[Point]) -> PolygonMeasure {
    let (left, top) = (number(e.left), number(e.top));
    let (right, bottom) = (number(e.right), number(e.bottom));
    let corners = [(left, top), (right, top), (right, bottom), (left, bottom)];
    let vertices: Vec<(f32, f32)> = polygon.iter().map(|p| (number(p.x), number(p.y))).collect();
    let n = vertices.len();
    PolygonMeasure {
        corners: corners
            .iter()
            .map(|&corner| {
                (0..n)
                    .map(|i| edge_measure(corner, vertices[i], vertices[(i + n - 1) % n]))
                    .collect()
            })
            .collect(),
        sides: (1..n)
            .map(|i| {
                (0..4)
                    .map(|s| {
                        side_measure(
                            corners[s],
                            corners[(s + 1) % 4],
                            vertices[i - 1],
                            vertices[i],
                        )
                    })
                    .collect()
            })
            .collect(),
    }
}

/// Where detections lie in the image and to the zones.
fn placements(detections: &[Detection], zones: &PreparedZones) -> Vec<Placement> {
    detections
        .iter()
        .map(|d| {
            let e = extent(&rect_of(d));
            Placement {
                extent: e,
                masks: zones
                    .privacy_masks
                    .iter()
                    .map(|z| polygon_measure(&e, &z.points))
                    .collect(),
                zones: zones
                    .active_zones
                    .iter()
                    .map(|z| polygon_measure(&e, &z.points))
                    .collect(),
            }
        })
        .collect()
}

/// What a cut-off picture is worth compared with a whole one.
const CUT_WORTH: f32 = 0.3;

/// How much better a picture has to be to replace the best one.
const CLEARLY_BETTER: f32 = 1.25;

struct World {
    inner: CameraWorld,
    engine: ByteTrack,
}

fn new_engine() -> ByteTrack {
    ByteTrack::new(0.5, 30, 0.9, 0.5)
}

impl World {
    fn new(config: WorldConfig) -> Self {
        World {
            inner: CameraWorld::new(config),
            engine: new_engine(),
        }
    }

    fn set_zones(&mut self, zones: Vec<ZoneInput>) {
        self.inner.set_zones(&zones, &scaled, &gap);
    }

    fn set_min_confidence(&mut self, min_confidence: f32) {
        self.inner.set_min_confidence(level(min_confidence));
    }

    fn filter_indices(&self, detections: &Vec<Detection>) -> Vec<u32> {
        assert!(detections.len() <= u32::MAX as usize, "too many detections");
        self.inner
            .filter_indices(detections, &placements(detections, self.inner.zones()))
    }

    fn set_lines(&mut self, lines: Vec<DetectionLineInput>, aspect_ratio: f32) {
        assert!(lines.len() <= u32::MAX as usize, "too many lines");
        self.inner
            .set_lines(&lines, level(aspect_ratio), &crossing_ends);
    }

    fn notify_camera_move(&mut self) {
        self.inner.notify_camera_move();
    }

    fn ingest(
        &mut self,
        t_ms: f64,
        detections: &Vec<Detection>,
        camera_motion: Option<(f32, f32)>,
    ) -> WorldUpdate {
        assert!(detections.len() <= u32::MAX as usize, "too many detections");
        let placed = placements(detections, self.inner.zones());
        let since_last = stamp(t_ms - time(self.inner.last_t_ms()));
        let motion = camera_motion.map(|(x, y)| CameraMotion {
            x: level(x),
            y: level(y),
        });
        let (dx, dy) = match (self.inner.pose(), camera_motion) {
            (Some(before), Some((x, y))) => (x - number(before.x), y - number(before.y)),
            _ => (0.0, 0.0),
        };
        let shift = |r: &Rect| Rect {
            x: level(number(r.x) + dx),
            y: level(number(r.y) + dy),
            width: r.width,
            height: r.height,
        };
        let feed = self
            .inner
            .prepare(stamp(t_ms), since_last, &motion, &shift, detections, &placed);
        if feed.restart {
            self.engine = new_engine();
        }
        let fed = feed
            .entries
            .iter()
            .map(|entry| {
                let d = &detections[entry.index as usize];
                (
                    [number(d.x), number(d.y), number(d.width), number(d.height)],
                    number(d.confidence),
                    entry.class as i64,
                )
            })
            .collect();
        let sightings: Vec<Sighting> = self
            .engine
            .update(fed)
            .into_iter()
            .map(|t| Sighting {
                engine_id: t.track_id as u32,
                class_id: t.class_id,
                is_activated: t.is_activated,
                bbox: Rect {
                    x: level(t.tlwh[0]),
                    y: level(t.tlwh[1]),
                    width: level(t.tlwh[2]),
                    height: level(t.tlwh[3]),
                },
                score: level_or(t.score, i32::MAX),
            })
            .collect();
        assert!(
            self.inner.next_id() as u64 + sightings.len() as u64 <= u32::MAX as u64,
            "ids have run out"
        );
        let assess = |track: &WorldTrack, s: &Sighting| measure(track, s, t_ms);
        let lapse = |track: &WorldTrack| Lapse {
            since_seen: stamp(t_ms - time(track.last_seen_ms)),
            rest: stamp(time(track.last_seen_ms) - time(track.still_since_ms)),
        };
        let cross = |segment: &TrackSegment, line: &PreparedLine| {
            segment_measure(&segment.from, &segment.to, line)
        };
        self.inner
            .ingest(&sightings, &overlap, &assess, &lapse, &cross)
    }
}

/// A sighting measured against the object it is taken for; floating point throughout. The
/// movement is averaged over ticks of 200 ms, so that jitter cancels out.
fn measure(track: &WorldTrack, s: &Sighting, t_ms: f64) -> Measure {
    let center = |r: &Rect| {
        (
            number(r.x) + number(r.width) / 2.0,
            number(r.y) + number(r.height) / 2.0,
        )
    };
    let (cx, cy) = center(&s.bbox);
    let (px, py) = center(&track.bbox);
    let dt = (t_ms - time(track.last_seen_ms)).max(1.0);
    let scale = (200.0_f32 / dt as f32).min(1.0);
    let vx = number(track.velocity_x) * 0.6 + (cx - px) * scale * 0.4;
    let vy = number(track.velocity_y) * 0.6 + (cy - py) * scale * 0.4;
    let (x, y) = (number(s.bbox.x), number(s.bbox.y));
    let (w, h) = (number(s.bbox.width), number(s.bbox.height));
    let shot = number(s.score) * (w * h).sqrt();
    Measure {
        since_first: stamp(t_ms - time(track.first_seen_ms)),
        since_still: stamp(t_ms - time(track.still_since_ms)),
        velocity_x: level(vx),
        velocity_y: level(vy),
        speed: level((vx.powi(2) + vy.powi(2)).sqrt()),
        from: Point {
            x: level(px),
            y: level(py),
        },
        to: Point {
            x: level(cx),
            y: level(cy),
        },
        shift_x: level_or((px - cx).abs(), i32::MAX),
        shift_y: level_or((py - cy).abs(), i32::MAX),
        overlap: overlap(&track.anchor, &s.bbox),
        right: level(x + w),
        bottom: level(y + h),
        shot: level(shot),
        cut_shot: level(shot * CUT_WORTH),
        shot_bar: level(number(track.best_shot_score) * CLEARLY_BETTER),
    }
}

fn detection(x: f32, y: f32, w: f32, h: f32, confidence: f32, label: &str) -> Detection {
    Detection {
        x: level(x),
        y: level(y),
        width: level(w),
        height: level(h),
        confidence: level(confidence),
        label: label.to_string(),
    }
}

fn person(x: f32) -> Detection {
    detection(x, 0.4, 0.1, 0.2, 0.9, "person")
}

fn vertical_line_at(x_ui: f64, name: &str) -> DetectionLineInput {
    DetectionLineInput {
        name: name.to_string(),
        direction: LineDirectionFilter::Both,
        labels: Vec::new(),
        points: [
            UiPoint {
                x: stamp(x_ui - 10.0),
                y: stamp(50.0),
            },
            UiPoint {
                x: stamp(x_ui + 10.0),
                y: stamp(50.0),
            },
        ],
    }
}

fn count(update: &WorldUpdate, kind: &str) -> usize {
    update.events.iter().filter(|e| e.kind() == kind).count()
}

#[test]
fn crossing_fires_once_per_track() {
    let mut world = World::new(WorldConfig::default());
    world.set_lines(vec![vertical_line_at(50.0, "gate")], 1.0);
    let mut crossings = Vec::new();
    for i in 0..20 {
        let update = world.ingest(i as f64 * 200.0, &vec![person(0.2 + i as f32 * 0.03)], None);
        crossings.extend(update.crossings);
    }
    assert_eq!(crossings.len(), 1);
    assert_eq!(crossings[0].line_name, "gate");
}

#[test]
fn each_line_fires_once_for_an_object_over_a_run() {
    let mut world = World::new(WorldConfig::default());
    world.set_lines(
        vec![vertical_line_at(40.0, "first"), vertical_line_at(60.0, "second")],
        1.0,
    );
    let mut fired = Vec::new();
    let mut t_ms = 0.0;
    // to and fro, across both lines each time
    for round in 0..4 {
        for i in 0..20 {
            let way = if round % 2 == 0 { i } else { 19 - i };
            let update = world.ingest(t_ms, &vec![person(0.2 + way as f32 * 0.03)], None);
            for c in &update.crossings {
                fired.push((c.track_id, c.line_name.clone()));
            }
            t_ms += 200.0;
        }
    }
    assert_eq!(fired.len(), 2);
    assert_eq!(fired[0].0, fired[1].0);
    assert_eq!((fired[0].1.as_str(), fired[1].1.as_str()), ("first", "second"));
}

#[test]
fn no_crossing_across_decode_gap() {
    let mut world = World::new(WorldConfig::default());
    world.set_lines(vec![vertical_line_at(37.0, "gap-line")], 1.0);
    for i in 0..10 {
        let update = world.ingest(i as f64 * 200.0, &vec![person(0.30)], None);
        assert!(update.crossings.is_empty());
    }
    let update = world.ingest(60_000.0, &vec![person(0.34)], None);
    assert!(
        update.created.is_empty(),
        "same spot re-appearance keeps its identity"
    );
    assert!(
        update.crossings.is_empty(),
        "a jump across a decode gap is not a movement"
    );
}

#[test]
fn silent_sleep_emits_lost_and_resume_emits_recovered() {
    let mut world = World::new(WorldConfig::default());
    for i in 0..8 {
        world.ingest(1_000.0 + i as f64 * 200.0, &vec![person(0.5)], None);
    }
    let mut lost = 0;
    let mut departed = 0;
    for i in 0..40 {
        let up = world.ingest(3_000.0 + i as f64 * 200.0, &vec![], None);
        lost += count(&up, "objectLost");
        departed += up.removed.len();
    }
    // never seen moving: fades into sleep, not a departure
    assert_eq!(lost, 1);
    assert_eq!(departed, 0);

    let up = world.ingest(12_000.0, &vec![person(0.5)], None);
    assert!(up.created.is_empty(), "resume keeps the identity");
    assert_eq!(count(&up, "objectRecovered"), 1);
}

#[test]
fn gap_drops_unconfirmed_flickers() {
    let mut world = World::new(WorldConfig::default());
    world.ingest(1_000.0, &vec![person(0.5)], None);
    // a single sighting must not survive the gap as a dormant anchor: the
    // same-spot detection after the gap starts a fresh confirm window
    let update = world.ingest(11_000.0, &vec![person(0.5)], None);
    assert!(update.created.is_empty(), "no instant confirm after a gap");
    let update = world.ingest(11_100.0, &vec![person(0.5)], None);
    assert!(update.created.is_empty());
    let update = world.ingest(11_600.0, &vec![person(0.5)], None);
    assert_eq!(update.created.len(), 1);
}

#[test]
fn identity_survives_a_pan() {
    let mut world = World::new(WorldConfig::default());
    world.set_lines(vec![vertical_line_at(50.0, "pan-line")], 1.0);
    let mut created = 0;
    let mut crossings = 0;
    let mut woke = 0;
    for i in 0..60 {
        // camera pans right: image content shifts left in lockstep with the
        // reported absolute offset; the person is static in the world
        let shift = (i as f32 * 0.01).min(0.4);
        let update = world.ingest(
            i as f64 * 200.0,
            &vec![person(0.6 - shift)],
            Some((-shift, 0.0)),
        );
        created += update.created.len();
        crossings += update.crossings.len();
        woke += count(&update, "objectWoke");
        for t in &update.tracks {
            assert!(
                number(t.speed) < 0.002,
                "pan must not read as movement, got {}",
                number(t.speed)
            );
        }
    }
    assert!(created >= 1);
    assert_eq!(woke, 0, "a pan must never wake or move a compensated track");
    let _ = crossings;
}

#[test]
fn best_shot_prefers_clean_frames_with_hysteresis() {
    let mut world = World::new(WorldConfig::default());
    let mut shots = Vec::new();
    // enters clipped at the left edge, walks to mid-frame growing larger
    for i in 0..30 {
        let x = (i as f32 * 0.02 - 0.03).max(0.0);
        let w = 0.08 + i as f32 * 0.004;
        let d = detection(x, 0.3, w, 0.25, 0.85, "person");
        let update = world.ingest(i as f64 * 200.0, &vec![d], None);
        for e in update.events {
            if e.kind() == "bestShotUpdated" {
                if let SemanticEvent::BestShotUpdated(s) = e {
                    shots.push((i, number(s.x), number(s.width)));
                }
            }
        }
    }
    assert!(
        !shots.is_empty(),
        "a shot exists from the tentative phase already"
    );
    assert!(
        shots[0].0 <= 2,
        "first candidate arrives with the first sightings"
    );
    assert!(
        shots.len() <= 6,
        "hysteresis bounds updates, got {}",
        shots.len()
    );
    let last = shots.last().unwrap();
    assert!(
        last.1 > 0.01,
        "the final best shot is not the edge-clipped entry"
    );
}

#[test]
fn camera_move_clears_state() {
    let mut world = World::new(WorldConfig::default());
    for i in 0..10 {
        world.ingest(i as f64 * 200.0, &vec![person(0.3)], None);
    }
    world.notify_camera_move();
    let mut created = 0;
    for i in 0..4 {
        let update = world.ingest(2_200.0 + i as f64 * 200.0, &vec![person(0.7)], None);
        created += update.created.len();
    }
    assert_eq!(created, 1, "after a camera move everything is new");
}

#[test]
fn one_who_walked_departs_and_the_next_gets_another_id() {
    let mut world = World::new(WorldConfig::default());
    let mut first = Vec::new();
    for i in 0..10 {
        let update = world.ingest(i as f64 * 200.0, &vec![person(0.1 + i as f32 * 0.02)], None);
        first.extend(update.created);
    }
    assert_eq!(first.len(), 1);
    let mut removed = Vec::new();
    let mut departures = 0;
    for i in 0..40 {
        let update = world.ingest(2_000.0 + i as f64 * 200.0, &vec![], None);
        departures += count(&update, "objectDeparted");
        removed.extend(update.removed);
    }
    assert_eq!(removed, first);
    assert_eq!(departures, 1);
    assert!(world.inner.tracks().is_empty());
    let mut second = Vec::new();
    for i in 0..10 {
        let update = world.ingest(10_000.0 + i as f64 * 200.0, &vec![person(0.28)], None);
        second.extend(update.created);
    }
    assert_eq!(second.len(), 1);
    assert!(second[0] > first[0]);
}

#[test]
fn a_parked_vehicle_settles_and_wakes_when_it_drives_off() {
    let mut world = World::new(WorldConfig::default());
    let mut settled = 0;
    for i in 0..60 {
        let car = detection(0.2, 0.4, 0.2, 0.15, 0.85, "vehicle");
        let update = world.ingest(i as f64 * 200.0, &vec![car], None);
        settled += count(&update, "objectSettled");
    }
    assert_eq!(settled, 1);
    assert_eq!(world.inner.tracks()[0].state, TrackState::Stationary);
    let mut woke = 0;
    for i in 0..40 {
        let x = 0.2 + i as f32 * 0.012;
        let car = detection(x, 0.4, 0.2, 0.15, 0.85, "vehicle");
        let update = world.ingest(12_000.0 + i as f64 * 200.0, &vec![car], None);
        woke += count(&update, "objectWoke");
    }
    assert_eq!(woke, 1);
    assert_eq!(world.inner.tracks()[0].state, TrackState::Active);
}

#[test]
fn a_low_score_continues_an_object_but_starts_none() {
    let mut world = World::new(WorldConfig::default());
    world.set_min_confidence(0.7);
    for i in 0..10 {
        let faint = detection(0.3, 0.4, 0.1, 0.2, 0.6, "person");
        let update = world.ingest(i as f64 * 200.0, &vec![faint], None);
        assert!(update.created.is_empty());
    }
    assert!(world.inner.tracks().is_empty());
    let mut created = 0;
    for i in 10..20 {
        let update = world.ingest(i as f64 * 200.0, &vec![person(0.7)], None);
        created += update.created.len();
    }
    assert_eq!(created, 1);
    let faint = detection(0.7, 0.4, 0.1, 0.2, 0.6, "person");
    let update = world.ingest(4_000.0, &vec![faint], None);
    assert_eq!(update.tracks.len(), 1);
    assert!(update.created.is_empty());
}

#[test]
fn what_a_zone_excludes_is_not_fed() {
    let mut world = World::new(WorldConfig::default());
    world.set_zones(vec![ZoneInput {
        labels: vec![],
        filter: ZoneFilterMode::Exclude,
        match_type: ZoneMatchType::Intersect,
        is_privacy_mask: false,
        points: [[0.0, 0.0], [50.0, 0.0], [50.0, 100.0], [0.0, 100.0]]
            .iter()
            .map(|p| UiPoint {
                x: stamp(p[0]),
                y: stamp(p[1]),
            })
            .collect(),
    }]);
    let both = vec![person(0.1), person(0.7)];
    assert_eq!(world.filter_indices(&both), vec![1]);
    let mut created = 0;
    for i in 0..10 {
        created += world.ingest(i as f64 * 200.0, &both, None).created.len();
    }
    assert_eq!(created, 1);
    assert_eq!(world.inner.tracks().len(), 1);
}
