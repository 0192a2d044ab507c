//! The world, fed by hand.
use postprocessor::iou::{box_iou, AreaShare};
use postprocessor::line_crossing::{PreparedLine, SegmentMeasure};
use postprocessor::polygon::{EdgeMeasure, PolygonMeasure, SideMeasure};
use postprocessor::reading::{
    bits_of_level, bits_of_stamp, level_of_bits, stamp_of_bits, Level, Stamp, LEVEL_LIMIT,
    STAMP_LIMIT,
};
use postprocessor::semantic::{SemanticEvent, TrackState};
use postprocessor::track::{Measure, Sighting, TrackSegment, WorldConfig, WorldTrack};
use postprocessor::types::{CameraMotion, Detection, Extent, Point, Rect};
use postprocessor::world::{CameraWorld, Feed, WorldUpdate, ASSOCIATION_FLOOR};
use postprocessor::world_model::Lapse;
use postprocessor::zone_filter::{Placement, PreparedZones};

/// The reading of a real. What is not a number reads lower than everything.
fn level(value: f32) -> Level {
    level_or(value, Level::MIN)
}

/// The reading of a real, and of what is not a number.
fn level_or(value: f32, not_a_number: Level) -> Level {
    level_of_bits(value.to_bits()).unwrap_or(not_a_number)
}

/// The real behind a reading.
fn number(level: Level) -> f32 {
    if level.unsigned_abs() > LEVEL_LIMIT {
        return f32::NAN;
    }
    f32::from_bits(bits_of_level(level))
}

/// The reading of a 64-bit real. What is not a number reads lower than everything.
fn stamp(value: f64) -> Stamp {
    stamp_of_bits(value.to_bits()).unwrap_or(Stamp::MIN)
}

/// The real behind a 64-bit reading.
fn time(stamp: Stamp) -> f64 {
    if stamp.unsigned_abs() > STAMP_LIMIT {
        return f64::NAN;
    }
    f64::from_bits(bits_of_stamp(stamp))
}

/// The four edges of a box.
fn extent(rect: &Rect) -> Extent {
    Extent {
        left: rect.x,
        top: rect.y,
        right: level(number(rect.x) + number(rect.width)),
        bottom: level(number(rect.y) + number(rect.height)),
    }
}

/// The box of a detection.
fn rect_of(d: &Detection) -> Rect {
    Rect {
        x: d.x,
        y: d.y,
        width: d.width,
        height: d.height,
    }
}

/// The areas of two boxes.
fn area_share(a: &Rect, b: &Rect) -> AreaShare {
    let (ax, ay, aw, ah) = (number(a.x), number(a.y), number(a.width), number(a.height));
    let (bx, by, bw, bh) = (number(b.x), number(b.y), number(b.width), number(b.height));
    let ix1 = ax.max(bx);
    let iy1 = ay.max(by);
    let ix2 = (ax + aw).min(bx + bw);
    let iy2 = (ay + ah).min(by + bh);
    let inter = (ix2 - ix1).max(0.0) * (iy2 - iy1).max(0.0);
    let union = aw * ah + bw * bh - inter;
    AreaShare {
        union: level(union),
        ratio: level(inter / union),
    }
}

/// The overlap of two boxes.
fn overlap(a: &Rect, b: &Rect) -> Level {
    box_iou(&extent(a), &extent(b), &area_share(a, b))
}

/// The center of a box.
fn center(r: &Rect) -> Point {
    Point {
        x: level(number(r.x) + number(r.width) * 0.5),
        y: level(number(r.y) + number(r.height) * 0.5),
    }
}

/// How a movement lies to a line.
fn segment_measure(from: &Point, to: &Point, line: &PreparedLine) -> SegmentMeasure {
    let (ax, ay) = (number(from.x), number(from.y));
    let (bx, by) = (number(to.x), number(to.y));
    let (cx, cy) = (number(line.p1.x), number(line.p1.y));
    let (dx, dy) = (number(line.p2.x), number(line.p2.y));
    let denom = (bx - ax) * (dy - cy) - (by - ay) * (dx - cx);
    let t = ((cx - ax) * (dy - cy) - (cy - ay) * (dx - cx)) / denom;
    let u = ((cx - ax) * (by - ay) - (cy - ay) * (bx - ax)) / denom;
    SegmentMeasure {
        denom: level_or(denom.abs(), Level::MAX),
        along_track: level(t),
        along_line: level(u),
        cross: level((bx - ax) * (dy - cy) - (by - ay) * (dx - cx)),
    }
}

fn edge_measure(p: (f32, f32), end: (f32, f32), start: (f32, f32)) -> EdgeMeasure {
    let (px, py) = p;
    let (xi, yi) = end;
    let (xj, yj) = start;
    let slope = (yj - yi) / (xj - xi);
    EdgeMeasure {
        run: level_or((xi - xj).abs(), Level::MAX),
        offset: level_or((px - xi).abs(), Level::MAX),
        residual: level_or((py - (slope * px + (yi - slope * xi))).abs(), Level::MAX),
        meet_x: level((xj - xi) * (py - yi) / (yj - yi) + xi),
    }
}

fn side_measure(
    a1: (f32, f32),
    a2: (f32, f32),
    b1: (f32, f32),
    b2: (f32, f32),
) -> SideMeasure {
    let denom = (b2.1 - b1.1) * (a2.0 - a1.0) - (b2.0 - b1.0) * (a2.1 - a1.1);
    let ua = ((b2.0 - b1.0) * (a1.1 - b1.1) - (b2.1 - b1.1) * (a1.0 - b1.0)) / denom;
    let ub = ((a2.0 - a1.0) * (a1.1 - b1.1) - (a2.1 - a1.1) * (a1.0 - b1.0)) / denom;
    SideMeasure {
        denom: level_or(denom.abs(), Level::MAX),
        along_side: level(ua),
        along_edge: level(ub),
    }
}

/// How a box lies to a polygon.
fn polygon_measure(e: &Extent, polygon: &[Point]) -> PolygonMeasure {
    let (left, top) = (number(e.left), number(e.top));
    let (right, bottom) = (number(e.right), number(e.bottom));
    let corners = [(left, top), (right, top), (right, bottom), (left, bottom)];
    let vertices: Vec<(f32, f32)> = polygon.iter().map(|p| (number(p.x), number(p.y))).collect();
    let n = vertices.len();
    PolygonMeasure {
        corners: corners
            .iter()
            .map(|&corner| {
                (0..n)
                    .map(|i| edge_measure(corner, vertices[i], vertices[(i + n - 1) % n]))
                    .collect()
            })
            .collect(),
        sides: (1..n)
            .map(|i| {
                (0..4)
                    .map(|s| {
                        side_measure(
                            corners[s],
                            corners[(s + 1) % 4],
                            vertices[i - 1],
                            vertices[i],
                        )
                    })
                    .collect()
            })
            .collect(),
    }
}

/// Where detections lie in the image and to the zones.
fn placements(detections: &[Detection], zones: &PreparedZones) -> Vec<Placement> {
    detections
        .iter()
        .map(|d| {
            let e = extent(&rect_of(d));
            Placement {
                extent: e,
                masks: zones
                    .privacy_masks
                    .iter()
                    .map(|z| polygon_measure(&e, &z.points))
                    .collect(),
                zones: zones
                    .active_zones
                    .iter()
                    .map(|z| polygon_measure(&e, &z.points))
                    .collect(),
            }
        })
        .collect()
}

/// What a cut-off picture is worth compared with a whole one.
const CUT_WORTH: f32 = 0.3;

/// How much better a picture has to be to replace the best one.
const CLEARLY_BETTER: f32 = 1.25;

/// A sighting measured against the object it is taken for; floating point throughout. The
/// movement is averaged over ticks of 200 ms, so that jitter cancels out.
fn measure(track: &WorldTrack, s: &Sighting, t_ms: f64) -> Measure {
    let center = |r: &Rect| {
        (
            number(r.x) + number(r.width) / 2.0,
            number(r.y) + number(r.height) / 2.0,
        )
    };
    let (cx, cy) = center(&s.bbox);
    let (px, py) = center(&track.bbox);
    let dt = (t_ms - time(track.last_seen_ms)).max(1.0);
    let scale = (200.0_f32 / dt as f32).min(1.0);
    let vx = number(track.velocity_x) * 0.6 + (cx - px) * scale * 0.4;
    let vy = number(track.velocity_y) * 0.6 + (cy - py) * scale * 0.4;
    let (x, y) = (number(s.bbox.x), number(s.bbox.y));
    let (w, h) = (number(s.bbox.width), number(s.bbox.height));
    let shot = number(s.score) * (w * h).sqrt();
    Measure {
        since_first: stamp(t_ms - time(track.first_seen_ms)),
        since_still: stamp(t_ms - time(track.still_since_ms)),
        velocity_x: level(vx),
        velocity_y: level(vy),
        speed: level((vx.powi(2) + vy.powi(2)).sqrt()),
        from: Point {
            x: level(px),
            y: level(py),
        },
        to: Point {
            x: level(cx),
            y: level(cy),
        },
        shift_x: level_or((px - cx).abs(), i32::MAX),
        shift_y: level_or((py - cy).abs(), i32::MAX),
        overlap: overlap(&track.anchor, &s.bbox),
        right: level(x + w),
        bottom: level(y + h),
        shot: level(shot),
        cut_shot: level(shot * CUT_WORTH),
        shot_bar: level(number(track.best_shot_score) * CLEARLY_BETTER),
    }
}

/// A world that is handed its sightings.
struct Stage {
    world: CameraWorld,
}

impl Stage {
    fn new(config: WorldConfig) -> Self {
        let mut stage = Stage {
            world: CameraWorld::new(config),
        };
        // makes the labels known: persons have class 0, vehicles class 1
        stage.prepare(0.0, vec![detection("person"), detection("vehicle")], None);
        stage
    }

    fn prepare(
        &mut self,
        t_ms: f64,
        detections: Vec<Detection>,
        motion: Option<(f32, f32)>,
    ) -> Feed {
        let placed = placements(&detections, self.world.zones());
        let since_last = stamp(t_ms - time(self.world.last_t_ms()));
        let (dx, dy) = match (self.world.pose(), motion) {
            (Some(before), Some((x, y))) => (x - number(before.x), y - number(before.y)),
            _ => (0.0, 0.0),
        };
        let shift = |r: &Rect| Rect {
            x: level(number(r.x) + dx),
            y: level(number(r.y) + dy),
            width: r.width,
            height: r.height,
        };
        let motion = motion.map(|(x, y)| CameraMotion {
            x: level(x),
            y: level(y),
        });
        self.world
            .prepare(stamp(t_ms), since_last, &motion, &shift, &detections, &placed)
    }

    fn tick(&mut self, t_ms: f64, sightings: Vec<Sighting>) -> WorldUpdate {
        self.prepare(t_ms, vec![], None);
        let assess = |track: &WorldTrack, s: &Sighting| measure(track, s, t_ms);
        let lapse = |track: &WorldTrack| Lapse {
            since_seen: stamp(t_ms - time(track.last_seen_ms)),
            rest: stamp(time(track.last_seen_ms) - time(track.still_since_ms)),
        };
        let cross = |segment: &TrackSegment, line: &PreparedLine| {
            segment_measure(&segment.from, &segment.to, line)
        };
        self.world
            .ingest(&sightings, &overlap, &assess, &lapse, &cross)
    }

    fn ids(&self) -> Vec<u32> {
        self.world.tracks().iter().map(|t| t.id).collect()
    }
}

fn detection(label: &str) -> Detection {
    Detection {
        x: level(0.3),
        y: level(0.3),
        width: level(0.2),
        height: level(0.2),
        confidence: level(0.9),
        label: label.to_string(),
    }
}

fn sighting(engine_id: u32, x: f32, y: f32) -> Sighting {
    Sighting {
        engine_id,
        class_id: 0,
        is_activated: true,
        bbox: Rect {
            x: level(x),
            y: level(y),
            width: level(0.1),
            height: level(0.2),
        },
        score: level(0.9),
    }
}

fn kinds(update: &WorldUpdate) -> Vec<&str> {
    update.events.iter().map(|e| e.kind()).collect()
}

#[test]
fn ids_go_up_from_one() {
    let mut stage = Stage::new(WorldConfig::default());
    let update = stage.tick(0.0, vec![sighting(7, 0.1, 0.3), sighting(3, 0.6, 0.3)]);
    assert_eq!(stage.ids(), vec![1, 2]);
    assert_eq!(stage.world.next_id(), 3);
    assert!(update.created.is_empty());
    assert!(update.tracks.is_empty());
    assert_eq!(kinds(&update), vec!["bestShotUpdated", "bestShotUpdated"]);
}

#[test]
fn an_object_is_confirmed_after_half_a_second() {
    let mut stage = Stage::new(WorldConfig::default());
    assert!(stage.tick(0.0, vec![sighting(7, 0.1, 0.3)]).created.is_empty());
    assert!(stage.tick(499.0, vec![sighting(7, 0.1, 0.3)]).created.is_empty());
    let update = stage.tick(500.0, vec![sighting(7, 0.1, 0.3)]);
    assert_eq!(update.created, vec![1]);
    assert_eq!(kinds(&update), vec!["objectEntered"]);
    assert_eq!(update.tracks.len(), 1);
    assert_eq!(update.tracks[0].state, TrackState::Active);
}

#[test]
fn sightings_that_do_not_count_change_nothing() {
    let mut stage = Stage::new(WorldConfig::default());
    let mut asleep = sighting(7, 0.1, 0.3);
    asleep.is_activated = false;
    let mut strange = sighting(8, 0.5, 0.3);
    strange.class_id = 2;
    let mut stranger = sighting(9, 0.5, 0.3);
    stranger.class_id = -1;
    let update = stage.tick(0.0, vec![asleep, strange, stranger]);
    assert!(stage.ids().is_empty());
    assert!(update.events.is_empty());
}

/// Four persons confirmed one after another and then out of sight until all are asleep.
fn sleepers(max_dormant: usize) -> Stage {
    let mut config = WorldConfig::default();
    config.max_dormant = max_dormant;
    let mut stage = Stage::new(config);
    for k in 0..4u32 {
        let x = 0.05 + k as f32 * 0.25;
        for i in 0..6 {
            let t = k as f64 * 1_200.0 + i as f64 * 200.0;
            stage.tick(t, vec![sighting(k, x, 0.3)]);
        }
    }
    for i in 0..40 {
        stage.tick(4_800.0 + i as f64 * 300.0, vec![]);
    }
    stage
}

#[test]
fn eviction_takes_the_oldest() {
    let mut stage = sleepers(50);
    assert_eq!(stage.ids(), vec![1, 2, 3, 4]);
    assert!(stage.world.tracks().iter().all(|t| t.dormant));
    stage.tick(60_000.0, vec![]);
    assert_eq!(stage.ids(), vec![1, 2, 3, 4]);

    let mut stage = sleepers(2);
    stage.tick(60_000.0, vec![]);
    assert_eq!(stage.ids(), vec![3, 4]);
}

#[test]
fn a_gap_leaves_only_confirmed_sleepers() {
    let mut stage = Stage::new(WorldConfig::default());
    for i in 0..6 {
        stage.tick(i as f64 * 200.0, vec![sighting(1, 0.1, 0.3)]);
    }
    stage.tick(1_200.0, vec![sighting(1, 0.1, 0.3), sighting(2, 0.7, 0.3)]);
    assert_eq!(stage.ids(), vec![1, 2]);
    let feed = stage.prepare(60_000.0, vec![], None);
    assert!(feed.restart);
    assert_eq!(stage.ids(), vec![1]);
    assert!(stage.world.tracks()[0].dormant);
}

#[test]
fn a_sighting_takes_up_the_sleeper_it_overlaps_most() {
    let mut stage = Stage::new(WorldConfig::default());
    for i in 0..6 {
        stage.tick(
            i as f64 * 200.0,
            vec![sighting(1, 0.30, 0.3), sighting(2, 0.36, 0.3)],
        );
    }
    stage.tick(60_000.0, vec![]);
    let update = stage.tick(60_200.0, vec![sighting(9, 0.35, 0.3)]);
    assert!(update.created.is_empty());
    assert_eq!(kinds(&update), vec!["objectRecovered"]);
    assert_eq!(update.tracks.len(), 1);
    assert_eq!(update.tracks[0].track_id, 2);
    // of equals the older one is taken up
    let mut stage = Stage::new(WorldConfig::default());
    for i in 0..6 {
        stage.tick(
            i as f64 * 200.0,
            vec![sighting(1, 0.30, 0.3), sighting(2, 0.30, 0.3)],
        );
    }
    stage.tick(60_000.0, vec![]);
    let update = stage.tick(60_200.0, vec![sighting(9, 0.30, 0.3)]);
    assert_eq!(update.tracks[0].track_id, 1);
}

#[test]
fn a_sleeper_of_another_class_is_not_taken_up() {
    let mut stage = Stage::new(WorldConfig::default());
    for i in 0..6 {
        stage.tick(i as f64 * 200.0, vec![sighting(1, 0.30, 0.3)]);
    }
    stage.tick(60_000.0, vec![]);
    let mut vehicle = sighting(9, 0.30, 0.3);
    vehicle.class_id = 1;
    stage.tick(60_200.0, vec![vehicle]);
    assert_eq!(stage.ids(), vec![1, 2]);
    assert_eq!(stage.world.tracks()[1].label, "vehicle");
}

#[test]
fn a_camera_move_forgets_who_is_at_rest() {
    let mut stage = Stage::new(WorldConfig::default());
    for i in 0..6 {
        stage.tick(i as f64 * 200.0, vec![sighting(1, 0.30, 0.3)]);
    }
    stage.tick(60_000.0, vec![sighting(2, 0.70, 0.3)]);
    assert_eq!(stage.ids(), vec![1, 2]);
    stage.world.notify_camera_move();
    assert_eq!(stage.ids(), vec![2]);
    assert_eq!(stage.world.next_id(), 3);
    assert!(stage.world.pose().is_none());
    stage.tick(60_200.0, vec![sighting(9, 0.30, 0.3)]);
    assert_eq!(stage.ids(), vec![2, 3]);
}

#[test]
fn boxes_and_anchors_follow_a_pan() {
    let mut stage = Stage::new(WorldConfig::default());
    stage.prepare(0.0, vec![], Some((0.0, 0.0)));
    stage.tick(0.0, vec![sighting(1, 0.30, 0.3)]);
    let feed = stage.prepare(200.0, vec![], Some((0.25, -0.125)));
    assert!(!feed.restart);
    let track = &stage.world.tracks()[0];
    assert_eq!(number(track.bbox.x), 0.30 + 0.25);
    assert_eq!(number(track.bbox.y), 0.3 - 0.125);
    assert_eq!(track.bbox, track.anchor);
}

#[test]
fn an_engine_object_keeps_its_identity() {
    let mut stage = Stage::new(WorldConfig::default());
    for i in 0..20 {
        let x = 0.1 + i as f32 * 0.03;
        let crowd = vec![sighting(7, x, 0.3), sighting(8, 0.8 - x, 0.6)];
        stage.tick(i as f64 * 200.0, crowd);
        assert_eq!(stage.ids(), vec![1, 2]);
        assert_eq!(stage.world.tracks()[0].bbox.x, level(x));
    }
}

#[test]
fn class_ids_are_kept() {
    let mut stage = Stage::new(WorldConfig::default());
    let classes = |feed: Feed| -> Vec<usize> { feed.entries.iter().map(|e| e.class).collect() };
    let feed = stage.prepare(200.0, vec![detection("cat"), detection("vehicle")], None);
    assert_eq!(classes(feed), vec![2, 1]);
    let feed = stage.prepare(
        60_000.0,
        vec![detection("cat"), detection("person"), detection("dog")],
        None,
    );
    assert_eq!(classes(feed), vec![2, 0, 3]);
}

/// One person after another walks through the image and is gone for long enough to be given
/// up; the third one stays where it is.
fn visits(stage: &mut Stage) -> Vec<(f64, WorldUpdate)> {
    let mut updates = Vec::new();
    let mut t = 0.0;
    for visit in 0..4u32 {
        let stride = if visit == 2 { 0.0 } else { 0.03 };
        for i in 0..12 {
            let x = 0.05 + visit as f32 * 0.1 + i as f32 * stride;
            updates.push((t, stage.tick(t, vec![sighting(visit, x, 0.3)])));
            t += 200.0;
        }
        for _ in 0..30 {
            updates.push((t, stage.tick(t, vec![])));
            t += 200.0;
        }
        stage.world.set_min_confidence(level(0.1 * visit as f32));
    }
    updates
}

#[test]
fn an_id_has_one_life() {
    let mut stage = Stage::new(WorldConfig::default());
    let updates = visits(&mut stage);
    let created: Vec<u32> = updates.iter().flat_map(|(_, u)| u.created.clone()).collect();
    let removed: Vec<u32> = updates.iter().flat_map(|(_, u)| u.removed.clone()).collect();
    assert_eq!(created, vec![1, 2, 3, 4]);
    assert_eq!(removed, vec![1, 2, 4]);
    for id in removed {
        let gone = updates.iter().position(|(_, u)| u.removed.contains(&id));
        for (_, later) in &updates[gone.unwrap() + 1..] {
            assert!(later.tracks.iter().all(|t| t.track_id != id));
            assert!(later.events.iter().all(|e| subject(e) != id));
            assert!(!later.created.contains(&id) && !later.removed.contains(&id));
        }
    }
}

fn subject(event: &SemanticEvent) -> u32 {
    match event {
        SemanticEvent::ObjectEntered(s)
        | SemanticEvent::ObjectLost(s)
        | SemanticEvent::ObjectRecovered(s)
        | SemanticEvent::ObjectSettled(s)
        | SemanticEvent::ObjectWoke(s)
        | SemanticEvent::ObjectDeparted(s)
        | SemanticEvent::BestShotUpdated(s) => s.track_id,
    }
}

#[test]
fn lists_and_events_agree() {
    let mut stage = Stage::new(WorldConfig::default());
    for (_, update) in visits(&mut stage) {
        let told = |kind: &str| -> Vec<u32> {
            let of_kind = update.events.iter().filter(|e| e.kind() == kind);
            of_kind.map(subject).collect()
        };
        assert_eq!(told("objectEntered"), update.created);
        assert_eq!(told("objectDeparted"), update.removed);
        let shown: Vec<u32> = update.tracks.iter().map(|t| t.track_id).collect();
        assert!(update.created.iter().all(|id| shown.contains(id)));
        assert!(update.removed.iter().all(|id| !shown.contains(id)));
    }
}

#[test]
fn nobody_is_given_up_within_the_grace() {
    let mut stage = Stage::new(WorldConfig::default());
    let updates = visits(&mut stage);
    let mut given_up = Vec::new();
    for (at, (t, update)) in updates.iter().enumerate() {
        let lost = update.events.iter().filter(|e| e.kind() == "objectLost");
        let ids: Vec<u32> = lost.map(subject).chain(update.removed.clone()).collect();
        for id in ids {
            let shows = |u: &WorldUpdate| u.tracks.iter().any(|s| s.track_id == id);
            assert!(!shows(update));
            let last = updates[..at].iter().rev().find(|(_, u)| shows(u));
            given_up.push((id, t - last.unwrap().0));
        }
    }
    let expected: Vec<(u32, f64)> = (1..=4).map(|id| (id, 5_200.0)).collect();
    assert_eq!(given_up, expected);
}

#[test]
fn faint_sightings_never_show() {
    let mut stage = Stage::new(WorldConfig::default());
    stage.world.set_min_confidence(level(0.95));
    for i in 0..60 {
        let t_ms = if i < 40 { i as f64 * 200.0 } else { 20_000.0 + i as f64 * 200.0 };
        let update = stage.tick(t_ms, vec![sighting(7, 0.1 + i as f32 * 0.01, 0.3)]);
        assert!(update.tracks.is_empty() && update.events.is_empty());
        assert!(update.created.is_empty() && update.removed.is_empty());
        assert!(update.crossings.is_empty());
        if i == 30 {
            stage.world.notify_camera_move();
        }
    }
    assert!(stage.ids().is_empty());
    assert_eq!(stage.world.next_id(), 1);
}

#[test]
fn a_flicker_dies_silently() {
    let mut stage = Stage::new(WorldConfig::default());
    stage.tick(0.0, vec![sighting(1, 0.3, 0.3)]);
    let mut reported = 0;
    for i in 1..40 {
        let update = stage.tick(i as f64 * 200.0, vec![]);
        reported += update.events.len() + update.removed.len();
    }
    assert_eq!(reported, 0);
    assert!(stage.ids().is_empty());
}

#[test]
fn faint_detections_are_not_fed() {
    let mut stage = Stage::new(WorldConfig::default());
    let mut faint = detection("person");
    faint.confidence = ASSOCIATION_FLOOR - 1;
    let mut enough = detection("cat");
    enough.confidence = ASSOCIATION_FLOOR;
    let feed = stage.prepare(0.0, vec![faint, enough, detection("bird")], None);
    let fed: Vec<(u32, usize)> = feed.entries.iter().map(|e| (e.index, e.class)).collect();
    assert_eq!(fed, vec![(1, 2), (2, 3)]);
    assert_eq!(ASSOCIATION_FLOOR, level(0.1));
}
