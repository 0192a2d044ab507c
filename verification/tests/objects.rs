//! The object tracker, fed by its tracking engines.
use std::collections::{HashMap, HashSet};
use std::sync::Arc;

use nalgebra::DMatrix;
use norfair_rs::{Detection as NfDetection, TrackedObject, Tracker, TrackerConfig};
use norfair_rs::camera_motion::TranslationTransformation;
use norfair_rs::distances::{distance_function_by_name, DistanceFunction, ScalarDistance};
use postprocessor::embedding::{
    compute_embedding, crop_region, embedding_distance, Appearance, Comparison, HsvBins, Total,
    EMBEDDING_SIZE,
};
use postprocessor::engine::{engine_settings, latest_look, reid_basis, ReidBasis};
use postprocessor::iou::{box_iou, AreaShare};
use postprocessor::line_crossing::{
    DetectionLineInput, LineDirectionFilter, LineEnds, PreparedLine, SegmentMeasure,
};
use postprocessor::polygon::{EdgeMeasure, PolygonMeasure, SideMeasure};
use postprocessor::reading::{
    bits_of_level, bits_of_stamp, level_of_bits, stamp_of_bits, Level, Stamp, LEVEL_LIMIT,
    STAMP_LIMIT,
};
use postprocessor::track::TrackSegment;
use postprocessor::tracker::{ObjectTracker, ReidCounter, UpdateResult};
use postprocessor::tracker_model::{ClassPlan, ClassRun, ObjectTrackerConfig, RawTrack};
use postprocessor::types::{Detection, Extent, Point, Rect, Shift, UiPoint};
use postprocessor::zone_filter::{
    Placement, PreparedZones, ZoneFilterMode, ZoneInput, ZoneMatchType,
};
use wide::f32x8;

/// The reading of a real. What is not a number reads lower than everything.
fn level(value: f32) -> Level {
    level_or(value, Level::MIN)
}

/// The reading of a real, and of what is not a number.
fn level_or(value: f32, not_a_number: Level) -> Level {
    level_of_bits(value.to_bits()).unwrap_or(not_a_number)
}

/// The real behind a reading.
fn number(level: Level) -> f32 {
    if level.unsigned_abs() > LEVEL_LIMIT {
        return f32::NAN;
    }
    f32::from_bits(bits_of_level(level))
}

/// The reading of a 64-bit real. What is not a number reads lower than everything.
fn stamp(value: f64) -> Stamp {
    stamp_of_bits(value.to_bits()).unwrap_or(Stamp::MIN)
}

/// The real behind a 64-bit reading.
fn time(stamp: Stamp) -> f64 {
    if stamp.unsigned_abs() > STAMP_LIMIT {
        return f64::NAN;
    }
    f64::from_bits(bits_of_stamp(stamp))
}

/// The four edges of a box.
fn extent(rect: &Rect) -> Extent {
    Extent {
        left: rect.x,
        top: rect.y,
        right: level(number(rect.x) + number(rect.width)),
        bottom: level(number(rect.y) + number(rect.height)),
    }
}

/// The box of a detection.
fn rect_of(d: &Detection) -> Rect {
    Rect {
        x: d.x,
        y: d.y,
        width: d.width,
        height: d.height,
    }
}

/// The areas of two boxes.
fn area_share(a: &Rect, b: &Rect) -> AreaShare {
    let (ax, ay, aw, ah) = (number(a.x), number(a.y), number(a.width), number(a.height));
    let (bx, by, bw, bh) = (number(b.x), number(b.y), number(b.width), number(b.height));
    let ix1 = ax.max(bx);
    let iy1 = ay.max(by);
    let ix2 = (ax + aw).min(bx + bw);
    let iy2 = (ay + ah).min(by + bh);
    let inter = (ix2 - ix1).max(0.0) * (iy2 - iy1).max(0.0);
    let union = aw * ah + bw * bh - inter;
    AreaShare {
        union: level(union),
        ratio: level(inter / union),
    }
}

/// The overlap of two boxes.
fn overlap(a: &Rect, b: &Rect) -> Level {
    box_iou(&extent(a), &extent(b), &area_share(a, b))
}

/// The place of a drawn point in the image.
fn scaled(p: &UiPoint) -> Point {
    Point {
        x: level((time(p.x) / 100.0) as f32),
        y: level((time(p.y) / 100.0) as f32),
    }
}

/// The distance of two places.
fn gap(a: &Point, b: &Point) -> Shift {
    Shift {
        x: level((number(a.x) - number(b.x)).abs()),
        y: level((number(a.y) - number(b.y)).abs()),
    }
}

/// The center of a box.
fn center(r: &Rect) -> Point {
    Point {
        x: level(number(r.x) + number(r.width) * 0.5),
        y: level(number(r.y) + number(r.height) * 0.5),
    }
}

/// The ends of the line across a drawn handle: the handle turned by a right angle about its
/// middle, in an image of this aspect ratio.
fn crossing_ends(a: &UiPoint, b: &UiPoint, aspect_ratio: Level) -> LineEnds {
    let (a, b, aspect_ratio) = (scaled(a), scaled(b), number(aspect_ratio));
    let (ax, ay) = (number(a.x), number(a.y));
    let (bx, by) = (number(b.x), number(b.y));
    let (mx, my) = ((ax + bx) / 2.0, (ay + by) / 2.0);
    let (dx, dy) = ((bx - ax) * aspect_ratio, by - ay);
    let (nx, ny) = (-dy / aspect_ratio / 2.0, dx / 2.0);
    LineEnds {
        p1: Point {
            x: level(mx - nx),
            y: level(my - ny),
        },
        p2: Point {
            x: level(mx + nx),
            y: level(my + ny),
        },
    }
}

/// How a movement lies to a line.
fn segment_measure(from: &Point, to: &Point, line: &PreparedLine) -> SegmentMeasure {
    let (ax, ay) = (number(from.x), number(from.y));
    let (bx, by) = (number(to.x), number(to.y));
    let (cx, cy) = (number(line.p1.x), number(line.p1.y));
    let (dx, dy) = (number(line.p2.x), number(line.p2.y));
    let denom = (bx - ax) * (dy - cy) - (by - ay) * (dx - cx);
    let t = ((cx - ax) * (dy - cy) - (cy - ay) * (dx - cx)) / denom;
    let u = ((cx - ax) * (by - ay) - (cy - ay) * (bx - ax)) / denom;
    SegmentMeasure {
        denom: level_or(denom.abs(), Level::MAX),
        along_track: level(t),
        along_line: level(u),
        cross: level((bx - ax) * (dy - cy) - (by - ay) * (dx - cx)),
    }
}

fn edge_measure(p: (f32, f32), end: (f32, f32), start: (f32, f32)) -> EdgeMeasure {
    let (px, py) = p;
    let (xi, yi) = end;
    let (xj, yj) = start;
    let slope = (yj - yi) / (xj - xi);
    EdgeMeasure {
        run: level_or((xi - xj).abs(), Level::MAX),
        offset: level_or((px - xi).abs(), Level::MAX),
        residual: level_or((py - (slope * px + (yi - slope * xi))).abs(), Level::MAX),
        meet_x: level((xj - xi) * (py - yi) / (yj - yi) + xi),
    }
}

fn side_measure(
    a1: (f32, f32),
    a2: (f32, f32),
    b1: (f32, f32),
    b2: (f32, f32),
) -> SideMeasure {
    let denom = (b2.1 - b1.1) * (a2.0 - a1.0) - (b2.0 - b1.0) * (a2.1 - a1.1);
    let ua = ((b2.0 - b1.0) * (a1.1 - b1.1) - (b2.1 - b1.1) * (a1.0 - b1.0)) / denom;
    let ub = ((a2.0 - a1.0) * (a1.1 - b1.1) - (a2.1 - a1.1) * (a1.0 - b1.0)) / denom;
    SideMeasure {
        denom: level_or(denom.abs(), Level::MAX),
        along_side: level(ua),
        along_edge: level(ub),
    }
}

/// How a box lies to a polygon.
fn polygon_measure(e: &Extent, polygon: &[Point]) -> PolygonMeasure {
    let (left, top) = (number(e.left), number(e.top));
    let (right, bottom) = (number(e.right), number(e.bottom));
    let corners = [(left, top), (right, top), (right, bottom), (left, bottom)];
    let vertices: Vec<(f32, f32)> = polygon.iter().map(|p| (number(p.x), number(p.y))).collect();
    let n = vertices.len();
    PolygonMeasure {
        corners: corners
            .iter()
            .map(|&corner| {
                (0..n)
                    .map(|i| edge_measure(corner, vertices[i], vertices[(i + n - 1) % n]))
                    .collect()
            })
            .collect(),
        sides: (1..n)
            .map(|i| {
                (0..4)
                    .map(|s| {
                        side_measure(
                            corners[s],
                            corners[(s + 1) % 4],
                            vertices[i - 1],
                            vertices[i],
                        )
                    })
                    .collect()
            })
            .collect(),
    }
}

/// Where detections lie in the image and to the zones.
fn placements(detections: &[Detection], zones: &PreparedZones) -> Vec<Placement> {
    detections
        .iter()
        .map(|d| {
            let e = extent(&rect_of(d));
            Placement {
                extent: e,
                masks: zones
                    .privacy_masks
                    .iter()
                    .map(|z| polygon_measure(&e, &z.points))
                    .collect(),
                zones: zones
                    .active_zones
                    .iter()
                    .map(|z| polygon_measure(&e, &z.points))
                    .collect(),
            }
        })
        .collect()
}

/// The look of the part of an RGB image in a normalized box `[x, y, w, h]`, or `None` if
/// the part is too small.
fn look(pixels: &Vec<u8>, img_w: u32, img_h: u32, bbox: [f32; 4]) -> Option<Vec<f64>> {
    let [bx, by, bw, bh] = bbox;
    let left = (bx * img_w as f32) as u32;
    let top = (by * img_h as f32) as u32;
    let right = ((bx + bw) * img_w as f32).ceil() as u32;
    let bottom = ((by + bh) * img_h as f32).ceil() as u32;
    let crop = crop_region(left, top, right, bottom, img_w, img_h)?;
    assert!(
        img_w.checked_mul(3).is_some()
            && (crop.width - 1).checked_mul(4).is_some()
            && (crop.height - 1).checked_mul(4).is_some()
            && (img_h as usize).checked_mul(img_w as usize * 3).is_some()
            && crop.width.div_ceil(4) as u64 * crop.height.div_ceil(4) as u64 <= u32::MAX as u64,
        "the image is too large"
    );
    let seen = compute_embedding(pixels, img_w, img_h, left, top, right, bottom, &hsv_bins)?;
    Some(numbers(&seen))
}

fn numbers(seen: &Appearance) -> Vec<f64> {
    let mut look = vec![0.0; EMBEDDING_SIZE];
    for (i, count) in seen.colors.iter().enumerate() {
        look[i] = *count as f64;
    }
    for g in &seen.gradients {
        let (gx, gy) = (g.dx as f32, g.dy as f32);
        let angle = gy.atan2(gx) + std::f32::consts::PI;
        let bin = ((angle / (2.0 * std::f32::consts::PI)) * 8.0) as usize;
        let level = if g.strong { 8 } else { 0 };
        look[24 + level + bin.min(7)] += (gx * gx + gy * gy).sqrt() as f64;
    }
    for (i, cell) in seen.grid.iter().enumerate() {
        look[40 + i] = mean(cell);
    }
    look[60] = mean(&seen.brightness);
    look[61] = seen.crop.height as f64 / seen.crop.width as f64;
    l2_normalize(&mut look[0..24]);
    l2_normalize(&mut look[24..40]);
    l2_normalize(&mut look[40..56]);
    look
}

fn mean(total: &Total) -> f64 {
    if total.count == 0 {
        return 0.0;
    }
    total.sum as f64 / (total.count as f64 * 255.0)
}

/// Hue, saturation and value, in eighths.
fn hsv_bins(r: u8, g: u8, b: u8) -> HsvBins {
    let (h, s, v) = rgb_to_hsv(r, g, b);
    HsvBins {
        hue: (h * 8.0) as usize,
        saturation: (s * 8.0) as usize,
        value: (v * 8.0) as usize,
    }
}

/// RGB to HSV with all components in `[0, 1]`; floating point throughout.
fn rgb_to_hsv(r: u8, g: u8, b: u8) -> (f32, f32, f32) {
    let rf = r as f32 / 255.0;
    let gf = g as f32 / 255.0;
    let bf = b as f32 / 255.0;
    let max = rf.max(gf).max(bf);
    let min = rf.min(gf).min(bf);
    let delta = max - min;
    let s = if max > 0.0 { delta / max } else { 0.0 };
    let h = if delta < 1e-6 {
        0.0
    } else if max == rf {
        ((gf - bf) / delta).rem_euclid(6.0) / 6.0
    } else if max == gf {
        ((bf - rf) / delta + 2.0) / 6.0
    } else {
        ((rf - gf) / delta + 4.0) / 6.0
    };
    (h, s, max)
}

/// The distance of two looks, from 0 for identical ones to 1; floating point throughout.
fn distance(a: &[f64], b: &[f64]) -> f64 {
    let avg = match (a.get(60), b.get(60)) {
        (Some(x), Some(y)) => (x + y) * 0.5,
        _ => 0.0,
    };
    let color_weight = match embedding_distance(a.len(), b.len(), stamp(avg)) {
        Comparison::Apart => return f64::INFINITY,
        Comparison::Bright => 0.5,
        Comparison::Dark => 0.1,
    };
    let gradient_weight = 0.3;
    let spatial_weight = 1.0 - color_weight - gradient_weight;
    let distance = color_weight * cosine_distance(&a[0..24], &b[0..24])
        + gradient_weight * cosine_distance(&a[24..40], &b[24..40])
        + spatial_weight * cosine_distance(&a[40..56], &b[40..56]);
    distance.clamp(0.0, 1.0)
}

/// Scales a list to length 1; floating point throughout.
fn l2_normalize(data: &mut [f64]) {
    let norm_sq: f64 = data.iter().map(|x| x * x).sum();
    if norm_sq < 1e-12 {
        return;
    }
    let inv_norm = 1.0 / norm_sq.sqrt();
    for x in data.iter_mut() {
        *x *= inv_norm;
    }
}

/// 1 minus the cosine of the angle between two lists, eight numbers at a time; floating
/// point throughout.
fn cosine_distance(a: &[f64], b: &[f64]) -> f64 {
    let n = a.len().min(b.len());
    if n == 0 {
        return 1.0;
    }
    let chunks = n / 8;
    let mut dot_acc = f32x8::ZERO;
    let mut mag_a_acc = f32x8::ZERO;
    let mut mag_b_acc = f32x8::ZERO;
    for i in 0..chunks {
        let av = eight(&a[i * 8..i * 8 + 8]);
        let bv = eight(&b[i * 8..i * 8 + 8]);
        dot_acc += av * bv;
        mag_a_acc += av * av;
        mag_b_acc += bv * bv;
    }
    let mut dot = sum(dot_acc);
    let mut mag_a = sum(mag_a_acc);
    let mut mag_b = sum(mag_b_acc);
    for i in chunks * 8..n {
        dot += a[i] * b[i];
        mag_a += a[i] * a[i];
        mag_b += b[i] * b[i];
    }
    let denom = (mag_a * mag_b).sqrt();
    if denom < 1e-12 {
        return 0.0;
    }
    1.0 - (dot / denom)
}

fn eight(numbers: &[f64]) -> f32x8 {
    let mut lanes = [0.0f32; 8];
    for (lane, number) in lanes.iter_mut().zip(numbers) {
        *lane = *number as f32;
    }
    f32x8::new(lanes)
}

fn sum(lanes: f32x8) -> f64 {
    let lanes: [f32; 8] = lanes.into();
    lanes.iter().map(|x| *x as f64).sum()
}

/// The frame a detection came from.
#[derive(Debug, Clone)]
struct FrameTag {
    frame_seq: u64,
}

/// An RGB image: its bytes, its width and its height.
type Frame<'a> = (&'a Vec<u8>, u32, u32);

struct Objects {
    inner: ObjectTracker,
    engines: HashMap<String, Tracker>,
}

impl Objects {
    fn new(config: ObjectTrackerConfig) -> Self {
        Objects {
            inner: ObjectTracker::new(config),
            engines: HashMap::new(),
        }
    }

    fn set_zones(&mut self, zones: Vec<ZoneInput>) {
        self.inner.set_zones(&zones, &scaled, &gap);
    }

    fn set_min_confidence(&mut self, min_confidence: f32) {
        self.inner.set_min_confidence(level(min_confidence));
    }

    fn filter_indices(&self, detections: &Vec<Detection>) -> Vec<u32> {
        assert!(detections.len() <= u32::MAX as usize, "too many detections");
        self.inner
            .filter_indices(detections, &placements(detections, self.inner.zones()))
    }

    fn set_lines(&mut self, lines: Vec<DetectionLineInput>, aspect_ratio: f32) {
        self.inner
            .set_lines(&lines, level(aspect_ratio), &crossing_ends);
    }

    fn set_reid_hit_counter_max(&mut self, frames: i32) {
        self.inner.set_reid_hit_counter_max(frames);
        for engine in self.engines.values_mut() {
            engine.config.reid_hit_counter_max = self.inner.config().reid_hit_counter_max;
        }
    }

    fn refresh_reid(&mut self) {
        for engine in self.engines.values_mut() {
            let mut counters: Vec<ReidCounter> = engine
                .tracked_objects
                .iter()
                .map(|o| ReidCounter {
                    hit_counter: o.hit_counter,
                    reid_hit_counter: o.reid_hit_counter,
                })
                .collect();
            self.inner.refresh_reid(&mut counters);
            for (object, counter) in engine.tracked_objects.iter_mut().zip(counters) {
                object.reid_hit_counter = counter.reid_hit_counter;
            }
        }
    }

    fn reset(&mut self) {
        self.engines.clear();
        self.inner.reset();
    }

    fn track_count(&self) -> usize {
        self.inner.track_count()
    }

    fn update(
        &mut self,
        detections: Vec<Detection>,
        timestamp_ms: f64,
        frame: Option<Frame>,
        camera_motion: Option<[f64; 2]>,
    ) -> UpdateResult {
        assert!(detections.len() <= u32::MAX as usize, "too many detections");
        assert!(self.inner.frame_seq() < u64::MAX, "frames have run out");
        let placed = placements(&detections, self.inner.zones());
        let plans = self.inner.plan(detections, &placed);
        let frame_seq = self.inner.frame_seq();
        let config = self.inner.config();
        let mut runs = Vec::with_capacity(plans.len());
        for plan in &plans {
            if let Some(run) = self.run(plan, frame_seq, &config, frame, camera_motion) {
                runs.push(run);
            }
        }
        let span = |a: &Point, b: &Point| Shift {
            x: level_or((number(a.x) - number(b.x)).abs(), Level::MAX),
            y: level_or((number(a.y) - number(b.y)).abs(), Level::MAX),
        };
        let cross = |segment: &TrackSegment, line: &PreparedLine| {
            segment_measure(&segment.from, &segment.to, line)
        };
        self.inner
            .update(&runs, stamp(timestamp_ms), &center, &span, &cross)
    }

    /// Runs the engine of a class on its detections; `None` if there is no such engine.
    fn run(
        &mut self,
        plan: &ClassPlan,
        frame_seq: u64,
        config: &ObjectTrackerConfig,
        frame: Option<Frame>,
        camera_motion: Option<[f64; 2]>,
    ) -> Option<ClassRun> {
        if !self.engines.contains_key(&plan.label) {
            let engine = Tracker::new(engine_config(config)).ok()?;
            self.engines.insert(plan.label.clone(), engine);
        }
        let engine = self.engines.get_mut(&plan.label)?;
        let tag: Arc<dyn std::any::Any + Send + Sync> = Arc::new(FrameTag { frame_seq });
        let fed: Vec<NfDetection> = plan
            .detections
            .iter()
            .filter_map(|d| {
                let (x, y, w, h) = (number(d.x), number(d.y), number(d.width), number(d.height));
                let corners = [x as f64, y as f64, (x + w) as f64, (y + h) as f64];
                let mut nf = NfDetection::new(DMatrix::from_row_slice(1, 4, &corners)).ok()?;
                nf.label = Some(d.label.clone());
                nf.scores = Some(vec![number(d.confidence) as f64]);
                nf.data = Some(tag.clone());
                if let Some((pixels, img_w, img_h)) = frame {
                    nf.embedding = look(pixels, img_w, img_h, [x, y, w, h]);
                }
                Some(nf)
            })
            .collect();
        let transform = camera_motion.map(TranslationTransformation::new);
        let raws = engine
            .update(
                fed,
                1,
                transform
                    .as_ref()
                    .map(|t| t as &dyn norfair_rs::CoordinateTransformation),
            )
            .into_iter()
            .filter_map(raw_track)
            .collect();
        Some(ClassRun {
            label: plan.label.clone(),
            raws,
            alive: engine
                .tracked_objects
                .iter()
                .map(|o| o.global_id as i64)
                .collect(),
        })
    }
}

/// What an engine says of one of its objects, as readings.
fn raw_track(object: &TrackedObject) -> Option<RawTrack> {
    let estimate = &object.estimate;
    if estimate.ncols() < 4 || estimate.nrows() < 1 {
        return None;
    }
    let confidence = object
        .last_detection
        .as_ref()
        .and_then(|d| d.scores.as_ref())
        .and_then(|s| s.first().copied())
        .unwrap_or(0.0) as f32;
    let velocity = &object.estimate_velocity;
    let (vx, vy, speed) = if velocity.ncols() >= 4 && velocity.nrows() >= 1 {
        let vx = ((velocity[(0, 0)] + velocity[(0, 2)]) / 2.0) as f32;
        let vy = ((velocity[(0, 1)] + velocity[(0, 3)]) / 2.0) as f32;
        (vx, vy, (vx * vx + vy * vy).sqrt())
    } else {
        (0.0, 0.0, 0.0)
    };
    let (x, y) = (estimate[(0, 0)] as f32, estimate[(0, 1)] as f32);
    let width = (estimate[(0, 2)] - estimate[(0, 0)]) as f32;
    let height = (estimate[(0, 3)] - estimate[(0, 1)]) as f32;
    Some(RawTrack {
        engine_id: object.global_id as i64,
        x: level(x),
        y: level(y),
        width: level(width),
        height: level(height),
        confidence: level(confidence),
        age: object.age,
        speed: level(speed),
        velocity_x: level(vx),
        velocity_y: level(vy),
        last_frame: object
            .last_detection
            .as_ref()
            .and_then(|d| d.data.as_ref())
            .and_then(|d| d.downcast_ref::<FrameTag>())
            .map(|tag| tag.frame_seq),
    })
}

/// The settings of an engine. The distance the engine compares with is 1 minus the overlap.
fn engine_config(config: &ObjectTrackerConfig) -> TrackerConfig {
    let settings = engine_settings(config);
    let threshold = (1.0 - number(settings.iou_threshold)).max(0.0) as f64;
    let mut engine = TrackerConfig::new(distance_function_by_name("iou"), threshold);
    engine.hit_counter_max = settings.hit_counter_max;
    engine.initialization_delay = settings.initialization_delay;
    if let Some(reid) = settings.reid {
        engine.reid_distance_function = Some(DistanceFunction::Frobenius(ScalarDistance::new(
            reid_distance,
        )));
        engine.reid_distance_threshold = time(reid.distance_threshold);
        engine.reid_hit_counter_max = Some(reid.hit_counter_max);
        engine.past_detections_length = reid.past_detections;
    }
    engine
}

/// The distance of a detection from a dead object; a callback of the engine over floating
/// point.
fn reid_distance(candidate: &NfDetection, dead: &TrackedObject) -> f64 {
    let past: Vec<Option<&Vec<f64>>> = dead
        .past_detections
        .iter()
        .map(|d| d.embedding.as_ref())
        .collect();
    let look = latest_look(&past.iter().map(Option::is_some).collect()).and_then(|i| past[i]);
    let basis = reid_basis(
        candidate.embedding.is_some(),
        look.is_some(),
        candidate.points.ncols(),
        dead.estimate.ncols(),
    );
    match (basis, candidate.embedding.as_ref(), look) {
        (ReidBasis::Looks, Some(a), Some(b)) => distance(a, b),
        (ReidBasis::Boxes, _, _) => {
            let corners = |m: &DMatrix<f64>| Rect {
                x: level(m[(0, 0)] as f32),
                y: level(m[(0, 1)] as f32),
                width: level(m[(0, 2)] as f32),
                height: level(m[(0, 3)] as f32),
            };
            let points = corners(&candidate.points);
            let estimate = corners(&dead.estimate);
            (1.0 - number(overlap(&points, &estimate))) as f64
        }
        _ => f64::INFINITY,
    }
}

fn det(x: f32, y: f32, w: f32, h: f32, label: &str) -> Detection {
    Detection {
        x: level(x),
        y: level(y),
        width: level(w),
        height: level(h),
        confidence: level(0.9),
        label: label.to_string(),
    }
}

fn tracker(
    hit_counter_max: i32,
    initialization_delay: i32,
    reid_hit_counter_max: Option<i32>,
) -> Objects {
    Objects::new(ObjectTrackerConfig {
        hit_counter_max,
        initialization_delay,
        reid_hit_counter_max,
        ..Default::default()
    })
}

fn handle(name: &str, labels: Vec<String>) -> Vec<DetectionLineInput> {
    let at = |x: f64| UiPoint {
        x: stamp(x),
        y: stamp(50.0),
    };
    vec![DetectionLineInput {
        name: name.to_string(),
        direction: LineDirectionFilter::Both,
        labels,
        points: [at(30.0), at(70.0)],
    }]
}

#[test]
fn assigns_ids_to_new_detections() {
    let mut t = tracker(5, 0, None);
    let res = t.update(vec![det(0.1, 0.1, 0.2, 0.2, "person")], 0.0, None, None);
    assert!(!res.tracks.is_empty());
    assert!(res.tracks[0].track_id >= 1);
}

#[test]
fn maintains_id_across_frames() {
    let mut t = tracker(5, 0, None);
    let res1 = t.update(vec![det(0.1, 0.1, 0.2, 0.2, "person")], 0.0, None, None);
    let res2 = t.update(vec![det(0.11, 0.11, 0.2, 0.2, "person")], 1.0, None, None);
    if !res1.tracks.is_empty() && !res2.tracks.is_empty() {
        assert_eq!(res1.tracks[0].track_id, res2.tracks[0].track_id);
    }
}

#[test]
fn different_classes_get_different_ids() {
    let mut t = tracker(5, 0, None);
    let res = t.update(
        vec![
            det(0.1, 0.1, 0.2, 0.2, "person"),
            det(0.5, 0.5, 0.2, 0.2, "car"),
        ],
        0.0,
        None,
        None,
    );
    let ids: HashSet<u32> = res.tracks.iter().map(|d| d.track_id).collect();
    assert_eq!(ids.len(), 2);
}

#[test]
fn matched_frame_not_lost() {
    let mut t = tracker(5, 0, None);
    let r1 = t.update(vec![det(0.1, 0.1, 0.2, 0.2, "person")], 0.0, None, None);
    let r2 = t.update(vec![det(0.11, 0.11, 0.2, 0.2, "person")], 1.0, None, None);
    let r3 = t.update(vec![det(0.12, 0.12, 0.2, 0.2, "person")], 2.0, None, None);
    assert!(
        !r1.tracks.is_empty() && !r1.tracks[0].track_lost,
        "first frame must be matched"
    );
    assert!(
        !r2.tracks.is_empty() && !r2.tracks[0].track_lost,
        "second matched frame"
    );
    assert!(
        !r3.tracks.is_empty() && !r3.tracks[0].track_lost,
        "third matched frame"
    );
}

#[test]
fn unmatched_frame_marked_lost() {
    let mut t = tracker(5, 0, None);
    let _ = t.update(vec![det(0.1, 0.1, 0.2, 0.2, "person")], 0.0, None, None);
    let _ = t.update(vec![det(0.11, 0.11, 0.2, 0.2, "person")], 1.0, None, None);
    let res = t.update(Vec::new(), 2.0, None, None);
    if !res.tracks.is_empty() {
        assert!(res.tracks[0].track_lost, "unmatched frame must be lost");
    }
}

#[test]
fn reset_clears_state() {
    let mut t = tracker(5, 0, None);
    t.update(vec![det(0.1, 0.1, 0.2, 0.2, "person")], 0.0, None, None);
    assert!(t.track_count() >= 1);
    t.reset();
    assert_eq!(t.track_count(), 0);
}

#[test]
fn line_crossing_a_to_b() {
    let mut t = tracker(5, 0, None);
    t.set_lines(handle("gate", vec![]), 16.0 / 9.0);

    let r1 = t.update(vec![det(0.35, 0.40, 0.20, 0.20, "person")], 0.0, None, None);
    assert_eq!(r1.crossings.len(), 0, "first frame: no prev → no crossing");
    let r2 = t.update(vec![det(0.45, 0.40, 0.20, 0.20, "person")], 1.0, None, None);
    assert_eq!(r2.crossings.len(), 1, "movement should fire one crossing");
    let crossing = &r2.crossings[0];
    assert_eq!(crossing.line_name, "gate");
    assert_eq!(crossing.label, "person");
}

#[test]
fn line_crossing_label_filter() {
    let mut t = tracker(5, 0, None);
    t.set_lines(handle("vehicle-only", vec!["car".to_string()]), 16.0 / 9.0);
    let _ = t.update(vec![det(0.35, 0.40, 0.20, 0.20, "person")], 0.0, None, None);
    let r2 = t.update(vec![det(0.45, 0.40, 0.20, 0.20, "person")], 1.0, None, None);
    assert_eq!(
        r2.crossings.len(),
        0,
        "person should not match vehicle-only line"
    );
}

#[test]
fn track_speed_static_then_moving() {
    let mut t = tracker(5, 0, None);
    let r1 = t.update(vec![det(0.10, 0.10, 0.20, 0.20, "person")], 0.0, None, None);
    assert_eq!(r1.tracks.len(), 1);
    assert!(
        number(r1.tracks[0].track_speed) < 0.01,
        "first frame speed should be ~0"
    );

    let r2 = t.update(
        vec![det(0.10, 0.10, 0.20, 0.20, "person")],
        100.0,
        None,
        None,
    );
    assert!(
        number(r2.tracks[0].track_speed) < 0.01,
        "static frame speed should be ~0"
    );

    let mut last_speed = 0.0f32;
    for i in 2..8 {
        let x = 0.10 + (i - 1) as f32 * 0.05;
        let r = t.update(
            vec![det(x, 0.10, 0.20, 0.20, "person")],
            (i * 100) as f64,
            None,
            None,
        );
        last_speed = number(r.tracks[0].track_speed);
    }
    assert!(
        last_speed > 0.001,
        "expected Kalman velocity > 0 after sustained movement, got {}",
        last_speed
    );
}

#[test]
fn tracked_detection_carries_input_confidence() {
    let mut t = tracker(5, 0, None);
    let mut d = det(0.10, 0.10, 0.20, 0.20, "person");
    d.confidence = level(0.87);
    let r = t.update(vec![d], 0.0, None, None);
    assert!(!r.tracks.is_empty());
    assert!(
        (number(r.tracks[0].confidence) - 0.87).abs() < 1e-3,
        "expected ~0.87, got {}",
        number(r.tracks[0].confidence)
    );
}

#[test]
fn confidence_threshold_drops_low_score() {
    let mut t = tracker(5, 0, None);
    t.set_min_confidence(0.5);
    let mut low = det(0.1, 0.1, 0.2, 0.2, "person");
    low.confidence = level(0.4);
    let mut high = det(0.5, 0.5, 0.2, 0.2, "person");
    high.confidence = level(0.8);
    let res = t.update(vec![low, high], 0.0, None, None);
    assert_eq!(res.tracks.len(), 1);
    assert!((number(res.tracks[0].x) - 0.5).abs() < 1e-6);
}

#[test]
fn zone_exclude_drops_detection_in_zone() {
    let mut t = tracker(5, 0, None);
    t.set_zones(vec![ZoneInput {
        labels: vec![],
        filter: ZoneFilterMode::Exclude,
        match_type: ZoneMatchType::Intersect,
        is_privacy_mask: false,
        points: [[0.0, 0.0], [50.0, 0.0], [50.0, 50.0], [0.0, 50.0]]
            .iter()
            .map(|p| UiPoint {
                x: stamp(p[0]),
                y: stamp(p[1]),
            })
            .collect(),
    }]);
    let inside = det(0.10, 0.10, 0.20, 0.20, "person");
    let outside = det(0.60, 0.60, 0.20, 0.20, "person");
    assert_eq!(
        t.filter_indices(&vec![inside.clone(), outside.clone()]),
        vec![1]
    );
    let res = t.update(vec![inside, outside], 0.0, None, None);
    assert_eq!(res.tracks.len(), 1);
    assert!(number(res.tracks[0].x) > 0.5);
}

#[test]
fn line_crossing_only_fires_once_per_track() {
    let mut t = tracker(5, 0, None);
    t.set_lines(handle("gate", vec![]), 16.0 / 9.0);
    let _ = t.update(vec![det(0.35, 0.40, 0.20, 0.20, "person")], 0.0, None, None);
    let r2 = t.update(vec![det(0.45, 0.40, 0.20, 0.20, "person")], 1.0, None, None);
    let r3 = t.update(vec![det(0.55, 0.40, 0.20, 0.20, "person")], 2.0, None, None);
    assert_eq!(r2.crossings.len(), 1);
    assert_eq!(r3.crossings.len(), 0, "memory should suppress repeat");
}

#[test]
fn track_expires_without_reid() {
    let mut t = tracker(3, 0, None);
    let _ = t.update(vec![det(0.1, 0.1, 0.2, 0.2, "person")], 0.0, None, None);
    let _ = t.update(vec![det(0.11, 0.11, 0.2, 0.2, "person")], 100.0, None, None);

    let mut alive_count = 0;
    for i in 2..20 {
        let r = t.update(Vec::new(), (i * 100) as f64, None, None);
        if !r.tracks.is_empty() {
            alive_count += 1;
        }
    }
    assert!(
        alive_count < 18,
        "without ReID, track should expire (alive for {} frames)",
        alive_count
    );
}

#[test]
fn reid_preserves_id_after_gap() {
    // An initialization delay of 1 is required: dead tracks are only matched again by
    // objects that are newly matched and still initializing.
    let mut t = tracker(3, 1, Some(20));

    let _ = t.update(vec![det(0.30, 0.30, 0.20, 0.20, "person")], 0.0, None, None);
    let r2 = t.update(
        vec![det(0.30, 0.30, 0.20, 0.20, "person")],
        100.0,
        None,
        None,
    );
    assert_eq!(r2.tracks.len(), 1);
    let id = r2.tracks[0].track_id;
    let _ = t.update(
        vec![det(0.30, 0.30, 0.20, 0.20, "person")],
        200.0,
        None,
        None,
    );

    // Disappear long enough to die but stay within the ReID window.
    for i in 3..13 {
        t.update(Vec::new(), (i * 100) as f64, None, None);
    }

    let _ = t.update(
        vec![det(0.30, 0.30, 0.20, 0.20, "person")],
        1300.0,
        None,
        None,
    );
    let r_back = t.update(
        vec![det(0.30, 0.30, 0.20, 0.20, "person")],
        1400.0,
        None,
        None,
    );

    let found = r_back.tracks.iter().any(|t| t.track_id == id);
    assert!(
        found,
        "ReID should restore old track id {} (got: {:?})",
        id,
        r_back.tracks.iter().map(|t| t.track_id).collect::<Vec<_>>()
    );
}

#[test]
fn reid_expires_after_reid_hit_counter_max() {
    let mut t = tracker(3, 1, Some(5));

    let _ = t.update(vec![det(0.30, 0.30, 0.20, 0.20, "person")], 0.0, None, None);
    let r2 = t.update(
        vec![det(0.30, 0.30, 0.20, 0.20, "person")],
        100.0,
        None,
        None,
    );
    let id = r2.tracks[0].track_id;

    // Die and exhaust the ReID window.
    for i in 2..20 {
        t.update(Vec::new(), (i * 100) as f64, None, None);
    }

    let _ = t.update(
        vec![det(0.30, 0.30, 0.20, 0.20, "person")],
        2000.0,
        None,
        None,
    );
    let r_back = t.update(
        vec![det(0.30, 0.30, 0.20, 0.20, "person")],
        2100.0,
        None,
        None,
    );

    let has_old = r_back.tracks.iter().any(|t| t.track_id == id);
    assert!(
        !has_old,
        "ReID should have expired — old id {} should not appear",
        id
    );
}

#[test]
fn set_reid_hit_counter_max_dynamically() {
    let mut t = tracker(3, 1, None);

    t.set_reid_hit_counter_max(50);

    let _ = t.update(vec![det(0.30, 0.30, 0.20, 0.20, "person")], 0.0, None, None);
    let r2 = t.update(
        vec![det(0.30, 0.30, 0.20, 0.20, "person")],
        100.0,
        None,
        None,
    );
    let id = r2.tracks[0].track_id;
    let _ = t.update(
        vec![det(0.30, 0.30, 0.20, 0.20, "person")],
        200.0,
        None,
        None,
    );

    for i in 3..13 {
        t.update(Vec::new(), (i * 100) as f64, None, None);
    }

    let _ = t.update(
        vec![det(0.30, 0.30, 0.20, 0.20, "person")],
        1300.0,
        None,
        None,
    );
    let r_back = t.update(
        vec![det(0.30, 0.30, 0.20, 0.20, "person")],
        1400.0,
        None,
        None,
    );

    let found = r_back.tracks.iter().any(|t| t.track_id == id);
    assert!(found, "Dynamic ReID should restore old track id {}", id);

    t.set_reid_hit_counter_max(0);
    assert_eq!(t.inner.config().reid_hit_counter_max, None);
}

#[test]
fn a_refreshed_dead_track_can_be_matched_for_longer() {
    let mut t = tracker(3, 1, Some(5));
    for i in 0..3 {
        let person = vec![det(0.30, 0.30, 0.20, 0.20, "person")];
        t.update(person, i as f64 * 100.0, None, None);
    }
    let before = t.update(
        vec![det(0.30, 0.30, 0.20, 0.20, "person")],
        300.0,
        None,
        None,
    );
    let id = before.tracks[0].track_id;
    for i in 4..20 {
        t.update(Vec::new(), i as f64 * 100.0, None, None);
        t.refresh_reid();
    }
    for i in 20..22 {
        let person = vec![det(0.30, 0.30, 0.20, 0.20, "person")];
        let back = t.update(person, i as f64 * 100.0, None, None);
        if i == 21 {
            assert!(back.tracks.iter().any(|t| t.track_id == id));
        }
    }
}

#[test]
fn a_frame_gives_detections_their_looks() {
    let mut t = tracker(3, 1, Some(20));
    let pixels = vec![200u8; 128 * 128 * 3];
    let mut ids = HashSet::new();
    for i in 0..5 {
        let person = vec![det(0.20, 0.20, 0.50, 0.50, "person")];
        let r = t.update(
            person,
            i as f64 * 100.0,
            Some((&pixels, 128, 128)),
            Some([0.0, 0.0]),
        );
        ids.extend(r.tracks.iter().map(|t| t.track_id));
    }
    assert_eq!(ids.len(), 1);
}
