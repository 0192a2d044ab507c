//! What an object tracker is, and what a frame makes of it.
use vstd::prelude::*;
use crate::grouping::labels_of;
use crate::id_map::{restricted, stands_for};
use crate::labels::lowercase_text;
use crate::line_crossing::{LineCrossingEvent, PreparedLine, SegmentMeasure};
use crate::reading::{at_least_zero, Level, Stamp};
use crate::track::TrackSegment;
use crate::types::{spans_as, Detection, Point, Rect, Shift, TrackedDetection};
use crate::world_model::{crosses_as, crossing_event, stood_still};
use crate::zone_filter::PreparedZones;

verus! {

/// The settings of an object tracker.
#[derive(Debug, Clone, Copy, PartialEq, Eq, Structural)]
pub struct ObjectTrackerConfig {
    /// The overlap from which on two boxes match. Higher is stricter.
    pub iou_threshold: Level,
    /// For how many frames a track survives without a detection.
    pub hit_counter_max: i32,
    /// For how many frames a new track has to be matched before it counts.
    pub initialization_delay: i32,
    /// For how many frames a dead track can be matched again by its looks; `None` is never.
    pub reid_hit_counter_max: Option<i32>,
    /// The distance of two looks up to which they match.
    pub reid_embedding_threshold: Stamp,
}

/// Matching from an overlap of 0.3, 15 frames without a detection, 3 frames to begin with,
/// no matching by looks, and a distance of 0.4 where there is.
pub open spec fn default_tracker_config() -> ObjectTrackerConfig {
    ObjectTrackerConfig {
        iou_threshold: 0x3e99_999a,
        hit_counter_max: 15,
        initialization_delay: 3,
        reid_hit_counter_max: None,
        reid_embedding_threshold: 0x3fd9_9999_9999_999a,
    }
}

impl Default for ObjectTrackerConfig {
    fn default() -> (config: Self)
        ensures
            config == default_tracker_config(),
    {
        ObjectTrackerConfig {
            iou_threshold: 0x3e99_999a,
            hit_counter_max: 15,
            initialization_delay: 3,
            reid_hit_counter_max: None,
            reid_embedding_threshold: 0x3fd9_9999_9999_999a,
        }
    }
}

/// What the engine of a class says of one of its objects after a frame.
#[derive(Debug, Clone, Copy, PartialEq, Eq, Structural)]
pub struct RawTrack {
    /// The id the engine gave it.
    pub engine_id: i64,
    pub x: Level,
    pub y: Level,
    /// The differences of the corners; negative ones count as 0.
    pub width: Level,
    pub height: Level,
    pub confidence: Level,
    pub age: i32,
    pub speed: Level,
    pub velocity_x: Level,
    pub velocity_y: Level,
    /// The frame its last detection came from.
    pub last_frame: Option<u64>,
}

/// What the engine of a class says after a frame.
#[derive(Debug)]
pub struct ClassRun {
    pub label: String,
    /// The objects it reports.
    pub raws: Vec<RawTrack>,
    /// The ids of all objects it still holds.
    pub alive: Vec<i64>,
}

/// The functions that compute with reals.
pub struct Gauges {
    /// The center of a box.
    pub center: spec_fn(Rect) -> Point,
    /// The distance of two places.
    pub span: spec_fn(Point, Point) -> Shift,
    /// How a movement lies to a line.
    pub cross: spec_fn(TrackSegment, PreparedLine) -> SegmentMeasure,
}

/// `g` gives what `f` returns.
pub open spec fn centers_as<F: Fn(&Rect) -> Point>(f: F, g: spec_fn(Rect) -> Point) -> bool {
    forall|a: Rect, r: Point| #[trigger] call_ensures(f, (&a,), r) ==> r == g(a)
}

/// `f` can be called with any box.
pub open spec fn can_center<F: Fn(&Rect) -> Point>(f: F) -> bool {
    forall|a: Rect| #[trigger] call_requires(f, (&a,))
}

/// `g` gives what the three functions return.
pub open spec fn gauges_as<
    M: Fn(&Rect) -> Point,
    D: Fn(&Point, &Point) -> Shift,
    C: Fn(&TrackSegment, &PreparedLine) -> SegmentMeasure,
>(center: M, span: D, cross: C, g: Gauges) -> bool {
    &&& centers_as(center, g.center)
    &&& spans_as(span, g.span)
    &&& crosses_as(cross, g.cross)
}

/// The box of a track.
pub open spec fn track_box(track: TrackedDetection) -> Rect {
    Rect { x: track.x, y: track.y, width: track.width, height: track.height }
}

/// The tracks of one class.
#[verifier::ext_equal]
pub struct ClassState {
    pub label: Seq<char>,
    /// The track each engine id stands for.
    pub ids: Map<i64, u32>,
    /// Where each track was when it was last reported.
    pub places: Map<i64, Point>,
    /// How many objects the engine holds.
    pub held: nat,
}

/// A tracker, as contracts speak of it.
#[verifier::ext_equal]
pub struct TrackerState {
    pub config: ObjectTrackerConfig,
    /// The classes, in the order they first appeared.
    pub classes: Seq<ClassState>,
    pub next_track_id: u32,
    pub lines: Seq<PreparedLine>,
    /// Which track has crossed the line with which name.
    pub memory: Set<(u32, Seq<char>)>,
    pub zones: PreparedZones,
    pub min_confidence: Level,
    pub frame_seq: u64,
}

/// The id after this one; 0 is never used.
pub open spec fn id_after(id: u32) -> u32 {
    if id == u32::MAX {
        1
    } else {
        (id + 1) as u32
    }
}

/// The ids after the first `n` objects got theirs, and the id the next new one gets.
pub open spec fn named(ids: Map<i64, u32>, next: u32, raws: Seq<RawTrack>, n: int) -> (
    Map<i64, u32>,
    u32,
)
    decreases n,
{
    if n <= 0 {
        (ids, next)
    } else {
        let (before, id) = named(ids, next, raws, n - 1);
        let key = raws[n - 1].engine_id;
        if before.dom().contains(key) {
            (before, id)
        } else {
            (before.insert(key, id), id_after(id))
        }
    }
}

/// No id that is handed out is 0.
pub proof fn lemma_named_without_zero(
    ids: Map<i64, u32>,
    next: u32,
    raws: Seq<RawTrack>,
    n: int,
)
    requires
        next >= 1,
        forall|k: i64| #[trigger] ids.dom().contains(k) ==> ids[k] >= 1,
    ensures
        named(ids, next, raws, n).1 >= 1,
        forall|k: i64| #[trigger]
            named(ids, next, raws, n).0.dom().contains(k) ==> named(ids, next, raws, n).0[k] >= 1,
    decreases n,
{
    if n > 0 {
        lemma_named_without_zero(ids, next, raws, n - 1);
    }
}

/// An object as it is reported; it is lost if its last detection is not of this frame.
pub open spec fn reported(label: String, raw: RawTrack, id: u32, frame: u64) -> TrackedDetection {
    TrackedDetection {
        x: raw.x,
        y: raw.y,
        width: at_least_zero(raw.width),
        height: at_least_zero(raw.height),
        confidence: raw.confidence,
        label,
        track_id: id,
        track_age: at_least_zero(raw.age) as u32,
        track_lost: raw.last_frame != Some(frame),
        track_speed: raw.speed,
        track_velocity_x: raw.velocity_x,
        track_velocity_y: raw.velocity_y,
    }
}

/// There is a class with this label.
pub open spec fn has_class(classes: Seq<ClassState>, label: Seq<char>) -> bool {
    exists|i: int| 0 <= i < classes.len() && (#[trigger] classes[i]).label == label
}

/// Where the class with this label is.
pub open spec fn class_at(classes: Seq<ClassState>, label: Seq<char>) -> int {
    choose|i: int| 0 <= i < classes.len() && (#[trigger] classes[i]).label == label
}

/// The classes with one for this label.
pub open spec fn with_class(classes: Seq<ClassState>, label: Seq<char>) -> Seq<ClassState> {
    if has_class(classes, label) {
        classes
    } else {
        classes.push(
            ClassState { label, ids: Map::empty(), places: Map::empty(), held: 0 },
        )
    }
}

impl ClassState {
    /// The class without the tracks its engine has let go.
    pub open spec fn keeping(self, alive: Seq<i64>) -> ClassState {
        let ids = restricted(self.ids, |k: i64, id: u32| alive.contains(k));
        ClassState {
            ids,
            places: restricted(self.places, |k: i64, p: Point| stands_for(ids, k)),
            held: alive.len(),
            ..self
        }
    }
}

impl TrackerState {
    /// Each class occurs once, and 0 is no id.
    pub open spec fn ok(self) -> bool {
        &&& forall|i: int, j: int|
            0 <= i < j < self.classes.len() ==> (#[trigger] self.classes[i]).label != (
            #[trigger] self.classes[j]).label
        &&& forall|i: int, k: i64|
            0 <= i < self.classes.len() && #[trigger] self.classes[i].ids.dom().contains(k)
                ==> self.classes[i].ids[k] >= 1
        &&& self.next_track_id >= 1
    }

    /// The tracker after one class has run, and its reports.
    pub open spec fn class_ran(self, run: ClassRun) -> (
        TrackerState,
        Seq<TrackedDetection>,
    ) {
        let classes = with_class(self.classes, run.label@);
        let i = class_at(classes, run.label@);
        let (ids, next) = named(
            classes[i].ids,
            self.next_track_id,
            run.raws@,
            run.raws@.len() as int,
        );
        (
            TrackerState {
                classes: classes.update(
                    i,
                    ClassState { ids, ..classes[i] }.keeping(run.alive@),
                ),
                next_track_id: next,
                ..self
            },
            Seq::new(
                run.raws@.len(),
                |k: int|
                    reported(
                        run.label,
                        run.raws@[k],
                        ids[run.raws@[k].engine_id],
                        self.frame_seq,
                    ),
            ),
        )
    }

    /// The tracker after the first `n` classes have run, and their reports.
    pub open spec fn ran(self, runs: Seq<ClassRun>, n: int) -> (
        TrackerState,
        Seq<TrackedDetection>,
    )
        decreases n,
    {
        if n <= 0 {
            (self, Seq::empty())
        } else {
            let (before, so_far) = self.ran(runs, n - 1);
            let (after, more) = before.class_ran(runs[n - 1]);
            (after, so_far + more)
        }
    }

    /// Where a track was before.
    pub open spec fn place_before(self, label: Seq<char>, id: u32) -> Option<Point> {
        if has_class(self.classes, label) {
            let class = self.classes[class_at(self.classes, label)];
            if class.places.dom().contains(id as i64) {
                Some(class.places[id as i64])
            } else {
                None
            }
        } else {
            None
        }
    }
}

/// The crossings remembered and reported so far.
#[verifier::ext_equal]
pub struct NamedCrossings {
    pub memory: Set<(u32, Seq<char>)>,
    pub events: Seq<LineCrossingEvent>,
}

/// A movement of a track.
pub open spec fn movement(
    track: TrackedDetection,
    from: Point,
    to: Point,
    span: spec_fn(Point, Point) -> Shift,
) -> TrackSegment {
    TrackSegment {
        track_id: track.track_id,
        label: track.label,
        from,
        to,
        shift_x: span(from, to).x,
        shift_y: span(from, to).y,
    }
}

/// A movement against the first `n` lines: a crossing that is not remembered is reported
/// and remembered, by the name of the line.
pub open spec fn names_crossed(
    lines: Seq<PreparedLine>,
    before: NamedCrossings,
    segment: TrackSegment,
    confidence: Level,
    t_ms: Stamp,
    cross: spec_fn(TrackSegment, PreparedLine) -> SegmentMeasure,
    n: int,
) -> NamedCrossings
    decreases n,
{
    if n <= 0 {
        before
    } else {
        let so_far = names_crossed(lines, before, segment, confidence, t_ms, cross, n - 1);
        let line = lines[n - 1];
        let key = (segment.track_id, line.name@);
        match line.crossed(lowercase_text(segment.label@), cross(segment, line)) {
            Some(direction) => if so_far.memory.contains(key) {
                so_far
            } else {
                NamedCrossings {
                    memory: so_far.memory.insert(key),
                    events: so_far.events.push(
                        crossing_event(segment, line, direction, confidence, t_ms),
                    ),
                }
            },
            None => so_far,
        }
    }
}

impl TrackerState {
    /// The crossings of the first `n` reported tracks.
    pub open spec fn crossed(
        self,
        tracks: Seq<TrackedDetection>,
        t_ms: Stamp,
        g: Gauges,
        n: int,
    ) -> NamedCrossings
        decreases n,
    {
        if n <= 0 {
            NamedCrossings { memory: self.memory, events: Seq::empty() }
        } else {
            let before = self.crossed(tracks, t_ms, g, n - 1);
            let track = tracks[n - 1];
            match self.place_before(track.label@, track.track_id) {
                Some(from) => {
                    let segment = movement(track, from, (g.center)(track_box(track)), g.span);
                    if stood_still(segment) {
                        before
                    } else {
                        names_crossed(
                            self.lines,
                            before,
                            segment,
                            track.confidence,
                            t_ms,
                            g.cross,
                            self.lines.len() as int,
                        )
                    }
                },
                None => before,
            }
        }
    }

    /// The tracker with the places of the first `n` reported tracks brought up to date.
    pub open spec fn placed(
        self,
        tracks: Seq<TrackedDetection>,
        center: spec_fn(Rect) -> Point,
        n: int,
    ) -> TrackerState
        decreases n,
    {
        if n <= 0 {
            self
        } else {
            let before = self.placed(tracks, center, n - 1);
            let track = tracks[n - 1];
            if has_class(before.classes, track.label@) {
                let i = class_at(before.classes, track.label@);
                let class = before.classes[i];
                TrackerState {
                    classes: before.classes.update(
                        i,
                        ClassState {
                            places: class.places.insert(
                                track.track_id as i64,
                                center(track_box(track)),
                            ),
                            ..class
                        },
                    ),
                    ..before
                }
            } else {
                before
            }
        }
    }

    /// The track is still known to some class.
    pub open spec fn knows(self, id: u32) -> bool {
        exists|i: int|
            0 <= i < self.classes.len() && stands_for((#[trigger] self.classes[i]).ids, id as i64)
    }

    /// The tracker without the memory of tracks that are gone.
    pub open spec fn without_the_gone(self) -> TrackerState {
        TrackerState {
            memory: self.memory.filter(|key: (u32, Seq<char>)| self.knows(key.0)),
            ..self
        }
    }

    /// The tracker after a frame, the tracks it reports and the crossings.
    pub open spec fn framed(self, runs: Seq<ClassRun>, t_ms: Stamp, g: Gauges) -> (
        TrackerState,
        Seq<TrackedDetection>,
        Seq<LineCrossingEvent>,
    ) {
        let (after, tracks) = self.ran(runs, runs.len() as int);
        let n = tracks.len() as int;
        if self.lines.len() == 0 {
            (after, tracks, Seq::empty())
        } else {
            let c = after.crossed(tracks, t_ms, g, n);
            let remembering = TrackerState { memory: c.memory, ..after };
            (remembering.placed(tracks, g.center, n).without_the_gone(), tracks, c.events)
        }
    }
}

/// What to run a class on in this frame.
#[derive(Debug)]
pub struct ClassPlan {
    pub label: String,
    pub detections: Vec<Detection>,
}

/// What a class is run on, as contracts speak of it.
#[verifier::ext_equal]
pub struct PlanState {
    pub label: Seq<char>,
    pub detections: Seq<Detection>,
}

impl View for ClassPlan {
    type V = PlanState;

    open spec fn view(&self) -> PlanState {
        PlanState { label: self.label@, detections: self.detections@ }
    }
}

/// The detections with this label.
pub open spec fn with_label(detections: Seq<Detection>, label: Seq<char>) -> Seq<Detection> {
    detections.filter(|d: Detection| d.label@ == label)
}

/// The first `n` known classes that have no detection in this frame.
pub open spec fn idle(classes: Seq<ClassState>, detections: Seq<Detection>, n: int) -> Seq<
    PlanState,
>
    decreases n,
{
    if n <= 0 {
        Seq::empty()
    } else {
        let before = idle(classes, detections, n - 1);
        if labels_of(detections, detections.len() as int).contains(classes[n - 1].label) {
            before
        } else {
            before.push(PlanState { label: classes[n - 1].label, detections: Seq::empty() })
        }
    }
}

/// What a frame is run on: the known classes without a detection first, so that they age,
/// and then each class that has some.
pub open spec fn planned(classes: Seq<ClassState>, detections: Seq<Detection>) -> Seq<PlanState> {
    let labels = labels_of(detections, detections.len() as int);
    idle(classes, detections, classes.len() as int) + Seq::new(
        labels.len(),
        |i: int| PlanState { label: labels[i], detections: with_label(detections, labels[i]) },
    )
}

pub proof fn lemma_label_unmet(detections: Seq<Detection>, label: Seq<char>)
    requires
        forall|j: int| 0 <= j < detections.len() ==> (#[trigger] detections[j]).label@ != label,
    ensures
        with_label(detections, label).len() == 0,
    decreases detections.len(),
{
    reveal(Seq::filter);
    if detections.len() > 0 {
        assert(detections[detections.len() - 1].label@ != label);
        let rest = detections.drop_last();
        assert forall|j: int| 0 <= j < rest.len() implies (#[trigger] rest[j]).label@ != label by {
            assert(detections[j].label@ != label);
        }
        lemma_label_unmet(rest, label);
    }
}

pub proof fn lemma_class_at(classes: Seq<ClassState>, i: int)
    requires
        0 <= i < classes.len(),
        forall|i: int, j: int|
            0 <= i < j < classes.len() ==> (#[trigger] classes[i]).label != (
            #[trigger] classes[j]).label,
    ensures
        has_class(classes, classes[i].label),
        class_at(classes, classes[i].label) == i,
{
    let label = classes[i].label;
    assert(has_class(classes, label));
    let k = class_at(classes, label);
    assert(classes[k].label == label);
    if k < i {
        assert(classes[k].label != classes[i].label);
    }
    if i < k {
        assert(classes[i].label != classes[k].label);
    }
}

} // verus!
