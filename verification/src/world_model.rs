//! What a world is, and what a tick makes of it.
use vstd::prelude::*;
use crate::id_map::restricted;
use crate::labels::{distinct_texts, has_text, lowercase_text};
use crate::line_crossing::{
    CrossingDirection, LineCrossingEvent, PreparedLine, SegmentMeasure, SAME_PLACE_LIMIT,
};
use crate::reading::{Level, Stamp};
use crate::semantic::{SemanticEvent, TrackSnapshot, TrackState};
use crate::track::{Measure, Sighting, TrackSegment, WorldConfig, WorldTrack};
use crate::types::{CameraMotion, Detection, Rect};
use crate::zone_filter::PreparedZones;

verus! {

/// How long an object has been out of sight, and how long it had been anchored when it
/// was last seen.
#[derive(Debug, Clone, Copy, PartialEq, Eq, Structural)]
pub struct Lapse {
    pub since_seen: Stamp,
    pub rest: Stamp,
}

/// The functions that compute with reals.
pub struct Senses {
    /// The overlap of two boxes.
    pub rate: spec_fn(Rect, Rect) -> Level,
    /// A sighting measured against an object.
    pub assess: spec_fn(WorldTrack, Sighting) -> Measure,
    /// For how long an object has been out of sight.
    pub lapse: spec_fn(WorldTrack) -> Lapse,
    /// How a movement lies to a line.
    pub cross: spec_fn(TrackSegment, PreparedLine) -> SegmentMeasure,
}

/// `g` gives what `f` returns.
pub open spec fn rates_as<F: Fn(&Rect, &Rect) -> Level>(
    f: F,
    g: spec_fn(Rect, Rect) -> Level,
) -> bool {
    forall|a: Rect, b: Rect, r: Level| #[trigger] call_ensures(f, (&a, &b), r) ==> r == g(a, b)
}

/// `g` gives what `f` returns.
pub open spec fn assesses_as<F: Fn(&WorldTrack, &Sighting) -> Measure>(
    f: F,
    g: spec_fn(WorldTrack, Sighting) -> Measure,
) -> bool {
    forall|a: WorldTrack, b: Sighting, r: Measure| #[trigger]
        call_ensures(f, (&a, &b), r) ==> r == g(a, b)
}

/// `f` can be called with any two boxes.
pub open spec fn can_rate<F: Fn(&Rect, &Rect) -> Level>(f: F) -> bool {
    forall|a: Rect, b: Rect| #[trigger] call_requires(f, (&a, &b))
}

/// `f` can be called with any object and sighting.
pub open spec fn can_assess<F: Fn(&WorldTrack, &Sighting) -> Measure>(f: F) -> bool {
    forall|a: WorldTrack, b: Sighting| #[trigger] call_requires(f, (&a, &b))
}

/// `g` gives what `f` returns.
pub open spec fn lapses_as<F: Fn(&WorldTrack) -> Lapse>(
    f: F,
    g: spec_fn(WorldTrack) -> Lapse,
) -> bool {
    forall|a: WorldTrack, r: Lapse| #[trigger] call_ensures(f, (&a,), r) ==> r == g(a)
}

/// `g` gives what `f` returns.
pub open spec fn crosses_as<F: Fn(&TrackSegment, &PreparedLine) -> SegmentMeasure>(
    f: F,
    g: spec_fn(TrackSegment, PreparedLine) -> SegmentMeasure,
) -> bool {
    forall|a: TrackSegment, b: PreparedLine, r: SegmentMeasure| #[trigger]
        call_ensures(f, (&a, &b), r) ==> r == g(a, b)
}

/// `f` can be called with any object.
pub open spec fn can_lapse<F: Fn(&WorldTrack) -> Lapse>(f: F) -> bool {
    forall|a: WorldTrack| #[trigger] call_requires(f, (&a,))
}

/// `f` can be called with any movement and line.
pub open spec fn can_cross<F: Fn(&TrackSegment, &PreparedLine) -> SegmentMeasure>(f: F) -> bool {
    forall|a: TrackSegment, b: PreparedLine| #[trigger] call_requires(f, (&a, &b))
}

/// `g` gives what the four functions return.
pub open spec fn senses_as<
    R: Fn(&Rect, &Rect) -> Level,
    A: Fn(&WorldTrack, &Sighting) -> Measure,
    L: Fn(&WorldTrack) -> Lapse,
    C: Fn(&TrackSegment, &PreparedLine) -> SegmentMeasure,
>(rate: R, assess: A, lapse: L, cross: C, g: Senses) -> bool {
    &&& rates_as(rate, g.rate)
    &&& assesses_as(assess, g.assess)
    &&& lapses_as(lapse, g.lapse)
    &&& crosses_as(cross, g.cross)
}

/// Some object has this id.
pub open spec fn has_id(tracks: Seq<WorldTrack>, id: u32) -> bool {
    exists|i: int| 0 <= i < tracks.len() && (#[trigger] tracks[i]).id == id
}

/// Where the object with this id is.
pub open spec fn index_of(tracks: Seq<WorldTrack>, id: u32) -> int {
    choose|i: int| 0 <= i < tracks.len() && (#[trigger] tracks[i]).id == id
}

/// The object can be taken up again by a sighting with this label at this place.
pub open spec fn resumable(
    track: WorldTrack,
    label: Seq<char>,
    bbox: Rect,
    rate: spec_fn(Rect, Rect) -> Level,
    floor: Level,
) -> bool {
    track.dormant && track.label@ == label && rate(track.anchor, bbox) >= floor
}

/// Among the first `n` objects the one a sighting takes up again: a dormant one with the
/// same label whose anchor overlaps most, the earliest of equals.
pub open spec fn best_match(
    tracks: Seq<WorldTrack>,
    label: Seq<char>,
    bbox: Rect,
    rate: spec_fn(Rect, Rect) -> Level,
    floor: Level,
    n: int,
) -> Option<int>
    decreases n,
{
    if n <= 0 {
        None
    } else {
        let best = best_match(tracks, label, bbox, rate, floor, n - 1);
        let track = tracks[n - 1];
        if resumable(track, label, bbox, rate, floor) && (best matches Some(b) ==> rate(
            track.anchor,
            bbox,
        ) > rate(tracks[b].anchor, bbox)) {
            Some(n - 1)
        } else {
            best
        }
    }
}

/// What a tick has brought so far.
#[verifier::ext_equal]
pub struct TickState {
    pub seen: Seq<u32>,
    pub segments: Seq<TrackSegment>,
    pub created: Seq<u32>,
    pub events: Seq<SemanticEvent>,
}

/// A world, as contracts speak of it.
#[verifier::ext_equal]
pub struct WorldState {
    pub config: WorldConfig,
    /// The objects, oldest first.
    pub tracks: Seq<WorldTrack>,
    /// The object each engine id stands for.
    pub engine_map: Map<i64, u32>,
    pub next_id: u32,
    pub last_t_ms: Stamp,
    pub lines: Seq<PreparedLine>,
    /// Which object has crossed which line.
    pub memory: Set<(u32, u32)>,
    pub zones: PreparedZones,
    pub min_confidence: Level,
    /// The labels, by class id.
    pub labels: Seq<String>,
    pub pose: Option<CameraMotion>,
}

impl WorldState {
    /// Ids go up with age and are never handed out twice; nothing refers to an id that
    /// was not handed out; a tentative object is never dormant.
    pub open spec fn ok(self) -> bool {
        &&& forall|i: int, j: int|
            0 <= i < j < self.tracks.len() ==> (#[trigger] self.tracks[i]).id < (
            #[trigger] self.tracks[j]).id
        &&& forall|i: int|
            0 <= i < self.tracks.len() ==> 1 <= (#[trigger] self.tracks[i]).id < self.next_id
        &&& forall|i: int|
            0 <= i < self.tracks.len() ==> (#[trigger] self.tracks[i]).ok(self.config)
        &&& forall|k: i64| #[trigger]
            self.engine_map.dom().contains(k) ==> self.engine_map[k] < self.next_id
        &&& forall|id: u32, line: u32| #[trigger]
            self.memory.contains((id, line)) ==> id < self.next_id
        &&& distinct_texts(self.labels)
        &&& self.lines.len() <= u32::MAX
        &&& self.next_id >= 1
    }

    /// The object an engine id already stands for.
    pub open spec fn known(self, engine_id: u32) -> Option<u32> {
        let k = engine_id as i64;
        if self.engine_map.dom().contains(k) && has_id(self.tracks, self.engine_map[k]) {
            Some(self.engine_map[k])
        } else {
            None
        }
    }

    /// The object a sighting is taken for, and the world with it: the one its engine id
    /// stands for; else a dormant one at its place; else, if its score suffices, a new one.
    pub open spec fn located(
        self,
        s: Sighting,
        label: String,
        t_ms: Stamp,
        rate: spec_fn(Rect, Rect) -> Level,
    ) -> (WorldState, Option<u32>) {
        let n = self.tracks.len() as int;
        match self.known(s.engine_id) {
            Some(id) => (self, Some(id)),
            None => match best_match(
                self.tracks,
                label@,
                s.bbox,
                rate,
                self.config.reassoc_iou,
                n,
            ) {
                Some(i) => {
                    let id = self.tracks[i].id;
                    (
                        WorldState {
                            engine_map: self.engine_map.insert(s.engine_id as i64, id),
                            ..self
                        },
                        Some(id),
                    )
                },
                None => if s.score < self.min_confidence {
                    (self, None)
                } else {
                    let id = self.next_id;
                    (
                        WorldState {
                            tracks: self.tracks.push(WorldTrack::fresh(id, label, s, t_ms)),
                            engine_map: self.engine_map.insert(s.engine_id as i64, id),
                            next_id: (self.next_id + 1) as u32,
                            ..self
                        },
                        Some(id),
                    )
                },
            },
        }
    }

    /// The world after the object with this id has taken a sighting in.
    pub open spec fn observed(
        self,
        log: TickState,
        id: u32,
        s: Sighting,
        label: String,
        t_ms: Stamp,
        assess: spec_fn(WorldTrack, Sighting) -> Measure,
    ) -> (WorldState, TickState) {
        let i = index_of(self.tracks, id);
        let track = self.tracks[i];
        let a = track.advanced(s, label, assess(track, s), t_ms, self.config);
        (
            WorldState { tracks: self.tracks.update(i, a.track), ..self },
            TickState {
                seen: if a.seen {
                    log.seen.push(id)
                } else {
                    log.seen
                },
                segments: match a.segment {
                    Some(segment) => log.segments.push(segment),
                    None => log.segments,
                },
                created: if a.created {
                    log.created.push(id)
                } else {
                    log.created
                },
                events: log.events + a.events,
            },
        )
    }

    /// The world after one sighting.
    pub open spec fn sighted(
        self,
        log: TickState,
        s: Sighting,
        t_ms: Stamp,
        rate: spec_fn(Rect, Rect) -> Level,
        assess: spec_fn(WorldTrack, Sighting) -> Measure,
    ) -> (WorldState, TickState) {
        if !s.is_activated || !(0 <= s.class_id < self.labels.len()) {
            (self, log)
        } else {
            let label = self.labels[s.class_id as int];
            let (world, found) = self.located(s, label, t_ms, rate);
            match found {
                Some(id) => world.observed(log, id, s, label, t_ms, assess),
                None => (self, log),
            }
        }
    }
}

/// What becomes of an object at the end of a tick.
pub enum Fate {
    Stay,
    Sleep,
    Fade,
    Depart,
}

/// Objects that were seen or are asleep stay. Of the others, those out of sight for too
/// long go: a tentative one fades, one that had been at rest falls asleep, and one that
/// had been going somewhere departs.
pub open spec fn fate(track: WorldTrack, seen: Seq<u32>, l: Lapse, config: WorldConfig) -> Fate {
    if seen.contains(track.id) || track.dormant || l.since_seen <= config.depart_grace_ms {
        Fate::Stay
    } else if track.state == TrackState::Tentative {
        Fate::Fade
    } else if track.still_since_ms == track.first_seen_ms || l.rest >= config.depart_grace_ms
        || track.state == TrackState::Stationary {
        Fate::Sleep
    } else {
        Fate::Depart
    }
}

/// The object, asleep.
pub open spec fn asleep(track: WorldTrack) -> WorldTrack {
    WorldTrack { dormant: true, moving_streak: 0, ..track }
}

/// What the end of a tick leaves of the objects, and what it reports.
#[verifier::ext_equal]
pub struct Sweep {
    pub tracks: Seq<WorldTrack>,
    pub events: Seq<SemanticEvent>,
    pub removed: Seq<u32>,
}

/// The end of a tick for the first `n` objects.
pub open spec fn swept(
    tracks: Seq<WorldTrack>,
    seen: Seq<u32>,
    lapse: spec_fn(WorldTrack) -> Lapse,
    config: WorldConfig,
    n: int,
) -> Sweep
    decreases n,
{
    if n <= 0 {
        Sweep { tracks: Seq::empty(), events: Seq::empty(), removed: Seq::empty() }
    } else {
        let before = swept(tracks, seen, lapse, config, n - 1);
        let track = tracks[n - 1];
        match fate(track, seen, lapse(track), config) {
            Fate::Stay => Sweep { tracks: before.tracks.push(track), ..before },
            Fate::Sleep => Sweep {
                tracks: before.tracks.push(asleep(track)),
                events: before.events.push(SemanticEvent::ObjectLost(asleep(track).shown())),
                ..before
            },
            Fate::Fade => before,
            Fate::Depart => Sweep {
                events: before.events.push(
                    SemanticEvent::ObjectDeparted(track.shown().departed()),
                ),
                removed: before.removed.push(track.id),
                ..before
            },
        }
    }
}

/// The first `n` seen objects that are confirmed, as they are now.
pub open spec fn shown_tracks(tracks: Seq<WorldTrack>, seen: Seq<u32>, n: int) -> Seq<
    TrackSnapshot,
>
    decreases n,
{
    if n <= 0 {
        Seq::empty()
    } else {
        let before = shown_tracks(tracks, seen, n - 1);
        let id = seen[n - 1];
        if has_id(tracks, id) && tracks[index_of(tracks, id)].state != TrackState::Tentative {
            before.push(tracks[index_of(tracks, id)].shown())
        } else {
            before
        }
    }
}

/// The score of an object, or 0 for one that is not there.
pub open spec fn confidence_of(tracks: Seq<WorldTrack>, id: u32) -> Level {
    if has_id(tracks, id) {
        tracks[index_of(tracks, id)].confidence
    } else {
        0
    }
}

/// The object did not change its place.
pub open spec fn stood_still(segment: TrackSegment) -> bool {
    segment.shift_x < SAME_PLACE_LIMIT && segment.shift_y < SAME_PLACE_LIMIT
}

/// The crossings remembered and reported so far.
#[verifier::ext_equal]
pub struct Crossings {
    pub memory: Set<(u32, u32)>,
    pub events: Seq<LineCrossingEvent>,
}

/// The report of a crossing.
pub open spec fn crossing_event(
    segment: TrackSegment,
    line: PreparedLine,
    direction: CrossingDirection,
    confidence: Level,
    t_ms: Stamp,
) -> LineCrossingEvent {
    LineCrossingEvent {
        line_name: line.name,
        direction,
        track_id: segment.track_id,
        label: segment.label,
        confidence,
        timestamp_ms: t_ms,
        prev_pos: segment.from,
        curr_pos: segment.to,
    }
}

impl WorldState {
    /// The world after the first `n` sightings.
    pub open spec fn sighted_all(
        self,
        sightings: Seq<Sighting>,
        t_ms: Stamp,
        rate: spec_fn(Rect, Rect) -> Level,
        assess: spec_fn(WorldTrack, Sighting) -> Measure,
        n: int,
    ) -> (WorldState, TickState)
        decreases n,
    {
        if n <= 0 {
            (
                self,
                TickState {
                    seen: Seq::empty(),
                    segments: Seq::empty(),
                    created: Seq::empty(),
                    events: Seq::empty(),
                },
            )
        } else {
            let (world, log) = self.sighted_all(sightings, t_ms, rate, assess, n - 1);
            world.sighted(log, sightings[n - 1], t_ms, rate, assess)
        }
    }

    /// A movement against one line: a crossing that is not remembered is reported and
    /// remembered.
    pub open spec fn line_crossed(
        self,
        before: Crossings,
        segment: TrackSegment,
        k: int,
        t_ms: Stamp,
        cross: spec_fn(TrackSegment, PreparedLine) -> SegmentMeasure,
    ) -> Crossings {
        let line = self.lines[k];
        let key = (segment.track_id, k as u32);
        let lower = lowercase_text(segment.label@);
        match line.crossed(lower, cross(segment, line)) {
            Some(direction) => if before.memory.contains(key) {
                before
            } else {
                Crossings {
                    memory: before.memory.insert(key),
                    events: before.events.push(
                        crossing_event(
                            segment,
                            line,
                            direction,
                            confidence_of(self.tracks, segment.track_id),
                            t_ms,
                        ),
                    ),
                }
            },
            None => before,
        }
    }

    /// A movement against the first `n` lines.
    pub open spec fn lines_crossed(
        self,
        before: Crossings,
        segment: TrackSegment,
        t_ms: Stamp,
        cross: spec_fn(TrackSegment, PreparedLine) -> SegmentMeasure,
        n: int,
    ) -> Crossings
        decreases n,
    {
        if n <= 0 {
            before
        } else {
            self.line_crossed(
                self.lines_crossed(before, segment, t_ms, cross, n - 1),
                segment,
                n - 1,
                t_ms,
                cross,
            )
        }
    }

    /// The first `n` movements against all lines.
    pub open spec fn all_crossed(
        self,
        segments: Seq<TrackSegment>,
        t_ms: Stamp,
        cross: spec_fn(TrackSegment, PreparedLine) -> SegmentMeasure,
        n: int,
    ) -> Crossings
        decreases n,
    {
        if n <= 0 {
            Crossings { memory: self.memory, events: Seq::empty() }
        } else {
            let before = self.all_crossed(segments, t_ms, cross, n - 1);
            if stood_still(segments[n - 1]) {
                before
            } else {
                self.lines_crossed(
                    before,
                    segments[n - 1],
                    t_ms,
                    cross,
                    self.lines.len() as int,
                )
            }
        }
    }
}

/// What a tick brings to light.
#[verifier::ext_equal]
pub struct UpdateState {
    pub tracks: Seq<TrackSnapshot>,
    pub created: Seq<u32>,
    pub removed: Seq<u32>,
    pub events: Seq<SemanticEvent>,
    pub crossings: Seq<LineCrossingEvent>,
}

impl WorldState {
    /// The world without the memory of departed objects.
    pub open spec fn forgetting(self, removed: Seq<u32>) -> WorldState {
        WorldState {
            engine_map: restricted(self.engine_map, |k: i64, id: u32| !removed.contains(id)),
            memory: self.memory.filter(|key: (u32, u32)| !removed.contains(key.0)),
            ..self
        }
    }

    /// The world after a tick, and what the tick brings to light.
    pub open spec fn ticked(self, sightings: Seq<Sighting>, g: Senses) -> (
        WorldState,
        UpdateState,
    ) {
        let t_ms = self.last_t_ms;
        let (world, log) = self.sighted_all(
            sightings,
            t_ms,
            g.rate,
            g.assess,
            sightings.len() as int,
        );
        let crossings = world.all_crossed(log.segments, t_ms, g.cross, log.segments.len() as int);
        let sweep = swept(
            world.tracks,
            log.seen,
            g.lapse,
            world.config,
            world.tracks.len() as int,
        );
        let left = WorldState { tracks: sweep.tracks, memory: crossings.memory, ..world };
        (
            left.forgetting(sweep.removed),
            UpdateState {
                tracks: shown_tracks(sweep.tracks, log.seen, log.seen.len() as int),
                created: log.created,
                removed: sweep.removed,
                events: log.events + sweep.events,
                crossings: crossings.events,
            },
        )
    }
}

/// A confirmed object.
pub open spec fn is_confirmed(track: WorldTrack) -> bool {
    track.state != TrackState::Tentative
}

/// An object that is awake and not parked.
pub open spec fn is_roaming(track: WorldTrack) -> bool {
    !track.dormant && track.state != TrackState::Stationary
}

/// How many of the first `n` objects are asleep.
pub open spec fn dormant_count(tracks: Seq<WorldTrack>, n: int) -> nat
    decreases n,
{
    if n <= 0 {
        0
    } else {
        dormant_count(tracks, n - 1) + if tracks[n - 1].dormant {
            1nat
        } else {
            0nat
        }
    }
}

/// Among the first `n` objects the sleeper that was seen longest ago, the first of equals.
pub open spec fn oldest_dormant(tracks: Seq<WorldTrack>, n: int) -> Option<int>
    decreases n,
{
    if n <= 0 {
        None
    } else {
        let oldest = oldest_dormant(tracks, n - 1);
        if tracks[n - 1].dormant && (oldest matches Some(b) ==> tracks[n - 1].last_seen_ms
            < tracks[b].last_seen_ms) {
            Some(n - 1)
        } else {
            oldest
        }
    }
}

/// The objects without the `k` sleepers that were seen longest ago.
pub open spec fn evicted(tracks: Seq<WorldTrack>, k: nat) -> Seq<WorldTrack>
    decreases k,
{
    if k == 0 {
        tracks
    } else {
        match oldest_dormant(tracks, tracks.len() as int) {
            Some(i) => evicted(tracks.remove(i), (k - 1) as nat),
            None => tracks,
        }
    }
}

/// By how many sleepers the limit is exceeded.
pub open spec fn excess(tracks: Seq<WorldTrack>, max_dormant: usize) -> nat {
    let count = dormant_count(tracks, tracks.len() as int);
    if count > max_dormant {
        (count - max_dormant) as nat
    } else {
        0
    }
}

/// `g` gives what `f` returns.
pub open spec fn shifts_as<F: Fn(&Rect) -> Rect>(f: F, g: spec_fn(Rect) -> Rect) -> bool {
    forall|a: Rect, r: Rect| #[trigger] call_ensures(f, (&a,), r) ==> r == g(a)
}

/// `f` can be called with any box.
pub open spec fn can_shift<F: Fn(&Rect) -> Rect>(f: F) -> bool {
    forall|a: Rect| #[trigger] call_requires(f, (&a,))
}

/// A detection for the engine: its number, and the class its label stands for.
#[derive(Debug, Clone, Copy, PartialEq, Eq, Structural)]
pub struct FeedEntry {
    pub index: u32,
    pub class: usize,
}

/// The class ids after this label was met.
pub open spec fn interned(labels: Seq<String>, label: String) -> Seq<String> {
    if has_text(labels, label@) {
        labels
    } else {
        labels.push(label)
    }
}

/// The class id of a label.
pub open spec fn class_of(labels: Seq<String>, text: Seq<char>) -> int {
    choose|i: int| 0 <= i < labels.len() && #[trigger] labels[i]@ == text
}

/// The class ids after the first `n` of the kept detections.
pub open spec fn labels_after(
    labels: Seq<String>,
    detections: Seq<Detection>,
    kept: Seq<u32>,
    n: int,
) -> Seq<String>
    decreases n,
{
    if n <= 0 {
        labels
    } else {
        interned(
            labels_after(labels, detections, kept, n - 1),
            detections[kept[n - 1] as int].label,
        )
    }
}

/// What the engine is fed: the kept detections, each with the class of its label.
pub open spec fn feed_of(labels: Seq<String>, detections: Seq<Detection>, kept: Seq<u32>) -> Seq<
    FeedEntry,
> {
    Seq::new(
        kept.len(),
        |i: int|
            FeedEntry {
                index: kept[i],
                class: class_of(labels, detections[kept[i] as int].label@) as usize,
            },
    )
}

impl WorldState {
    /// A world that has seen nothing yet.
    pub open spec fn newborn(self, config: WorldConfig) -> bool {
        &&& self.config == config
        &&& self.tracks.len() == 0
        &&& self.engine_map == Map::<i64, u32>::empty()
        &&& self.next_id == 1
        &&& self.last_t_ms == 0
        &&& self.lines.len() == 0
        &&& self.memory == Set::<(u32, u32)>::empty()
        &&& self.zones.is_open()
        &&& self.zones.all_labels@.len() == 0
        &&& self.min_confidence == 0
        &&& self.labels.len() == 0
        &&& self.pose is None
    }

    /// The world after the camera was moved: parked and sleeping objects are gone, and so
    /// is the memory of crossings.
    pub open spec fn camera_moved(self) -> WorldState {
        let tracks = self.tracks.filter(|t: WorldTrack| is_roaming(t));
        WorldState {
            tracks,
            engine_map: restricted(self.engine_map, |k: i64, id: u32| has_id(tracks, id)),
            memory: Set::empty(),
            pose: None,
            ..self
        }
    }

    /// This much time since the last tick is a gap.
    pub open spec fn is_gap(self, since_last: Stamp) -> bool {
        self.last_t_ms != 0 && since_last > self.config.gap_reset_ms
    }

    /// The world after a gap: the engine starts anew, unconfirmed objects are gone, and
    /// the others sleep, as many as may.
    pub open spec fn gap_passed(self) -> WorldState {
        let sleepers = self.tracks.filter(|t: WorldTrack| is_confirmed(t)).map_values(
            |t: WorldTrack| asleep(t),
        );
        WorldState {
            tracks: evicted(sleepers, excess(sleepers, self.config.max_dormant)),
            engine_map: Map::empty(),
            ..self
        }
    }

    /// The camera points elsewhere than in the last tick.
    pub open spec fn is_pan(self, motion: Option<CameraMotion>) -> bool {
        motion is Some && self.pose is Some && self.pose != motion
    }

    /// The world with its objects where a pan has put them.
    pub open spec fn panned(
        self,
        motion: Option<CameraMotion>,
        shift: spec_fn(Rect) -> Rect,
    ) -> WorldState {
        WorldState {
            tracks: if self.is_pan(motion) {
                self.tracks.map_values(
                    |t: WorldTrack|
                        WorldTrack { bbox: shift(t.bbox), anchor: shift(t.anchor), ..t },
                )
            } else {
                self.tracks
            },
            pose: if motion is Some {
                motion
            } else {
                self.pose
            },
            ..self
        }
    }

    /// The world at the start of a tick, before the engine runs.
    pub open spec fn begun(
        self,
        t_ms: Stamp,
        since_last: Stamp,
        motion: Option<CameraMotion>,
        shift: spec_fn(Rect) -> Rect,
    ) -> WorldState {
        let world = if self.is_gap(since_last) {
            self.gap_passed()
        } else {
            self
        };
        WorldState { last_t_ms: t_ms, ..world }.panned(motion, shift)
    }
}

pub proof fn lemma_index_of(tracks: Seq<WorldTrack>, i: int)
    requires
        0 <= i < tracks.len(),
        forall|i: int, j: int|
            0 <= i < j < tracks.len() ==> (#[trigger] tracks[i]).id < (#[trigger] tracks[j]).id,
    ensures
        has_id(tracks, tracks[i].id),
        index_of(tracks, tracks[i].id) == i,
{
    let id = tracks[i].id;
    assert(has_id(tracks, id));
    let k = index_of(tracks, id);
    assert(tracks[k].id == id);
    if k < i {
        assert(tracks[k].id < tracks[i].id);
    }
    if i < k {
        assert(tracks[i].id < tracks[k].id);
    }
}

pub proof fn lemma_class_of(labels: Seq<String>, i: int)
    requires
        0 <= i < labels.len(),
        distinct_texts(labels),
    ensures
        class_of(labels, labels[i]@) == i,
{
    let k = class_of(labels, labels[i]@);
    assert(labels[k]@ == labels[i]@);
}

pub proof fn lemma_replaced_ok(world: WorldState, i: int, track: WorldTrack)
    requires
        world.ok(),
        0 <= i < world.tracks.len(),
        track.id == world.tracks[i].id,
        track.ok(world.config),
    ensures
        (WorldState { tracks: world.tracks.update(i, track), ..world }).ok(),
{
    let after = WorldState { tracks: world.tracks.update(i, track), ..world };
    assert forall|a: int, b: int| 0 <= a < b < after.tracks.len() implies (
    #[trigger] after.tracks[a]).id < (#[trigger] after.tracks[b]).id by {
        assert(world.tracks[a].id < world.tracks[b].id);
    }
    assert forall|a: int| 0 <= a < after.tracks.len() implies 1 <= (#[trigger] after.tracks[a]).id
        < after.next_id && after.tracks[a].ok(after.config) by {
        assert(1 <= world.tracks[a].id < world.next_id);
        assert(world.tracks[a].ok(world.config));
    }
}

pub proof fn lemma_removed_ok(world: WorldState, i: int)
    requires
        world.ok(),
        0 <= i < world.tracks.len(),
    ensures
        (WorldState { tracks: world.tracks.remove(i), ..world }).ok(),
{
    let after = WorldState { tracks: world.tracks.remove(i), ..world };
    assert forall|a: int| 0 <= a < after.tracks.len() implies #[trigger] after.tracks[a] == (if a
        < i {
        world.tracks[a]
    } else {
        world.tracks[a + 1]
    }) by {}
}

pub proof fn lemma_push_to_set<A>(s: Seq<A>, x: A)
    ensures
        s.push(x).to_set() == s.to_set().insert(x),
{
    assert forall|y: A| #[trigger] s.push(x).to_set().contains(y) <==> s.to_set().insert(
        x,
    ).contains(y) by {
        if s.contains(y) {
            let k = choose|k: int| 0 <= k < s.len() && s[k] == y;
            assert(s.push(x)[k] == y);
        }
        if y == x {
            assert(s.push(x)[s.len() as int] == x);
        }
        if s.push(x).contains(y) {
            let k = choose|k: int| 0 <= k < s.push(x).len() && s.push(x)[k] == y;
            if k < s.len() {
                assert(s[k] == y);
            }
        }
    }
}

pub proof fn lemma_best_match_in_range(
    tracks: Seq<WorldTrack>,
    label: Seq<char>,
    bbox: Rect,
    rate: spec_fn(Rect, Rect) -> Level,
    floor: Level,
    n: int,
)
    requires
        0 <= n <= tracks.len(),
    ensures
        best_match(tracks, label, bbox, rate, floor, n) matches Some(i) ==> 0 <= i < n && resumable(
            tracks[i],
            label,
            bbox,
            rate,
            floor,
        ),
    decreases n,
{
    if n > 0 {
        lemma_best_match_in_range(tracks, label, bbox, rate, floor, n - 1);
    }
}

} // verus!
