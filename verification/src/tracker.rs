//! Tracks of objects, class by class, under ids that are unique across the classes.
//!
//! Each class has a tracking engine of its own. [`ObjectTracker::plan`] says what to run
//! each engine on in a frame, and [`ObjectTracker::update`] takes in what they report.
use vstd::prelude::*;
use crate::grouping::{labels_of, lemma_labels_are_met};
use crate::id_map::{stands_for, KeyMap};
use crate::labels::{lowercase, lowercase_text};
use crate::line_crossing::{
    all_follow, all_prepared, can_end, ends_as, prepare_lines, DetectionLineInput,
    LineCrossingEvent, LineEnds, PreparedLine, SegmentMeasure, SAME_PLACE_LIMIT,
};
use crate::reading::{at_least_zero, Level, Stamp};
use crate::track::TrackSegment;
use crate::tracker_model::{
    can_center, centers_as, class_at, gauges_as, has_class, idle, lemma_class_at, lemma_label_unmet,
    lemma_named_without_zero, movement, named, names_crossed, planned, reported, track_box,
    with_class, with_label, ClassPlan, ClassRun, ClassState, Gauges, NamedCrossings,
    ObjectTrackerConfig, PlanState, RawTrack, TrackerState,
};
use crate::types::{can_span, spans_as, Detection, Point, Rect, Shift, TrackedDetection, UiPoint};
use crate::world_model::{can_cross, crosses_as, lemma_push_to_set};
use crate::zone_filter::{
    all_placed, can_scale, extract_by_indices, filter_indices, kept_numbers,
    law_kept_numbers_are_the_kept_ones_in_order, prepare_zones, scales_as, Placement,
    PreparedZones, ZoneInput,
};

verus! {

/// The tracks of one class.
#[derive(Debug)]
struct ClassTracks {
    label: String,
    ids: KeyMap<u32>,
    places: KeyMap<Point>,
    held: usize,
}

impl View for ClassTracks {
    type V = ClassState;

    closed spec fn view(&self) -> ClassState {
        ClassState {
            label: self.label@,
            ids: self.ids@,
            places: self.places@,
            held: self.held as nat,
        }
    }
}

/// The tracks a frame reports, and the crossings.
#[derive(Debug)]
pub struct UpdateResult {
    pub tracks: Vec<TrackedDetection>,
    pub crossings: Vec<LineCrossingEvent>,
}

/// A tracker of objects.
#[derive(Debug)]
pub struct ObjectTracker {
    config: ObjectTrackerConfig,
    classes: Vec<ClassTracks>,
    next_track_id: u32,
    prepared_lines: Vec<PreparedLine>,
    crossing_memory: Vec<(u32, String)>,
    prepared_zones: PreparedZones,
    min_confidence: Level,
    frame_seq: u64,
}

spec fn states(classes: Seq<ClassTracks>) -> Seq<ClassState> {
    classes.map_values(|c: ClassTracks| c@)
}

spec fn remembered(memory: Seq<(u32, String)>) -> Seq<(u32, Seq<char>)> {
    memory.map_values(|key: (u32, String)| (key.0, key.1@))
}

impl View for ObjectTracker {
    type V = TrackerState;

    closed spec fn view(&self) -> TrackerState {
        TrackerState {
            config: self.config,
            classes: states(self.classes@),
            next_track_id: self.next_track_id,
            lines: self.prepared_lines@,
            memory: remembered(self.crossing_memory@).to_set(),
            zones: self.prepared_zones,
            min_confidence: self.min_confidence,
            frame_seq: self.frame_seq,
        }
    }
}

impl ObjectTracker {
    /// The tracker is in order.
    pub open spec fn wf(&self) -> bool {
        self@.ok()
    }

    /// Where the class with this label is.
    fn find_class(&self, label: &String) -> (at: Option<usize>)
        requires
            self.wf(),
        ensures
            match at {
                Some(i) => {
                    &&& i < self.classes@.len()
                    &&& self.classes@[i as int].label@ == label@
                    &&& has_class(self@.classes, label@)
                    &&& class_at(self@.classes, label@) == i
                },
                None => !has_class(self@.classes, label@),
            },
    {
        let mut i: usize = 0;
        while i < self.classes.len()
            invariant
                i <= self.classes@.len(),
                self.wf(),
                forall|j: int| 0 <= j < i ==> (#[trigger] self.classes@[j]).label@ != label@,
            decreases self.classes@.len() - i,
        {
            if self.classes[i].label == *label {
                proof {
                    lemma_class_at(self@.classes, i as int);
                }
                return Some(i);
            }
            i += 1;
        }
        assert forall|j: int| 0 <= j < self@.classes.len() implies (
        #[trigger] self@.classes[j]).label != label@ by {
            assert(self.classes@[j].label@ != label@);
        }
        None
    }

    /// Where the class with this label is, after it was made if need be.
    fn class_for(&mut self, label: &String) -> (at: usize)
        requires
            old(self).wf(),
        ensures
            final(self).wf(),
            at < final(self).classes@.len(),
            at == class_at(final(self)@.classes, label@),
            final(self).classes@[at as int].label@ == label@,
            final(self)@ == (TrackerState {
                classes: with_class(old(self)@.classes, label@),
                ..old(self)@
            }),
    {
        match self.find_class(label) {
            Some(at) => at,
            None => {
                let at: usize = self.classes.len();
                let ghost before = self@.classes;
                self.classes.push(
                    ClassTracks {
                        label: label.clone(),
                        ids: KeyMap::new(),
                        places: KeyMap::new(),
                        held: 0,
                    },
                );
                proof {
                    assert(self@.classes =~= with_class(before, label@));
                    assert forall|i: int, j: int|
                        0 <= i < j < self@.classes.len() implies (
                    #[trigger] self@.classes[i]).label != (#[trigger] self@.classes[j]).label by {
                        if j == before.len() {
                            assert(before[i].label != label@);
                        }
                    }
                    lemma_class_at(self@.classes, at as int);
                }
                at
            },
        }
    }

    /// Gives the objects of a class their ids and reports them.
    fn run_class(&mut self, run: &ClassRun, log: &mut Vec<TrackedDetection>)
        requires
            old(self).wf(),
        ensures
            final(self).wf(),
            ({
                let (after, more) = old(self)@.class_ran(*run);
                &&& final(self)@ == after
                &&& final(log)@ == old(log)@ + more
            }),
    {
        let ghost start = self@;
        let ghost label = run.label@;
        let ghost logged = log@;
        let frame: u64 = self.frame_seq;
        let at: usize = self.class_for(&run.label);
        let ghost made = self@;
        let ghost raws = run.raws@;
        let ghost ids0 = self.classes@[at as int].ids@;
        let ghost final_ids = named(ids0, start.next_track_id, raws, raws.len() as int).0;
        let ghost others = self.classes@;
        let mut k: usize = 0;
        while k < run.raws.len()
            invariant
                k <= run.raws@.len(),
                raws == run.raws@,
                at < self.classes@.len(),
                self.classes@.len() == others.len(),
                frame == start.frame_seq,
                start.next_track_id >= 1,
                forall|j: int|
                    0 <= j < others.len() && j != at ==> self.classes@[j]
                        == #[trigger] others[j],
                self.classes@[at as int].places == others[at as int].places,
                self.classes@[at as int].label == others[at as int].label,
                self@ == (TrackerState {
                    classes: self@.classes,
                    next_track_id: self@.next_track_id,
                    ..made
                }),
                (self.classes@[at as int].ids@, self.next_track_id) == named(
                    ids0,
                    start.next_track_id,
                    raws,
                    k as int,
                ),
                self.next_track_id >= 1,
                log@.len() == logged.len() + k,
                forall|j: int|
                    0 <= j < logged.len() ==> log@[j]
                        == #[trigger] logged[j],
                forall|j: int|
                    #![trigger raws[j]]
                    0 <= j < k ==> {
                        let ids = self.classes@[at as int].ids@;
                        &&& ids.dom().contains(raws[j].engine_id)
                        &&& log@[logged.len() + j] == reported(
                            run.label,
                            raws[j],
                            ids[raws[j].engine_id],
                            frame,
                        )
                    },
            decreases run.raws@.len() - k,
        {
            let raw = run.raws[k];
            let ghost ids_before = self.classes@[at as int].ids@;
            let id: u32 = match self.classes[at].ids.get(raw.engine_id) {
                Some(id) => id,
                None => {
                    let id: u32 = self.next_track_id;
                    self.next_track_id = if id == u32::MAX {
                        1
                    } else {
                        id + 1
                    };
                    self.classes[at].ids.insert(raw.engine_id, id);
                    id
                },
            };
            log.push(report(&run.label, &raw, id, frame));
            proof {
                let ids = self.classes@[at as int].ids@;
                assert forall|j: int| #![trigger raws[j]] 0 <= j < k + 1 implies {
                    &&& ids.dom().contains(raws[j].engine_id)
                    &&& log@[logged.len() + j] == reported(
                        run.label,
                        raws[j],
                        ids[raws[j].engine_id],
                        frame,
                    )
                } by {
                    if j < k {
                        assert(ids_before.dom().contains(raws[j].engine_id));
                    }
                }
            }
            k += 1;
        }
        let ghost ids1 = self.classes@[at as int].ids@;
        self.classes[at].ids.retain_keys(&run.alive);
        let mapped = self.classes[at].ids.values();
        self.classes[at].places.retain_keys(&mapped);
        self.classes[at].held = run.alive.len();
        proof {
            let (after, more) = start.class_ran(*run);
            let class = ClassState { ids: ids1, ..made.classes[at as int] };
            let kept = class.keeping(run.alive@);
            assert(self.classes@[at as int]@.ids =~= kept.ids);
            assert(self.classes@[at as int]@.places =~= kept.places);
            assert(self.classes@[at as int]@ =~= kept);
            assert(self@.classes =~= made.classes.update(at as int, kept));
            assert(self@ =~= after);
            assert(log@ =~= logged + more);
            assert forall|i: int, j: int| 0 <= i < j < self@.classes.len() implies (
            #[trigger] self@.classes[i]).label != (#[trigger] self@.classes[j]).label by {
                assert(made.classes[i].label != made.classes[j].label);
            }
            assert forall|k: i64| #[trigger] ids0.dom().contains(k) implies ids0[k] >= 1 by {
                assert(made.classes[at as int].ids.dom().contains(k));
            }
            lemma_named_without_zero(ids0, start.next_track_id, raws, raws.len() as int);
            assert forall|i: int, k: i64|
                0 <= i < self@.classes.len() && #[trigger] self@.classes[i].ids.dom().contains(
                    k,
                ) implies self@.classes[i].ids[k] >= 1 by {
                if i != at {
                    assert(made.classes[i].ids.dom().contains(k));
                } else {
                    assert(ids1.dom().contains(k));
                }
            }
        }
    }

    /// Whether a track is remembered to have crossed a line with this name.
    fn remembers(&self, id: u32, name: &String) -> (found: bool)
        ensures
            found == self@.memory.contains((id, name@)),
    {
        let ghost memory = remembered(self.crossing_memory@);
        let mut i: usize = 0;
        while i < self.crossing_memory.len()
            invariant
                i <= self.crossing_memory@.len(),
                memory == remembered(self.crossing_memory@),
                forall|j: int| 0 <= j < i ==> #[trigger] memory[j] != (id, name@),
            decreases self.crossing_memory@.len() - i,
        {
            if self.crossing_memory[i].0 == id && self.crossing_memory[i].1 == *name {
                assert(memory[i as int] == (id, name@));
                return true;
            }
            i += 1;
        }
        false
    }

    /// Reports each movement over a line the track is not remembered to have crossed.
    fn cross_lines<C: Fn(&TrackSegment, &PreparedLine) -> SegmentMeasure>(
        &mut self,
        segment: &TrackSegment,
        confidence: Level,
        t_ms: Stamp,
        cross: &C,
        events: &mut Vec<LineCrossingEvent>,
    )
        requires
            old(self).wf(),
            can_cross(*cross),
        ensures
            final(self).wf(),
            final(self)@ == (TrackerState { memory: final(self)@.memory, ..old(self)@ }),
            forall|g: spec_fn(TrackSegment, PreparedLine) -> SegmentMeasure| #[trigger]
                crosses_as(*cross, g) ==> names_crossed(
                    old(self)@.lines,
                    NamedCrossings { memory: old(self)@.memory, events: old(events)@ },
                    *segment,
                    confidence,
                    t_ms,
                    g,
                    old(self)@.lines.len() as int,
                ) == (NamedCrossings { memory: final(self)@.memory, events: final(events)@ }),
    {
        let ghost start = self@;
        let ghost logged = NamedCrossings { memory: start.memory, events: events@ };
        let lower = lowercase(&segment.label);
        let mut k: usize = 0;
        while k < self.prepared_lines.len()
            invariant
                k <= self.prepared_lines@.len(),
                self.wf(),
                can_cross(*cross),
                self@ == (TrackerState { memory: self@.memory, ..start }),
                lower@ == lowercase_text(segment.label@),
                forall|g: spec_fn(TrackSegment, PreparedLine) -> SegmentMeasure| #[trigger]
                    crosses_as(*cross, g) ==> names_crossed(
                        start.lines,
                        logged,
                        *segment,
                        confidence,
                        t_ms,
                        g,
                        k as int,
                    ) == (NamedCrossings { memory: self@.memory, events: events@ }),
            decreases self.prepared_lines@.len() - k,
        {
            let line = &self.prepared_lines[k];
            let ghost m0 = self@.memory;
            let ghost e0 = events@;
            let ghost before = self@;
            let measure = cross(segment, line);
            let direction = line.crossing(&lower, &measure);
            if !self.remembers(segment.track_id, &line.name) {
                if let Some(direction) = direction {
                    events.push(
                        LineCrossingEvent {
                            line_name: line.name.clone(),
                            direction,
                            track_id: segment.track_id,
                            label: segment.label.clone(),
                            confidence,
                            timestamp_ms: t_ms,
                            prev_pos: segment.from,
                            curr_pos: segment.to,
                        },
                    );
                    let name = line.name.clone();
                    proof {
                        lemma_push_to_set(
                            remembered(self.crossing_memory@),
                            (segment.track_id, name@),
                        );
                        assert(remembered(
                            self.crossing_memory@.push((segment.track_id, name)),
                        ) =~= remembered(self.crossing_memory@).push((segment.track_id, name@)));
                    }
                    self.crossing_memory.push((segment.track_id, name));
                }
            }
            proof {
                assert(self@ =~= TrackerState { memory: self@.memory, ..before });
                assert forall|g: spec_fn(TrackSegment, PreparedLine) -> SegmentMeasure| #[trigger]
                    crosses_as(*cross, g) implies names_crossed(
                    start.lines,
                    logged,
                    *segment,
                    confidence,
                    t_ms,
                    g,
                    k + 1,
                ) == (NamedCrossings { memory: self@.memory, events: events@ }) by {
                    assert(names_crossed(
                        start.lines,
                        logged,
                        *segment,
                        confidence,
                        t_ms,
                        g,
                        k as int,
                    ) == (NamedCrossings { memory: m0, events: e0 }));
                    assert(measure == g(*segment, *line));
                }
            }
            k += 1;
        }
    }

    /// Reports the crossings of these tracks: one for each track and line name whose line lies
    /// between the place where the track was last and the center of its box, and each at most
    /// once. `center` gives the center of a box, `span` the distance of two places, and `cross`
    /// how a movement lies to a line.
    pub fn compute_crossings<
        M: Fn(&Rect) -> Point,
        D: Fn(&Point, &Point) -> Shift,
        C: Fn(&TrackSegment, &PreparedLine) -> SegmentMeasure,
    >(
        &mut self,
        tracks: &Vec<TrackedDetection>,
        t_ms: Stamp,
        center: &M,
        span: &D,
        cross: &C,
    ) -> (events: Vec<LineCrossingEvent>)
        requires
            old(self).wf(),
            can_center(*center),
            can_span(*span),
            can_cross(*cross),
        ensures
            final(self).wf(),
            final(self)@ == (TrackerState { memory: final(self)@.memory, ..old(self)@ }),
            forall|g: Gauges| #[trigger]
                gauges_as(*center, *span, *cross, g) ==> old(self)@.crossed(
                    tracks@,
                    t_ms,
                    g,
                    tracks@.len() as int,
                ) == (NamedCrossings { memory: final(self)@.memory, events: events@ }),
    {
        let ghost start = self@;
        let mut events: Vec<LineCrossingEvent> = Vec::new();
        let mut i: usize = 0;
        while i < tracks.len()
            invariant
                i <= tracks@.len(),
                self.wf(),
                can_center(*center),
                can_span(*span),
                can_cross(*cross),
                self@ == (TrackerState { memory: self@.memory, ..start }),
                forall|g: Gauges| #[trigger]
                    gauges_as(*center, *span, *cross, g) ==> start.crossed(
                        tracks@,
                        t_ms,
                        g,
                        i as int,
                    ) == (NamedCrossings { memory: self@.memory, events: events@ }),
            decreases tracks@.len() - i,
        {
            let track = &tracks[i];
            let to = center(&box_of_track(track));
            let ghost m0 = self@.memory;
            let ghost e0 = events@;
            let from: Option<Point> = match self.find_class(&track.label) {
                Some(at) => self.classes[at].places.get(track.track_id as i64),
                None => None,
            };
            assert(from == start.place_before(track.label@, track.track_id));
            if let Some(from) = from {
                let shift = span(&from, &to);
                let segment = TrackSegment {
                    track_id: track.track_id,
                    label: track.label.clone(),
                    from,
                    to,
                    shift_x: shift.x,
                    shift_y: shift.y,
                };
                if !(segment.shift_x < SAME_PLACE_LIMIT && segment.shift_y < SAME_PLACE_LIMIT) {
                    self.cross_lines(&segment, track.confidence, t_ms, cross, &mut events);
                }
                proof {
                    assert forall|g: Gauges| #[trigger]
                        gauges_as(*center, *span, *cross, g) implies start.crossed(
                        tracks@,
                        t_ms,
                        g,
                        i + 1,
                    ) == (NamedCrossings { memory: self@.memory, events: events@ }) by {
                        assert(to == (g.center)(track_box(*track)));
                        assert(shift == (g.span)(from, to));
                        assert(segment == movement(*track, from, to, g.span));
                        assert(crosses_as(*cross, g.cross));
                        assert(start.crossed(tracks@, t_ms, g, i as int) == (NamedCrossings {
                            memory: m0,
                            events: e0,
                        }));
                    }
                }
            }
            i += 1;
        }
        events
    }

    /// Remembers where the reported tracks are.
    fn refresh_centroid_history<M: Fn(&Rect) -> Point>(
        &mut self,
        tracks: &Vec<TrackedDetection>,
        center: &M,
    )
        requires
            old(self).wf(),
            can_center(*center),
        ensures
            final(self).wf(),
            forall|g: spec_fn(Rect) -> Point| #[trigger]
                centers_as(*center, g) ==> final(self)@ == old(self)@.placed(
                    tracks@,
                    g,
                    tracks@.len() as int,
                ),
    {
        let ghost start = self@;
        let mut i: usize = 0;
        while i < tracks.len()
            invariant
                i <= tracks@.len(),
                self.wf(),
                can_center(*center),
                forall|g: spec_fn(Rect) -> Point| #[trigger]
                    centers_as(*center, g) ==> self@ == start.placed(tracks@, g, i as int),
            decreases tracks@.len() - i,
        {
            let ghost before = self@;
            if let Some(at) = self.find_class(&tracks[i].label) {
                let to = center(&box_of_track(&tracks[i]));
                self.classes[at].places.insert(tracks[i].track_id as i64, to);
                proof {
                    let class = before.classes[at as int];
                    let placed = ClassState {
                        places: class.places.insert(tracks@[i as int].track_id as i64, to),
                        ..class
                    };
                    assert(self.classes@[at as int]@ =~= placed);
                    assert(self@.classes =~= before.classes.update(at as int, placed));
                    assert forall|g: spec_fn(Rect) -> Point| #[trigger]
                        centers_as(*center, g) implies self@ == start.placed(
                        tracks@,
                        g,
                        i + 1,
                    ) by {
                        assert(to == g(track_box(tracks@[i as int])));
                        assert(self@ =~= start.placed(tracks@, g, i + 1));
                    }
                    assert forall|a: int, b: int| 0 <= a < b < self@.classes.len() implies (
                    #[trigger] self@.classes[a]).label != (#[trigger] self@.classes[b]).label by {
                        assert(before.classes[a].label != before.classes[b].label);
                    }
                    assert forall|a: int, k: i64|
                        0 <= a < self@.classes.len()
                            && #[trigger] self@.classes[a].ids.dom().contains(k)
                        implies self@.classes[a].ids[k] >= 1 by {
                        assert(before.classes[a].ids.dom().contains(k));
                    }
                }
            }
            i += 1;
        }
    }

    /// Whether some class knows the track.
    fn knows(&self, id: u32) -> (known: bool)
        requires
            self.wf(),
        ensures
            known == self@.knows(id),
    {
        let mut i: usize = 0;
        while i < self.classes.len()
            invariant
                i <= self.classes@.len(),
                self.wf(),
                forall|j: int|
                    0 <= j < i ==> !stands_for((#[trigger] self@.classes[j]).ids, id as i64),
            decreases self.classes@.len() - i,
        {
            if self.classes[i].ids.has_value(id) {
                assert(stands_for(self@.classes[i as int].ids, id as i64));
                return true;
            }
            i += 1;
        }
        false
    }

    /// Forgets the crossings of tracks that are gone.
    fn gc_crossing_memory(&mut self)
        requires
            old(self).wf(),
        ensures
            final(self).wf(),
            final(self)@ == old(self)@.without_the_gone(),
    {
        let ghost start = self@;
        let ghost stays = |key: (u32, Seq<char>)| start.knows(key.0);
        let mut kept: Vec<(u32, String)> = Vec::new();
        let mut i: usize = 0;
        assert(remembered(kept@).to_set() =~= remembered(
            self.crossing_memory@.take(0),
        ).to_set().filter(stays));
        while i < self.crossing_memory.len()
            invariant
                i <= self.crossing_memory@.len(),
                self.wf(),
                self@ == start,
                stays == (|key: (u32, Seq<char>)| start.knows(key.0)),
                remembered(kept@).to_set() == remembered(
                    self.crossing_memory@.take(i as int),
                ).to_set().filter(stays),
            decreases self.crossing_memory@.len() - i,
        {
            let id: u32 = self.crossing_memory[i].0;
            let ghost key = (id, self.crossing_memory@[i as int].1@);
            let ghost seen = remembered(self.crossing_memory@.take(i as int));
            let ghost kept0 = remembered(kept@);
            proof {
                assert(remembered(self.crossing_memory@.take(i + 1)) =~= seen.push(key));
                lemma_push_to_set(seen, key);
                lemma_push_to_set(kept0, key);
                assert(seen.to_set().insert(key).filter(stays) =~= (if stays(key) {
                    seen.to_set().filter(stays).insert(key)
                } else {
                    seen.to_set().filter(stays)
                }));
            }
            if self.knows(id) {
                kept.push((id, self.crossing_memory[i].1.clone()));
                assert(remembered(kept@) =~= kept0.push(key));
            }
            i += 1;
        }
        assert(self.crossing_memory@.take(i as int) == self.crossing_memory@);
        self.crossing_memory = kept;
        assert(self@ =~= start.without_the_gone());
    }

    /// Takes in what the engines report of a frame. `center` gives the center of a box, `span`
    /// the distance of two places, and `cross` how a movement lies to a line.
    pub fn update<
        M: Fn(&Rect) -> Point,
        D: Fn(&Point, &Point) -> Shift,
        C: Fn(&TrackSegment, &PreparedLine) -> SegmentMeasure,
    >(&mut self, runs: &Vec<ClassRun>, t_ms: Stamp, center: &M, span: &D, cross: &C) -> (result:
        UpdateResult)
        requires
            old(self).wf(),
            can_center(*center),
            can_span(*span),
            can_cross(*cross),
        ensures
            final(self).wf(),
            forall|g: Gauges| #[trigger]
                gauges_as(*center, *span, *cross, g) ==> (
                    final(self)@,
                    result.tracks@,
                    result.crossings@,
                ) == old(self)@.framed(runs@, t_ms, g),
    {
        let ghost start = self@;
        let mut tracks: Vec<TrackedDetection> = Vec::new();
        assert(tracks@ =~= Seq::empty());
        let mut i: usize = 0;
        while i < runs.len()
            invariant
                i <= runs@.len(),
                self.wf(),
                (self@, tracks@) == start.ran(runs@, i as int),
            decreases runs@.len() - i,
        {
            self.run_class(&runs[i], &mut tracks);
            i += 1;
        }
        let ghost after = self@;
        assert(after.lines == start.lines) by {
            lemma_lines_stay(start, runs@, runs@.len() as int);
        }
        if self.prepared_lines.len() == 0 {
            return UpdateResult { tracks, crossings: Vec::new() };
        }
        let crossings = self.compute_crossings(&tracks, t_ms, center, span, cross);
        let ghost crossed = self@;
        self.refresh_centroid_history(&tracks, center);
        let ghost placed = self@;
        self.gc_crossing_memory();
        proof {
            assert forall|g: Gauges| #[trigger] gauges_as(*center, *span, *cross, g) implies (
                self@,
                tracks@,
                crossings@,
            ) == start.framed(runs@, t_ms, g) by {
                assert(centers_as(*center, g.center));
                let c = after.crossed(tracks@, t_ms, g, tracks@.len() as int);
                assert(crossed == (TrackerState { memory: c.memory, ..after }));
                assert(placed == crossed.placed(tracks@, g.center, tracks@.len() as int));
            }
        }
        UpdateResult { tracks, crossings }
    }
}

proof fn lemma_lines_stay(state: TrackerState, runs: Seq<ClassRun>, n: int)
    ensures
        state.ran(runs, n).0.lines == state.lines,
    decreases n,
{
    if n > 0 {
        lemma_lines_stay(state, runs, n - 1);
    }
}

/// The box of a track.
fn box_of_track(track: &TrackedDetection) -> (rect: Rect)
    ensures
        rect == track_box(*track),
{
    Rect { x: track.x, y: track.y, width: track.width, height: track.height }
}

/// An object as it is reported.
fn report(label: &String, raw: &RawTrack, id: u32, frame: u64) -> (track: TrackedDetection)
    ensures
        track == reported(*label, *raw, id, frame),
{
    let age: i32 = if raw.age < 0 {
        0
    } else {
        raw.age
    };
    TrackedDetection {
        x: raw.x,
        y: raw.y,
        width: if raw.width < 0 {
            0
        } else {
            raw.width
        },
        height: if raw.height < 0 {
            0
        } else {
            raw.height
        },
        confidence: raw.confidence,
        label: label.clone(),
        track_id: id,
        track_age: age as u32,
        track_lost: match raw.last_frame {
            Some(last) => last != frame,
            None => true,
        },
        track_speed: raw.speed,
        track_velocity_x: raw.velocity_x,
        track_velocity_y: raw.velocity_y,
    }
}

/// The counters of an engine object: how well it is matched, and for how long it can still
/// be matched by its looks once it is dead.
#[derive(Debug, Clone, Copy, PartialEq, Eq, Structural)]
pub struct ReidCounter {
    pub hit_counter: i32,
    pub reid_hit_counter: Option<i32>,
}

/// What the setting for matching by looks becomes, given a number of frames.
pub open spec fn reid_frames(frames: i32) -> Option<i32> {
    if frames > 0 {
        Some(frames)
    } else {
        None
    }
}

/// A counter once dead engine objects were given their full time again.
pub open spec fn refreshed(counter: ReidCounter, max: Option<i32>) -> ReidCounter {
    match (max, counter.reid_hit_counter) {
        (Some(max), Some(_)) if counter.hit_counter < 0 => ReidCounter {
            reid_hit_counter: Some(max),
            ..counter
        },
        _ => counter,
    }
}

/// A dead track is matched by its looks for as many frames as are asked for, and never if
/// none are.
pub proof fn law_frames_are_taken_as_asked(frames: i32)
    ensures
        reid_frames(frames) is None <==> frames <= 0,
        1 <= frames ==> reid_frames(frames) == Some(frames),
{
}

/// Only the time of a dead object that is being counted changes, to the whole time that is
/// set; whoever is alive or not counted is left alone, and a second time changes nothing.
pub proof fn law_only_the_dead_get_their_time_back(counter: ReidCounter, max: Option<i32>)
    ensures
        refreshed(counter, max).hit_counter == counter.hit_counter,
        (counter.hit_counter <= -1 && counter.reid_hit_counter is Some && max is Some)
            ==> refreshed(counter, max).reid_hit_counter == max,
        0 <= counter.hit_counter ==> refreshed(counter, max) == counter,
        counter.reid_hit_counter is None ==> refreshed(counter, max) == counter,
        max is None ==> refreshed(counter, max) == counter,
        refreshed(refreshed(counter, max), max) == refreshed(counter, max),
{
}

/// The sum of the objects the engines of the first `n` classes hold.
pub open spec fn held_by(classes: Seq<ClassState>, n: int) -> nat
    decreases n,
{
    if n <= 0 {
        0
    } else {
        held_by(classes, n - 1) + classes[n - 1].held
    }
}

proof fn lemma_held_grows(classes: Seq<ClassState>, a: int, b: int)
    requires
        a <= b,
    ensures
        held_by(classes, a) <= held_by(classes, b),
    decreases b,
{
    if b > 0 && a < b {
        lemma_held_grows(classes, a, b - 1);
    }
}

proof fn lemma_label_push(detections: Seq<Detection>, d: Detection, label: Seq<char>)
    ensures
        with_label(detections.push(d), label) == (if d.label@ == label {
            with_label(detections, label).push(d)
        } else {
            with_label(detections, label)
        }),
{
    reveal(Seq::filter);
    assert(detections.push(d).drop_last() == detections);
}

impl ObjectTracker {
    /// A tracker that has seen nothing yet.
    pub fn new(config: ObjectTrackerConfig) -> (tracker: ObjectTracker)
        ensures
            tracker.wf(),
            tracker@.config == config,
            tracker@.classes.len() == 0,
            tracker@.next_track_id == 1,
            tracker@.lines.len() == 0,
            tracker@.memory == Set::<(u32, Seq<char>)>::empty(),
            tracker@.zones.is_open(),
            tracker@.zones.all_labels@.len() == 0,
            tracker@.min_confidence == 0,
            tracker@.frame_seq == 0,
    {
        let tracker = ObjectTracker {
            config,
            classes: Vec::new(),
            next_track_id: 1,
            prepared_lines: Vec::new(),
            crossing_memory: Vec::new(),
            prepared_zones: PreparedZones::none(),
            min_confidence: 0,
            frame_seq: 0,
        };
        assert(tracker@.memory =~= Set::<(u32, Seq<char>)>::empty());
        tracker
    }

    /// Sets the zones. `scale` gives the place of a drawn point in the image, and `span` the
    /// distance of two places.
    pub fn set_zones<S: Fn(&UiPoint) -> Point, D: Fn(&Point, &Point) -> Shift>(
        &mut self,
        zones: &Vec<ZoneInput>,
        scale: &S,
        span: &D,
    )
        requires
            old(self).wf(),
            can_scale(*scale),
            can_span(*span),
        ensures
            final(self).wf(),
            final(self)@.zones.is_prepared_from(zones@),
            forall|g: spec_fn(UiPoint) -> Point, h: spec_fn(Point, Point) -> Shift|
                #![trigger scales_as(*scale, g), spans_as(*span, h)]
                scales_as(*scale, g) && spans_as(*span, h) ==> final(self)@.zones.is_drawn_from(
                    zones@,
                    g,
                    h,
                ),
            final(self)@ == (TrackerState { zones: final(self)@.zones, ..old(self)@ }),
    {
        self.prepared_zones = prepare_zones(zones, scale, span);
    }

    /// Sets the score from which on a detection counts; never less than 0.
    pub fn set_min_confidence(&mut self, min_confidence: Level)
        requires
            old(self).wf(),
        ensures
            final(self).wf(),
            final(self)@ == (TrackerState {
                min_confidence: at_least_zero(min_confidence),
                ..old(self)@
            }),
    {
        self.min_confidence = if min_confidence < 0 {
            0
        } else {
            min_confidence
        };
    }

    /// The numbers of the detections that pass the score threshold and the zones.
    pub fn filter_indices(&self, detections: &Vec<Detection>, placements: &Vec<Placement>) -> (kept:
        Vec<u32>)
        requires
            self.wf(),
            all_placed(detections@, placements@, self@.zones),
            detections@.len() <= u32::MAX,
        ensures
            kept@ == kept_numbers(
                detections@,
                placements@,
                self@.zones,
                self@.min_confidence,
                detections@.len() as int,
            ),
    {
        filter_indices(detections, placements, &self.prepared_zones, self.min_confidence)
    }

    /// Sets the lines and forgets all crossings. `ends` gives the ends of a line from the ends
    /// of the drawn one, in an image of the given aspect ratio.
    pub fn set_lines<E: Fn(&UiPoint, &UiPoint, Level) -> LineEnds>(
        &mut self,
        lines: &Vec<DetectionLineInput>,
        aspect_ratio: Level,
        ends: &E,
    )
        requires
            old(self).wf(),
            can_end(*ends),
        ensures
            final(self).wf(),
            all_follow(final(self)@.lines, lines@),
            forall|g: spec_fn(UiPoint, UiPoint, Level) -> LineEnds| #[trigger]
                ends_as(*ends, g) ==> all_prepared(
                    final(self)@.lines,
                    lines@,
                    aspect_ratio,
                    g,
                ),
            final(self)@ == (TrackerState {
                lines: final(self)@.lines,
                memory: Set::empty(),
                ..old(self)@
            }),
    {
        self.prepared_lines = prepare_lines(lines, aspect_ratio, ends);
        self.crossing_memory = Vec::new();
        assert(self@.memory =~= Set::<(u32, Seq<char>)>::empty());
    }

    /// Sets for how many frames a dead track can be matched by its looks; 0 and less is
    /// never.
    pub fn set_reid_hit_counter_max(&mut self, frames: i32)
        requires
            old(self).wf(),
        ensures
            final(self).wf(),
            final(self)@ == (TrackerState {
                config: ObjectTrackerConfig {
                    reid_hit_counter_max: reid_frames(frames),
                    ..old(self)@.config
                },
                ..old(self)@
            }),
    {
        self.config.reid_hit_counter_max = if frames > 0 {
            Some(frames)
        } else {
            None
        };
    }

    /// Gives dead engine objects their full time to be matched by their looks again.
    pub fn refresh_reid(&self, counters: &mut Vec<ReidCounter>)
        ensures
            final(counters)@.len() == old(counters)@.len(),
            forall|i: int|
                0 <= i < old(counters)@.len() ==> #[trigger] final(counters)@[i] == refreshed(
                    old(counters)@[i],
                    self@.config.reid_hit_counter_max,
                ),
    {
        let max: i32 = match self.config.reid_hit_counter_max {
            Some(max) => max,
            None => {
                return;
            },
        };
        let mut i: usize = 0;
        while i < counters.len()
            invariant
                i <= counters@.len(),
                counters@.len() == old(counters)@.len(),
                forall|j: int|
                    i <= j < counters@.len() ==> #[trigger] counters@[j] == old(counters)@[j],
                forall|j: int|
                    0 <= j < i ==> #[trigger] counters@[j] == (if old(
                        counters,
                    )@[j].reid_hit_counter is Some && old(counters)@[j].hit_counter < 0 {
                        ReidCounter { reid_hit_counter: Some(max), ..old(counters)@[j] }
                    } else {
                        old(counters)@[j]
                    }),
            decreases counters@.len() - i,
        {
            let counter = counters[i];
            if counter.hit_counter < 0 && counter.reid_hit_counter.is_some() {
                counters[i] = ReidCounter {
                    hit_counter: counter.hit_counter,
                    reid_hit_counter: Some(max),
                };
            }
            i += 1;
        }
    }

    /// Drops all tracks; ids start from 1 again.
    pub fn reset(&mut self)
        requires
            old(self).wf(),
        ensures
            final(self).wf(),
            final(self)@ == (TrackerState {
                classes: Seq::empty(),
                next_track_id: 1,
                memory: Set::empty(),
                ..old(self)@
            }),
    {
        self.classes = Vec::new();
        self.next_track_id = 1;
        self.crossing_memory = Vec::new();
        assert(self@.classes =~= Seq::empty());
        assert(self@.memory =~= Set::<(u32, Seq<char>)>::empty());
    }

    /// How many objects the engines hold.
    pub fn track_count(&self) -> (count: usize)
        requires
            self.wf(),
            held_by(self@.classes, self@.classes.len() as int) <= usize::MAX,
        ensures
            count == held_by(self@.classes, self@.classes.len() as int),
    {
        let mut count: usize = 0;
        let mut i: usize = 0;
        while i < self.classes.len()
            invariant
                i <= self.classes@.len(),
                self@.classes.len() == self.classes@.len(),
                held_by(self@.classes, self@.classes.len() as int) <= usize::MAX,
                count == held_by(self@.classes, i as int),
            decreases self.classes@.len() - i,
        {
            proof {
                lemma_held_grows(self@.classes, i + 1, self@.classes.len() as int);
                assert(self@.classes[i as int].held == self.classes@[i as int].held);
            }
            count += self.classes[i].held;
            i += 1;
        }
        count
    }

    /// Begins a frame: keeps the detections that pass the score threshold and the zones,
    /// and says what to run the engine of each class on.
    pub fn plan(&mut self, detections: Vec<Detection>, placements: &Vec<Placement>) -> (plans: Vec<
        ClassPlan,
    >)
        requires
            old(self).wf(),
            old(self)@.frame_seq < u64::MAX,
            all_placed(detections@, placements@, old(self)@.zones),
            detections@.len() <= u32::MAX,
        ensures
            final(self).wf(),
            final(self)@ == (TrackerState {
                frame_seq: (old(self)@.frame_seq + 1) as u64,
                ..old(self)@
            }),
            ({
                let kept = kept_numbers(
                    detections@,
                    placements@,
                    old(self)@.zones,
                    old(self)@.min_confidence,
                    detections@.len() as int,
                );
                plans@.map_values(|p: ClassPlan| p@) == planned(
                    old(self)@.classes,
                    Seq::new(kept.len(), |a: int| detections@[kept[a] as int]),
                )
            }),
    {
        self.frame_seq = self.frame_seq + 1;
        let indices = self.filter_indices(&detections, placements);
        proof {
            law_kept_numbers_are_the_kept_ones_in_order(
                detections@,
                placements@,
                self@.zones,
                self@.min_confidence,
                detections@.len() as int,
            );
        }
        let kept = extract_by_indices(detections, &indices);
        self.plan_kept(&kept)
    }

    /// What to run the engine of each class on, given the detections that count.
    fn plan_kept(&self, kept: &Vec<Detection>) -> (plans: Vec<ClassPlan>)
        requires
            self.wf(),
        ensures
            plans@.map_values(|p: ClassPlan| p@) == planned(self@.classes, kept@),
    {
        let ghost total = kept@.len() as int;
        let ghost labels = labels_of(kept@, total);
        let mut plans: Vec<ClassPlan> = Vec::new();
        let mut i: usize = 0;
        assert(plans@.map_values(|p: ClassPlan| p@) =~= Seq::empty());
        while i < self.classes.len()
            invariant
                i <= self.classes@.len(),
                total == kept@.len(),
                labels == labels_of(kept@, total),
                plans@.map_values(|p: ClassPlan| p@) == idle(self@.classes, kept@, i as int),
            decreases self.classes@.len() - i,
        {
            let ghost before = plans@;
            proof {
                lemma_labels_are_met(kept@, total);
                assert(self@.classes[i as int].label == self.classes@[i as int].label@);
            }
            if !some_has_label(kept, &self.classes[i].label) {
                plans.push(
                    ClassPlan { label: self.classes[i].label.clone(), detections: Vec::new() },
                );
                proof {
                    let new = plans@[before.len() as int];
                    assert(new@ =~= PlanState {
                        label: self@.classes[i as int].label,
                        detections: Seq::empty(),
                    });
                    assert(plans@.map_values(|p: ClassPlan| p@) =~= before.map_values(
                        |p: ClassPlan| p@,
                    ).push(new@));
                }
            }
            i += 1;
        }
        let ghost first = plans@;
        let base: usize = plans.len();
        let mut i: usize = 0;
        while i < kept.len()
            invariant
                i <= kept@.len(),
                base == first.len(),
                plans@.len() == base + labels_of(kept@, i as int).len(),
                forall|j: int| 0 <= j < base ==> #[trigger] plans@[j] == first[j],
                forall|j: int|
                    base <= j < plans@.len() ==> (#[trigger] plans@[j])@ == (PlanState {
                        label: labels_of(kept@, i as int)[j - base],
                        detections: with_label(
                            kept@.take(i as int),
                            labels_of(kept@, i as int)[j - base],
                        ),
                    }),
            decreases kept@.len() - i,
        {
            let ghost before = plans@;
            let ghost met = labels_of(kept@, i as int);
            let ghost done = kept@.take(i as int);
            let ghost d = kept@[i as int];
            proof {
                lemma_labels_are_met(kept@, i as int);
                assert(kept@.take(i + 1) =~= done.push(d));
                assert forall|label: Seq<char>| #[trigger]
                    with_label(kept@.take(i + 1), label) == (if d.label@ == label {
                        with_label(done, label).push(d)
                    } else {
                        with_label(done, label)
                    }) by {
                    lemma_label_push(done, d, label);
                }
            }
            match plan_for(&plans, base, &kept[i].label) {
                Some(at) => {
                    assert(plans@[at as int]@.label == met[at - base]);
                    assert(met.contains(d.label@));
                    plans[at].detections.push(kept[i].copy());
                    proof {
                        assert forall|j: int| base <= j < plans@.len() implies (
                        #[trigger] plans@[j])@ == (PlanState {
                            label: met[j - base],
                            detections: with_label(kept@.take(i + 1), met[j - base]),
                        }) by {
                            assert(before[j]@ == PlanState {
                                label: met[j - base],
                                detections: with_label(done, met[j - base]),
                            });
                            if j == at {
                                assert(plans@[j]@.detections =~= with_label(
                                    kept@.take(i + 1),
                                    met[j - base],
                                ));
                            } else {
                                assert(met[j - base] != met[at - base]);
                            }
                        }
                    }
                },
                None => {
                    assert(!met.contains(d.label@)) by {
                        if met.contains(d.label@) {
                            let a = choose|a: int| 0 <= a < met.len() && met[a] == d.label@;
                            assert(plans@[base + a]@.label == d.label@);
                        }
                    }
                    let mut own: Vec<Detection> = Vec::new();
                    own.push(kept[i].copy());
                    plans.push(ClassPlan { label: kept[i].label.clone(), detections: own });
                    proof {
                        let new = labels_of(kept@, i + 1);
                        assert(new == met.push(d.label@));
                        assert forall|j: int| base <= j < plans@.len() implies (
                        #[trigger] plans@[j])@ == (PlanState {
                            label: new[j - base],
                            detections: with_label(kept@.take(i + 1), new[j - base]),
                        }) by {
                            if j < before.len() {
                                assert(before[j]@ == PlanState {
                                    label: met[j - base],
                                    detections: with_label(done, met[j - base]),
                                });
                                assert(met.contains(met[j - base]));
                            } else {
                                lemma_label_unmet(done, d.label@);
                                assert(plans@[j]@.detections =~= with_label(
                                    kept@.take(i + 1),
                                    d.label@,
                                ));
                            }
                        }
                    }
                },
            }
            i += 1;
        }
        proof {
            assert(kept@.take(total) == kept@);
            assert(plans@.map_values(|p: ClassPlan| p@) =~= planned(self@.classes, kept@)) by {
                assert forall|j: int| 0 <= j < plans@.len() implies #[trigger] plans@[j]@
                    == planned(self@.classes, kept@)[j] by {
                    if j < base {
                        assert(plans@[j] == first[j]);
                        assert(first.map_values(|p: ClassPlan| p@)[j] == first[j]@);
                    }
                }
            }
        }
        plans
    }

    /// The settings.
    pub fn config(&self) -> (config: ObjectTrackerConfig)
        ensures
            config == self@.config,
    {
        self.config
    }

    /// The number of the frame.
    pub fn frame_seq(&self) -> (frame: u64)
        ensures
            frame == self@.frame_seq,
    {
        self.frame_seq
    }

    /// The zones in use.
    pub fn zones(&self) -> (zones: &PreparedZones)
        ensures
            *zones == self@.zones,
    {
        &self.prepared_zones
    }
}

/// Whether some detection has this label.
fn some_has_label(detections: &Vec<Detection>, label: &String) -> (found: bool)
    ensures
        found == exists|j: int|
            0 <= j < detections@.len() && (#[trigger] detections@[j]).label@ == label@,
{
    let mut i: usize = 0;
    while i < detections.len()
        invariant
            i <= detections@.len(),
            forall|j: int| 0 <= j < i ==> (#[trigger] detections@[j]).label@ != label@,
        decreases detections@.len() - i,
    {
        if detections[i].label == *label {
            return true;
        }
        i += 1;
    }
    false
}

/// The first plan from `base` on with this label.
fn plan_for(plans: &Vec<ClassPlan>, base: usize, label: &String) -> (at: Option<usize>)
    requires
        base <= plans@.len(),
    ensures
        match at {
            Some(i) => base <= i < plans@.len() && plans@[i as int].label@ == label@,
            None => forall|j: int|
                base <= j < plans@.len() ==> (#[trigger] plans@[j]).label@ != label@,
        },
{
    let mut i: usize = base;
    while i < plans.len()
        invariant
            base <= i <= plans@.len(),
            forall|j: int| base <= j < i ==> (#[trigger] plans@[j]).label@ != label@,
        decreases plans@.len() - i,
    {
        if plans[i].label == *label {
            return Some(i);
        }
        i += 1;
    }
    None
}

/// The objects that are held are the sum of those of all classes.
pub proof fn law_held_objects_add_up(classes: Seq<ClassState>, n: int)
    requires
        0 <= n < classes.len(),
    ensures
        held_by(classes, 0) == 0,
        held_by(classes, n + 1) == held_by(classes, n) + classes[n].held,
{
}

} // verus!
