//! The world a camera sees: objects that keep their identity.
//!
//! Each tick has two halves. [`CameraWorld::prepare`] says what to feed to the tracking
//! engine; [`CameraWorld::ingest`] takes in what the engine saw. Whatever has to be
//! computed with reals on the way is handed in as functions.
use vstd::arithmetic::power2::lemma2_to64;
use vstd::prelude::*;
use crate::id_map::{contains_id, KeyMap};
use crate::labels::{distinct_texts, lowercase, lowercase_text, position_of_label};
use crate::line_crossing::{
    all_follow, all_prepared, can_end, ends_as, prepare_lines, DetectionLineInput,
    LineCrossingEvent, LineEnds, PreparedLine, SegmentMeasure, SAME_PLACE_LIMIT,
};
use crate::reading::{at_least_zero, lemma_is_nearest, level_is, Level, Stamp};
use crate::semantic::{SemanticEvent, TrackSnapshot, TrackState};
use crate::track::{
    law_advance_keeps_identity, law_advance_keeps_order, Measure, Sighting, TrackSegment,
    WorldConfig, WorldTrack,
};
use crate::types::{can_span, spans_as, CameraMotion, Detection, Point, Rect, Shift, UiPoint};
use crate::world_model::{
    asleep, assesses_as, best_match, can_assess, can_cross, can_lapse, can_rate, can_shift,
    confidence_of, crosses_as, dormant_count, evicted, excess, fate, feed_of, has_id, index_of,
    interned, is_confirmed, is_roaming, labels_after, lapses_as, lemma_class_of, lemma_index_of,
    lemma_push_to_set, lemma_removed_ok, lemma_replaced_ok, oldest_dormant, rates_as, senses_as,
    shifts_as, shown_tracks, swept, Crossings, Fate, FeedEntry, Lapse, Senses, Sweep, TickState,
    UpdateState, WorldState,
};
use crate::zone_filter::{
    all_placed, can_scale, filter_indices, kept_numbers,
    law_kept_numbers_are_the_kept_ones_in_order, prepare_zones, scales_as, Placement,
    PreparedZones, ZoneInput,
};

verus! {

/// Detections below this score do not even continue an object (0.1).
pub const ASSOCIATION_FLOOR: Level = 1_036_831_949;

/// What a tick has brought so far.
#[derive(Debug)]
struct TickLog {
    seen: Vec<u32>,
    segments: Vec<TrackSegment>,
    created: Vec<u32>,
    events: Vec<SemanticEvent>,
}

impl TickLog {
    spec fn state(&self) -> TickState {
        TickState {
            seen: self.seen@,
            segments: self.segments@,
            created: self.created@,
            events: self.events@,
        }
    }

    /// The movements are those of objects with a lower id.
    spec fn below(&self, id: u32) -> bool {
        forall|j: int|
            0 <= j < self.segments@.len() ==> (#[trigger] self.segments@[j]).track_id < id
    }
}

/// What a tick brings to light.
#[derive(Debug)]
pub struct WorldUpdate {
    /// The confirmed objects that were seen.
    pub tracks: Vec<TrackSnapshot>,
    /// The objects that were confirmed.
    pub created: Vec<u32>,
    /// The objects that departed.
    pub removed: Vec<u32>,
    pub events: Vec<SemanticEvent>,
    pub crossings: Vec<LineCrossingEvent>,
}

impl View for WorldUpdate {
    type V = UpdateState;

    open spec fn view(&self) -> UpdateState {
        UpdateState {
            tracks: self.tracks@,
            created: self.created@,
            removed: self.removed@,
            events: self.events@,
            crossings: self.crossings@,
        }
    }
}

/// What to feed to the engine.
#[derive(Debug)]
pub struct Feed {
    /// The engine has to start anew first.
    pub restart: bool,
    pub entries: Vec<FeedEntry>,
}

/// What became of the objects that were not seen.
#[derive(Debug)]
struct SweepLog {
    events: Vec<SemanticEvent>,
    removed: Vec<u32>,
}

/// A world of objects.
#[derive(Debug)]
pub struct CameraWorld {
    config: WorldConfig,
    tracks: Vec<WorldTrack>,
    engine_map: KeyMap<u32>,
    next_id: u32,
    last_t_ms: Stamp,
    prepared_lines: Vec<PreparedLine>,
    crossing_memory: Vec<(u32, u32)>,
    prepared_zones: PreparedZones,
    min_confidence: Level,
    labels: Vec<String>,
    pose_baseline: Option<CameraMotion>,
}

impl View for CameraWorld {
    type V = WorldState;

    closed spec fn view(&self) -> WorldState {
        WorldState {
            config: self.config,
            tracks: self.tracks@,
            engine_map: self.engine_map@,
            next_id: self.next_id,
            last_t_ms: self.last_t_ms,
            lines: self.prepared_lines@,
            memory: self.crossing_memory@.to_set(),
            zones: self.prepared_zones,
            min_confidence: self.min_confidence,
            labels: self.labels@,
            pose: self.pose_baseline,
        }
    }
}

impl CameraWorld {
    /// The world is in order.
    pub open spec fn wf(&self) -> bool {
        self@.ok()
    }

    /// Where the object with this id is.
    fn find(&self, id: u32) -> (at: Option<usize>)
        requires
            self.wf(),
        ensures
            match at {
                Some(i) => i < self.tracks@.len() && self.tracks@[i as int].id == id && index_of(
                    self.tracks@,
                    id,
                ) == i && has_id(self.tracks@, id),
                None => !has_id(self.tracks@, id),
            },
    {
        let mut i: usize = 0;
        while i < self.tracks.len()
            invariant
                i <= self.tracks@.len(),
                self.wf(),
                forall|j: int| 0 <= j < i ==> (#[trigger] self.tracks@[j]).id != id,
            decreases self.tracks@.len() - i,
        {
            if self.tracks[i].id == id {
                proof {
                    lemma_index_of(self.tracks@, i as int);
                }
                return Some(i);
            }
            i += 1;
        }
        None
    }

    /// The dormant object that a sighting with this label at this place takes up again.
    fn reassociate<R: Fn(&Rect, &Rect) -> Level>(
        &self,
        label: &String,
        bbox: &Rect,
        rate: &R,
    ) -> (at: Option<usize>)
        requires
            self.wf(),
            can_rate(*rate),
        ensures
            at matches Some(i) ==> i < self.tracks@.len(),
            forall|g: spec_fn(Rect, Rect) -> Level| #[trigger]
                rates_as(*rate, g) ==> best_match(
                    self@.tracks,
                    label@,
                    *bbox,
                    g,
                    self@.config.reassoc_iou,
                    self@.tracks.len() as int,
                ) == (match at {
                    Some(i) => Some(i as int),
                    None => None,
                }),
    {
        let mut best: Option<(usize, Level)> = None;
        let mut i: usize = 0;
        while i < self.tracks.len()
            invariant
                i <= self.tracks@.len(),
                can_rate(*rate),
                best matches Some(b) ==> b.0 < i,
                forall|g: spec_fn(Rect, Rect) -> Level| #[trigger]
                    rates_as(*rate, g) ==> {
                        &&& best_match(
                            self.tracks@,
                            label@,
                            *bbox,
                            g,
                            self.config.reassoc_iou,
                            i as int,
                        ) == (match best {
                            Some(b) => Some(b.0 as int),
                            None => None,
                        })
                        &&& best matches Some(b) ==> b.1 == g(
                            self.tracks@[b.0 as int].anchor,
                            *bbox,
                        )
                    },
            decreases self.tracks@.len() - i,
        {
            let track = &self.tracks[i];
            if track.dormant && track.label == *label {
                let overlap: Level = rate(&track.anchor, bbox);
                if overlap >= self.config.reassoc_iou {
                    let better = match best {
                        Some(b) => overlap > b.1,
                        None => true,
                    };
                    if better {
                        best = Some((i, overlap));
                    }
                }
            }
            i += 1;
        }
        match best {
            Some(b) => Some(b.0),
            None => None,
        }
    }

    /// The object a sighting is taken for.
    fn locate<R: Fn(&Rect, &Rect) -> Level>(
        &mut self,
        s: &Sighting,
        label: &String,
        t_ms: Stamp,
        rate: &R,
    ) -> (found: Option<usize>)
        requires
            old(self).wf(),
            old(self)@.next_id < u32::MAX,
            can_rate(*rate),
        ensures
            final(self).wf(),
            old(self)@.next_id <= final(self)@.next_id <= old(self)@.next_id + 1,
            found matches Some(i) ==> i < final(self)@.tracks.len() && index_of(
                final(self)@.tracks,
                final(self)@.tracks[i as int].id,
            ) == i,
            forall|g: spec_fn(Rect, Rect) -> Level| #[trigger]
                rates_as(*rate, g) ==> {
                    let (world, id) = old(self)@.located(*s, *label, t_ms, g);
                    &&& final(self)@ == world
                    &&& id == (match found {
                        Some(i) => Some(final(self)@.tracks[i as int].id),
                        None => None,
                    })
                },
    {
        let known = match self.engine_map.get(s.engine_id as i64) {
            Some(id) => self.find(id),
            None => None,
        };
        if let Some(i) = known {
            return Some(i);
        }
        assert(self@.known(s.engine_id) is None);
        let ghost before = self@;
        match self.reassociate(label, &s.bbox, rate) {
            Some(i) => {
                let id: u32 = self.tracks[i].id;
                self.engine_map.insert(s.engine_id as i64, id);
                proof {
                    lemma_index_of(self.tracks@, i as int);
                    assert(self@.ok());
                }
                Some(i)
            },
            None => {
                if s.score < self.min_confidence {
                    return None;
                }
                let id: u32 = self.next_id;
                self.next_id = self.next_id + 1;
                self.tracks.push(
                    WorldTrack {
                        id,
                        label: label.clone(),
                        bbox: s.bbox,
                        anchor: s.bbox,
                        confidence: s.score,
                        speed: 0,
                        velocity_x: 0,
                        velocity_y: 0,
                        state: TrackState::Tentative,
                        still_since_ms: t_ms,
                        last_seen_ms: t_ms,
                        moving_streak: 0,
                        first_seen_ms: t_ms,
                        best_shot_score: 0,
                        dormant: false,
                    },
                );
                self.engine_map.insert(s.engine_id as i64, id);
                let at: usize = self.tracks.len() - 1;
                proof {
                    assert(self.tracks@ == before.tracks.push(
                        WorldTrack::fresh(id, *label, *s, t_ms),
                    ));
                    lemma_index_of(self.tracks@, at as int);
                    assert(self@.ok());
                }
                Some(at)
            },
        }
    }

    /// Takes one sighting in.
    fn sight<R: Fn(&Rect, &Rect) -> Level, A: Fn(&WorldTrack, &Sighting) -> Measure>(
        &mut self,
        log: &mut TickLog,
        s: &Sighting,
        t_ms: Stamp,
        rate: &R,
        assess: &A,
    )
        requires
            old(self).wf(),
            old(log).below(old(self)@.next_id),
            old(self)@.next_id < u32::MAX,
            can_rate(*rate),
            can_assess(*assess),
        ensures
            final(self).wf(),
            final(log).below(final(self)@.next_id),
            final(self)@.next_id <= old(self)@.next_id + 1,
            forall|g: spec_fn(Rect, Rect) -> Level, h: spec_fn(WorldTrack, Sighting) -> Measure|
                #![trigger rates_as(*rate, g), assesses_as(*assess, h)]
                rates_as(*rate, g) && assesses_as(*assess, h) ==> (final(self)@, final(log).state())
                    == old(self)@.sighted(old(log).state(), *s, t_ms, g, h),
    {
        if !s.is_activated || s.class_id < 0 || s.class_id as u64 >= self.labels.len() as u64 {
            return;
        }
        let label = self.labels[s.class_id as usize].clone();
        let i = match self.locate(s, &label, t_ms, rate) {
            Some(i) => i,
            None => {
                return;
            },
        };
        let ghost world = self@;
        let ghost logged = log.state();
        let m = assess(&self.tracks[i], s);
        let config = self.config;
        let id: u32 = self.tracks[i].id;
        let sighted = self.tracks[i].advance(s, &label, &m, t_ms, &config, &mut log.events);
        proof {
            let track = world.tracks[i as int];
            law_advance_keeps_identity(track, *s, label, m, t_ms, config);
            law_advance_keeps_order(track, *s, label, m, t_ms, config);
            lemma_replaced_ok(world, i as int, self.tracks@[i as int]);
            assert(self@ == WorldState {
                tracks: world.tracks.update(i as int, self.tracks@[i as int]),
                ..world
            });
        }
        if sighted.created {
            log.created.push(id);
        }
        if let Some(segment) = sighted.segment {
            log.segments.push(segment);
        }
        if sighted.seen {
            log.seen.push(id);
        }
    }

    /// Takes all sightings of a tick in.
    fn sight_all<R: Fn(&Rect, &Rect) -> Level, A: Fn(&WorldTrack, &Sighting) -> Measure>(
        &mut self,
        sightings: &Vec<Sighting>,
        t_ms: Stamp,
        rate: &R,
        assess: &A,
    ) -> (log: TickLog)
        requires
            old(self).wf(),
            old(self)@.next_id + sightings@.len() <= u32::MAX,
            can_rate(*rate),
            can_assess(*assess),
        ensures
            final(self).wf(),
            log.below(final(self)@.next_id),
            forall|g: spec_fn(Rect, Rect) -> Level, h: spec_fn(WorldTrack, Sighting) -> Measure|
                #![trigger rates_as(*rate, g), assesses_as(*assess, h)]
                rates_as(*rate, g) && assesses_as(*assess, h) ==> (final(self)@, log.state())
                    == old(self)@.sighted_all(sightings@, t_ms, g, h, sightings@.len() as int),
    {
        let ghost start = self@;
        let mut log = TickLog {
            seen: Vec::new(),
            segments: Vec::new(),
            created: Vec::new(),
            events: Vec::new(),
        };
        assert(log.state() =~= TickState {
            seen: Seq::empty(),
            segments: Seq::empty(),
            created: Seq::empty(),
            events: Seq::empty(),
        });
        let mut i: usize = 0;
        while i < sightings.len()
            invariant
                i <= sightings@.len(),
                self.wf(),
                log.below(self@.next_id),
                self@.next_id + (sightings@.len() - i) <= u32::MAX,
                can_rate(*rate),
                can_assess(*assess),
                forall|
                    g: spec_fn(Rect, Rect) -> Level,
                    h: spec_fn(WorldTrack, Sighting) -> Measure,
                |
                    #![trigger rates_as(*rate, g), assesses_as(*assess, h)]
                    rates_as(*rate, g) && assesses_as(*assess, h) ==> (self@, log.state())
                        == start.sighted_all(sightings@, t_ms, g, h, i as int),
            decreases sightings@.len() - i,
        {
            self.sight(&mut log, &sightings[i], t_ms, rate, assess);
            i += 1;
        }
        log
    }

    /// Whether an object is remembered to have crossed a line.
    fn remembers(&self, key: (u32, u32)) -> (found: bool)
        ensures
            found == self@.memory.contains(key),
    {
        let mut i: usize = 0;
        while i < self.crossing_memory.len()
            invariant
                i <= self.crossing_memory@.len(),
                forall|j: int| 0 <= j < i ==> #[trigger] self.crossing_memory@[j] != key,
            decreases self.crossing_memory@.len() - i,
        {
            let entry = self.crossing_memory[i];
            if entry.0 == key.0 && entry.1 == key.1 {
                assert(self.crossing_memory@.contains(key));
                return true;
            }
            i += 1;
        }
        false
    }

    /// Reports each object that went over a line it is not remembered to have crossed.
    fn compute_crossings<C: Fn(&TrackSegment, &PreparedLine) -> SegmentMeasure>(
        &mut self,
        segments: &Vec<TrackSegment>,
        t_ms: Stamp,
        cross: &C,
    ) -> (events: Vec<LineCrossingEvent>)
        requires
            old(self).wf(),
            can_cross(*cross),
            forall|j: int|
                0 <= j < segments@.len() ==> (#[trigger] segments@[j]).track_id
                    < old(self)@.next_id,
        ensures
            final(self).wf(),
            final(self)@ == (WorldState { memory: final(self)@.memory, ..old(self)@ }),
            forall|g: spec_fn(TrackSegment, PreparedLine) -> SegmentMeasure| #[trigger]
                crosses_as(*cross, g) ==> old(self)@.all_crossed(
                    segments@,
                    t_ms,
                    g,
                    segments@.len() as int,
                ) == (Crossings { memory: final(self)@.memory, events: events@ }),
    {
        let ghost start = self@;
        let mut events: Vec<LineCrossingEvent> = Vec::new();
        let mut i: usize = 0;
        while i < segments.len()
            invariant
                i <= segments@.len(),
                self.wf(),
                forall|j: int|
                    0 <= j < segments@.len() ==> (#[trigger] segments@[j]).track_id
                        < start.next_id,
                can_cross(*cross),
                self@ == (WorldState { memory: self@.memory, ..start }),
                forall|g: spec_fn(TrackSegment, PreparedLine) -> SegmentMeasure| #[trigger]
                    crosses_as(*cross, g) ==> start.all_crossed(segments@, t_ms, g, i as int) == (
                    Crossings { memory: self@.memory, events: events@ }),
            decreases segments@.len() - i,
        {
            let segment = &segments[i];
            if segment.shift_x < SAME_PLACE_LIMIT && segment.shift_y < SAME_PLACE_LIMIT {
                i += 1;
                continue;
            }
            let ghost logged = Crossings { memory: self@.memory, events: events@ };
            let lower = lowercase(&segment.label);
            let confidence: Level = match self.find(segment.track_id) {
                Some(at) => self.tracks[at].confidence,
                None => 0,
            };
            let mut k: usize = 0;
            while k < self.prepared_lines.len()
                invariant
                    k <= self.prepared_lines@.len(),
                    self.wf(),
                    segment.track_id < start.next_id,
                    can_cross(*cross),
                    self@ == (WorldState { memory: self@.memory, ..start }),
                    lower@ == lowercase_text(segment.label@),
                    confidence == confidence_of(start.tracks, segment.track_id),
                    forall|g: spec_fn(TrackSegment, PreparedLine) -> SegmentMeasure| #[trigger]
                        crosses_as(*cross, g) ==> start.lines_crossed(
                            logged,
                            *segment,
                            t_ms,
                            g,
                            k as int,
                        ) == (Crossings { memory: self@.memory, events: events@ }),
                decreases self.prepared_lines@.len() - k,
            {
                let line = &self.prepared_lines[k];
                let key: (u32, u32) = (segment.track_id, k as u32);
                let ghost w0 = self@;
                let ghost m0 = w0.memory;
                assert(w0.ok());
                let ghost e0 = events@;
                let measure = cross(segment, line);
                let direction = line.crossing(&lower, &measure);
                if !self.remembers(key) {
                    if let Some(direction) = direction {
                        events.push(
                            LineCrossingEvent {
                                line_name: line.name.clone(),
                                direction,
                                track_id: segment.track_id,
                                label: segment.label.clone(),
                                confidence,
                                timestamp_ms: t_ms,
                                prev_pos: segment.from,
                                curr_pos: segment.to,
                            },
                        );
                        proof {
                            lemma_push_to_set(self.crossing_memory@, key);
                        }
                        self.crossing_memory.push(key);
                        assert(forall|id: u32, line: u32| #[trigger]
                            self@.memory.contains((id, line)) ==> m0.contains((id, line)) || id
                                == segment.track_id);
                        assert(forall|id: u32, line: u32| #[trigger]
                            self@.memory.contains((id, line)) ==> id < self@.next_id);
                        assert(self@ == WorldState { memory: self@.memory, ..w0 });
                        assert(self@.ok());
                    }
                }
                proof {
                    assert forall|
                        g: spec_fn(TrackSegment, PreparedLine) -> SegmentMeasure,
                    | #[trigger] crosses_as(*cross, g) implies start.lines_crossed(
                        logged,
                        *segment,
                        t_ms,
                        g,
                        k + 1,
                    ) == (Crossings { memory: self@.memory, events: events@ }) by {
                        assert(start.lines_crossed(logged, *segment, t_ms, g, k as int) == (
                        Crossings { memory: m0, events: e0 }));
                        assert(measure == g(*segment, *line));
                    }
                }
                k += 1;
            }
            i += 1;
        }
        events
    }

    /// Looks after the objects that were not seen.
    fn sweep<L: Fn(&WorldTrack) -> Lapse>(&mut self, seen: &Vec<u32>, lapse: &L) -> (log: SweepLog)
        requires
            old(self).wf(),
            can_lapse(*lapse),
        ensures
            final(self).wf(),
            final(self)@ == (WorldState { tracks: final(self)@.tracks, ..old(self)@ }),
            forall|g: spec_fn(WorldTrack) -> Lapse| #[trigger]
                lapses_as(*lapse, g) ==> swept(
                    old(self)@.tracks,
                    seen@,
                    g,
                    old(self)@.config,
                    old(self)@.tracks.len() as int,
                ) == (Sweep {
                    tracks: final(self)@.tracks,
                    events: log.events@,
                    removed: log.removed@,
                }),
    {
        let ghost start = self@;
        let ghost mut done: int = 0;
        let mut events: Vec<SemanticEvent> = Vec::new();
        let mut removed: Vec<u32> = Vec::new();
        let mut i: usize = 0;
        assert(self.tracks@.take(0) == Seq::<WorldTrack>::empty());
        assert(self.tracks@.skip(0) == start.tracks.skip(0));
        while i < self.tracks.len()
            invariant
                i <= self.tracks@.len(),
                self.wf(),
                can_lapse(*lapse),
                self@ == (WorldState { tracks: self@.tracks, ..start }),
                i <= done <= start.tracks.len(),
                self.tracks@.skip(i as int) == start.tracks.skip(done),
                forall|g: spec_fn(WorldTrack) -> Lapse| #[trigger]
                    lapses_as(*lapse, g) ==> swept(
                        start.tracks,
                        seen@,
                        g,
                        start.config,
                        done,
                    ) == (Sweep {
                        tracks: self.tracks@.take(i as int),
                        events: events@,
                        removed: removed@,
                    }),
            decreases self.tracks@.len() - i,
        {
            let ghost before = self@;
            let ghost track = self.tracks@[i as int];
            let ghost e0 = events@;
            let ghost r0 = removed@;
            assert(track == self.tracks@.skip(i as int)[0]);
            assert(self.tracks@.skip(i as int).len() == start.tracks.skip(done).len());
            assert(track == start.tracks.skip(done)[0]);
            assert(track == start.tracks[done]);
            assert(start.tracks.skip(done + 1) == start.tracks.skip(done).skip(1));
            let l = lapse(&self.tracks[i]);
            let id: u32 = self.tracks[i].id;
            let stays = contains_id(seen, id) || self.tracks[i].dormant || l.since_seen
                <= self.config.depart_grace_ms;
            if stays {
                i += 1;
            } else if self.tracks[i].state == TrackState::Tentative {
                self.tracks.remove(i);
                proof {
                    lemma_removed_ok(before, i as int);
                }
            } else if self.tracks[i].still_since_ms == self.tracks[i].first_seen_ms || l.rest
                >= self.config.depart_grace_ms || self.tracks[i].state
                == TrackState::Stationary {
                self.tracks[i].dormant = true;
                self.tracks[i].moving_streak = 0;
                proof {
                    assert(self.tracks@ == before.tracks.update(i as int, asleep(track)));
                    lemma_replaced_ok(before, i as int, asleep(track));
                }
                events.push(SemanticEvent::ObjectLost(self.tracks[i].snapshot()));
                i += 1;
            } else {
                let mut gone = self.tracks[i].snapshot();
                gone.state = TrackState::Departed;
                events.push(SemanticEvent::ObjectDeparted(gone));
                removed.push(id);
                self.tracks.remove(i);
                proof {
                    lemma_removed_ok(before, i as int);
                }
            }
            proof {
                let fated = fate(track, seen@, l, start.config);
                assert(self@ == WorldState { tracks: self@.tracks, ..start });
                assert(self@.ok());
                assert(self.tracks@.skip(i as int) == start.tracks.skip(done + 1));
                match fated {
                    Fate::Stay => {
                        assert(self.tracks@.take(i as int) == before.tracks.take(i - 1).push(
                            track,
                        ));
                    },
                    Fate::Sleep => {
                        assert(self.tracks@.take(i as int) == before.tracks.take(i - 1).push(
                            asleep(track),
                        ));
                    },
                    _ => {
                        assert(self.tracks@.take(i as int) == before.tracks.take(i as int));
                    },
                }
                assert forall|g: spec_fn(WorldTrack) -> Lapse| #[trigger]
                    lapses_as(*lapse, g) implies swept(
                    start.tracks,
                    seen@,
                    g,
                    start.config,
                    done + 1,
                ) == (Sweep {
                    tracks: self.tracks@.take(i as int),
                    events: events@,
                    removed: removed@,
                }) by {
                    assert(l == g(track));
                }
                done = done + 1;
            }
        }
        assert(start.tracks.skip(done).len() == 0);
        assert(self.tracks@.take(i as int) == self.tracks@);
        SweepLog { events, removed }
    }

    /// Forgets departed objects.
    fn forget(&mut self, removed: &Vec<u32>)
        requires
            old(self).wf(),
        ensures
            final(self).wf(),
            final(self)@ == old(self)@.forgetting(removed@),
    {
        let ghost start = self@;
        let ghost stays = |key: (u32, u32)| !removed@.contains(key.0);
        self.engine_map.retain_values(removed, false);
        let mut kept: Vec<(u32, u32)> = Vec::new();
        let mut i: usize = 0;
        while i < self.crossing_memory.len()
            invariant
                i <= self.crossing_memory@.len(),
                stays == (|key: (u32, u32)| !removed@.contains(key.0)),
                kept@.to_set() == self.crossing_memory@.take(i as int).to_set().filter(stays),
            decreases self.crossing_memory@.len() - i,
        {
            let key = self.crossing_memory[i];
            proof {
                let seen = self.crossing_memory@.take(i as int);
                assert(self.crossing_memory@.take(i + 1) == seen.push(key));
                lemma_push_to_set(seen, key);
                lemma_push_to_set(kept@, key);
                assert(seen.to_set().insert(key).filter(stays) =~= (if stays(key) {
                    seen.to_set().filter(stays).insert(key)
                } else {
                    seen.to_set().filter(stays)
                }));
            }
            if !contains_id(removed, key.0) {
                kept.push(key);
            }
            i += 1;
        }
        assert(self.crossing_memory@.take(i as int) == self.crossing_memory@);
        self.crossing_memory = kept;
        proof {
            assert(self@.engine_map =~= start.forgetting(removed@).engine_map);
            assert(self@ =~= start.forgetting(removed@));
            assert(self@.ok());
        }
    }

    /// The confirmed objects among the seen ones.
    fn show(&self, seen: &Vec<u32>) -> (shown: Vec<TrackSnapshot>)
        requires
            self.wf(),
        ensures
            shown@ == shown_tracks(self@.tracks, seen@, seen@.len() as int),
    {
        let mut shown: Vec<TrackSnapshot> = Vec::new();
        let mut i: usize = 0;
        while i < seen.len()
            invariant
                i <= seen@.len(),
                self.wf(),
                shown@ == shown_tracks(self@.tracks, seen@, i as int),
            decreases seen@.len() - i,
        {
            if let Some(at) = self.find(seen[i]) {
                if self.tracks[at].state != TrackState::Tentative {
                    shown.push(self.tracks[at].snapshot());
                }
            }
            i += 1;
        }
        shown
    }

    /// Takes in what the engine saw in the tick that [`CameraWorld::prepare`] has begun.
    /// `rate` gives the overlap of two boxes, `assess` measures a sighting against an
    /// object, `lapse` says how long an object has been out of sight, and `cross` how a
    /// movement lies to a line.
    pub fn ingest<
        R: Fn(&Rect, &Rect) -> Level,
        A: Fn(&WorldTrack, &Sighting) -> Measure,
        L: Fn(&WorldTrack) -> Lapse,
        C: Fn(&TrackSegment, &PreparedLine) -> SegmentMeasure,
    >(&mut self, sightings: &Vec<Sighting>, rate: &R, assess: &A, lapse: &L, cross: &C) -> (update:
        WorldUpdate)
        requires
            old(self).wf(),
            old(self)@.next_id + sightings@.len() <= u32::MAX,
            can_rate(*rate),
            can_assess(*assess),
            can_lapse(*lapse),
            can_cross(*cross),
        ensures
            final(self).wf(),
            forall|g: Senses| #[trigger]
                senses_as(*rate, *assess, *lapse, *cross, g) ==> (final(self)@, update@)
                    == old(self)@.ticked(sightings@, g),
    {
        let t_ms: Stamp = self.last_t_ms;
        let log = self.sight_all(sightings, t_ms, rate, assess);
        let ghost sighted = self@;
        let crossings = self.compute_crossings(&log.segments, t_ms, cross);
        let ghost crossed = self@;
        let sweep = self.sweep(&log.seen, lapse);
        let ghost left = self@;
        self.forget(&sweep.removed);
        let shown = self.show(&log.seen);
        let ghost logged = log.state();
        let mut events = log.events;
        let mut more = sweep.events;
        events.append(&mut more);
        let update = WorldUpdate {
            tracks: shown,
            created: log.created,
            removed: sweep.removed,
            events,
            crossings,
        };
        proof {
            assert forall|g: Senses| #[trigger]
                senses_as(*rate, *assess, *lapse, *cross, g) implies (self@, update@) == old(
                self,
            )@.ticked(sightings@, g) by {
                assert((sighted, logged) == old(self)@.sighted_all(
                    sightings@,
                    t_ms,
                    g.rate,
                    g.assess,
                    sightings@.len() as int,
                ));
                let (after, report) = old(self)@.ticked(sightings@, g);
                let c = sighted.all_crossed(
                    logged.segments,
                    t_ms,
                    g.cross,
                    logged.segments.len() as int,
                );
                assert(c == Crossings { memory: crossed.memory, events: crossings@ });
                let w = swept(
                    sighted.tracks,
                    logged.seen,
                    g.lapse,
                    sighted.config,
                    sighted.tracks.len() as int,
                );
                assert(w.tracks == left.tracks);
                assert(left == WorldState { tracks: w.tracks, memory: c.memory, ..sighted });
                assert(update@ =~= report);
            }
        }
        update
    }

    /// A world that has seen nothing yet.
    pub fn new(config: WorldConfig) -> (world: CameraWorld)
        ensures
            world.wf(),
            world@.newborn(config),
    {
        let world = CameraWorld {
            config,
            tracks: Vec::new(),
            engine_map: KeyMap::new(),
            next_id: 1,
            last_t_ms: 0,
            prepared_lines: Vec::new(),
            crossing_memory: Vec::new(),
            prepared_zones: PreparedZones::none(),
            min_confidence: 0,
            labels: Vec::new(),
            pose_baseline: None,
        };
        assert(world@.memory =~= Set::<(u32, u32)>::empty());
        world
    }

    /// Sets the zones. `scale` gives the place of a drawn point in the image, and `span` the
    /// distance of two places.
    pub fn set_zones<S: Fn(&UiPoint) -> Point, D: Fn(&Point, &Point) -> Shift>(
        &mut self,
        zones: &Vec<ZoneInput>,
        scale: &S,
        span: &D,
    )
        requires
            old(self).wf(),
            can_scale(*scale),
            can_span(*span),
        ensures
            final(self).wf(),
            final(self)@.zones.is_prepared_from(zones@),
            forall|g: spec_fn(UiPoint) -> Point, h: spec_fn(Point, Point) -> Shift|
                #![trigger scales_as(*scale, g), spans_as(*span, h)]
                scales_as(*scale, g) && spans_as(*span, h) ==> final(self)@.zones.is_drawn_from(
                    zones@,
                    g,
                    h,
                ),
            final(self)@ == (WorldState { zones: final(self)@.zones, ..old(self)@ }),
    {
        self.prepared_zones = prepare_zones(zones, scale, span);
    }

    /// Sets the score from which on an object is taken up; never less than 0.
    pub fn set_min_confidence(&mut self, min_confidence: Level)
        requires
            old(self).wf(),
        ensures
            final(self).wf(),
            final(self)@ == (WorldState {
                min_confidence: at_least_zero(min_confidence),
                ..old(self)@
            }),
    {
        self.min_confidence = if min_confidence < 0 {
            0
        } else {
            min_confidence
        };
    }

    /// The numbers of the detections that pass the score threshold and the zones.
    pub fn filter_indices(&self, detections: &Vec<Detection>, placements: &Vec<Placement>) -> (kept:
        Vec<u32>)
        requires
            self.wf(),
            all_placed(detections@, placements@, self@.zones),
            detections@.len() <= u32::MAX,
        ensures
            kept@ == kept_numbers(
                detections@,
                placements@,
                self@.zones,
                self@.min_confidence,
                detections@.len() as int,
            ),
    {
        filter_indices(detections, placements, &self.prepared_zones, self.min_confidence)
    }

    /// Sets the lines and forgets all crossings. `ends` gives the ends of a line from the ends
    /// of the drawn one, in an image of the given aspect ratio.
    pub fn set_lines<E: Fn(&UiPoint, &UiPoint, Level) -> LineEnds>(
        &mut self,
        lines: &Vec<DetectionLineInput>,
        aspect_ratio: Level,
        ends: &E,
    )
        requires
            old(self).wf(),
            can_end(*ends),
            lines@.len() <= u32::MAX,
        ensures
            final(self).wf(),
            all_follow(final(self)@.lines, lines@),
            forall|g: spec_fn(UiPoint, UiPoint, Level) -> LineEnds| #[trigger]
                ends_as(*ends, g) ==> all_prepared(
                    final(self)@.lines,
                    lines@,
                    aspect_ratio,
                    g,
                ),
            final(self)@ == (WorldState {
                lines: final(self)@.lines,
                memory: Set::empty(),
                ..old(self)@
            }),
    {
        self.prepared_lines = prepare_lines(lines, aspect_ratio, ends);
        self.crossing_memory = Vec::new();
        assert(self@.memory =~= Set::<(u32, u32)>::empty());
        assert(self@.ok());
    }

    /// Keeps the roaming, or the confirmed, objects.
    fn retain_tracks(&mut self, roaming: bool)
        requires
            old(self).wf(),
        ensures
            final(self).wf(),
            roaming ==> final(self)@ == (WorldState {
                tracks: old(self)@.tracks.filter(|t: WorldTrack| is_roaming(t)),
                ..old(self)@
            }),
            !roaming ==> final(self)@ == (WorldState {
                tracks: old(self)@.tracks.filter(|t: WorldTrack| is_confirmed(t)),
                ..old(self)@
            }),
    {
        let ghost start = self@;
        let ghost keep: spec_fn(WorldTrack) -> bool = if roaming {
            |t: WorldTrack| is_roaming(t)
        } else {
            |t: WorldTrack| is_confirmed(t)
        };
        let ghost mut done: int = 0;
        let mut i: usize = 0;
        proof {
            reveal(Seq::filter);
            assert(start.tracks.take(0).filter(keep) + start.tracks.skip(0) =~= start.tracks);
        }
        while i < self.tracks.len()
            invariant
                i <= self.tracks@.len(),
                self.wf(),
                self@ == (WorldState { tracks: self@.tracks, ..start }),
                0 <= done <= start.tracks.len(),
                keep == (if roaming {
                    |t: WorldTrack| is_roaming(t)
                } else {
                    |t: WorldTrack| is_confirmed(t)
                }),
                i == start.tracks.take(done).filter(keep).len(),
                self.tracks@ == start.tracks.take(done).filter(keep) + start.tracks.skip(done),
            decreases self.tracks@.len() - i,
        {
            let ghost before = self@;
            let ghost track = self.tracks@[i as int];
            proof {
                let kept = start.tracks.take(done).filter(keep);
                assert(track == start.tracks.skip(done)[0]);
                assert(track == start.tracks[done]);
                assert(start.tracks.take(done + 1).drop_last() == start.tracks.take(done));
                assert(start.tracks.take(done + 1).filter(keep) == (if keep(track) {
                    kept.push(track)
                } else {
                    kept
                })) by {
                    reveal(Seq::filter);
                }
            }
            let stays = if roaming {
                !self.tracks[i].dormant && self.tracks[i].state != TrackState::Stationary
            } else {
                self.tracks[i].state != TrackState::Tentative
            };
            assert(stays == keep(track));
            if stays {
                i += 1;
            } else {
                self.tracks.remove(i);
                proof {
                    lemma_removed_ok(before, i as int);
                }
            }
            proof {
                done = done + 1;
                assert(self.tracks@ =~= start.tracks.take(done).filter(keep) + start.tracks.skip(
                    done,
                ));
            }
        }
        assert(start.tracks.take(done) == start.tracks);
        assert(self.tracks@ =~= start.tracks.filter(keep));
    }

    /// The ids of the objects.
    fn track_ids(&self) -> (ids: Vec<u32>)
        ensures
            forall|id: u32| ids@.contains(id) <==> has_id(self@.tracks, id),
    {
        let mut ids: Vec<u32> = Vec::new();
        let mut i: usize = 0;
        while i < self.tracks.len()
            invariant
                i <= self.tracks@.len(),
                ids@ == Seq::new(i as nat, |j: int| self.tracks@[j].id),
            decreases self.tracks@.len() - i,
        {
            ids.push(self.tracks[i].id);
            i += 1;
            assert(ids@ =~= Seq::new(i as nat, |j: int| self.tracks@[j].id));
        }
        proof {
            assert forall|id: u32| ids@.contains(id) <==> has_id(self.tracks@, id) by {
                if ids@.contains(id) {
                    let j = choose|j: int| 0 <= j < ids@.len() && ids@[j] == id;
                    assert(self.tracks@[j].id == id);
                }
                if has_id(self.tracks@, id) {
                    let j = index_of(self.tracks@, id);
                    assert(ids@[j] == id);
                }
            }
        }
        ids
    }

    /// Tells the world that the camera was moved.
    pub fn notify_camera_move(&mut self)
        requires
            old(self).wf(),
        ensures
            final(self).wf(),
            final(self)@ == old(self)@.camera_moved(),
    {
        self.retain_tracks(true);
        let ids = self.track_ids();
        self.engine_map.retain_values(&ids, true);
        self.crossing_memory = Vec::new();
        self.pose_baseline = None;
        assert(self@.memory =~= Set::<(u32, u32)>::empty());
        assert(self@.engine_map =~= old(self)@.camera_moved().engine_map);
        assert(self@.ok());
    }

    /// Puts all objects to sleep.
    fn sleep_all(&mut self)
        requires
            old(self).wf(),
            forall|i: int|
                0 <= i < old(self)@.tracks.len() ==> is_confirmed(#[trigger] old(self)@.tracks[i]),
        ensures
            final(self).wf(),
            final(self)@ == (WorldState {
                tracks: old(self)@.tracks.map_values(|t: WorldTrack| asleep(t)),
                ..old(self)@
            }),
    {
        let ghost start = self@;
        let ghost all = start.tracks.map_values(|t: WorldTrack| asleep(t));
        let mut i: usize = 0;
        while i < self.tracks.len()
            invariant
                i <= self.tracks@.len(),
                self.wf(),
                self@ == (WorldState { tracks: self@.tracks, ..start }),
                self.tracks@.len() == start.tracks.len(),
                all == start.tracks.map_values(|t: WorldTrack| asleep(t)),
                forall|j: int| 0 <= j < i ==> self.tracks@[j] == #[trigger] all[j],
                forall|j: int|
                    i <= j < start.tracks.len() ==> self.tracks@[j] == #[trigger] start.tracks[j],
                forall|j: int|
                    0 <= j < start.tracks.len() ==> is_confirmed(#[trigger] start.tracks[j]),
            decreases self.tracks@.len() - i,
        {
            let ghost before = self@;
            let ghost track = start.tracks[i as int];
            self.tracks[i].dormant = true;
            self.tracks[i].moving_streak = 0;
            proof {
                assert(before.tracks[i as int] == track);
                assert(self.tracks@ == before.tracks.update(i as int, asleep(track)));
                assert(before.tracks[i as int].ok(before.config));
                lemma_replaced_ok(before, i as int, asleep(track));
            }
            i += 1;
        }
        assert(self.tracks@ =~= all);
    }

    /// The sleeper that was seen longest ago.
    fn oldest_sleeper(&self) -> (at: Option<usize>)
        ensures
            oldest_dormant(self@.tracks, self@.tracks.len() as int) == (match at {
                Some(i) => Some(i as int),
                None => None,
            }),
            at matches Some(i) ==> i < self@.tracks.len(),
    {
        let mut oldest: Option<usize> = None;
        let mut i: usize = 0;
        while i < self.tracks.len()
            invariant
                i <= self.tracks@.len(),
                oldest matches Some(b) ==> b < i,
                oldest_dormant(self.tracks@, i as int) == (match oldest {
                    Some(b) => Some(b as int),
                    None => None,
                }),
            decreases self.tracks@.len() - i,
        {
            if self.tracks[i].dormant {
                let older = match oldest {
                    Some(b) => self.tracks[i].last_seen_ms < self.tracks[b].last_seen_ms,
                    None => true,
                };
                if older {
                    oldest = Some(i);
                }
            }
            i += 1;
        }
        oldest
    }

    /// Removes the oldest sleepers until no more than the allowed number are left.
    fn evict_dormant(&mut self)
        requires
            old(self).wf(),
        ensures
            final(self).wf(),
            final(self)@ == (WorldState {
                tracks: evicted(
                    old(self)@.tracks,
                    excess(old(self)@.tracks, old(self)@.config.max_dormant),
                ),
                ..old(self)@
            }),
    {
        let ghost start = self@;
        let mut count: usize = 0;
        let mut i: usize = 0;
        while i < self.tracks.len()
            invariant
                i <= self.tracks@.len(),
                count <= i,
                count == dormant_count(self.tracks@, i as int),
            decreases self.tracks@.len() - i,
        {
            if self.tracks[i].dormant {
                count += 1;
            }
            i += 1;
        }
        let ghost k = excess(start.tracks, start.config.max_dormant);
        while count > self.config.max_dormant
            invariant
                self.wf(),
                start == old(self)@,
                k == excess(start.tracks, start.config.max_dormant),
                self@ == (WorldState { tracks: self@.tracks, ..start }),
                evicted(
                    self.tracks@,
                    if count > start.config.max_dormant {
                        (count - start.config.max_dormant) as nat
                    } else {
                        0
                    },
                ) == evicted(start.tracks, k),
            decreases count,
        {
            match self.oldest_sleeper() {
                Some(at) => {
                    proof {
                        lemma_removed_ok(self@, at as int);
                    }
                    self.tracks.remove(at);
                    count -= 1;
                },
                None => {
                    return;
                },
            }
        }
    }

    /// Moves all objects as a pan does.
    fn pan<S: Fn(&Rect) -> Rect>(&mut self, motion: &Option<CameraMotion>, shift: &S)
        requires
            old(self).wf(),
            can_shift(*shift),
        ensures
            final(self).wf(),
            final(self)@ == (WorldState {
                tracks: final(self)@.tracks,
                pose: final(self)@.pose,
                ..old(self)@
            }),
            forall|g: spec_fn(Rect) -> Rect| #[trigger]
                shifts_as(*shift, g) ==> final(self)@ == old(self)@.panned(*motion, g),
    {
        let ghost start = self@;
        let moved = match (motion, &self.pose_baseline) {
            (Some(now), Some(before)) => now.x != before.x || now.y != before.y,
            _ => false,
        };
        assert(moved == start.is_pan(*motion));
        if moved {
            let mut i: usize = 0;
            while i < self.tracks.len()
                invariant
                    i <= self.tracks@.len(),
                    self.wf(),
                    can_shift(*shift),
                    self@ == (WorldState { tracks: self@.tracks, ..start }),
                    self.tracks@.len() == start.tracks.len(),
                    forall|j: int|
                        i <= j < start.tracks.len() ==> self.tracks@[j]
                            == #[trigger] start.tracks[j],
                    forall|g: spec_fn(Rect) -> Rect, j: int|
                        #![trigger shifts_as(*shift, g), start.tracks[j]]
                        shifts_as(*shift, g) && 0 <= j < i ==> self.tracks@[j] == (WorldTrack {
                            bbox: g(start.tracks[j].bbox),
                            anchor: g(start.tracks[j].anchor),
                            ..start.tracks[j]
                        }),
                decreases self.tracks@.len() - i,
            {
                let ghost before = self@;
                assert(before.tracks[i as int] == start.tracks[i as int]);
                assert(before.tracks[i as int].ok(before.config));
                let bbox = shift(&self.tracks[i].bbox);
                let anchor = shift(&self.tracks[i].anchor);
                self.tracks[i].bbox = bbox;
                self.tracks[i].anchor = anchor;
                proof {
                    assert(self.tracks@ =~= before.tracks.update(i as int, self.tracks@[i as int]));
                    lemma_replaced_ok(before, i as int, self.tracks@[i as int]);
                }
                i += 1;
            }
        }
        if motion.is_some() {
            self.pose_baseline = *motion;
        }
        proof {
            assert(self@.ok());
            assert forall|g: spec_fn(Rect) -> Rect| #[trigger]
                shifts_as(*shift, g) implies self@ == start.panned(*motion, g) by {
                assert(self@.tracks =~= start.panned(*motion, g).tracks);
            }
        }
    }

    /// The class of a label; a label met for the first time gets a new one.
    fn intern(&mut self, label: &String) -> (class: usize)
        requires
            old(self).wf(),
        ensures
            final(self).wf(),
            final(self)@ == (WorldState {
                labels: interned(old(self)@.labels, *label),
                ..old(self)@
            }),
            class < final(self)@.labels.len(),
            final(self)@.labels[class as int]@ == label@,
    {
        match position_of_label(&self.labels, label) {
            Some(class) => class,
            None => {
                let class: usize = self.labels.len();
                let ghost before = self@.labels;
                self.labels.push(label.clone());
                proof {
                    assert(self@.labels == before.push(*label));
                    assert(distinct_texts(self@.labels));
                    assert(self@.ok());
                }
                class
            },
        }
    }

    /// Begins a tick at the time `t_ms`, `since_last` after the last one, and says what to
    /// feed to the engine. `motion` is where the camera points now, and `shift` gives the
    /// place of a box after the change since the last tick.
    pub fn prepare<S: Fn(&Rect) -> Rect>(
        &mut self,
        t_ms: Stamp,
        since_last: Stamp,
        motion: &Option<CameraMotion>,
        shift: &S,
        detections: &Vec<Detection>,
        placements: &Vec<Placement>,
    ) -> (feed: Feed)
        requires
            old(self).wf(),
            can_shift(*shift),
            all_placed(detections@, placements@, old(self)@.zones),
            detections@.len() <= u32::MAX,
        ensures
            final(self).wf(),
            feed.restart == old(self)@.is_gap(since_last),
            ({
                let kept = fed_numbers(detections@, placements@, old(self)@.zones);
                let labels = labels_after(
                    old(self)@.labels,
                    detections@,
                    kept,
                    kept.len() as int,
                );
                &&& feed.entries@ == feed_of(labels, detections@, kept)
                &&& forall|g: spec_fn(Rect) -> Rect| #[trigger]
                    shifts_as(*shift, g) ==> final(self)@ == (WorldState {
                        labels,
                        ..old(self)@.begun(t_ms, since_last, *motion, g)
                    })
            }),
    {
        let ghost start = self@;
        let restart = self.last_t_ms != 0 && since_last > self.config.gap_reset_ms;
        if restart {
            self.engine_map = KeyMap::new();
            assert(self@.ok());
            self.retain_tracks(false);
            assert forall|i: int| 0 <= i < self@.tracks.len() implies is_confirmed(
                #[trigger] self@.tracks[i],
            ) by {
                start.tracks.lemma_filter_pred(|t: WorldTrack| is_confirmed(t), i);
            }
            self.sleep_all();
            self.evict_dormant();
            assert(self@ == start.gap_passed());
        }
        self.last_t_ms = t_ms;
        assert(self@.ok());
        let ghost awake = self@;
        self.pan(motion, shift);
        let ghost begun = self@;
        let kept = filter_indices(detections, placements, &self.prepared_zones, ASSOCIATION_FLOOR);
        proof {
            law_kept_numbers_are_the_kept_ones_in_order(
                detections@,
                placements@,
                start.zones,
                ASSOCIATION_FLOOR,
                detections@.len() as int,
            );
        }
        let mut entries: Vec<FeedEntry> = Vec::new();
        let mut i: usize = 0;
        while i < kept.len()
            invariant
                i <= kept@.len(),
                self.wf(),
                forall|j: int| 0 <= j < kept@.len() ==> (#[trigger] kept@[j]) < detections@.len(),
                self@ == (WorldState {
                    labels: labels_after(start.labels, detections@, kept@, i as int),
                    ..begun
                }),
                entries@.len() == i,
                forall|j: int|
                    0 <= j < i ==> {
                        let e = #[trigger] entries@[j];
                        &&& e.index == kept@[j]
                        &&& e.class < self@.labels.len()
                        &&& self@.labels[e.class as int]@ == detections@[kept@[j] as int].label@
                    },
            decreases kept@.len() - i,
        {
            let index: u32 = kept[i];
            let class: usize = self.intern(&detections[index as usize].label);
            entries.push(FeedEntry { index, class });
            i += 1;
        }
        proof {
            let labels = self@.labels;
            assert forall|j: int| 0 <= j < kept@.len() implies #[trigger] entries@[j] == feed_of(
                labels,
                detections@,
                kept@,
            )[j] by {
                let e = entries@[j];
                lemma_class_of(labels, e.class as int);
            }
            assert(entries@ =~= feed_of(labels, detections@, kept@));
        }
        Feed { restart, entries }
    }

    /// The objects, oldest first.
    pub fn tracks(&self) -> (tracks: &Vec<WorldTrack>)
        ensures
            tracks@ == self@.tracks,
    {
        &self.tracks
    }

    /// The time of the last tick; 0 before the first one.
    pub fn last_t_ms(&self) -> (t_ms: Stamp)
        ensures
            t_ms == self@.last_t_ms,
    {
        self.last_t_ms
    }

    /// Where the camera pointed when it was last heard of.
    pub fn pose(&self) -> (pose: Option<CameraMotion>)
        ensures
            pose == self@.pose,
    {
        self.pose_baseline
    }

    /// The zones in use.
    pub fn zones(&self) -> (zones: &PreparedZones)
        ensures
            *zones == self@.zones,
    {
        &self.prepared_zones
    }

    /// The id the next new object gets.
    pub fn next_id(&self) -> (id: u32)
        ensures
            id == self@.next_id,
    {
        self.next_id
    }
}

/// The numbers of the detections that the engine is fed: those that the zones let through and
/// that are sure enough to continue an object.
pub open spec fn fed_numbers(
    detections: Seq<Detection>,
    placements: Seq<Placement>,
    zones: PreparedZones,
) -> Seq<u32> {
    kept_numbers(detections, placements, zones, ASSOCIATION_FLOOR, detections.len() as int)
}

/// The engine is fed no detection below the floor; where nothing is drawn it is fed every
/// other one, in the order in which they came.
pub proof fn law_the_engine_is_fed_from_the_floor_on(
    detections: Seq<Detection>,
    placements: Seq<Placement>,
    zones: PreparedZones,
    i: int,
)
    requires
        detections.len() <= u32::MAX,
        0 <= i < detections.len(),
    ensures
        ({
            let fed = fed_numbers(detections, placements, zones);
            &&& detections[i].confidence < ASSOCIATION_FLOOR ==> !fed.contains(i as u32)
            &&& (zones.is_open() && ASSOCIATION_FLOOR <= detections[i].confidence)
                ==> fed.contains(i as u32)
            &&& forall|a: int, b: int|
                0 <= a < b < fed.len() ==> #[trigger] fed[a] < #[trigger] fed[b]
        }),
{
    law_kept_numbers_are_the_kept_ones_in_order(
        detections,
        placements,
        zones,
        ASSOCIATION_FLOOR,
        detections.len() as int,
    );
}

/// A detection continues an object from a score of 0.1 on.
pub proof fn law_faint_detections_continue_objects()
    ensures
        level_is(ASSOCIATION_FLOOR, 1, 10),
{
    lemma2_to64();
    lemma_is_nearest(1036831949, 0x80_0000, 150, 1, 10, 123, 5033165, 134217728);
}

} // verus!
