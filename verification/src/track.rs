//! The life of one tracked object.
//!
//! An object starts out tentative and becomes active once it has been seen for a while.
//! An active object that stays where it is settles and is stationary; a stationary object
//! that leaves its anchor wakes up. An object nobody sees any more goes dormant.
use vstd::arithmetic::power2::{lemma2_to64, lemma2_to64_rest};
use vstd::prelude::*;
use crate::reading::{lemma_is_nearest, level_is, stamp_is, Level, Stamp};
use crate::semantic::{SemanticEvent, TrackSnapshot, TrackState};
use crate::types::{Point, Rect};

verus! {

/// The rules of a world.
#[derive(Debug, Clone, Copy, PartialEq, Eq, Structural)]
pub struct WorldConfig {
    /// A longer pause between two ticks is a gap.
    pub gap_reset_ms: Stamp,
    /// An object unseen for longer is gone or asleep.
    pub depart_grace_ms: Stamp,
    /// How long an object has to stay in place to settle.
    pub settle_default_ms: Stamp,
    pub settle_vehicle_ms: Stamp,
    pub settle_person_ms: Stamp,
    /// An object slower than this is at rest.
    pub stationary_speed: Level,
    /// How much a sighting has to overlap a dormant object to be taken for it.
    pub reassoc_iou: Level,
    /// For how many ticks in a row an object has to move to wake up.
    pub wake_ticks: u32,
    /// How long an object has to be around to be confirmed.
    pub confirm_ms: Stamp,
    /// How many dormant objects outlive a gap.
    pub max_dormant: usize,
}

/// The share of overlap with its anchor below which an object has left it (0.15).
pub const LEFT_ANCHOR: Level = 1_041_865_114;

/// The share of overlap with its anchor from which on an object is held by it (0.6).
pub const HELD_BY_ANCHOR: Level = 1_058_642_330;

/// A box that begins up to here touches the left or the upper edge of the image (0.005).
pub const NEAR_EDGE: Level = 0x3ba3_d70a;

/// A box that ends from here on touches the right or the lower edge (0.995).
pub const FAR_EDGE: Level = 0x3f7e_b852;

impl Default for WorldConfig {
    fn default() -> (config: Self)
        ensures
            config == default_config(),
    {
        WorldConfig {
            gap_reset_ms: 0x40b3_8800_0000_0000,
            depart_grace_ms: 0x40b3_8800_0000_0000,
            settle_default_ms: 0x40c3_8800_0000_0000,
            settle_vehicle_ms: 0x40bf_4000_0000_0000,
            settle_person_ms: 0x40fd_4c00_0000_0000,
            stationary_speed: 0x3b03_126f,
            reassoc_iou: 0x3e99_999a,
            wake_ticks: 3,
            confirm_ms: 0x407f_4000_0000_0000,
            max_dormant: 50,
        }
    }
}

/// Gaps and departures after 5 s, settling after 10 s (vehicles 8 s, persons 120 s), rest
/// below a speed of 0.002, re-association from an overlap of 0.3, waking after 3 ticks,
/// confirmation after 0.5 s, 50 dormant objects.
pub open spec fn default_config() -> WorldConfig {
    WorldConfig {
        gap_reset_ms: 0x40b3_8800_0000_0000,
        depart_grace_ms: 0x40b3_8800_0000_0000,
        settle_default_ms: 0x40c3_8800_0000_0000,
        settle_vehicle_ms: 0x40bf_4000_0000_0000,
        settle_person_ms: 0x40fd_4c00_0000_0000,
        stationary_speed: 0x3b03_126f,
        reassoc_iou: 0x3e99_999a,
        wake_ticks: 3,
        confirm_ms: 0x407f_4000_0000_0000,
        max_dormant: 50,
    }
}

impl WorldConfig {
    /// How long an object with this label has to stay in place to settle.
    pub open spec fn settle_span(self, label: Seq<char>) -> Stamp {
        if label == "vehicle"@ {
            self.settle_vehicle_ms
        } else if label == "person"@ {
            self.settle_person_ms
        } else {
            self.settle_default_ms
        }
    }

    /// How long an object with this label has to stay in place to settle.
    pub fn settle_ms(&self, label: &String) -> (span: Stamp)
        ensures
            span == self.settle_span(label@),
    {
        if *label == "vehicle".to_owned() {
            self.settle_vehicle_ms
        } else if *label == "person".to_owned() {
            self.settle_person_ms
        } else {
            self.settle_default_ms
        }
    }
}

/// An object of the world.
#[derive(Debug)]
pub struct WorldTrack {
    pub id: u32,
    pub label: String,
    pub bbox: Rect,
    /// Where the object is taken to rest; a box that moves on does not drag it along.
    pub anchor: Rect,
    pub confidence: Level,
    pub speed: Level,
    pub velocity_x: Level,
    pub velocity_y: Level,
    pub state: TrackState,
    pub still_since_ms: Stamp,
    pub last_seen_ms: Stamp,
    pub moving_streak: u32,
    pub first_seen_ms: Stamp,
    pub best_shot_score: Level,
    pub dormant: bool,
}

/// What the tracking engine says of one object in one tick.
#[derive(Debug, Clone, Copy, PartialEq, Eq, Structural)]
pub struct Sighting {
    pub engine_id: u32,
    pub class_id: i64,
    pub is_activated: bool,
    pub bbox: Rect,
    pub score: Level,
}

/// A sighting measured against the object it is taken for.
#[derive(Debug, Clone, Copy, PartialEq, Eq, Structural)]
pub struct Measure {
    /// The span since the object was first seen.
    pub since_first: Stamp,
    /// The span since the object was anchored.
    pub since_still: Stamp,
    /// The smoothed movement and its magnitude.
    pub velocity_x: Level,
    pub velocity_y: Level,
    pub speed: Level,
    /// The centers of the last box and of this one, and their distances along x and y.
    pub from: Point,
    pub to: Point,
    pub shift_x: Level,
    pub shift_y: Level,
    /// The overlap of this box with the anchor.
    pub overlap: Level,
    /// The right and the lower edge of this box.
    pub right: Level,
    pub bottom: Level,
    /// How good a picture this sighting gives, how good if it is cut off, and what it takes
    /// to replace the best one.
    pub shot: Level,
    pub cut_shot: Level,
    pub shot_bar: Level,
}

/// The movement of one object in one tick.
#[derive(Debug)]
pub struct TrackSegment {
    pub track_id: u32,
    pub label: String,
    pub from: Point,
    pub to: Point,
    pub shift_x: Level,
    pub shift_y: Level,
}

/// What a sighting makes of an object.
pub struct Advance {
    pub track: WorldTrack,
    /// The object was confirmed.
    pub created: bool,
    /// The object is confirmed and was seen.
    pub seen: bool,
    pub segment: Option<TrackSegment>,
    pub events: Seq<SemanticEvent>,
}

/// A sighting has found its object: whether it was confirmed, whether it counts as seen,
/// and its movement.
#[derive(Debug)]
pub struct Sighted {
    pub created: bool,
    pub seen: bool,
    pub segment: Option<TrackSegment>,
}

impl WorldTrack {
    /// The object is in a state an object of a world can be in: its streak of moving
    /// ticks has not woken it, and it is not dormant while tentative.
    pub open spec fn ok(self, config: WorldConfig) -> bool {
        &&& self.moving_streak < config.wake_ticks || self.moving_streak == 0
        &&& self.state == TrackState::Tentative || self.state == TrackState::Active || self.state
            == TrackState::Stationary
        &&& self.dormant ==> self.state != TrackState::Tentative
    }

    /// The object at this moment.
    pub open spec fn shown(self) -> TrackSnapshot {
        TrackSnapshot {
            track_id: self.id,
            label: self.label,
            x: self.bbox.x,
            y: self.bbox.y,
            width: self.bbox.width,
            height: self.bbox.height,
            confidence: self.confidence,
            speed: self.speed,
            velocity_x: self.velocity_x,
            velocity_y: self.velocity_y,
            state: self.state,
        }
    }

    /// An object seen for the first time.
    pub open spec fn fresh(id: u32, label: String, s: Sighting, t_ms: Stamp) -> WorldTrack {
        WorldTrack {
            id,
            label,
            bbox: s.bbox,
            anchor: s.bbox,
            confidence: s.score,
            speed: 0,
            velocity_x: 0,
            velocity_y: 0,
            state: TrackState::Tentative,
            still_since_ms: t_ms,
            last_seen_ms: t_ms,
            moving_streak: 0,
            first_seen_ms: t_ms,
            best_shot_score: 0,
            dormant: false,
        }
    }

    /// The box touches an edge of the image, so the object may be cut off.
    pub open spec fn is_cut(self, m: Measure) -> bool {
        ||| self.bbox.x <= NEAR_EDGE
        ||| self.bbox.y <= NEAR_EDGE
        ||| m.right >= FAR_EDGE
        ||| m.bottom >= FAR_EDGE
    }

    /// How good a picture the sighting gives.
    pub open spec fn picture(self, m: Measure) -> Level {
        if self.is_cut(m) {
            m.cut_shot
        } else {
            m.shot
        }
    }

    /// The sighting is a clearly better picture than the best one so far.
    pub open spec fn beats(self, m: Measure) -> bool {
        self.picture(m) > m.shot_bar
    }

    /// The object with its best picture brought up to date.
    pub open spec fn with_shot(self, m: Measure) -> WorldTrack {
        if self.beats(m) {
            WorldTrack { best_shot_score: self.picture(m), ..self }
        } else {
            self
        }
    }

    /// The event of a new best picture, if there is one.
    pub open spec fn shot_events(self, m: Measure) -> Seq<SemanticEvent> {
        if self.beats(m) {
            seq![SemanticEvent::BestShotUpdated(self.shown())]
        } else {
            Seq::empty()
        }
    }

    /// The sighting of an object still too young to be confirmed.
    pub open spec fn unconfirmed(self, s: Sighting, t_ms: Stamp) -> WorldTrack {
        WorldTrack {
            bbox: s.bbox,
            anchor: s.bbox,
            confidence: s.score,
            last_seen_ms: t_ms,
            ..self
        }
    }

    /// The object, confirmed.
    pub open spec fn confirmed(self) -> WorldTrack {
        if self.state == TrackState::Tentative {
            WorldTrack { state: TrackState::Active, ..self }
        } else {
            self
        }
    }

    /// The object, awake and with its movement; waking up is no movement.
    pub open spec fn moved(self, m: Measure) -> WorldTrack {
        if self.dormant {
            WorldTrack { speed: 0, velocity_x: 0, velocity_y: 0, dormant: false, ..self }
        } else {
            WorldTrack {
                speed: m.speed,
                velocity_x: m.velocity_x,
                velocity_y: m.velocity_y,
                ..self
            }
        }
    }

    /// The object, at its new place.
    pub open spec fn placed(self, s: Sighting, t_ms: Stamp) -> WorldTrack {
        WorldTrack { confidence: s.score, bbox: s.bbox, last_seen_ms: t_ms, ..self }
    }

    /// A stationary object after a sighting: it wakes after moving away from its anchor
    /// for enough ticks in a row; at rest its anchor follows small drifts.
    pub open spec fn kept_or_woken(self, m: Measure, t_ms: Stamp, config: WorldConfig) -> (
        WorldTrack,
        Seq<SemanticEvent>,
    ) {
        let moving = self.speed >= config.stationary_speed;
        if moving && m.overlap < LEFT_ANCHOR {
            if self.moving_streak + 1 >= config.wake_ticks {
                let woken = WorldTrack {
                    state: TrackState::Active,
                    still_since_ms: t_ms,
                    moving_streak: 0,
                    ..self
                };
                (woken, seq![SemanticEvent::ObjectWoke(woken.shown())])
            } else {
                (
                    WorldTrack { moving_streak: (self.moving_streak + 1) as u32, ..self },
                    Seq::empty(),
                )
            }
        } else if !moving && m.overlap >= HELD_BY_ANCHOR {
            (WorldTrack { moving_streak: 0, anchor: self.bbox, ..self }, Seq::empty())
        } else {
            (WorldTrack { moving_streak: 0, ..self }, Seq::empty())
        }
    }

    /// An active object, anchored anew if it has left its anchor.
    pub open spec fn anchored(self, m: Measure, t_ms: Stamp) -> WorldTrack {
        if m.overlap < HELD_BY_ANCHOR {
            WorldTrack { anchor: self.bbox, still_since_ms: t_ms, ..self }
        } else {
            self
        }
    }

    /// An active object after a sighting: it settles once it has been held by its anchor
    /// for long enough.
    pub open spec fn settled_or_not(self, m: Measure, t_ms: Stamp, settle: Stamp) -> (
        WorldTrack,
        Seq<SemanticEvent>,
    ) {
        let held = self.anchored(m, t_ms);
        let span: Stamp = if m.overlap < HELD_BY_ANCHOR {
            0
        } else {
            m.since_still
        };
        if span >= settle {
            let settled = WorldTrack { state: TrackState::Stationary, anchor: held.bbox, ..held };
            (settled, seq![SemanticEvent::ObjectSettled(settled.shown())])
        } else {
            (held, Seq::empty())
        }
    }

    /// What a sighting makes of the object. `label` is the label the engine gave it.
    pub open spec fn advanced(
        self,
        s: Sighting,
        label: String,
        m: Measure,
        t_ms: Stamp,
        config: WorldConfig,
    ) -> Advance {
        if self.state == TrackState::Tentative && m.since_first < config.confirm_ms {
            let track = self.unconfirmed(s, t_ms);
            Advance {
                track: track.with_shot(m),
                created: false,
                seen: false,
                segment: None,
                events: track.shot_events(m),
            }
        } else {
            let created = self.state == TrackState::Tentative;
            let confirmed = self.confirmed();
            let entered = if created {
                seq![SemanticEvent::ObjectEntered(confirmed.shown())]
            } else {
                Seq::empty()
            };
            let moved = confirmed.moved(m);
            let recovered = if confirmed.dormant {
                seq![SemanticEvent::ObjectRecovered(moved.shown())]
            } else {
                Seq::empty()
            };
            let segment = if confirmed.dormant {
                None
            } else {
                Some(
                    TrackSegment {
                        track_id: self.id,
                        label,
                        from: m.from,
                        to: m.to,
                        shift_x: m.shift_x,
                        shift_y: m.shift_y,
                    },
                )
            };
            let placed = moved.placed(s, t_ms);
            let (track, changes) = if placed.state == TrackState::Stationary {
                placed.kept_or_woken(m, t_ms, config)
            } else {
                placed.settled_or_not(m, t_ms, config.settle_span(label@))
            };
            Advance {
                track: track.with_shot(m),
                created,
                seen: true,
                segment,
                events: entered + recovered + changes + track.shot_events(m),
            }
        }
    }

    /// The object at this moment.
    pub fn snapshot(&self) -> (snapshot: TrackSnapshot)
        ensures
            snapshot == self.shown(),
    {
        TrackSnapshot {
            track_id: self.id,
            label: self.label.clone(),
            x: self.bbox.x,
            y: self.bbox.y,
            width: self.bbox.width,
            height: self.bbox.height,
            confidence: self.confidence,
            speed: self.speed,
            velocity_x: self.velocity_x,
            velocity_y: self.velocity_y,
            state: self.state,
        }
    }

    /// Reports a new best picture if the sighting gives one.
    pub fn maybe_best_shot(&mut self, m: &Measure, events: &mut Vec<SemanticEvent>)
        ensures
            *final(self) == old(self).with_shot(*m),
            final(events)@ == old(events)@ + old(self).shot_events(*m),
    {
        let cut = self.bbox.x <= NEAR_EDGE || self.bbox.y <= NEAR_EDGE || m.right >= FAR_EDGE
            || m.bottom >= FAR_EDGE;
        let picture: Level = if cut {
            m.cut_shot
        } else {
            m.shot
        };
        if picture > m.shot_bar {
            self.best_shot_score = picture;
            events.push(SemanticEvent::BestShotUpdated(self.snapshot()));
            assert(events@ =~= old(events)@ + old(self).shot_events(*m));
        } else {
            assert(events@ =~= old(events)@ + old(self).shot_events(*m));
        }
    }

    /// Takes a sighting in and reports what happened.
    pub fn advance(
        &mut self,
        s: &Sighting,
        label: &String,
        m: &Measure,
        t_ms: Stamp,
        config: &WorldConfig,
        events: &mut Vec<SemanticEvent>,
    ) -> (sighted: Sighted)
        requires
            old(self).moving_streak < config.wake_ticks || old(self).moving_streak == 0,
        ensures
            ({
                let a = old(self).advanced(*s, *label, *m, t_ms, *config);
                &&& *final(self) == a.track
                &&& final(events)@ == old(events)@ + a.events
                &&& sighted == (Sighted { created: a.created, seen: a.seen, segment: a.segment })
            }),
    {
        let ghost before = *self;
        let ghost logged = events@;
        let ghost a = before.advanced(*s, *label, *m, t_ms, *config);
        if self.state == TrackState::Tentative && m.since_first < config.confirm_ms {
            self.bbox = s.bbox;
            self.anchor = s.bbox;
            self.confidence = s.score;
            self.last_seen_ms = t_ms;
            assert(*self == before.unconfirmed(*s, t_ms));
            self.maybe_best_shot(m, events);
            return Sighted { created: false, seen: false, segment: None };
        }
        let created = self.state == TrackState::Tentative;
        if created {
            self.state = TrackState::Active;
            events.push(SemanticEvent::ObjectEntered(self.snapshot()));
        }
        let ghost confirmed = *self;
        let ghost entered = if created {
            seq![SemanticEvent::ObjectEntered(confirmed.shown())]
        } else {
            Seq::empty()
        };
        assert(confirmed == before.confirmed());
        assert(events@ =~= logged + entered);
        let was_dormant = self.dormant;
        if was_dormant {
            self.speed = 0;
            self.velocity_x = 0;
            self.velocity_y = 0;
        } else {
            self.speed = m.speed;
            self.velocity_x = m.velocity_x;
            self.velocity_y = m.velocity_y;
        }
        self.dormant = false;
        let ghost moved = *self;
        assert(moved == confirmed.moved(*m));
        let segment: Option<TrackSegment> = if was_dormant {
            events.push(SemanticEvent::ObjectRecovered(self.snapshot()));
            None
        } else {
            Some(
                TrackSegment {
                    track_id: self.id,
                    label: label.clone(),
                    from: m.from,
                    to: m.to,
                    shift_x: m.shift_x,
                    shift_y: m.shift_y,
                },
            )
        };
        let ghost recovered = if was_dormant {
            seq![SemanticEvent::ObjectRecovered(moved.shown())]
        } else {
            Seq::empty()
        };
        assert(events@ =~= logged + entered + recovered);
        self.confidence = s.score;
        self.bbox = s.bbox;
        self.last_seen_ms = t_ms;
        let ghost placed = *self;
        assert(placed == moved.placed(*s, t_ms));
        let moving = self.speed >= config.stationary_speed;
        if self.state == TrackState::Stationary {
            if moving && m.overlap < LEFT_ANCHOR {
                self.moving_streak = self.moving_streak + 1;
                if self.moving_streak >= config.wake_ticks {
                    self.state = TrackState::Active;
                    self.still_since_ms = t_ms;
                    self.moving_streak = 0;
                    events.push(SemanticEvent::ObjectWoke(self.snapshot()));
                }
            } else {
                self.moving_streak = 0;
                if !moving && m.overlap >= HELD_BY_ANCHOR {
                    self.anchor = s.bbox;
                }
            }
            assert(*self == placed.kept_or_woken(*m, t_ms, *config).0);
            assert(events@ =~= logged + entered + recovered + placed.kept_or_woken(
                *m,
                t_ms,
                *config,
            ).1);
        } else {
            let left = m.overlap < HELD_BY_ANCHOR;
            if left {
                self.anchor = s.bbox;
                self.still_since_ms = t_ms;
            }
            let span: Stamp = if left {
                0
            } else {
                m.since_still
            };
            let settle: Stamp = config.settle_ms(label);
            if span >= settle {
                self.state = TrackState::Stationary;
                self.anchor = s.bbox;
                events.push(SemanticEvent::ObjectSettled(self.snapshot()));
            }
            assert(*self == placed.settled_or_not(*m, t_ms, settle).0);
            assert(events@ =~= logged + entered + recovered + placed.settled_or_not(
                *m,
                t_ms,
                settle,
            ).1);
        }
        self.maybe_best_shot(m, events);
        assert(events@ =~= logged + a.events);
        Sighted { created, seen: true, segment }
    }
}

/// A sighting never changes who an object is or when it was first seen.
pub proof fn law_advance_keeps_identity(
    track: WorldTrack,
    s: Sighting,
    label: String,
    m: Measure,
    t_ms: Stamp,
    config: WorldConfig,
)
    ensures
        ({
            let after = track.advanced(s, label, m, t_ms, config).track;
            &&& after.id == track.id
            &&& after.label == track.label
            &&& after.first_seen_ms == track.first_seen_ms
            &&& after.last_seen_ms == t_ms
            &&& after.bbox == s.bbox
        }),
{
}

/// A sighting leaves an object in order, and awake if it is confirmed.
pub proof fn law_advance_keeps_order(
    track: WorldTrack,
    s: Sighting,
    label: String,
    m: Measure,
    t_ms: Stamp,
    config: WorldConfig,
)
    requires
        track.ok(config),
    ensures
        ({
            let a = track.advanced(s, label, m, t_ms, config);
            &&& a.track.ok(config)
            &&& !a.track.dormant
            &&& a.seen <==> a.track.state != TrackState::Tentative
            &&& a.created <==> track.state == TrackState::Tentative && a.track.state
                != TrackState::Tentative
        }),
{
}

/// Time an object spent asleep is not a movement: taking it up again gives no segment.
pub proof fn law_resuming_is_no_movement(
    track: WorldTrack,
    s: Sighting,
    label: String,
    m: Measure,
    t_ms: Stamp,
    config: WorldConfig,
)
    requires
        track.ok(config),
        track.dormant,
    ensures
        ({
            let a = track.advanced(s, label, m, t_ms, config);
            &&& a.segment is None
            &&& !a.created
            &&& a.track.speed == 0
            &&& a.events.len() >= 1
            &&& a.events[0] is ObjectRecovered
            &&& a.events[0].subject().track_id == track.id
        }),
{
}

/// A parked object is only woken by a box that has left its anchor at speed, for the
/// configured number of ticks in a row; anything else leaves it parked.
pub proof fn law_only_leaving_the_anchor_wakes(
    track: WorldTrack,
    s: Sighting,
    label: String,
    m: Measure,
    t_ms: Stamp,
    config: WorldConfig,
)
    requires
        track.ok(config),
        track.state == TrackState::Stationary,
    ensures
        ({
            let a = track.advanced(s, label, m, t_ms, config);
            let speed: Level = if track.dormant {
                0
            } else {
                m.speed
            };
            let leaving = speed >= config.stationary_speed && m.overlap < LEFT_ANCHOR;
            &&& a.track.state == TrackState::Active <==> leaving && track.moving_streak + 1
                >= config.wake_ticks
            &&& a.track.state == TrackState::Active || a.track.state == TrackState::Stationary
            &&& !leaving ==> a.track.moving_streak == 0
            &&& leaving ==> a.track.anchor == track.anchor
        }),
{
}

/// An object that has left its anchor starts its time in place anew, and can only settle
/// at once if no time in place is asked for.
pub proof fn law_leaving_the_anchor_restarts_settling(
    track: WorldTrack,
    s: Sighting,
    label: String,
    m: Measure,
    t_ms: Stamp,
    config: WorldConfig,
)
    requires
        track.ok(config),
        track.state == TrackState::Active,
        m.overlap < HELD_BY_ANCHOR,
    ensures
        ({
            let a = track.advanced(s, label, m, t_ms, config);
            &&& a.track.still_since_ms == t_ms
            &&& a.track.anchor == s.bbox
            &&& a.track.state == TrackState::Stationary <==> 0 >= config.settle_span(label@)
        }),
{
}

/// The best picture is only replaced by a clearly better one, and every replacement is
/// reported, as the last event of the sighting.
pub proof fn law_best_shot_hysteresis(
    track: WorldTrack,
    s: Sighting,
    label: String,
    m: Measure,
    t_ms: Stamp,
    config: WorldConfig,
)
    ensures
        ({
            let a = track.advanced(s, label, m, t_ms, config);
            let seen = WorldTrack { bbox: s.bbox, ..track };
            if seen.picture(m) > m.shot_bar {
                &&& a.track.best_shot_score == seen.picture(m)
                &&& a.events.len() >= 1
                &&& a.events.last() is BestShotUpdated
            } else {
                &&& a.track.best_shot_score == track.best_shot_score
                &&& forall|i: int|
                    0 <= i < a.events.len() ==> !((#[trigger] a.events[i]) is BestShotUpdated)
            }
        }),
{
}

/// A tentative object is reported only by its best picture until it is confirmed; then
/// it enters.
pub proof fn law_unconfirmed_objects_do_not_enter(
    track: WorldTrack,
    s: Sighting,
    label: String,
    m: Measure,
    t_ms: Stamp,
    config: WorldConfig,
)
    requires
        track.ok(config),
        track.state == TrackState::Tentative,
    ensures
        ({
            let a = track.advanced(s, label, m, t_ms, config);
            if m.since_first < config.confirm_ms {
                &&& a.track.state == TrackState::Tentative
                &&& a.segment is None
                &&& forall|i: int|
                    0 <= i < a.events.len() ==> (#[trigger] a.events[i]) is BestShotUpdated
            } else {
                &&& a.created
                &&& a.events.len() >= 1
                &&& a.events[0] is ObjectEntered
            }
        }),
{
}

/// An anchor is left below a share of 0.15 and holds from one of 0.6 on; a box touches the
/// edge of the image within 0.005 of it.
pub proof fn law_the_shares_are_what_they_say()
    ensures
        level_is(LEFT_ANCHOR, 15, 100),
        level_is(HELD_BY_ANCHOR, 6, 10),
        level_is(NEAR_EDGE, 5, 1000),
        level_is(FAR_EDGE, 995, 1000),
{
    lemma2_to64();
    lemma_is_nearest(1041865114, 0x80_0000, 150, 15, 100, 124, 1677722, 67108864);
    lemma_is_nearest(1058642330, 0x80_0000, 150, 6, 10, 126, 1677722, 16777216);
    lemma_is_nearest(1000593162, 0x80_0000, 150, 5, 1000, 119, 2348810, 2147483648);
    lemma_is_nearest(1065269330, 0x80_0000, 150, 995, 1000, 126, 8304722, 16777216);
}

/// The rules a world has unless others are asked for: gaps and departures after 5 s, settling
/// after 10 s, vehicles after 8 s and persons after 120 s, rest below a speed of 0.002, being
/// taken up again from an overlap of 0.3, waking after 3 ticks, confirmation after 0.5 s, and
/// at most 50 sleepers.
pub proof fn law_the_usual_rules()
    ensures
        ({
            let c = default_config();
            &&& stamp_is(c.gap_reset_ms, 5_000, 1)
            &&& stamp_is(c.depart_grace_ms, 5_000, 1)
            &&& stamp_is(c.settle_default_ms, 10_000, 1)
            &&& stamp_is(c.settle_vehicle_ms, 8_000, 1)
            &&& stamp_is(c.settle_person_ms, 120_000, 1)
            &&& level_is(c.stationary_speed, 2, 1_000)
            &&& level_is(c.reassoc_iou, 3, 10)
            &&& c.wake_ticks == 3
            &&& stamp_is(c.confirm_ms, 500, 1)
            &&& c.max_dormant == 50
        }),
{
    lemma2_to64();
    lemma2_to64_rest();
    lemma_is_nearest(
        4662219572839972864,
        0x10_0000_0000_0000,
        1075,
        5000,
        1,
        1035,
        993958511509504,
        1099511627776,
    );
    lemma_is_nearest(
        4666723172467343360,
        0x10_0000_0000_0000,
        1075,
        10000,
        1,
        1036,
        993958511509504,
        549755813888,
    );
    lemma_is_nearest(
        4665518107723300864,
        0x10_0000_0000_0000,
        1075,
        8000,
        1,
        1035,
        4292493394837504,
        1099511627776,
    );
    lemma_is_nearest(
        4682982750418894848,
        0x10_0000_0000_0000,
        1075,
        120000,
        1,
        1039,
        3742737580949504,
        68719476736,
    );
    lemma_is_nearest(990057071, 0x80_0000, 150, 2, 1000, 118, 201327, 4294967296);
    lemma_is_nearest(1050253722, 0x80_0000, 150, 3, 10, 125, 1677722, 33554432);
    lemma_is_nearest(
        4647503709213818880,
        0x10_0000_0000_0000,
        1075,
        500,
        1,
        1031,
        4292493394837504,
        17592186044416,
    );
}

/// The snapshot shows the object: who it is, where its box is, and how it moves.
pub open spec fn pictures(s: TrackSnapshot, track: WorldTrack) -> bool {
    &&& s.track_id == track.id
    &&& s.label@ == track.label@
    &&& s.x == track.bbox.x && s.y == track.bbox.y
    &&& s.width == track.bbox.width && s.height == track.bbox.height
    &&& s.confidence == track.confidence
    &&& s.speed == track.speed
    &&& s.velocity_x == track.velocity_x && s.velocity_y == track.velocity_y
    &&& s.state == track.state
}

/// A snapshot shows the object it is of.
pub proof fn law_a_snapshot_is_true(track: WorldTrack)
    ensures
        pictures(track.shown(), track),
{
}

/// A new object begins tentative and at rest where it was sighted, anchored there since now.
pub proof fn law_a_new_object_begins_tentative(id: u32, label: String, s: Sighting, t_ms: Stamp)
    ensures
        ({
            let t = WorldTrack::fresh(id, label, s, t_ms);
            &&& t.id == id && t.label@ == label@
            &&& t.bbox == s.bbox && t.anchor == s.bbox
            &&& t.confidence == s.score
            &&& t.speed == 0 && t.velocity_x == 0 && t.velocity_y == 0
            &&& t.state == TrackState::Tentative && !t.dormant
            &&& t.first_seen_ms == t_ms && t.last_seen_ms == t_ms && t.still_since_ms == t_ms
            &&& t.moving_streak == 0 && t.best_shot_score == 0
        }),
{
}

/// How long an object has to stay in place depends on its label alone: vehicles and persons
/// have their own time, everything else the usual one.
pub proof fn law_vehicles_and_persons_have_their_own_time(config: WorldConfig, label: Seq<char>)
    ensures
        label == "vehicle"@ ==> config.settle_span(label) == config.settle_vehicle_ms,
        label == "person"@ ==> config.settle_span(label) == config.settle_person_ms,
        label != "vehicle"@ && label != "person"@ ==> config.settle_span(label)
            == config.settle_default_ms,
{
    reveal_strlit("vehicle");
    reveal_strlit("person");
    assert("vehicle"@.len() != "person"@.len());
}

/// A sighting puts the object where it was seen, with the score and the movement that were
/// measured; taking up a sleeper is no movement, and the movement of one that is still too
/// young is not taken in. A movement is told of every other object.
pub proof fn law_a_sighting_is_taken_in(
    track: WorldTrack,
    s: Sighting,
    label: String,
    m: Measure,
    t_ms: Stamp,
    config: WorldConfig,
)
    ensures
        ({
            let a = track.advanced(s, label, m, t_ms, config);
            let young = track.state == TrackState::Tentative && m.since_first < config.confirm_ms;
            &&& a.track.confidence == s.score
            &&& a.track.bbox == s.bbox
            &&& a.track.last_seen_ms == t_ms
            &&& young ==> {
                &&& a.track.state == TrackState::Tentative
                &&& a.track.anchor == s.bbox
                &&& a.track.speed == track.speed
                &&& a.track.velocity_x == track.velocity_x
                &&& a.track.velocity_y == track.velocity_y
                &&& a.track.still_since_ms == track.still_since_ms
                &&& a.track.moving_streak == track.moving_streak
                &&& a.track.dormant == track.dormant
                &&& a.segment is None && !a.seen && !a.created
            }
            &&& !young && track.dormant ==> {
                &&& a.track.speed == 0
                &&& a.track.velocity_x == 0 && a.track.velocity_y == 0
                &&& a.segment is None
            }
            &&& !young && !track.dormant ==> {
                &&& a.track.speed == m.speed
                &&& a.track.velocity_x == m.velocity_x && a.track.velocity_y == m.velocity_y
                &&& a.segment matches Some(g) && g.track_id == track.id && g.label@ == label@
                    && g.from == m.from && g.to == m.to && g.shift_x == m.shift_x && g.shift_y
                    == m.shift_y
            }
            &&& !young ==> a.seen && !a.track.dormant && a.track.state != TrackState::Tentative
            &&& !young ==> (a.created <==> track.state == TrackState::Tentative)
        }),
{
}

/// An object that is neither too young nor parked is anchored anew where it is as soon as it
/// overlaps its anchor by less than the share that holds; it is parked once it has been held
/// for the time its label asks for, and anchored where it was parked.
pub proof fn law_an_object_settles_when_it_was_held_long_enough(
    track: WorldTrack,
    s: Sighting,
    label: String,
    m: Measure,
    t_ms: Stamp,
    config: WorldConfig,
)
    requires
        track.state != TrackState::Stationary,
        track.state == TrackState::Tentative ==> m.since_first >= config.confirm_ms,
    ensures
        ({
            let a = track.advanced(s, label, m, t_ms, config);
            let wait = if label@ == "vehicle"@ {
                config.settle_vehicle_ms
            } else if label@ == "person"@ {
                config.settle_person_ms
            } else {
                config.settle_default_ms
            };
            let held = m.overlap >= HELD_BY_ANCHOR;
            let parked = held && m.since_still >= wait || !held && 0 >= wait;
            &&& a.track.state == TrackState::Stationary <==> parked
            &&& a.track.still_since_ms == (if held {
                track.still_since_ms
            } else {
                t_ms
            })
            &&& a.track.anchor == (if held && !parked {
                track.anchor
            } else {
                s.bbox
            })
            &&& a.track.moving_streak == track.moving_streak
        }),
{
}

/// A parked object that moves fast enough and has left its anchor counts the ticks it does so
/// in a row, and wakes at its anchor, with its time in place beginning anew, once there are
/// enough. Any other tick ends the count; at rest and held, the anchor follows the box.
pub proof fn law_a_parked_object_wakes_after_enough_ticks(
    track: WorldTrack,
    s: Sighting,
    label: String,
    m: Measure,
    t_ms: Stamp,
    config: WorldConfig,
)
    requires
        track.state == TrackState::Stationary,
        track.ok(config),
    ensures
        ({
            let a = track.advanced(s, label, m, t_ms, config);
            let speed = if track.dormant {
                0
            } else {
                m.speed
            };
            let going = speed >= config.stationary_speed && m.overlap < LEFT_ANCHOR;
            let woken = going && track.moving_streak + 1 >= config.wake_ticks;
            &&& woken ==> a.track.state == TrackState::Active && a.track.still_since_ms == t_ms
                && a.track.moving_streak == 0 && a.track.anchor == track.anchor
            &&& !woken ==> a.track.state == TrackState::Stationary && a.track.still_since_ms
                == track.still_since_ms
            &&& going && !woken ==> a.track.moving_streak == track.moving_streak + 1
                && a.track.anchor == track.anchor
            &&& !going ==> a.track.moving_streak == 0 && a.track.anchor == (if speed
                < config.stationary_speed && m.overlap >= HELD_BY_ANCHOR {
                s.bbox
            } else {
                track.anchor
            })
        }),
{
}

/// The best picture is replaced exactly if the sighting gives one that clears the bar, and
/// then by that one: the lesser one if the box touches an edge of the image.
pub proof fn law_a_cut_off_picture_is_worth_less(
    track: WorldTrack,
    s: Sighting,
    label: String,
    m: Measure,
    t_ms: Stamp,
    config: WorldConfig,
)
    ensures
        ({
            let after = track.advanced(s, label, m, t_ms, config).track;
            let touches = s.bbox.x <= NEAR_EDGE || s.bbox.y <= NEAR_EDGE || m.right >= FAR_EDGE
                || m.bottom >= FAR_EDGE;
            &&& touches && m.cut_shot > m.shot_bar ==> after.best_shot_score == m.cut_shot
            &&& touches && m.cut_shot <= m.shot_bar ==> after.best_shot_score
                == track.best_shot_score
            &&& !touches && m.shot > m.shot_bar ==> after.best_shot_score == m.shot
            &&& !touches && m.shot <= m.shot_bar ==> after.best_shot_score
                == track.best_shot_score
        }),
{
}

/// A sighting tells, in this order and nothing else: that the object enters if it is confirmed
/// by it, that it was recovered if it slept, that it settled or woke if it did, and that it
/// gave a better picture if it did. The last two show the object as it is afterwards.
pub proof fn law_a_sighting_tells_what_happened(
    track: WorldTrack,
    s: Sighting,
    label: String,
    m: Measure,
    t_ms: Stamp,
    config: WorldConfig,
)
    requires
        track.ok(config),
    ensures
        ({
            let a = track.advanced(s, label, m, t_ms, config);
            let e = a.events;
            let entered: int = if track.state == TrackState::Tentative && m.since_first
                >= config.confirm_ms {
                1
            } else {
                0
            };
            let recovered: int = if track.dormant {
                1
            } else {
                0
            };
            let settled = track.state != TrackState::Stationary && a.track.state
                == TrackState::Stationary;
            let woke = track.state == TrackState::Stationary && a.track.state
                != TrackState::Stationary;
            let turned: int = if settled || woke {
                1
            } else {
                0
            };
            let touches = s.bbox.x <= NEAR_EDGE || s.bbox.y <= NEAR_EDGE || m.right >= FAR_EDGE
                || m.bottom >= FAR_EDGE;
            let better = if touches {
                m.cut_shot > m.shot_bar
            } else {
                m.shot > m.shot_bar
            };
            let n = entered + recovered + turned;
            &&& e.len() == n + (if better {
                1int
            } else {
                0int
            })
            &&& entered == 1 ==> (e[0] matches SemanticEvent::ObjectEntered(p) && pictures(
                p,
                WorldTrack { state: TrackState::Active, ..track },
            ))
            &&& recovered == 1 ==> (e[entered] matches SemanticEvent::ObjectRecovered(p)
                && pictures(
                p,
                WorldTrack { speed: 0, velocity_x: 0, velocity_y: 0, ..track },
            ))
            &&& settled ==> (e[entered + recovered] matches SemanticEvent::ObjectSettled(p)
                && pictures(p, a.track))
            &&& woke ==> (e[entered + recovered] matches SemanticEvent::ObjectWoke(p) && pictures(
                p,
                a.track,
            ))
            &&& better ==> (e[n] matches SemanticEvent::BestShotUpdated(p) && pictures(
                p,
                a.track,
            ))
        }),
{
}

} // verus!
