//! A recorded session, played back and summed up.
use vstd::arithmetic::power2::{lemma2_to64, lemma2_to64_rest};
use vstd::prelude::*;
use crate::reading::{lemma_is_nearest, level_is, stamp_is, Level, Stamp};
use crate::semantic::{SemanticEvent, TrackSnapshot, TrackState};
use crate::types::Rect;
use crate::world::WorldUpdate;
use crate::world_model::{can_rate, rates_as};

verus! {

/// How long after a departure a new object in the same place counts as the same one that
/// lost its identity (120000 ms).
pub const CHURN_WINDOW_MS: Stamp = 0x40fd_4c00_0000_0000;

/// How much the new object has to overlap the departed one for that (0.3).
pub const CHURN_IOU: Level = 0x3e99_999a;

/// An object as a tick saw it, and whether it was lost.
#[derive(Debug)]
pub struct Sight {
    pub snapshot: TrackSnapshot,
    pub lost: bool,
}

/// What a tick of an engine brings.
#[derive(Debug)]
pub struct EngineTick {
    pub tracks: Vec<Sight>,
    pub created: Vec<u32>,
    pub removed: Vec<u32>,
    pub extra_events: Vec<SemanticEvent>,
}

/// An event and when it happened.
#[derive(Debug)]
pub struct TimedEvent {
    pub t_ms: Stamp,
    pub event: SemanticEvent,
}

/// An object that departed, and when.
#[derive(Debug)]
pub struct Departure {
    pub t_ms: Stamp,
    pub snapshot: TrackSnapshot,
}

/// How often each kind of event happened.
#[derive(Debug, Clone, Copy, PartialEq, Eq, Structural)]
pub struct Tally {
    pub best_shot: u64,
    pub departed: u64,
    pub entered: u64,
    pub lost: u64,
    pub recovered: u64,
    pub settled: u64,
    pub woke: u64,
}

impl Tally {
    /// Nothing happened yet.
    pub open spec fn zero() -> Tally {
        Tally {
            best_shot: 0,
            departed: 0,
            entered: 0,
            lost: 0,
            recovered: 0,
            settled: 0,
            woke: 0,
        }
    }

    /// How often events of this kind happened.
    pub open spec fn of(self, event: SemanticEvent) -> u64 {
        match event {
            SemanticEvent::ObjectEntered(_) => self.entered,
            SemanticEvent::ObjectLost(_) => self.lost,
            SemanticEvent::ObjectRecovered(_) => self.recovered,
            SemanticEvent::ObjectSettled(_) => self.settled,
            SemanticEvent::ObjectWoke(_) => self.woke,
            SemanticEvent::ObjectDeparted(_) => self.departed,
            SemanticEvent::BestShotUpdated(_) => self.best_shot,
        }
    }

    /// The tally with one more event.
    pub open spec fn with(self, event: SemanticEvent) -> Tally {
        let n = (self.of(event) + 1) as u64;
        match event {
            SemanticEvent::ObjectEntered(_) => Tally { entered: n, ..self },
            SemanticEvent::ObjectLost(_) => Tally { lost: n, ..self },
            SemanticEvent::ObjectRecovered(_) => Tally { recovered: n, ..self },
            SemanticEvent::ObjectSettled(_) => Tally { settled: n, ..self },
            SemanticEvent::ObjectWoke(_) => Tally { woke: n, ..self },
            SemanticEvent::ObjectDeparted(_) => Tally { departed: n, ..self },
            SemanticEvent::BestShotUpdated(_) => Tally { best_shot: n, ..self },
        }
    }

    /// No counter is higher than this.
    pub open spec fn at_most(self, n: int) -> bool {
        &&& self.best_shot <= n
        &&& self.departed <= n
        &&& self.entered <= n
        &&& self.lost <= n
        &&& self.recovered <= n
        &&& self.settled <= n
        &&& self.woke <= n
    }

    /// Counts one more event.
    fn add(&mut self, event: &SemanticEvent)
        requires
            old(self).of(*event) < u64::MAX,
        ensures
            *final(self) == old(self).with(*event),
    {
        match event {
            SemanticEvent::ObjectEntered(_) => {
                self.entered += 1;
            },
            SemanticEvent::ObjectLost(_) => {
                self.lost += 1;
            },
            SemanticEvent::ObjectRecovered(_) => {
                self.recovered += 1;
            },
            SemanticEvent::ObjectSettled(_) => {
                self.settled += 1;
            },
            SemanticEvent::ObjectWoke(_) => {
                self.woke += 1;
            },
            SemanticEvent::ObjectDeparted(_) => {
                self.departed += 1;
            },
            SemanticEvent::BestShotUpdated(_) => {
                self.best_shot += 1;
            },
        }
    }
}

/// A replay, as contracts speak of it.
#[verifier::ext_equal]
pub struct ReplayState {
    pub keep_events: bool,
    /// The objects as they were last seen, each once.
    pub known: Seq<Sight>,
    pub departures: Seq<Departure>,
    pub ticks: u64,
    pub detections_in: u64,
    pub tracks_created: u64,
    pub tracks_removed: u64,
    pub identity_churn: u64,
    pub tally: Tally,
    pub events: Seq<TimedEvent>,
    pub latencies_us: Seq<u64>,
}

/// The object is among the known ones.
pub open spec fn is_known(known: Seq<Sight>, id: u32) -> bool {
    exists|i: int| 0 <= i < known.len() && (#[trigger] known[i]).snapshot.track_id == id
}

/// Where the object is among the known ones.
pub open spec fn place_of(known: Seq<Sight>, id: u32) -> int {
    choose|i: int| 0 <= i < known.len() && (#[trigger] known[i]).snapshot.track_id == id
}

/// No object is known twice.
pub open spec fn known_once(known: Seq<Sight>) -> bool {
    forall|i: int, j: int|
        0 <= i < j < known.len() ==> (#[trigger] known[i]).snapshot.track_id != (
        #[trigger] known[j]).snapshot.track_id
}

/// The known objects after one more was seen.
pub open spec fn seen_again(known: Seq<Sight>, sight: Sight) -> Seq<Sight> {
    let id = sight.snapshot.track_id;
    if is_known(known, id) {
        known.update(place_of(known, id), sight)
    } else {
        known.push(sight)
    }
}

/// The box of an object.
pub open spec fn box_of(s: TrackSnapshot) -> Rect {
    Rect { x: s.x, y: s.y, width: s.width, height: s.height }
}

/// `g` gives what `f` returns.
pub open spec fn ages_as<F: Fn(Stamp) -> Stamp>(f: F, g: spec_fn(Stamp) -> Stamp) -> bool {
    forall|a: Stamp, r: Stamp| #[trigger] call_ensures(f, (a,), r) ==> r == g(a)
}

/// `f` can be called with any time.
pub open spec fn can_age<F: Fn(Stamp) -> Stamp>(f: F) -> bool {
    forall|a: Stamp| #[trigger] call_requires(f, (a,))
}

/// The departures that are not longer ago than the window.
pub open spec fn recent(departures: Seq<Departure>, age: spec_fn(Stamp) -> Stamp) -> Seq<
    Departure,
> {
    departures.filter(|d: Departure| age(d.t_ms) <= CHURN_WINDOW_MS)
}

/// An object of the same class departed in the same place.
pub open spec fn is_churn(
    departures: Seq<Departure>,
    s: TrackSnapshot,
    rate: spec_fn(Rect, Rect) -> Level,
) -> bool {
    exists|i: int|
        0 <= i < departures.len() && (#[trigger] departures[i]).snapshot.label@ == s.label@
            && rate(box_of(departures[i].snapshot), box_of(s)) >= CHURN_IOU
}

impl ReplayState {
    /// The replay after one more event.
    pub open spec fn emitted(self, t_ms: Stamp, event: SemanticEvent) -> ReplayState {
        ReplayState {
            tally: self.tally.with(event),
            events: if self.keep_events {
                self.events.push(TimedEvent { t_ms, event })
            } else {
                self.events
            },
            ..self
        }
    }

    /// The replay after the first `n` of these events.
    pub open spec fn with_events(
        self,
        t_ms: Stamp,
        events: Seq<SemanticEvent>,
        n: int,
    ) -> ReplayState
        decreases n,
    {
        if n <= 0 {
            self
        } else {
            self.with_events(t_ms, events, n - 1).emitted(t_ms, events[n - 1])
        }
    }

    /// The replay after an object was seen: one that was not lost before and is now is
    /// reported lost, and the other way round recovered.
    pub open spec fn with_sight(self, t_ms: Stamp, sight: Sight) -> ReplayState {
        let id = sight.snapshot.track_id;
        let after = ReplayState { known: seen_again(self.known, sight), ..self };
        if is_known(self.known, id) {
            let was_lost = self.known[place_of(self.known, id)].lost;
            if !was_lost && sight.lost {
                after.emitted(t_ms, SemanticEvent::ObjectLost(sight.snapshot))
            } else if was_lost && !sight.lost {
                after.emitted(t_ms, SemanticEvent::ObjectRecovered(sight.snapshot))
            } else {
                after
            }
        } else {
            after
        }
    }

    /// The replay after the first `n` of these objects were seen.
    pub open spec fn with_sights(self, t_ms: Stamp, sights: Seq<Sight>, n: int) -> ReplayState
        decreases n,
    {
        if n <= 0 {
            self
        } else {
            self.with_sights(t_ms, sights, n - 1).with_sight(t_ms, sights[n - 1])
        }
    }

    /// The replay after an object was created: it enters, and if one like it departed a
    /// short time ago, an identity was lost.
    pub open spec fn with_created(
        self,
        t_ms: Stamp,
        id: u32,
        age: spec_fn(Stamp) -> Stamp,
        rate: spec_fn(Rect, Rect) -> Level,
    ) -> ReplayState {
        let counted = ReplayState { tracks_created: (self.tracks_created + 1) as u64, ..self };
        if is_known(self.known, id) {
            let snapshot = self.known[place_of(self.known, id)].snapshot;
            let departures = recent(self.departures, age);
            ReplayState {
                departures,
                identity_churn: if is_churn(departures, snapshot, rate) {
                    (self.identity_churn + 1) as u64
                } else {
                    self.identity_churn
                },
                ..counted
            }.emitted(t_ms, SemanticEvent::ObjectEntered(snapshot))
        } else {
            counted
        }
    }

    /// The replay after the first `n` of these objects were created.
    pub open spec fn with_all_created(
        self,
        t_ms: Stamp,
        ids: Seq<u32>,
        age: spec_fn(Stamp) -> Stamp,
        rate: spec_fn(Rect, Rect) -> Level,
        n: int,
    ) -> ReplayState
        decreases n,
    {
        if n <= 0 {
            self
        } else {
            self.with_all_created(t_ms, ids, age, rate, n - 1).with_created(
                t_ms,
                ids[n - 1],
                age,
                rate,
            )
        }
    }

    /// The replay after an object was removed: it departs.
    pub open spec fn with_removed(self, t_ms: Stamp, id: u32) -> ReplayState {
        let counted = ReplayState { tracks_removed: (self.tracks_removed + 1) as u64, ..self };
        if is_known(self.known, id) {
            let i = place_of(self.known, id);
            let gone = self.known[i].snapshot.departed();
            ReplayState {
                known: self.known.remove(i),
                departures: self.departures.push(Departure { t_ms, snapshot: gone }),
                ..counted
            }.emitted(t_ms, SemanticEvent::ObjectDeparted(gone))
        } else {
            counted
        }
    }

    /// The replay after the first `n` of these objects were removed.
    pub open spec fn with_all_removed(self, t_ms: Stamp, ids: Seq<u32>, n: int) -> ReplayState
        decreases n,
    {
        if n <= 0 {
            self
        } else {
            self.with_all_removed(t_ms, ids, n - 1).with_removed(t_ms, ids[n - 1])
        }
    }

    /// The replay after a tick.
    pub open spec fn ticked(
        self,
        t_ms: Stamp,
        detections: u64,
        micros: u64,
        tick: EngineTick,
        age: spec_fn(Stamp) -> Stamp,
        rate: spec_fn(Rect, Rect) -> Level,
    ) -> ReplayState {
        ReplayState {
            ticks: (self.ticks + 1) as u64,
            detections_in: (self.detections_in + detections) as u64,
            latencies_us: self.latencies_us.push(micros),
            ..self
        }.with_events(t_ms, tick.extra_events@, tick.extra_events@.len() as int).with_sights(
            t_ms,
            tick.tracks@,
            tick.tracks@.len() as int,
        ).with_all_created(
            t_ms,
            tick.created@,
            age,
            rate,
            tick.created@.len() as int,
        ).with_all_removed(t_ms, tick.removed@, tick.removed@.len() as int)
    }

    /// No object is known twice, and no identity was lost without a creation.
    pub open spec fn ok(self) -> bool {
        known_once(self.known) && self.identity_churn <= self.tracks_created
    }

    /// The counters have room for a tick.
    pub open spec fn has_room(self, detections: u64, tick: EngineTick) -> bool {
        &&& self.ticks < u64::MAX
        &&& self.detections_in + detections <= u64::MAX
        &&& self.tracks_created + tick.created@.len() <= u64::MAX
        &&& self.tracks_removed + tick.removed@.len() <= u64::MAX
        &&& self.tally.at_most(
            u64::MAX - tick.extra_events@.len() - tick.tracks@.len() - tick.created@.len()
                - tick.removed@.len(),
        )
    }
}

/// A replay under way.
#[derive(Debug)]
pub struct Replay {
    keep_events: bool,
    known: Vec<Sight>,
    departures: Vec<Departure>,
    ticks: u64,
    detections_in: u64,
    tracks_created: u64,
    tracks_removed: u64,
    identity_churn: u64,
    tally: Tally,
    events: Vec<TimedEvent>,
    latencies_us: Vec<u64>,
}

impl View for Replay {
    type V = ReplayState;

    closed spec fn view(&self) -> ReplayState {
        ReplayState {
            keep_events: self.keep_events,
            known: self.known@,
            departures: self.departures@,
            ticks: self.ticks,
            detections_in: self.detections_in,
            tracks_created: self.tracks_created,
            tracks_removed: self.tracks_removed,
            identity_churn: self.identity_churn,
            tally: self.tally,
            events: self.events@,
            latencies_us: self.latencies_us@,
        }
    }
}

proof fn lemma_place_of(known: Seq<Sight>, i: int)
    requires
        0 <= i < known.len(),
        known_once(known),
    ensures
        is_known(known, known[i].snapshot.track_id),
        place_of(known, known[i].snapshot.track_id) == i,
{
    let id = known[i].snapshot.track_id;
    assert(is_known(known, id));
    let k = place_of(known, id);
    assert(known[k].snapshot.track_id == id);
    if k < i {
        assert(known[k].snapshot.track_id != known[i].snapshot.track_id);
    }
    if i < k {
        assert(known[i].snapshot.track_id != known[k].snapshot.track_id);
    }
}

impl Replay {
    /// The replay is in order.
    pub open spec fn wf(&self) -> bool {
        self@.ok()
    }

    /// A replay that has not begun.
    pub fn new(keep_events: bool) -> (replay: Replay)
        ensures
            replay.wf(),
            replay@ == (ReplayState {
                keep_events,
                known: Seq::empty(),
                departures: Seq::empty(),
                ticks: 0,
                detections_in: 0,
                tracks_created: 0,
                tracks_removed: 0,
                identity_churn: 0,
                tally: Tally::zero(),
                events: Seq::empty(),
                latencies_us: Seq::empty(),
            }),
    {
        Replay {
            keep_events,
            known: Vec::new(),
            departures: Vec::new(),
            ticks: 0,
            detections_in: 0,
            tracks_created: 0,
            tracks_removed: 0,
            identity_churn: 0,
            tally: Tally {
                best_shot: 0,
                departed: 0,
                entered: 0,
                lost: 0,
                recovered: 0,
                settled: 0,
                woke: 0,
            },
            events: Vec::new(),
            latencies_us: Vec::new(),
        }
    }

    /// Counts an event, and keeps it if events are kept.
    fn emit(&mut self, t_ms: Stamp, event: SemanticEvent)
        requires
            old(self)@.tally.of(event) < u64::MAX,
        ensures
            final(self)@ == old(self)@.emitted(t_ms, event),
    {
        self.tally.add(&event);
        if self.keep_events {
            self.events.push(TimedEvent { t_ms, event });
        }
    }

    /// Where the object is among the known ones.
    fn find(&self, id: u32) -> (at: Option<usize>)
        requires
            self.wf(),
        ensures
            match at {
                Some(i) => i < self@.known.len() && is_known(self@.known, id) && place_of(
                    self@.known,
                    id,
                ) == i && self@.known[i as int].snapshot.track_id == id,
                None => !is_known(self@.known, id),
            },
    {
        let mut i: usize = 0;
        while i < self.known.len()
            invariant
                i <= self.known@.len(),
                self.wf(),
                forall|j: int|
                    0 <= j < i ==> (#[trigger] self.known@[j]).snapshot.track_id != id,
            decreases self.known@.len() - i,
        {
            if self.known[i].snapshot.track_id == id {
                proof {
                    lemma_place_of(self.known@, i as int);
                }
                return Some(i);
            }
            i += 1;
        }
        None
    }

    /// Takes in that an object was seen.
    fn see(&mut self, t_ms: Stamp, sight: &Sight)
        requires
            old(self).wf(),
            old(self)@.tally.at_most(u64::MAX - 1),
        ensures
            final(self).wf(),
            final(self)@ == old(self)@.with_sight(t_ms, *sight),
    {
        let copy = Sight { snapshot: sight.snapshot.copy(), lost: sight.lost };
        let ghost before = self@;
        match self.find(sight.snapshot.track_id) {
            Some(at) => {
                let was_lost = self.known[at].lost;
                self.known.set(at, copy);
                proof {
                    assert(self@.known == before.known.update(at as int, *sight));
                    assert forall|i: int, j: int| 0 <= i < j < self@.known.len() implies (
                    #[trigger] self@.known[i]).snapshot.track_id != (
                    #[trigger] self@.known[j]).snapshot.track_id by {
                        assert(before.known[i].snapshot.track_id
                            != before.known[j].snapshot.track_id);
                    }
                }
                if !was_lost && sight.lost {
                    self.emit(t_ms, SemanticEvent::ObjectLost(sight.snapshot.copy()));
                } else if was_lost && !sight.lost {
                    self.emit(t_ms, SemanticEvent::ObjectRecovered(sight.snapshot.copy()));
                }
            },
            None => {
                self.known.push(copy);
                proof {
                    assert(self@.known == before.known.push(*sight));
                    assert forall|i: int, j: int| 0 <= i < j < self@.known.len() implies (
                    #[trigger] self@.known[i]).snapshot.track_id != (
                    #[trigger] self@.known[j]).snapshot.track_id by {
                        if j < before.known.len() {
                            assert(before.known[i].snapshot.track_id
                                != before.known[j].snapshot.track_id);
                        } else {
                            assert(before.known[i].snapshot.track_id
                                != sight.snapshot.track_id);
                        }
                    }
                }
            },
        }
    }

    /// Keeps the departures that are not longer ago than the window.
    fn retain_recent<F: Fn(Stamp) -> Stamp>(&mut self, age: &F)
        requires
            can_age(*age),
        ensures
            final(self)@ == (ReplayState { departures: final(self)@.departures, ..old(self)@ }),
            forall|g: spec_fn(Stamp) -> Stamp| #[trigger]
                ages_as(*age, g) ==> final(self)@.departures == recent(old(self)@.departures, g),
    {
        let ghost start = self.departures@;
        let ghost mut done: int = 0;
        let mut i: usize = 0;
        proof {
            reveal(Seq::filter);
            assert(start.take(0).len() == 0);
            assert(self.departures@.take(0) =~= Seq::empty());
            assert(start.skip(0) =~= self.departures@.skip(0));
        }
        while i < self.departures.len()
            invariant
                i <= self.departures@.len(),
                can_age(*age),
                i <= done <= start.len(),
                self@ == (ReplayState { departures: self@.departures, ..old(self)@ }),
                self.departures@.skip(i as int) == start.skip(done),
                forall|g: spec_fn(Stamp) -> Stamp| #[trigger]
                    ages_as(*age, g) ==> self.departures@.take(i as int) == recent(
                        start.take(done),
                        g,
                    ),
            decreases self.departures@.len() - i,
        {
            let ghost before = self.departures@;
            let ghost d = before[i as int];
            assert(before.skip(i as int).len() == start.skip(done).len());
            assert(d == before.skip(i as int)[0]);
            assert(d == start.skip(done)[0]);
            assert(d == start[done]);
            assert(start.skip(done + 1) == start.skip(done).skip(1));
            let span: Stamp = age(self.departures[i].t_ms);
            if span <= CHURN_WINDOW_MS {
                i += 1;
                assert(self.departures@.take(i as int) == before.take(i - 1).push(d));
            } else {
                self.departures.remove(i);
                assert(self.departures@.take(i as int) == before.take(i as int));
            }
            assert(self.departures@.skip(i as int) == start.skip(done + 1));
            proof {
                assert forall|g: spec_fn(Stamp) -> Stamp| #[trigger]
                    ages_as(*age, g) implies self.departures@.take(i as int) == recent(
                    start.take(done + 1),
                    g,
                ) by {
                    reveal(Seq::filter);
                    assert(span == g(d.t_ms));
                    assert(start.take(done + 1).drop_last() == start.take(done));
                    assert(start.take(done + 1).last() == d);
                }
                done = done + 1;
            }
        }
        assert(start.skip(done).len() == 0);
        assert(start.take(done) == start);
        assert(self.departures@.take(i as int) == self.departures@);
    }

    /// Whether an object of the same class departed in the same place.
    fn churned<R: Fn(&Rect, &Rect) -> Level>(&self, s: &TrackSnapshot, rate: &R) -> (churn: bool)
        requires
            can_rate(*rate),
        ensures
            forall|g: spec_fn(Rect, Rect) -> Level| #[trigger]
                rates_as(*rate, g) ==> churn == is_churn(self@.departures, *s, g),
    {
        let here = Rect { x: s.x, y: s.y, width: s.width, height: s.height };
        let mut i: usize = 0;
        while i < self.departures.len()
            invariant
                i <= self.departures@.len(),
                can_rate(*rate),
                here == box_of(*s),
                forall|g: spec_fn(Rect, Rect) -> Level, j: int|
                    #![trigger rates_as(*rate, g), self.departures@[j]]
                    rates_as(*rate, g) && 0 <= j < i ==> !(self.departures@[j].snapshot.label@
                        == s.label@ && g(box_of(self.departures@[j].snapshot), box_of(*s))
                        >= CHURN_IOU),
            decreases self.departures@.len() - i,
        {
            let gone = &self.departures[i].snapshot;
            if gone.label == s.label {
                let there = Rect { x: gone.x, y: gone.y, width: gone.width, height: gone.height };
                if rate(&there, &here) >= CHURN_IOU {
                    assert(there == box_of(self.departures@[i as int].snapshot));
                    return true;
                }
            }
            i += 1;
        }
        false
    }

    /// Takes in that an object was created.
    fn create<F: Fn(Stamp) -> Stamp, R: Fn(&Rect, &Rect) -> Level>(
        &mut self,
        t_ms: Stamp,
        id: u32,
        age: &F,
        rate: &R,
    )
        requires
            old(self).wf(),
            old(self)@.tally.at_most(u64::MAX - 1),
            old(self)@.tracks_created < u64::MAX,
            can_age(*age),
            can_rate(*rate),
        ensures
            final(self).wf(),
            final(self)@.tracks_created == old(self)@.tracks_created + 1,
            final(self)@.tracks_removed == old(self)@.tracks_removed,
            forall|n: int| old(self)@.tally.at_most(n) ==> #[trigger] final(self)@.tally.at_most(
                n + 1,
            ),
            forall|f: spec_fn(Stamp) -> Stamp, g: spec_fn(Rect, Rect) -> Level|
                #![trigger ages_as(*age, f), rates_as(*rate, g)]
                ages_as(*age, f) && rates_as(*rate, g) ==> final(self)@ == old(
                    self,
                )@.with_created(t_ms, id, f, g),
    {
        self.tracks_created += 1;
        if let Some(at) = self.find(id) {
            self.retain_recent(age);
            let snapshot = self.known[at].snapshot.copy();
            if self.churned(&snapshot, rate) {
                self.identity_churn += 1;
            }
            self.emit(t_ms, SemanticEvent::ObjectEntered(snapshot));
        }
    }

    /// Takes in that an object was removed.
    fn remove(&mut self, t_ms: Stamp, id: u32)
        requires
            old(self).wf(),
            old(self)@.tally.at_most(u64::MAX - 1),
            old(self)@.tracks_removed < u64::MAX,
        ensures
            final(self).wf(),
            final(self)@ == old(self)@.with_removed(t_ms, id),
    {
        self.tracks_removed += 1;
        if let Some(at) = self.find(id) {
            let ghost before = self@;
            let mut gone = self.known.remove(at).snapshot;
            gone.state = TrackState::Departed;
            proof {
                assert forall|i: int, j: int| 0 <= i < j < self@.known.len() implies (
                #[trigger] self@.known[i]).snapshot.track_id != (
                #[trigger] self@.known[j]).snapshot.track_id by {
                    let a = if i < at {
                        i
                    } else {
                        i + 1
                    };
                    let b = if j < at {
                        j
                    } else {
                        j + 1
                    };
                    assert(before.known[a].snapshot.track_id != before.known[b].snapshot.track_id);
                }
            }
            self.departures.push(Departure { t_ms, snapshot: gone.copy() });
            self.emit(t_ms, SemanticEvent::ObjectDeparted(gone));
        }
    }
}

proof fn lemma_tally_grows(tally: Tally, event: SemanticEvent, n: int)
    requires
        tally.at_most(n),
        n < u64::MAX,
    ensures
        tally.with(event).at_most(n + 1),
{
}

impl Replay {
    /// Whether the counters have room for a tick.
    pub fn has_room(&self, detections: u64, tick: &EngineTick) -> (room: bool)
        ensures
            room == self@.has_room(detections, *tick),
    {
        let most: u128 = u64::MAX as u128;
        let more: u128 = tick.extra_events.len() as u128 + tick.tracks.len() as u128
            + tick.created.len() as u128 + tick.removed.len() as u128;
        let t = &self.tally;
        self.ticks < u64::MAX && self.detections_in as u128 + detections as u128 <= most
            && self.tracks_created as u128 + tick.created.len() as u128 <= most
            && self.tracks_removed as u128 + tick.removed.len() as u128 <= most
            && t.best_shot as u128 + more <= most && t.departed as u128 + more <= most
            && t.entered as u128 + more <= most && t.lost as u128 + more <= most
            && t.recovered as u128 + more <= most && t.settled as u128 + more <= most
            && t.woke as u128 + more <= most
    }

    /// Takes in a tick at the time `t_ms` with this many detections, which took so many
    /// microseconds. `age` gives how long ago a time is, and `rate` the overlap of two
    /// boxes.
    pub fn run_step<F: Fn(Stamp) -> Stamp, R: Fn(&Rect, &Rect) -> Level>(
        &mut self,
        t_ms: Stamp,
        detections: u64,
        micros: u64,
        tick: &EngineTick,
        age: &F,
        rate: &R,
    )
        requires
            old(self).wf(),
            old(self)@.has_room(detections, *tick),
            can_age(*age),
            can_rate(*rate),
        ensures
            final(self).wf(),
            forall|f: spec_fn(Stamp) -> Stamp, g: spec_fn(Rect, Rect) -> Level|
                #![trigger ages_as(*age, f), rates_as(*rate, g)]
                ages_as(*age, f) && rates_as(*rate, g) ==> final(self)@ == old(self)@.ticked(
                    t_ms,
                    detections,
                    micros,
                    *tick,
                    f,
                    g,
                ),
    {
        let ghost extra = tick.extra_events@.len() as int;
        let ghost seen = tick.tracks@.len() as int;
        let ghost born = tick.created@.len() as int;
        let ghost gone = tick.removed@.len() as int;
        let ghost room = u64::MAX - extra - seen - born - gone;
        let ghost created0 = self@.tracks_created;
        let ghost removed0 = self@.tracks_removed;
        self.ticks += 1;
        self.detections_in += detections;
        self.latencies_us.push(micros);
        let ghost counted = self@;
        let mut i: usize = 0;
        while i < tick.extra_events.len()
            invariant
                i <= tick.extra_events@.len(),
                extra == tick.extra_events@.len(),
                room == u64::MAX - extra - seen - born - gone,
                seen >= 0,
                born >= 0,
                gone >= 0,
                self.wf(),
                self@.tally.at_most(room + i),
                self@.tracks_created == created0,
                self@.tracks_removed == removed0,
                self@ == counted.with_events(t_ms, tick.extra_events@, i as int),
            decreases tick.extra_events@.len() - i,
        {
            proof {
                lemma_tally_grows(self@.tally, tick.extra_events@[i as int], room + i);
            }
            self.emit(t_ms, tick.extra_events[i].copy());
            i += 1;
        }
        let ghost told = self@;
        let mut i: usize = 0;
        while i < tick.tracks.len()
            invariant
                i <= tick.tracks@.len(),
                seen == tick.tracks@.len(),
                room == u64::MAX - extra - seen - born - gone,
                extra >= 0,
                born >= 0,
                gone >= 0,
                self.wf(),
                self@.tally.at_most(room + extra + i),
                self@.tracks_created == created0,
                self@.tracks_removed == removed0,
                self@ == told.with_sights(t_ms, tick.tracks@, i as int),
            decreases tick.tracks@.len() - i,
        {
            proof {
                let s = tick.tracks@[i as int].snapshot;
                lemma_tally_grows(self@.tally, SemanticEvent::ObjectLost(s), room + extra + i);
                lemma_tally_grows(
                    self@.tally,
                    SemanticEvent::ObjectRecovered(s),
                    room + extra + i,
                );
            }
            self.see(t_ms, &tick.tracks[i]);
            i += 1;
        }
        let ghost watched = self@;
        let mut i: usize = 0;
        while i < tick.created.len()
            invariant
                i <= tick.created@.len(),
                born == tick.created@.len(),
                room == u64::MAX - extra - seen - born - gone,
                extra >= 0,
                seen >= 0,
                gone >= 0,
                self.wf(),
                can_age(*age),
                can_rate(*rate),
                created0 + born <= u64::MAX,
                self@.tally.at_most(room + extra + seen + i),
                self@.tracks_created == created0 + i,
                self@.tracks_removed == removed0,
                forall|f: spec_fn(Stamp) -> Stamp, g: spec_fn(Rect, Rect) -> Level|
                    #![trigger ages_as(*age, f), rates_as(*rate, g)]
                    ages_as(*age, f) && rates_as(*rate, g) ==> self@ == watched.with_all_created(
                        t_ms,
                        tick.created@,
                        f,
                        g,
                        i as int,
                    ),
            decreases tick.created@.len() - i,
        {
            self.create(t_ms, tick.created[i], age, rate);
            assert(self@.tally.at_most(room + extra + seen + i + 1));
            i += 1;
        }
        let ghost entered = self@;
        let mut i: usize = 0;
        while i < tick.removed.len()
            invariant
                i <= tick.removed@.len(),
                gone == tick.removed@.len(),
                room == u64::MAX - extra - seen - born - gone,
                extra >= 0,
                seen >= 0,
                born >= 0,
                self.wf(),
                removed0 + gone <= u64::MAX,
                self@.tally.at_most(room + extra + seen + born + i),
                self@.tracks_removed == removed0 + i,
                self@ == entered.with_all_removed(t_ms, tick.removed@, i as int),
            decreases tick.removed@.len() - i,
        {
            proof {
                let known = self@.known;
                let s = known[place_of(known, tick.removed@[i as int])].snapshot.departed();
                lemma_tally_grows(
                    self@.tally,
                    SemanticEvent::ObjectDeparted(s),
                    room + extra + seen + born + i,
                );
            }
            self.remove(t_ms, tick.removed[i]);
            i += 1;
        }
    }
}

/// An event the replay takes from the engine as it is; entering and departing are told by
/// the lists of created and removed objects.
pub open spec fn is_extra(event: SemanticEvent) -> bool {
    !(event is ObjectEntered) && !(event is ObjectDeparted)
}

/// The tick a world's update stands for.
pub fn engine_tick(update: &WorldUpdate) -> (tick: EngineTick)
    ensures
        tick.tracks@ == update.tracks@.map_values(
            |s: TrackSnapshot| (Sight { snapshot: s, lost: false }),
        ),
        tick.created@ == update.created@,
        tick.removed@ == update.removed@,
        tick.extra_events@ == update.events@.filter(|e: SemanticEvent| is_extra(e)),
{
    let mut tracks: Vec<Sight> = Vec::new();
    let mut i: usize = 0;
    while i < update.tracks.len()
        invariant
            i <= update.tracks@.len(),
            tracks@.len() == i,
            forall|k: int|
                0 <= k < i ==> #[trigger] tracks@[k] == (Sight {
                    snapshot: update.tracks@[k],
                    lost: false,
                }),
        decreases update.tracks@.len() - i,
    {
        tracks.push(Sight { snapshot: update.tracks[i].copy(), lost: false });
        i += 1;
    }
    assert(tracks@ =~= update.tracks@.map_values(
        |s: TrackSnapshot| Sight { snapshot: s, lost: false },
    ));
    let ghost keep = |e: SemanticEvent| is_extra(e);
    let mut extra_events: Vec<SemanticEvent> = Vec::new();
    let mut i: usize = 0;
    proof {
        reveal(Seq::filter);
        assert(update.events@.take(0).len() == 0);
    }
    while i < update.events.len()
        invariant
            i <= update.events@.len(),
            keep == (|e: SemanticEvent| is_extra(e)),
            extra_events@ == update.events@.take(i as int).filter(keep),
        decreases update.events@.len() - i,
    {
        let extra = match &update.events[i] {
            SemanticEvent::ObjectEntered(_) => false,
            SemanticEvent::ObjectDeparted(_) => false,
            _ => true,
        };
        proof {
            reveal(Seq::filter);
            assert(update.events@.take(i + 1).drop_last() == update.events@.take(i as int));
            assert(update.events@.take(i + 1).last() == update.events@[i as int]);
            assert(extra == keep(update.events@[i as int]));
        }
        if extra {
            extra_events.push(update.events[i].copy());
        }
        i += 1;
    }
    assert(update.events@.take(i as int) == update.events@);
    EngineTick {
        tracks,
        created: copy_ids(&update.created),
        removed: copy_ids(&update.removed),
        extra_events,
    }
}

fn copy_ids(ids: &Vec<u32>) -> (copy: Vec<u32>)
    ensures
        copy@ == ids@,
{
    let mut copy: Vec<u32> = Vec::new();
    let mut i: usize = 0;
    while i < ids.len()
        invariant
            i <= ids@.len(),
            copy@ == ids@.take(i as int),
        decreases ids@.len() - i,
    {
        copy.push(ids[i]);
        i += 1;
        assert(ids@.take(i as int) == ids@.take(i - 1).push(ids@[i - 1]));
    }
    assert(ids@.take(i as int) == ids@);
    copy
}

/// How often a kind of event happened.
#[derive(Debug)]
pub struct KindCount {
    pub kind: String,
    pub count: u64,
}

/// The counts with one more, unless it is 0.
pub open spec fn with_count(counts: Seq<(Seq<char>, u64)>, kind: Seq<char>, n: u64) -> Seq<
    (Seq<char>, u64),
> {
    if n == 0 {
        counts
    } else {
        counts.push((kind, n))
    }
}

/// The kinds of events that happened, by name, and how often.
pub open spec fn kind_counts(t: Tally) -> Seq<(Seq<char>, u64)> {
    let c = with_count(Seq::empty(), "bestShotUpdated"@, t.best_shot);
    let c = with_count(c, "objectDeparted"@, t.departed);
    let c = with_count(c, "objectEntered"@, t.entered);
    let c = with_count(c, "objectLost"@, t.lost);
    let c = with_count(c, "objectRecovered"@, t.recovered);
    let c = with_count(c, "objectSettled"@, t.settled);
    with_count(c, "objectWoke"@, t.woke)
}

spec fn pairs(counts: Seq<KindCount>) -> Seq<(Seq<char>, u64)> {
    counts.map_values(|k: KindCount| (k.kind@, k.count))
}

fn push_count(counts: &mut Vec<KindCount>, kind: &str, n: u64)
    ensures
        pairs(final(counts)@) == with_count(pairs(old(counts)@), kind@, n),
{
    if n != 0 {
        counts.push(KindCount { kind: kind.to_owned(), count: n });
        assert(pairs(counts@) =~= pairs(old(counts)@).push((kind@, n)));
    }
}

/// The kinds of events that happened, by name, and how often.
fn events_by_type(t: &Tally) -> (counts: Vec<KindCount>)
    ensures
        counts@.map_values(|k: KindCount| (k.kind@, k.count)) == kind_counts(*t),
{
    let mut counts: Vec<KindCount> = Vec::new();
    assert(pairs(counts@) =~= Seq::empty());
    push_count(&mut counts, "bestShotUpdated", t.best_shot);
    push_count(&mut counts, "objectDeparted", t.departed);
    push_count(&mut counts, "objectEntered", t.entered);
    push_count(&mut counts, "objectLost", t.lost);
    push_count(&mut counts, "objectRecovered", t.recovered);
    push_count(&mut counts, "objectSettled", t.settled);
    push_count(&mut counts, "objectWoke", t.woke);
    counts
}

/// How long the ticks took. The mean is the sum over the count.
#[derive(Debug, Clone, Copy, PartialEq, Eq, Structural)]
pub struct LatencyStats {
    pub sum_us: u64,
    pub count: usize,
    pub p50_us: u64,
    pub p95_us: u64,
    pub max_us: u64,
}

/// The sum of the first `n` numbers.
pub open spec fn total(numbers: Seq<u64>, n: int) -> nat
    decreases n,
{
    if n <= 0 {
        0
    } else {
        total(numbers, n - 1) + numbers[n - 1] as nat
    }
}

/// The numbers, the smallest first.
pub open spec fn ascending(numbers: Seq<u64>) -> Seq<u64> {
    numbers.sort_by(|a: u64, b: u64| a <= b)
}

/// The number below which this share of the others lies, in percent.
pub open spec fn percentile(numbers: Seq<u64>, percent: int) -> u64 {
    ascending(numbers)[(numbers.len() - 1) * percent / 100]
}

proof fn lemma_total_grows(numbers: Seq<u64>, a: int, b: int)
    requires
        a <= b,
    ensures
        total(numbers, a) <= total(numbers, b),
    decreases b,
{
    if b > 0 && a < b {
        lemma_total_grows(numbers, a, b - 1);
    }
}

/// The numbers, the smallest first.
fn sort(numbers: &Vec<u64>) -> (sorted: Vec<u64>)
    ensures
        sorted@ == ascending(numbers@),
        sorted@.len() == numbers@.len(),
{
    broadcast use vstd::seq_lib::group_to_multiset_ensures;

    let ghost leq = |a: u64, b: u64| a <= b;
    let mut sorted: Vec<u64> = Vec::new();
    let mut i: usize = 0;
    assert(numbers@.take(0) == sorted@);
    while i < numbers.len()
        invariant
            i <= numbers@.len(),
            sorted@.len() == i,
            sorted@.to_multiset() == numbers@.take(i as int).to_multiset(),
            forall|a: int, b: int| 0 <= a <= b < sorted@.len() ==> sorted@[a] <= sorted@[b],
        decreases numbers@.len() - i,
    {
        let x: u64 = numbers[i];
        let ghost before = sorted@;
        let mut p: usize = sorted.len();
        while p > 0 && sorted[p - 1] > x
            invariant
                p <= sorted@.len(),
                sorted@ == before,
                forall|k: int| p <= k < before.len() ==> #[trigger] before[k] > x,
            decreases p,
        {
            p -= 1;
        }
        sorted.insert(p, x);
        proof {
            assert(sorted@ == before.insert(p as int, x));
            assert(numbers@.take(i + 1) == numbers@.take(i as int).push(x));
            vstd::seq_lib::to_multiset_insert(before, p as int, x);
            vstd::seq_lib::to_multiset_build(numbers@.take(i as int), x);
            assert forall|a: int, b: int| 0 <= a <= b < sorted@.len() implies sorted@[a]
                <= sorted@[b] by {
                if a < p && b == p {
                    assert(before[a] <= before[p - 1]);
                }
            }
        }
        i += 1;
    }
    proof {
        assert(numbers@.take(i as int) == numbers@);
        numbers@.lemma_sort_by_ensures(leq);
        vstd::seq_lib::lemma_sorted_unique(sorted@, ascending(numbers@), leq);
    }
    sorted
}

/// How long the ticks took. The list is left in ascending order.
pub fn latency_stats(latencies_us: &mut Vec<u64>) -> (stats: LatencyStats)
    requires
        total(old(latencies_us)@, old(latencies_us)@.len() as int) <= u64::MAX,
    ensures
        final(latencies_us)@ == ascending(old(latencies_us)@),
        stats.sum_us == total(old(latencies_us)@, old(latencies_us)@.len() as int),
        stats.count == old(latencies_us)@.len(),
        old(latencies_us)@.len() == 0 ==> stats.p50_us == 0 && stats.p95_us == 0 && stats.max_us
            == 0,
        old(latencies_us)@.len() > 0 ==> {
            &&& stats.p50_us == percentile(old(latencies_us)@, 50)
            &&& stats.p95_us == percentile(old(latencies_us)@, 95)
            &&& stats.max_us == percentile(old(latencies_us)@, 100)
        },
{
    let n: usize = latencies_us.len();
    let ghost taken = latencies_us@;
    let mut sum: u64 = 0;
    let mut i: usize = 0;
    while i < n
        invariant
            i <= n,
            latencies_us@ == taken,
            n == taken.len(),
            total(taken, n as int) <= u64::MAX,
            sum == total(taken, i as int),
        decreases n - i,
    {
        proof {
            lemma_total_grows(taken, i + 1, n as int);
        }
        sum += latencies_us[i];
        i += 1;
    }
    let sorted = sort(latencies_us);
    *latencies_us = sorted;
    if n == 0 {
        return LatencyStats { sum_us: 0, count: 0, p50_us: 0, p95_us: 0, max_us: 0 };
    }
    let last: usize = n - 1;
    let at50: usize = last / 2;
    let at95: usize = (last / 100) * 95 + (last % 100) * 95 / 100;
    assert(at50 == last * 50 / 100);
    assert(at95 == last * 95 / 100);
    LatencyStats {
        sum_us: sum,
        count: n,
        p50_us: latencies_us[at50],
        p95_us: latencies_us[at95],
        max_us: latencies_us[last],
    }
}

/// A replay, summed up.
#[derive(Debug)]
pub struct ReplaySummary {
    pub ticks: u64,
    pub detections_in: u64,
    pub tracks_created: u64,
    pub tracks_removed: u64,
    pub identity_churn: u64,
    pub events_by_type: Vec<KindCount>,
    pub tick_latency: LatencyStats,
    pub events: Vec<TimedEvent>,
}

impl Replay {
    /// The replay, summed up.
    pub fn summary(self) -> (summary: ReplaySummary)
        requires
            total(self@.latencies_us, self@.latencies_us.len() as int) <= u64::MAX,
        ensures
            summary.ticks == self@.ticks,
            summary.detections_in == self@.detections_in,
            summary.tracks_created == self@.tracks_created,
            summary.tracks_removed == self@.tracks_removed,
            summary.identity_churn == self@.identity_churn,
            summary.events_by_type@.map_values(|k: KindCount| (k.kind@, k.count)) == kind_counts(
                self@.tally,
            ),
            summary.events@ == self@.events,
            summary.tick_latency.sum_us == total(
                self@.latencies_us,
                self@.latencies_us.len() as int,
            ),
            summary.tick_latency.count == self@.latencies_us.len(),
            self@.latencies_us.len() == 0 ==> summary.tick_latency.p50_us == 0
                && summary.tick_latency.p95_us == 0 && summary.tick_latency.max_us == 0,
            self@.latencies_us.len() > 0 ==> {
                &&& summary.tick_latency.p50_us == percentile(self@.latencies_us, 50)
                &&& summary.tick_latency.p95_us == percentile(self@.latencies_us, 95)
                &&& summary.tick_latency.max_us == percentile(self@.latencies_us, 100)
            },
    {
        let mut latencies_us = self.latencies_us;
        ReplaySummary {
            ticks: self.ticks,
            detections_in: self.detections_in,
            tracks_created: self.tracks_created,
            tracks_removed: self.tracks_removed,
            identity_churn: self.identity_churn,
            events_by_type: events_by_type(&self.tally),
            tick_latency: latency_stats(&mut latencies_us),
            events: self.events,
        }
    }
}

/// The tally of the first `n` of these events.
pub open spec fn tally_of(events: Seq<TimedEvent>, n: int) -> Tally
    decreases n,
{
    if n <= 0 {
        Tally::zero()
    } else {
        tally_of(events, n - 1).with(events[n - 1].event)
    }
}

impl ReplayState {
    /// Where events are kept, the tally is that of the events.
    pub open spec fn tally_is_true(self) -> bool {
        self.keep_events ==> self.tally == tally_of(self.events, self.events.len() as int)
    }

    /// The two agree on what is counted per tick and per object.
    pub open spec fn same_counts(self, other: ReplayState) -> bool {
        &&& self.keep_events == other.keep_events
        &&& self.ticks == other.ticks
        &&& self.detections_in == other.detections_in
        &&& self.latencies_us == other.latencies_us
    }
}

proof fn lemma_tally_prefix(a: Seq<TimedEvent>, b: Seq<TimedEvent>, n: int)
    requires
        0 <= n <= a.len(),
        n <= b.len(),
        forall|i: int| 0 <= i < n ==> #[trigger] a[i] == b[i],
    ensures
        tally_of(a, n) == tally_of(b, n),
    decreases n,
{
    if n > 0 {
        lemma_tally_prefix(a, b, n - 1);
        assert(a[n - 1] == b[n - 1]);
    }
}

proof fn lemma_emitted_is_true(state: ReplayState, t_ms: Stamp, event: SemanticEvent)
    requires
        state.tally_is_true(),
    ensures
        state.emitted(t_ms, event).tally_is_true(),
{
    let after = state.emitted(t_ms, event);
    if state.keep_events {
        lemma_tally_prefix(state.events, after.events, state.events.len() as int);
    }
}

proof fn lemma_events_are_true(state: ReplayState, t_ms: Stamp, events: Seq<SemanticEvent>, n: int)
    requires
        state.tally_is_true(),
    ensures
        state.with_events(t_ms, events, n).tally_is_true(),
        state.with_events(t_ms, events, n).same_counts(state),
        state.with_events(t_ms, events, n).tracks_created == state.tracks_created,
        state.with_events(t_ms, events, n).tracks_removed == state.tracks_removed,
    decreases n,
{
    if n > 0 {
        lemma_events_are_true(state, t_ms, events, n - 1);
        lemma_emitted_is_true(
            state.with_events(t_ms, events, n - 1),
            t_ms,
            events[n - 1],
        );
    }
}

proof fn lemma_sights_are_true(state: ReplayState, t_ms: Stamp, sights: Seq<Sight>, n: int)
    requires
        state.tally_is_true(),
    ensures
        state.with_sights(t_ms, sights, n).tally_is_true(),
        state.with_sights(t_ms, sights, n).same_counts(state),
        state.with_sights(t_ms, sights, n).tracks_created == state.tracks_created,
        state.with_sights(t_ms, sights, n).tracks_removed == state.tracks_removed,
    decreases n,
{
    if n > 0 {
        lemma_sights_are_true(state, t_ms, sights, n - 1);
        let before = state.with_sights(t_ms, sights, n - 1);
        let sight = sights[n - 1];
        let seen = ReplayState { known: seen_again(before.known, sight), ..before };
        lemma_emitted_is_true(seen, t_ms, SemanticEvent::ObjectLost(sight.snapshot));
        lemma_emitted_is_true(seen, t_ms, SemanticEvent::ObjectRecovered(sight.snapshot));
    }
}

proof fn lemma_created_are_true(
    state: ReplayState,
    t_ms: Stamp,
    ids: Seq<u32>,
    age: spec_fn(Stamp) -> Stamp,
    rate: spec_fn(Rect, Rect) -> Level,
    n: int,
)
    requires
        state.tally_is_true(),
        0 <= n,
        state.tracks_created + n <= u64::MAX,
    ensures
        state.with_all_created(t_ms, ids, age, rate, n).tally_is_true(),
        state.with_all_created(t_ms, ids, age, rate, n).same_counts(state),
        state.with_all_created(t_ms, ids, age, rate, n).tracks_created == state.tracks_created + n,
        state.with_all_created(t_ms, ids, age, rate, n).tracks_removed == state.tracks_removed,
    decreases n,
{
    if n > 0 {
        lemma_created_are_true(state, t_ms, ids, age, rate, n - 1);
        let before = state.with_all_created(t_ms, ids, age, rate, n - 1);
        let id = ids[n - 1];
        let snapshot = before.known[place_of(before.known, id)].snapshot;
        let departures = recent(before.departures, age);
        let counted = ReplayState {
            tracks_created: (before.tracks_created + 1) as u64,
            departures,
            identity_churn: if is_churn(departures, snapshot, rate) {
                (before.identity_churn + 1) as u64
            } else {
                before.identity_churn
            },
            ..before
        };
        lemma_emitted_is_true(counted, t_ms, SemanticEvent::ObjectEntered(snapshot));
    }
}

proof fn lemma_removed_are_true(state: ReplayState, t_ms: Stamp, ids: Seq<u32>, n: int)
    requires
        state.tally_is_true(),
        0 <= n,
        state.tracks_removed + n <= u64::MAX,
    ensures
        state.with_all_removed(t_ms, ids, n).tally_is_true(),
        state.with_all_removed(t_ms, ids, n).same_counts(state),
        state.with_all_removed(t_ms, ids, n).tracks_created == state.tracks_created,
        state.with_all_removed(t_ms, ids, n).tracks_removed == state.tracks_removed + n,
    decreases n,
{
    if n > 0 {
        lemma_removed_are_true(state, t_ms, ids, n - 1);
        let before = state.with_all_removed(t_ms, ids, n - 1);
        let i = place_of(before.known, ids[n - 1]);
        let gone = before.known[i].snapshot.departed();
        let counted = ReplayState {
            tracks_removed: (before.tracks_removed + 1) as u64,
            known: before.known.remove(i),
            departures: before.departures.push(Departure { t_ms, snapshot: gone }),
            ..before
        };
        lemma_emitted_is_true(counted, t_ms, SemanticEvent::ObjectDeparted(gone));
    }
}

/// A tick is counted once, with all its detections and all objects created and removed in
/// it, and where events are kept the tally stays that of the events.
pub proof fn law_a_tick_is_counted(
    state: ReplayState,
    t_ms: Stamp,
    detections: u64,
    micros: u64,
    tick: EngineTick,
    age: spec_fn(Stamp) -> Stamp,
    rate: spec_fn(Rect, Rect) -> Level,
)
    requires
        state.tally_is_true(),
        state.has_room(detections, tick),
    ensures
        ({
            let after = state.ticked(t_ms, detections, micros, tick, age, rate);
            &&& after.tally_is_true()
            &&& after.ticks == state.ticks + 1
            &&& after.detections_in == state.detections_in + detections
            &&& after.latencies_us == state.latencies_us.push(micros)
            &&& after.tracks_created == state.tracks_created + tick.created@.len()
            &&& after.tracks_removed == state.tracks_removed + tick.removed@.len()
        }),
{
    let counted = ReplayState {
        ticks: (state.ticks + 1) as u64,
        detections_in: (state.detections_in + detections) as u64,
        latencies_us: state.latencies_us.push(micros),
        ..state
    };
    let extra = tick.extra_events@;
    lemma_events_are_true(counted, t_ms, extra, extra.len() as int);
    let told = counted.with_events(t_ms, extra, extra.len() as int);
    lemma_sights_are_true(told, t_ms, tick.tracks@, tick.tracks@.len() as int);
    let watched = told.with_sights(t_ms, tick.tracks@, tick.tracks@.len() as int);
    lemma_created_are_true(
        watched,
        t_ms,
        tick.created@,
        age,
        rate,
        tick.created@.len() as int,
    );
    let entered = watched.with_all_created(
        t_ms,
        tick.created@,
        age,
        rate,
        tick.created@.len() as int,
    );
    lemma_removed_are_true(entered, t_ms, tick.removed@, tick.removed@.len() as int);
}

/// An identity was lost if an object of the same class departed within the last 120 seconds
/// and overlaps the new one by at least 0.3.
pub proof fn law_the_limits_of_a_lost_identity()
    ensures
        stamp_is(CHURN_WINDOW_MS, 120_000, 1),
        level_is(CHURN_IOU, 3, 10),
{
    lemma2_to64();
    lemma2_to64_rest();
    lemma_is_nearest(
        4682982750418894848,
        0x10_0000_0000_0000,
        1075,
        120000,
        1,
        1039,
        3742737580949504,
        68719476736,
    );
    lemma_is_nearest(1050253722, 0x80_0000, 150, 3, 10, 125, 1677722, 33554432);
}

/// An event is counted under its own kind and no other, and kept with its time exactly if
/// events are kept.
pub proof fn law_an_event_is_counted_once(state: ReplayState, t_ms: Stamp, event: SemanticEvent)
    requires
        state.tally.at_most(u64::MAX - 1),
    ensures
        ({
            let after = state.emitted(t_ms, event);
            let one = |is: bool|
                if is {
                    1int
                } else {
                    0int
                };
            &&& after.tally.entered == state.tally.entered + one(event is ObjectEntered)
            &&& after.tally.lost == state.tally.lost + one(event is ObjectLost)
            &&& after.tally.recovered == state.tally.recovered + one(event is ObjectRecovered)
            &&& after.tally.settled == state.tally.settled + one(event is ObjectSettled)
            &&& after.tally.woke == state.tally.woke + one(event is ObjectWoke)
            &&& after.tally.departed == state.tally.departed + one(event is ObjectDeparted)
            &&& after.tally.best_shot == state.tally.best_shot + one(event is BestShotUpdated)
            &&& state.keep_events ==> after.events == state.events.push(TimedEvent { t_ms, event })
            &&& !state.keep_events ==> after.events == state.events
            &&& after.known == state.known && after.departures == state.departures
        }),
{
}

/// The events that are not the beginning or the end of an object are told as they are.
pub proof fn law_only_beginnings_and_ends_are_held_back(event: SemanticEvent)
    ensures
        is_extra(event) <==> event is ObjectLost || event is ObjectRecovered || event
            is ObjectSettled || event is ObjectWoke || event is BestShotUpdated,
{
}

/// Seeing an object again replaces what was known of it; one that was in sight and is lost now
/// is reported as lost, one that was lost and is in sight now as recovered, and nothing else
/// is reported. One that was not known before is known from then on.
pub proof fn law_a_sight_is_told_by_its_change(
    state: ReplayState,
    t_ms: Stamp,
    sight: Sight,
    i: int,
)
    requires
        state.ok(),
        0 <= i < state.known.len(),
        state.known[i].snapshot.track_id == sight.snapshot.track_id,
    ensures
        ({
            let after = state.with_sight(t_ms, sight);
            let was_lost = state.known[i].lost;
            &&& after.known == state.known.update(i, sight)
            &&& !was_lost && sight.lost ==> after.tally == state.tally.with(
                SemanticEvent::ObjectLost(sight.snapshot),
            ) && (state.keep_events ==> after.events == state.events.push(
                TimedEvent { t_ms, event: SemanticEvent::ObjectLost(sight.snapshot) },
            ))
            &&& was_lost && !sight.lost ==> after.tally == state.tally.with(
                SemanticEvent::ObjectRecovered(sight.snapshot),
            ) && (state.keep_events ==> after.events == state.events.push(
                TimedEvent { t_ms, event: SemanticEvent::ObjectRecovered(sight.snapshot) },
            ))
            &&& was_lost == sight.lost ==> after.tally == state.tally && after.events
                == state.events
        }),
{
    lemma_place_of(state.known, i);
}

/// An object seen for the first time is known from then on, and nothing is reported of it.
pub proof fn law_a_first_sight_is_not_told(state: ReplayState, t_ms: Stamp, sight: Sight)
    requires
        forall|i: int|
            0 <= i < state.known.len() ==> (#[trigger] state.known[i]).snapshot.track_id
                != sight.snapshot.track_id,
    ensures
        ({
            let after = state.with_sight(t_ms, sight);
            &&& after.known == state.known.push(sight)
            &&& after.tally == state.tally && after.events == state.events
        }),
{
}

/// A known object that is created enters. It has lost its identity exactly if an object of its
/// class departed not longer ago than the window and overlaps it enough; departures longer
/// ago are forgotten.
pub proof fn law_a_created_object_enters(
    state: ReplayState,
    t_ms: Stamp,
    i: int,
    age: spec_fn(Stamp) -> Stamp,
    rate: spec_fn(Rect, Rect) -> Level,
)
    requires
        state.ok(),
        0 <= i < state.known.len(),
        state.tracks_created < u64::MAX,
    ensures
        ({
            let s = state.known[i].snapshot;
            let after = state.with_created(t_ms, s.track_id, age, rate);
            let churned = exists|k: int|
                {
                    let d = (#[trigger] state.departures[k]).snapshot;
                    &&& 0 <= k < state.departures.len()
                    &&& age(state.departures[k].t_ms) <= CHURN_WINDOW_MS
                    &&& d.label@ == s.label@
                    &&& rate(
                        Rect { x: d.x, y: d.y, width: d.width, height: d.height },
                        Rect { x: s.x, y: s.y, width: s.width, height: s.height },
                    ) >= CHURN_IOU
                };
            &&& after.tracks_created == state.tracks_created + 1
            &&& after.tally == state.tally.with(SemanticEvent::ObjectEntered(s))
            &&& state.keep_events ==> after.events == state.events.push(
                TimedEvent { t_ms, event: SemanticEvent::ObjectEntered(s) },
            )
            &&& after.identity_churn == state.identity_churn + (if churned {
                1int
            } else {
                0int
            })
            &&& after.departures == state.departures.filter(
                |d: Departure| age(d.t_ms) <= CHURN_WINDOW_MS,
            )
        }),
{
    let s = state.known[i].snapshot;
    lemma_place_of(state.known, i);
    let keep = |d: Departure| age(d.t_ms) <= CHURN_WINDOW_MS;
    let left = recent(state.departures, age);
    assert(left == state.departures.filter(keep));
    if is_churn(left, s, rate) {
        let j = choose|j: int|
            0 <= j < left.len() && (#[trigger] left[j]).snapshot.label@ == s.label@ && rate(
                box_of(left[j].snapshot),
                box_of(s),
            ) >= CHURN_IOU;
        state.departures.lemma_filter_pred(keep, j);
        lemma_recent_are_departures(state.departures, keep, j);
        let k = choose|k: int|
            0 <= k < state.departures.len() && state.departures[k] == left[j];
        assert(state.departures[k].snapshot.label@ == s.label@);
    }
    assert forall|k: int|
        {
            let d = (#[trigger] state.departures[k]).snapshot;
            &&& 0 <= k < state.departures.len()
            &&& age(state.departures[k].t_ms) <= CHURN_WINDOW_MS
            &&& d.label@ == s.label@
            &&& rate(
                Rect { x: d.x, y: d.y, width: d.width, height: d.height },
                Rect { x: s.x, y: s.y, width: s.width, height: s.height },
            ) >= CHURN_IOU
        } implies is_churn(left, s, rate) by {
        state.departures.lemma_filter_contains(keep, k);
        let j = choose|j: int| 0 <= j < left.len() && left[j] == state.departures[k];
        assert(left[j].snapshot.label@ == s.label@);
    }
}

proof fn lemma_recent_are_departures(
    departures: Seq<Departure>,
    keep: spec_fn(Departure) -> bool,
    j: int,
)
    requires
        0 <= j < departures.filter(keep).len(),
    ensures
        departures.contains(departures.filter(keep)[j]),
    decreases departures.len(),
{
    reveal(Seq::filter);
    if departures.len() > 0 {
        let rest = departures.drop_last();
        if j < rest.filter(keep).len() {
            lemma_recent_are_departures(rest, keep, j);
            let i = choose|i: int| 0 <= i < rest.len() && rest[i] == rest.filter(keep)[j];
            assert(departures[i] == departures.filter(keep)[j]);
        } else {
            assert(departures[departures.len() - 1] == departures.filter(keep)[j]);
        }
    }
}

/// A known object that is removed departs: it is reported as departed, as it was last, is not
/// known any more, and its departure is remembered with its time.
pub proof fn law_a_removed_object_departs(state: ReplayState, t_ms: Stamp, i: int)
    requires
        state.ok(),
        0 <= i < state.known.len(),
        state.tracks_removed < u64::MAX,
    ensures
        ({
            let s = state.known[i].snapshot;
            let gone = TrackSnapshot { state: TrackState::Departed, ..s };
            let after = state.with_removed(t_ms, s.track_id);
            &&& after.tracks_removed == state.tracks_removed + 1
            &&& after.known == state.known.remove(i)
            &&& after.departures == state.departures.push(Departure { t_ms, snapshot: gone })
            &&& after.tally == state.tally.with(SemanticEvent::ObjectDeparted(gone))
            &&& state.keep_events ==> after.events == state.events.push(
                TimedEvent { t_ms, event: SemanticEvent::ObjectDeparted(gone) },
            )
        }),
{
    lemma_place_of(state.known, i);
}

/// An object that is not known is only counted when it is created or removed.
pub proof fn law_an_unknown_object_is_only_counted(
    state: ReplayState,
    t_ms: Stamp,
    id: u32,
    age: spec_fn(Stamp) -> Stamp,
    rate: spec_fn(Rect, Rect) -> Level,
)
    requires
        state.tracks_created < u64::MAX,
        state.tracks_removed < u64::MAX,
        forall|i: int|
            0 <= i < state.known.len() ==> (#[trigger] state.known[i]).snapshot.track_id != id,
    ensures
        state.with_created(t_ms, id, age, rate) == (ReplayState {
            tracks_created: (state.tracks_created + 1) as u64,
            ..state
        }),
        state.with_removed(t_ms, id) == (ReplayState {
            tracks_removed: (state.tracks_removed + 1) as u64,
            ..state
        }),
{
}

/// The kinds of events that happened are listed with how often they did, and those that did
/// not are not listed.
pub proof fn law_the_kinds_that_happened_are_listed(t: Tally)
    ensures
        t.best_shot > 0 ==> kind_counts(t).contains(("bestShotUpdated"@, t.best_shot)),
        t.departed > 0 ==> kind_counts(t).contains(("objectDeparted"@, t.departed)),
        t.entered > 0 ==> kind_counts(t).contains(("objectEntered"@, t.entered)),
        t.lost > 0 ==> kind_counts(t).contains(("objectLost"@, t.lost)),
        t.recovered > 0 ==> kind_counts(t).contains(("objectRecovered"@, t.recovered)),
        t.settled > 0 ==> kind_counts(t).contains(("objectSettled"@, t.settled)),
        t.woke > 0 ==> kind_counts(t).contains(("objectWoke"@, t.woke)),
        t.best_shot > 0 && t.departed > 0 && t.entered > 0 && t.lost > 0 && t.recovered > 0
            && t.settled > 0 && t.woke > 0 ==> kind_counts(t)[0].0 == "bestShotUpdated"@
            && kind_counts(t)[1].0 == "objectDeparted"@ && kind_counts(t)[2].0
            == "objectEntered"@ && kind_counts(t)[3].0 == "objectLost"@ && kind_counts(t)[4].0
            == "objectRecovered"@ && kind_counts(t)[5].0 == "objectSettled"@ && kind_counts(t)[6].0
            == "objectWoke"@,
        ({
            let one = |n: u64|
                if n > 0 {
                    1int
                } else {
                    0int
                };
            kind_counts(t).len() == one(t.best_shot) + one(t.departed) + one(t.entered) + one(
                t.lost,
            ) + one(t.recovered) + one(t.settled) + one(t.woke)
        }),
{
    let c0 = Seq::<(Seq<char>, u64)>::empty();
    let c1 = with_count(c0, "bestShotUpdated"@, t.best_shot);
    let c2 = with_count(c1, "objectDeparted"@, t.departed);
    let c3 = with_count(c2, "objectEntered"@, t.entered);
    let c4 = with_count(c3, "objectLost"@, t.lost);
    let c5 = with_count(c4, "objectRecovered"@, t.recovered);
    let c6 = with_count(c5, "objectSettled"@, t.settled);
    let c7 = with_count(c6, "objectWoke"@, t.woke);
    assert(kind_counts(t) == c7);
    lemma_count_is_kept(c0, "bestShotUpdated"@, t.best_shot);
    lemma_count_is_kept(c1, "objectDeparted"@, t.departed);
    lemma_count_is_kept(c2, "objectEntered"@, t.entered);
    lemma_count_is_kept(c3, "objectLost"@, t.lost);
    lemma_count_is_kept(c4, "objectRecovered"@, t.recovered);
    lemma_count_is_kept(c5, "objectSettled"@, t.settled);
    lemma_count_is_kept(c6, "objectWoke"@, t.woke);
}

proof fn lemma_count_is_kept(counts: Seq<(Seq<char>, u64)>, kind: Seq<char>, n: u64)
    ensures
        n > 0 ==> with_count(counts, kind, n).contains((kind, n)),
        forall|c: (Seq<char>, u64)|
            counts.contains(c) ==> #[trigger] with_count(counts, kind, n).contains(c),
{
    let after = with_count(counts, kind, n);
    if n > 0 {
        assert(after[counts.len() as int] == (kind, n));
    }
    assert forall|c: (Seq<char>, u64)| counts.contains(c) implies #[trigger] after.contains(c) by {
        let k = choose|k: int| 0 <= k < counts.len() && counts[k] == c;
        assert(after[k] == c);
    }
}

/// A percentile is one of the numbers; those in order before it are not above it and those
/// behind it not below, and the hundredth is the highest of all.
pub proof fn law_a_percentile_parts_the_numbers(numbers: Seq<u64>, percent: int)
    requires
        numbers.len() > 0,
        0 <= percent <= 100,
    ensures
        ({
            let sorted = ascending(numbers);
            let at = (numbers.len() - 1) * percent / 100;
            &&& sorted.to_multiset() == numbers.to_multiset()
            &&& sorted.len() == numbers.len()
            &&& 0 <= at < sorted.len()
            &&& percentile(numbers, percent) == sorted[at]
            &&& forall|i: int| 0 <= i <= at ==> (#[trigger] sorted[i]) <= sorted[at]
            &&& forall|i: int| at <= i < sorted.len() ==> (#[trigger] sorted[i]) >= sorted[at]
            &&& percent == 100 ==> at == sorted.len() - 1
            &&& percent == 50 ==> at == (sorted.len() - 1) / 2
        }),
{
    broadcast use vstd::seq_lib::group_to_multiset_ensures;

    let leq = |a: u64, b: u64| a <= b;
    numbers.lemma_sort_by_ensures(leq);
    let sorted = ascending(numbers);
    let last = numbers.len() - 1;
    let at = last * percent / 100;
    assert(sorted.len() == sorted.to_multiset().len());
    assert(numbers.len() == numbers.to_multiset().len());
    assert(0 <= last * percent <= last * 100) by (nonlinear_arith)
        requires
            0 <= percent <= 100,
            0 <= last,
    ;
    assert forall|i: int, j: int| 0 <= i < j < sorted.len() implies (#[trigger] sorted[i]) <= (
    #[trigger] sorted[j]) by {
        assert(leq(sorted[i], sorted[j]));
    }
}

/// A sum of numbers grows by each of them.
pub proof fn law_a_sum_grows_by_each_number(numbers: Seq<u64>, n: int)
    requires
        0 <= n < numbers.len(),
    ensures
        total(numbers, 0) == 0,
        total(numbers, n + 1) == total(numbers, n) + numbers[n],
{
}

/// The events of one state begin with those of another.
pub open spec fn goes_on(before: Seq<TimedEvent>, after: Seq<TimedEvent>) -> bool {
    before.len() <= after.len() && forall|k: int|
        0 <= k < before.len() ==> #[trigger] after[k] == before[k]
}

proof fn lemma_events_go_on(
    state: ReplayState,
    t_ms: Stamp,
    tick: EngineTick,
    age: spec_fn(Stamp) -> Stamp,
    rate: spec_fn(Rect, Rect) -> Level,
    n: int,
)
    ensures
        goes_on(state.events, state.with_events(t_ms, tick.extra_events@, n).events),
        goes_on(state.events, state.with_sights(t_ms, tick.tracks@, n).events),
        goes_on(
            state.events,
            state.with_all_created(t_ms, tick.created@, age, rate, n).events,
        ),
        goes_on(state.events, state.with_all_removed(t_ms, tick.removed@, n).events),
        state.with_events(t_ms, tick.extra_events@, n).keep_events == state.keep_events,
    decreases n,
{
    if n > 0 {
        lemma_events_go_on(state, t_ms, tick, age, rate, n - 1);
    }
}

proof fn lemma_extra_events(state: ReplayState, t_ms: Stamp, events: Seq<SemanticEvent>, n: int)
    requires
        state.keep_events,
        0 <= n <= events.len(),
    ensures
        ({
            let after = state.with_events(t_ms, events, n);
            &&& after.keep_events
            &&& after.events.len() == state.events.len() + n
            &&& forall|k: int|
                0 <= k < n ==> #[trigger] after.events[state.events.len() + k] == (TimedEvent {
                    t_ms,
                    event: events[k],
                })
        }),
    decreases n,
{
    if n > 0 {
        lemma_extra_events(state, t_ms, events, n - 1);
        let before = state.with_events(t_ms, events, n - 1);
        let after = state.with_events(t_ms, events, n);
        assert forall|k: int| 0 <= k < n implies #[trigger] after.events[state.events.len() + k]
            == (TimedEvent { t_ms, event: events[k] }) by {
            if k < n - 1 {
                assert(after.events[state.events.len() + k] == before.events[state.events.len()
                    + k]);
            }
        }
    }
}

/// A replay never takes back what it told, and a tick first tells what the engine told, in its
/// order and at the time of the tick.
pub proof fn law_a_tick_tells_first_what_the_engine_told(
    state: ReplayState,
    t_ms: Stamp,
    detections: u64,
    micros: u64,
    tick: EngineTick,
    age: spec_fn(Stamp) -> Stamp,
    rate: spec_fn(Rect, Rect) -> Level,
    k: int,
)
    requires
        state.keep_events,
        0 <= k < tick.extra_events@.len(),
    ensures
        ({
            let after = state.ticked(t_ms, detections, micros, tick, age, rate);
            &&& goes_on(state.events, after.events)
            &&& state.events.len() + k < after.events.len()
            &&& after.events[state.events.len() + k].t_ms == t_ms
            &&& after.events[state.events.len() + k].event == tick.extra_events@[k]
        }),
{
    let counted = ReplayState {
        ticks: (state.ticks + 1) as u64,
        detections_in: (state.detections_in + detections) as u64,
        latencies_us: state.latencies_us.push(micros),
        ..state
    };
    let n = tick.extra_events@.len() as int;
    lemma_events_go_on(counted, t_ms, tick, age, rate, n);
    lemma_extra_events(counted, t_ms, tick.extra_events@, n);
    let told = counted.with_events(t_ms, tick.extra_events@, n);
    let m = tick.tracks@.len() as int;
    lemma_events_go_on(told, t_ms, tick, age, rate, m);
    let watched = told.with_sights(t_ms, tick.tracks@, m);
    let c = tick.created@.len() as int;
    lemma_events_go_on(watched, t_ms, tick, age, rate, c);
    let entered = watched.with_all_created(t_ms, tick.created@, age, rate, c);
    lemma_events_go_on(entered, t_ms, tick, age, rate, tick.removed@.len() as int);
    let after = state.ticked(t_ms, detections, micros, tick, age, rate);
    let at = state.events.len() + k;
    assert(told.events[at] == (TimedEvent { t_ms, event: tick.extra_events@[k] }));
    assert(watched.events[at] == told.events[at]);
    assert(entered.events[at] == watched.events[at]);
    assert(after.events[at] == entered.events[at]);
    assert forall|j: int| 0 <= j < state.events.len() implies #[trigger] after.events[j]
        == state.events[j] by {
        assert(told.events[j] == counted.events[j]);
        assert(watched.events[j] == told.events[j]);
        assert(entered.events[j] == watched.events[j]);
    }
}

} // verus!
