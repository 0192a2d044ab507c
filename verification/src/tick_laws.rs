//! What a tick reports of the objects it finds.
use vstd::prelude::*;
use crate::id_map::lemma_push_contains;
use crate::reading::{Level, Stamp};
use crate::semantic::{SemanticEvent, TrackState};
use crate::track::{
    law_advance_keeps_identity, law_advance_keeps_order, Advance, Measure, Sighting, WorldConfig,
    WorldTrack,
};
use crate::types::Rect;
use crate::world_laws::{
    has_moved, ids_continue, law_crossings_are_of_movers, law_sweep_keeps_or_drops,
    law_tick_never_reuses_an_id, lemma_located, lemma_segments_are_of_objects, lemma_sighted_all,
    lemma_sighted_frame, lemma_swept_ok,
};
use crate::world_model::{
    asleep, fate, has_id, index_of, is_confirmed, lemma_best_match_in_range,
    lemma_index_of, shown_tracks, swept, Fate, Lapse, Senses, TickState, UpdateState, WorldState,
};

verus! {

/// The object with this id, if there is one.
pub open spec fn held(tracks: Seq<WorldTrack>, id: u32) -> Option<WorldTrack> {
    if has_id(tracks, id) {
        Some(tracks[index_of(tracks, id)])
    } else {
        None
    }
}

/// There is a confirmed object with this id.
pub open spec fn holds_confirmed(tracks: Seq<WorldTrack>, id: u32) -> bool {
    held(tracks, id) matches Some(t) && is_confirmed(t)
}

/// The ids of the objects that entered.
pub open spec fn entered(events: Seq<SemanticEvent>) -> Seq<u32>
    decreases events.len(),
{
    if events.len() == 0 {
        Seq::empty()
    } else {
        let before = entered(events.drop_last());
        if events.last() is ObjectEntered {
            before.push(events.last().subject().track_id)
        } else {
            before
        }
    }
}

/// The ids of the objects that departed.
pub open spec fn departed(events: Seq<SemanticEvent>) -> Seq<u32>
    decreases events.len(),
{
    if events.len() == 0 {
        Seq::empty()
    } else {
        let before = departed(events.drop_last());
        if events.last() is ObjectDeparted {
            before.push(events.last().subject().track_id)
        } else {
            before
        }
    }
}

/// The object with this id is reported as lost.
pub open spec fn lost(events: Seq<SemanticEvent>, id: u32) -> bool {
    exists|i: int|
        0 <= i < events.len() && (#[trigger] events[i]) is ObjectLost
            && events[i].subject().track_id == id
}

/// Some event is about the object with this id.
pub open spec fn told_of(events: Seq<SemanticEvent>, id: u32) -> bool {
    exists|i: int| 0 <= i < events.len() && (#[trigger] events[i]).subject().track_id == id
}

impl UpdateState {
    /// The object with this id is among the reported ones.
    pub open spec fn shows(self, id: u32) -> bool {
        exists|i: int| 0 <= i < self.tracks.len() && (#[trigger] self.tracks[i]).track_id == id
    }

    /// The object with this id is reported to have crossed a line.
    pub open spec fn crosses(self, id: u32) -> bool {
        exists|i: int|
            0 <= i < self.crossings.len() && (#[trigger] self.crossings[i]).track_id == id
    }

    /// The object with this id occurs anywhere.
    pub open spec fn mentions(self, id: u32) -> bool {
        ||| self.shows(id)
        ||| self.created.contains(id)
        ||| self.removed.contains(id)
        ||| told_of(self.events, id)
        ||| self.crosses(id)
    }
}

proof fn lemma_entered_adds(a: Seq<SemanticEvent>, b: Seq<SemanticEvent>)
    ensures
        entered(a + b) == entered(a) + entered(b),
        departed(a + b) == departed(a) + departed(b),
    decreases b.len(),
{
    if b.len() == 0 {
        assert(a + b =~= a);
    } else {
        lemma_entered_adds(a, b.drop_last());
        assert((a + b).drop_last() =~= a + b.drop_last());
        assert((a + b).last() == b.last());
        assert(entered(a + b) =~= entered(a) + entered(b));
        assert(departed(a + b) =~= departed(a) + departed(b));
    }
}

proof fn lemma_told_adds(a: Seq<SemanticEvent>, b: Seq<SemanticEvent>, id: u32)
    ensures
        told_of(a + b, id) ==> told_of(a, id) || told_of(b, id),
        lost(a + b, id) ==> lost(a, id) || lost(b, id),
{
    let both = a + b;
    if told_of(both, id) {
        let i = choose|i: int|
            0 <= i < both.len() && (#[trigger] both[i]).subject().track_id == id;
        if i < a.len() {
            assert(a[i] == both[i]);
        } else {
            assert(b[i - a.len()] == both[i]);
        }
    }
    if lost(both, id) {
        let i = choose|i: int|
            0 <= i < both.len() && (#[trigger] both[i]) is ObjectLost
                && both[i].subject().track_id == id;
        if i < a.len() {
            assert(a[i] == both[i]);
        } else {
            assert(b[i - a.len()] == both[i]);
        }
    }
}

/// The ids go up.
spec fn ascending_ids(tracks: Seq<WorldTrack>) -> bool {
    forall|i: int, j: int|
        0 <= i < j < tracks.len() ==> (#[trigger] tracks[i]).id < (#[trigger] tracks[j]).id
}

pub proof fn lemma_held(tracks: Seq<WorldTrack>, i: int)
    requires
        0 <= i < tracks.len(),
        forall|i: int, j: int|
            0 <= i < j < tracks.len() ==> (#[trigger] tracks[i]).id < (#[trigger] tracks[j]).id,
    ensures
        held(tracks, tracks[i].id) == Some(tracks[i]),
{
    lemma_index_of(tracks, i);
}

proof fn lemma_held_update(tracks: Seq<WorldTrack>, i: int, t: WorldTrack)
    requires
        ascending_ids(tracks),
        0 <= i < tracks.len(),
        t.id == tracks[i].id,
    ensures
        forall|id: u32| #[trigger]
            held(tracks.update(i, t), id) == if id == t.id {
                Some(t)
            } else {
                held(tracks, id)
            },
{
    let after = tracks.update(i, t);
    assert forall|a: int, b: int| 0 <= a < b < after.len() implies (#[trigger] after[a]).id < (
    #[trigger] after[b]).id by {
        assert(tracks[a].id < tracks[b].id);
    }
    assert forall|id: u32| #[trigger]
        held(after, id) == if id == t.id {
            Some(t)
        } else {
            held(tracks, id)
        } by {
        if id == t.id {
            assert(after[i] == t);
            lemma_held(after, i);
        } else {
            if has_id(tracks, id) {
                let k = index_of(tracks, id);
                assert(after[k] == tracks[k]);
                lemma_held(after, k);
            }
            if has_id(after, id) {
                let k = index_of(after, id);
                assert(after[k] == tracks[k]);
            }
        }
    }
}

proof fn lemma_held_push(tracks: Seq<WorldTrack>, t: WorldTrack)
    requires
        ascending_ids(tracks),
        forall|i: int| 0 <= i < tracks.len() ==> (#[trigger] tracks[i]).id < t.id,
    ensures
        forall|id: u32| #[trigger]
            held(tracks.push(t), id) == if id == t.id {
                Some(t)
            } else {
                held(tracks, id)
            },
{
    let after = tracks.push(t);
    let n = tracks.len() as int;
    assert forall|id: u32| #[trigger]
        held(after, id) == if id == t.id {
            Some(t)
        } else {
            held(tracks, id)
        } by {
        if id == t.id {
            assert(after[n] == t);
            lemma_held(after, n);
        } else {
            if has_id(tracks, id) {
                let k = index_of(tracks, id);
                assert(after[k] == tracks[k]);
                lemma_held(after, k);
            }
            if has_id(after, id) {
                let k = index_of(after, id);
                assert(after[k] == tracks[k]);
            }
        }
    }
}

/// What a sighting makes of an object: its identity stays, it is confirmed once and for
/// all, it enters when it is confirmed, and all events are about it.
pub open spec fn is_proper(track: WorldTrack, a: Advance, t_ms: Stamp) -> bool {
    &&& a.track.id == track.id
    &&& a.track.last_seen_ms == t_ms
    &&& a.seen <==> is_confirmed(a.track)
    &&& a.created <==> !is_confirmed(track) && is_confirmed(a.track)
    &&& is_confirmed(track) ==> is_confirmed(a.track)
    &&& entered(a.events) == (if a.created {
        seq![track.id]
    } else {
        Seq::<u32>::empty()
    })
    &&& departed(a.events) == Seq::<u32>::empty()
    &&& forall|i: int|
        0 <= i < a.events.len() ==> (#[trigger] a.events[i]).subject().track_id == track.id
            && !(a.events[i] is ObjectLost)
}

/// Every sighting of an object is reported as it should be: the object enters exactly when
/// it is confirmed, and no event is about anyone else.
pub proof fn law_a_sighting_is_reported(
    track: WorldTrack,
    s: Sighting,
    label: String,
    m: Measure,
    t_ms: Stamp,
    config: WorldConfig,
)
    requires
        track.ok(config),
    ensures
        is_proper(track, track.advanced(s, label, m, t_ms, config), t_ms),
{
    let a = track.advanced(s, label, m, t_ms, config);
    law_advance_keeps_identity(track, s, label, m, t_ms, config);
    law_advance_keeps_order(track, s, label, m, t_ms, config);
    reveal_with_fuel(entered, 2);
    reveal_with_fuel(departed, 2);
    if !(track.state == TrackState::Tentative && m.since_first < config.confirm_ms) {
        let confirmed = track.confirmed();
        let first = if a.created {
            seq![SemanticEvent::ObjectEntered(confirmed.shown())]
        } else {
            Seq::empty()
        };
        let moved = confirmed.moved(m);
        let second = if confirmed.dormant {
            seq![SemanticEvent::ObjectRecovered(moved.shown())]
        } else {
            Seq::empty()
        };
        let placed = moved.placed(s, t_ms);
        let (last, third) = if placed.state == TrackState::Stationary {
            placed.kept_or_woken(m, t_ms, config)
        } else {
            placed.settled_or_not(m, t_ms, config.settle_span(label@))
        };
        let fourth = last.shot_events(m);
        assert(a.events == first + second + third + fourth);
        lemma_entered_adds(first + second + third, fourth);
        lemma_entered_adds(first + second, third);
        lemma_entered_adds(first, second);
        assert(entered(a.events) =~= (if a.created {
            seq![track.id]
        } else {
            Seq::<u32>::empty()
        }));
        assert(departed(a.events) =~= Seq::<u32>::empty());
    }
}

/// What a tick has brought so far, with one more object advanced.
pub open spec fn with_advance(log: TickState, id: u32, a: Advance) -> TickState {
    TickState {
        seen: if a.seen {
            log.seen.push(id)
        } else {
            log.seen
        },
        segments: match a.segment {
            Some(segment) => log.segments.push(segment),
            None => log.segments,
        },
        created: if a.created {
            log.created.push(id)
        } else {
            log.created
        },
        events: log.events + a.events,
    }
}

proof fn lemma_one_sighting(
    world: WorldState,
    log: TickState,
    s: Sighting,
    t_ms: Stamp,
    rate: spec_fn(Rect, Rect) -> Level,
    assess: spec_fn(WorldTrack, Sighting) -> Measure,
) -> (hit: Option<(WorldTrack, Advance)>)
    requires
        world.ok(),
        world.next_id < u32::MAX,
    ensures
        ({
            let (after, logged) = world.sighted(log, s, t_ms, rate, assess);
            match hit {
                None => after.tracks == world.tracks && logged == log,
                Some((track, a)) => {
                    &&& held(world.tracks, track.id) == Some(track) || (held(
                        world.tracks,
                        track.id,
                    ) is None && !is_confirmed(track))
                    &&& is_proper(track, a, t_ms)
                    &&& logged == with_advance(log, track.id, a)
                    &&& forall|id: u32| #[trigger]
                        held(after.tracks, id) == if id == track.id {
                            Some(a.track)
                        } else {
                            held(world.tracks, id)
                        }
                },
            }
        }),
{
    let n = world.tracks.len() as int;
    if !s.is_activated || !(0 <= s.class_id < world.labels.len()) {
        None
    } else {
        let label = world.labels[s.class_id as int];
        lemma_located(world, s, label, t_ms, rate);
        lemma_best_match_in_range(
            world.tracks,
            label@,
            s.bbox,
            rate,
            world.config.reassoc_iou,
            n,
        );
        let (located, found) = world.located(s, label, t_ms, rate);
        match found {
            None => None,
            Some(id) => {
                let i = index_of(located.tracks, id);
                let track = located.tracks[i];
                let m = assess(track, s);
                let a = track.advanced(s, label, m, t_ms, located.config);
                assert(track.ok(located.config));
                law_a_sighting_is_reported(track, s, label, m, t_ms, located.config);
                lemma_held_update(located.tracks, i, a.track);
                if located.tracks != world.tracks {
                    let fresh = WorldTrack::fresh(world.next_id, label, s, t_ms);
                    assert(located.tracks == world.tracks.push(fresh));
                    lemma_held_push(world.tracks, fresh);
                    assert(located.tracks[n] == fresh);
                    lemma_held(located.tracks, n);
                    assert(held(world.tracks, world.next_id) is None);
                    assert(track == fresh);
                } else {
                    lemma_held(world.tracks, i);
                }
                Some((track, a))
            },
        }
    }
}

/// What a tick has brought so far says of every object of the world what became of it.
pub open spec fn accounted(
    world: WorldState,
    after: WorldState,
    log: TickState,
    t_ms: Stamp,
) -> bool {
    &&& forall|id: u32| #[trigger]
        log.seen.contains(id) ==> (held(after.tracks, id) matches Some(t) && is_confirmed(t)
            && t.last_seen_ms == t_ms)
    &&& forall|id: u32| #[trigger]
        holds_confirmed(after.tracks, id) && !log.seen.contains(id) ==> held(after.tracks, id)
            == held(world.tracks, id)
    &&& forall|id: u32| #[trigger]
        log.created.contains(id) ==> !holds_confirmed(world.tracks, id) && log.seen.contains(id)
    &&& forall|id: u32| #[trigger]
        holds_confirmed(after.tracks, id) ==> holds_confirmed(world.tracks, id)
            || log.created.contains(id)
    &&& forall|id: u32| #[trigger]
        holds_confirmed(world.tracks, id) ==> holds_confirmed(after.tracks, id)
    &&& log.created.no_duplicates()
    &&& entered(log.events) == log.created
    &&& departed(log.events) == Seq::<u32>::empty()
    &&& forall|id: u32| #[trigger] told_of(log.events, id) ==> has_id(after.tracks, id)
    &&& forall|id: u32| !#[trigger] lost(log.events, id)
}

proof fn lemma_one_more_accounted(
    world: WorldState,
    before: WorldState,
    log: TickState,
    after: WorldState,
    t_ms: Stamp,
    track: WorldTrack,
    a: Advance,
)
    requires
        accounted(world, before, log, t_ms),
        held(before.tracks, track.id) == Some(track) || (held(before.tracks, track.id) is None
            && !is_confirmed(track)),
        held(before.tracks, track.id) is None ==> held(world.tracks, track.id) is None,
        is_proper(track, a, t_ms),
        forall|id: u32| #[trigger]
            held(after.tracks, id) == if id == track.id {
                Some(a.track)
            } else {
                held(before.tracks, id)
            },
    ensures
        accounted(world, after, with_advance(log, track.id, a), t_ms),
{
    let logged = with_advance(log, track.id, a);
    lemma_push_contains(log.seen, track.id);
    lemma_push_contains(log.created, track.id);
    lemma_entered_adds(log.events, a.events);
    assert(entered(logged.events) =~= logged.created);
    assert(departed(logged.events) =~= Seq::<u32>::empty());
    assert forall|id: u32| #[trigger] told_of(logged.events, id) implies has_id(
        after.tracks,
        id,
    ) by {
        lemma_told_adds(log.events, a.events, id);
        assert(held(after.tracks, id) is Some <==> has_id(after.tracks, id));
        assert(held(before.tracks, id) is Some <==> has_id(before.tracks, id));
    }
    assert forall|id: u32| !#[trigger] lost(logged.events, id) by {
        lemma_told_adds(log.events, a.events, id);
        assert(!lost(log.events, id));
    }
    assert forall|id: u32| #[trigger] log.seen.contains(id) implies holds_confirmed(
        before.tracks,
        id,
    ) by {}
    if a.created {
        assert(!log.created.contains(track.id)) by {
            if log.created.contains(track.id) {
                assert(log.seen.contains(track.id));
                assert(holds_confirmed(before.tracks, track.id));
            }
        }
        assert(!holds_confirmed(world.tracks, track.id)) by {
            if holds_confirmed(world.tracks, track.id) {
                assert(holds_confirmed(before.tracks, track.id));
            }
        }
    }
    assert forall|id: u32| #[trigger]
        holds_confirmed(after.tracks, id) && !logged.seen.contains(id) implies held(
        after.tracks,
        id,
    ) == held(world.tracks, id) by {
        assert(id != track.id);
        assert(holds_confirmed(before.tracks, id));
    }
    assert forall|id: u32| #[trigger] holds_confirmed(after.tracks, id) implies holds_confirmed(
        world.tracks,
        id,
    ) || logged.created.contains(id) by {
        if id == track.id {
            if is_confirmed(track) {
                assert(holds_confirmed(before.tracks, id));
            }
        } else {
            assert(holds_confirmed(before.tracks, id));
        }
    }
    assert forall|id: u32| #[trigger] holds_confirmed(world.tracks, id) implies holds_confirmed(
        after.tracks,
        id,
    ) by {
        assert(holds_confirmed(before.tracks, id));
    }
}

proof fn lemma_accounted(
    world: WorldState,
    sightings: Seq<Sighting>,
    t_ms: Stamp,
    rate: spec_fn(Rect, Rect) -> Level,
    assess: spec_fn(WorldTrack, Sighting) -> Measure,
    n: int,
)
    requires
        world.ok(),
        0 <= n,
        world.next_id + n <= u32::MAX,
    ensures
        ({
            let (after, log) = world.sighted_all(sightings, t_ms, rate, assess, n);
            accounted(world, after, log, t_ms)
        }),
    decreases n,
{
    let (after, logged) = world.sighted_all(sightings, t_ms, rate, assess, n);
    if n > 0 {
        lemma_accounted(world, sightings, t_ms, rate, assess, n - 1);
        lemma_sighted_all(world, sightings, t_ms, rate, assess, n - 1);
        let (before, log) = world.sighted_all(sightings, t_ms, rate, assess, n - 1);
        let hit = lemma_one_sighting(before, log, sightings[n - 1], t_ms, rate, assess);
        match hit {
            None => {},
            Some((track, a)) => {
                assert(has_id(world.tracks, track.id) ==> has_id(before.tracks, track.id));
                lemma_one_more_accounted(world, before, log, after, t_ms, track, a);
            },
        }
    } else {
        assert(entered(logged.events) =~= logged.created);
        assert(departed(logged.events) =~= Seq::<u32>::empty());
    }
}

/// One of the first `n` objects has this id, is confirmed, was not seen, and has been out of
/// sight for longer than the grace.
pub open spec fn fell_out(
    tracks: Seq<WorldTrack>,
    seen: Seq<u32>,
    lapse: spec_fn(WorldTrack) -> Lapse,
    config: WorldConfig,
    n: int,
    id: u32,
) -> bool {
    exists|i: int|
        0 <= i < n && (#[trigger] tracks[i]).id == id && is_confirmed(tracks[i]) && !seen.contains(
            id,
        ) && lapse(tracks[i]).since_seen > config.depart_grace_ms
}

proof fn lemma_fell_out_grows(
    tracks: Seq<WorldTrack>,
    seen: Seq<u32>,
    lapse: spec_fn(WorldTrack) -> Lapse,
    config: WorldConfig,
    n: int,
)
    ensures
        forall|id: u32| #[trigger]
            fell_out(tracks, seen, lapse, config, n - 1, id) ==> fell_out(
                tracks,
                seen,
                lapse,
                config,
                n,
                id,
            ),
{
    assert forall|id: u32| #[trigger]
        fell_out(tracks, seen, lapse, config, n - 1, id) implies fell_out(
        tracks,
        seen,
        lapse,
        config,
        n,
        id,
    ) by {
        let i = choose|i: int|
            0 <= i < n - 1 && (#[trigger] tracks[i]).id == id && is_confirmed(tracks[i])
                && !seen.contains(id) && lapse(tracks[i]).since_seen > config.depart_grace_ms;
        assert(tracks[i].id == id);
    }
}

proof fn lemma_swept_reports(
    world: WorldState,
    seen: Seq<u32>,
    lapse: spec_fn(WorldTrack) -> Lapse,
    n: int,
)
    requires
        world.ok(),
        0 <= n <= world.tracks.len(),
    ensures
        ({
            let config = world.config;
            let sweep = swept(world.tracks, seen, lapse, config, n);
            &&& entered(sweep.events) == Seq::<u32>::empty()
            &&& departed(sweep.events) == sweep.removed
            &&& forall|k: int|
                0 <= k < sweep.events.len() ==> fell_out(
                    world.tracks,
                    seen,
                    lapse,
                    config,
                    n,
                    (#[trigger] sweep.events[k]).subject().track_id,
                )
            &&& forall|k: int|
                0 <= k < sweep.removed.len() ==> fell_out(
                    world.tracks,
                    seen,
                    lapse,
                    config,
                    n,
                    #[trigger] sweep.removed[k],
                )
            &&& forall|k: int|
                0 <= k < sweep.removed.len() ==> n > 0 && #[trigger] sweep.removed[k]
                    <= world.tracks[n - 1].id
            &&& sweep.removed.no_duplicates()
        }),
    decreases n,
{
    let config = world.config;
    let tracks = world.tracks;
    let sweep = swept(tracks, seen, lapse, config, n);
    if n > 0 {
        lemma_swept_reports(world, seen, lapse, n - 1);
        lemma_fell_out_grows(tracks, seen, lapse, config, n);
        let before = swept(tracks, seen, lapse, config, n - 1);
        let last = tracks[n - 1];
        if n > 1 {
            assert(tracks[n - 2].id < tracks[n - 1].id);
        }
        match fate(last, seen, lapse(last), config) {
            Fate::Stay => {},
            Fate::Fade => {},
            Fate::Sleep => {
                assert(sweep.events.drop_last() =~= before.events);
                assert(fell_out(tracks, seen, lapse, config, n, last.id));
            },
            Fate::Depart => {
                assert(sweep.events.drop_last() =~= before.events);
                assert(fell_out(tracks, seen, lapse, config, n, last.id));
            },
        }
        assert forall|k: int| 0 <= k < sweep.events.len() implies fell_out(
            tracks,
            seen,
            lapse,
            config,
            n,
            (#[trigger] sweep.events[k]).subject().track_id,
        ) by {
            if k < before.events.len() {
                assert(sweep.events[k] == before.events[k]);
            }
        }
        assert forall|k: int| 0 <= k < sweep.removed.len() implies fell_out(
            tracks,
            seen,
            lapse,
            config,
            n,
            #[trigger] sweep.removed[k],
        ) && sweep.removed[k] <= last.id by {
            if k < before.removed.len() {
                assert(sweep.removed[k] == before.removed[k]);
            }
        }
        assert forall|i: int, j: int| 0 <= i < j < sweep.removed.len() implies sweep.removed[i]
            != sweep.removed[j] by {
            assert(sweep.removed[i] == before.removed[i]);
            if j < before.removed.len() {
                assert(sweep.removed[j] == before.removed[j]);
            }
        }
    } else {
        assert(entered(sweep.events) =~= Seq::<u32>::empty());
        assert(departed(sweep.events) =~= sweep.removed);
    }
}

proof fn lemma_swept_held(world: WorldState, seen: Seq<u32>, lapse: spec_fn(WorldTrack) -> Lapse)
    requires
        world.ok(),
    ensures
        ({
            let n = world.tracks.len() as int;
            let sweep = swept(world.tracks, seen, lapse, world.config, n);
            &&& forall|id: u32| #[trigger]
                held(sweep.tracks, id) matches Some(t) ==> (held(world.tracks, id) matches Some(u)
                    && (t == u || t == asleep(u)))
            &&& forall|id: u32| #[trigger]
                seen.contains(id) && has_id(world.tracks, id) ==> held(sweep.tracks, id) == held(
                    world.tracks,
                    id,
                )
        }),
{
    let n = world.tracks.len() as int;
    let tracks = world.tracks;
    let sweep = swept(tracks, seen, lapse, world.config, n);
    lemma_swept_ok(world, seen, lapse, n);
    law_sweep_keeps_or_drops(tracks, seen, lapse, world.config, n);
    assert forall|id: u32|
        (#[trigger] held(sweep.tracks, id)) matches Some(t) ==> (held(tracks, id) matches Some(u)
            && (t == u || t == asleep(u))) by {
        if has_id(sweep.tracks, id) {
            let k = index_of(sweep.tracks, id);
            let t = sweep.tracks[k];
            let i = choose|i: int|
                0 <= i < n && (t == #[trigger] tracks[i] || t == asleep(tracks[i]));
            lemma_held(tracks, i);
        }
    }
    assert forall|id: u32| #[trigger] seen.contains(id) && has_id(tracks, id) implies held(
        sweep.tracks,
        id,
    ) == held(tracks, id) by {
        let i = index_of(tracks, id);
        assert(seen.contains(tracks[i].id));
        assert(sweep.tracks.contains(tracks[i]));
        let k = choose|k: int| 0 <= k < sweep.tracks.len() && sweep.tracks[k] == tracks[i];
        lemma_held(sweep.tracks, k);
    }
}

proof fn lemma_shown(tracks: Seq<WorldTrack>, seen: Seq<u32>, n: int)
    requires
        0 <= n <= seen.len(),
    ensures
        ({
            let shown = shown_tracks(tracks, seen, n);
            &&& forall|k: int|
                0 <= k < shown.len() ==> seen.contains((#[trigger] shown[k]).track_id)
                    && holds_confirmed(tracks, shown[k].track_id)
            &&& forall|i: int|
                0 <= i < n && holds_confirmed(tracks, #[trigger] seen[i]) ==> exists|k: int|
                    0 <= k < shown.len() && (#[trigger] shown[k]).track_id == seen[i]
        }),
    decreases n,
{
    if n > 0 {
        lemma_shown(tracks, seen, n - 1);
        let before = shown_tracks(tracks, seen, n - 1);
        let shown = shown_tracks(tracks, seen, n);
        assert forall|k: int| 0 <= k < shown.len() implies seen.contains(
            (#[trigger] shown[k]).track_id,
        ) && holds_confirmed(tracks, shown[k].track_id) by {
            if k < before.len() {
                assert(shown[k] == before[k]);
            } else {
                assert(shown[k].track_id == seen[n - 1]);
            }
        }
        assert forall|i: int| 0 <= i < n && holds_confirmed(tracks, #[trigger] seen[i]) implies
            exists|k: int| 0 <= k < shown.len() && (#[trigger] shown[k]).track_id == seen[i] by {
            if i < n - 1 {
                let k = choose|k: int|
                    0 <= k < before.len() && (#[trigger] before[k]).track_id == seen[i];
                assert(shown[k].track_id == seen[i]);
            } else {
                assert(shown[before.len() as int].track_id == seen[i]);
            }
        }
    }
}

/// What a tick says of the objects is what has become of them.
#[verifier::opaque]
pub open spec fn is_sound(
    world: WorldState,
    after: WorldState,
    update: UpdateState,
    lapse: spec_fn(WorldTrack) -> Lapse,
) -> bool {
    &&& after.config == world.config
    &&& forall|id: u32| #[trigger]
        holds_confirmed(after.tracks, id) ==> holds_confirmed(world.tracks, id)
            || update.created.contains(id)
    &&& forall|id: u32| #[trigger]
        update.created.contains(id) ==> {
            &&& !holds_confirmed(world.tracks, id)
            &&& holds_confirmed(after.tracks, id)
            &&& update.shows(id)
            &&& has_id(world.tracks, id) || world.next_id <= id
        }
    &&& forall|id: u32| #[trigger]
        update.removed.contains(id) ==> {
            &&& holds_confirmed(world.tracks, id)
            &&& !has_id(after.tracks, id)
        }
    &&& forall|id: u32|
        #![trigger update.removed.contains(id)]
        #![trigger lost(update.events, id)]
        update.removed.contains(id) || lost(update.events, id) ==> {
            &&& !update.shows(id)
            &&& held(world.tracks, id) matches Some(t) && is_confirmed(t)
                && lapse(t).since_seen > world.config.depart_grace_ms
        }
    &&& forall|id: u32| #[trigger]
        update.mentions(id) ==> has_id(world.tracks, id) || world.next_id <= id < after.next_id
    &&& forall|id: u32| #[trigger]
        holds_confirmed(world.tracks, id) && has_id(after.tracks, id) ==> holds_confirmed(
            after.tracks,
            id,
        )
    &&& forall|id: u32| #[trigger]
        update.shows(id) ==> (held(after.tracks, id) matches Some(t) && is_confirmed(t)
            && t.last_seen_ms == world.last_t_ms)
    &&& forall|id: u32| #[trigger]
        holds_confirmed(after.tracks, id) && !update.shows(id) ==> {
            &&& holds_confirmed(world.tracks, id)
            &&& held(after.tracks, id)->0.last_seen_ms == held(world.tracks, id)->0.last_seen_ms
        }
    &&& update.created.no_duplicates()
    &&& update.removed.no_duplicates()
    &&& entered(update.events) == update.created
    &&& departed(update.events) == update.removed
}

proof fn lemma_mentioned(
    world: WorldState,
    sightings: Seq<Sighting>,
    g: Senses,
    id: u32,
)
    requires
        world.ok(),
        world.next_id + sightings.len() <= u32::MAX,
        world.ticked(sightings, g).1.mentions(id),
    ensures
        has_id(world.tracks, id) || world.next_id <= id < world.ticked(sightings, g).0.next_id,
{
    let t_ms = world.last_t_ms;
    let n = sightings.len() as int;
    let (found, log) = world.sighted_all(sightings, t_ms, g.rate, g.assess, n);
    let (after, update) = world.ticked(sightings, g);
    let count = found.tracks.len() as int;
    let sweep = swept(found.tracks, log.seen, g.lapse, found.config, count);
    lemma_sighted_all(world, sightings, t_ms, g.rate, g.assess, n);
    lemma_accounted(world, sightings, t_ms, g.rate, g.assess, n);
    lemma_swept_reports(found, log.seen, g.lapse, count);
    lemma_shown(sweep.tracks, log.seen, log.seen.len() as int);
    assert(has_id(found.tracks, id)) by {
        if update.shows(id) {
            let k = choose|k: int|
                0 <= k < update.tracks.len() && (#[trigger] update.tracks[k]).track_id == id;
            assert(log.seen.contains(id));
        } else if update.created.contains(id) {
            assert(log.created.contains(id));
            assert(log.seen.contains(id));
        } else if update.removed.contains(id) {
            let k = choose|k: int| 0 <= k < sweep.removed.len() && sweep.removed[k] == id;
            assert(fell_out(
                found.tracks,
                log.seen,
                g.lapse,
                found.config,
                count,
                sweep.removed[k],
            ));
        } else if told_of(update.events, id) {
            lemma_told_adds(log.events, sweep.events, id);
            if told_of(sweep.events, id) {
                let k = choose|k: int|
                    0 <= k < sweep.events.len() && (
                    #[trigger] sweep.events[k]).subject().track_id == id;
                assert(fell_out(
                    found.tracks,
                    log.seen,
                    g.lapse,
                    found.config,
                    count,
                    sweep.events[k].subject().track_id,
                ));
            }
        } else {
            lemma_segments_are_of_objects(world, sightings, t_ms, g.rate, g.assess, n);
            law_crossings_are_of_movers(
                found,
                log.segments,
                t_ms,
                g.cross,
                log.segments.len() as int,
            );
            let k = choose|k: int|
                0 <= k < update.crossings.len() && (#[trigger] update.crossings[k]).track_id == id;
            assert(has_moved(log.segments, update.crossings[k].track_id));
        }
    }
}

pub proof fn lemma_tick_is_sound(world: WorldState, sightings: Seq<Sighting>, g: Senses)
    requires
        world.ok(),
        world.next_id + sightings.len() <= u32::MAX,
    ensures
        ({
            let (after, update) = world.ticked(sightings, g);
            &&& after.ok()
            &&& ids_continue(world, after)
            &&& is_sound(world, after, update, g.lapse)
        }),
{
    reveal(is_sound);
    let t_ms = world.last_t_ms;
    let n = sightings.len() as int;
    let (found, log) = world.sighted_all(sightings, t_ms, g.rate, g.assess, n);
    let (after, update) = world.ticked(sightings, g);
    let count = found.tracks.len() as int;
    let sweep = swept(found.tracks, log.seen, g.lapse, found.config, count);
    law_tick_never_reuses_an_id(world, sightings, g);
    lemma_sighted_all(world, sightings, t_ms, g.rate, g.assess, n);
    lemma_sighted_frame(world, sightings, t_ms, g.rate, g.assess, n);
    lemma_accounted(world, sightings, t_ms, g.rate, g.assess, n);
    lemma_swept_reports(found, log.seen, g.lapse, count);
    lemma_swept_held(found, log.seen, g.lapse);
    lemma_shown(sweep.tracks, log.seen, log.seen.len() as int);
    lemma_entered_adds(log.events, sweep.events);
    assert(after.tracks == sweep.tracks);
    assert(entered(update.events) =~= update.created);
    assert(departed(update.events) =~= update.removed);
    assert forall|id: u32| #[trigger] update.shows(id) <==> log.seen.contains(id) by {
        if update.shows(id) {
            let k = choose|k: int|
                0 <= k < update.tracks.len() && (#[trigger] update.tracks[k]).track_id == id;
            assert(log.seen.contains(update.tracks[k].track_id));
        }
        if log.seen.contains(id) {
            let i = choose|i: int| 0 <= i < log.seen.len() && log.seen[i] == id;
            assert(has_id(found.tracks, id));
            assert(held(sweep.tracks, id) == held(found.tracks, id));
            assert(holds_confirmed(sweep.tracks, log.seen[i]));
        }
    }
    assert forall|id: u32| #[trigger] fell_out(
        found.tracks,
        log.seen,
        g.lapse,
        found.config,
        count,
        id,
    ) implies {
        &&& !update.shows(id)
        &&& held(world.tracks, id) matches Some(t) && is_confirmed(t) && (g.lapse)(t).since_seen
            > world.config.depart_grace_ms
    } by {
        let i = choose|i: int|
            0 <= i < count && (#[trigger] found.tracks[i]).id == id && is_confirmed(
                found.tracks[i],
            ) && !log.seen.contains(id) && (g.lapse)(found.tracks[i]).since_seen
                > found.config.depart_grace_ms;
        lemma_held(found.tracks, i);
        assert(holds_confirmed(found.tracks, id));
    }
    assert forall|id: u32|
        #![trigger update.removed.contains(id)]
        #![trigger lost(update.events, id)]
        update.removed.contains(id) || lost(update.events, id) implies {
        &&& !update.shows(id)
        &&& held(world.tracks, id) matches Some(t) && is_confirmed(t) && (g.lapse)(t).since_seen
            > world.config.depart_grace_ms
    } by {
        if update.removed.contains(id) {
            let k = choose|k: int| 0 <= k < sweep.removed.len() && sweep.removed[k] == id;
            assert(fell_out(
                found.tracks,
                log.seen,
                g.lapse,
                found.config,
                count,
                sweep.removed[k],
            ));
        } else {
            lemma_told_adds(log.events, sweep.events, id);
            assert(!lost(log.events, id));
            let k = choose|k: int|
                0 <= k < sweep.events.len() && (#[trigger] sweep.events[k]) is ObjectLost
                    && sweep.events[k].subject().track_id == id;
            assert(fell_out(
                found.tracks,
                log.seen,
                g.lapse,
                found.config,
                count,
                sweep.events[k].subject().track_id,
            ));
        }
    }
    assert forall|id: u32| #[trigger] update.removed.contains(id) implies holds_confirmed(
        world.tracks,
        id,
    ) && !has_id(after.tracks, id) by {
        let k = choose|k: int| 0 <= k < update.removed.len() && update.removed[k] == id;
        assert(!has_id(after.tracks, update.removed[k]));
    }
    assert forall|id: u32| #[trigger] holds_confirmed(after.tracks, id) implies holds_confirmed(
        found.tracks,
        id,
    ) && held(after.tracks, id)->0.last_seen_ms == held(found.tracks, id)->0.last_seen_ms by {
        assert(held(sweep.tracks, id) is Some);
    }
    assert forall|id: u32| #[trigger] holds_confirmed(after.tracks, id) implies holds_confirmed(
        world.tracks,
        id,
    ) || update.created.contains(id) by {
        assert(holds_confirmed(found.tracks, id));
    }
    assert forall|id: u32| #[trigger] update.created.contains(id) implies {
        &&& !holds_confirmed(world.tracks, id)
        &&& holds_confirmed(after.tracks, id)
        &&& update.shows(id)
        &&& has_id(world.tracks, id) || world.next_id <= id
    } by {
        assert(log.created.contains(id));
        assert(log.seen.contains(id));
        assert(has_id(found.tracks, id));
        assert(update.shows(id));
    }
    assert forall|id: u32| #[trigger] update.mentions(id) implies has_id(world.tracks, id)
        || world.next_id <= id < after.next_id by {
        lemma_mentioned(world, sightings, g, id);
    }
    assert forall|id: u32| #[trigger]
        holds_confirmed(world.tracks, id) && has_id(after.tracks, id) implies holds_confirmed(
        after.tracks,
        id,
    ) by {
        assert(holds_confirmed(found.tracks, id));
        assert(held(sweep.tracks, id) is Some);
    }
    assert forall|id: u32| #[trigger] update.shows(id) implies (held(
        after.tracks,
        id,
    ) matches Some(t) && is_confirmed(t) && t.last_seen_ms == world.last_t_ms) by {
        assert(log.seen.contains(id));
        assert(has_id(found.tracks, id));
    }
    assert forall|id: u32| #[trigger]
        holds_confirmed(after.tracks, id) && !update.shows(id) implies holds_confirmed(
        world.tracks,
        id,
    ) && held(after.tracks, id)->0.last_seen_ms == held(world.tracks, id)->0.last_seen_ms by {
        assert(holds_confirmed(found.tracks, id));
        assert(!log.seen.contains(id));
    }
}

/// What a tick lists and what it tells agree: the objects it creates are those that enter,
/// each once and each among the reported ones; those it removes are those that depart, each
/// once and none among the reported ones.
pub proof fn law_lists_and_events_agree(world: WorldState, sightings: Seq<Sighting>, g: Senses)
    requires
        world.ok(),
        world.next_id + sightings.len() <= u32::MAX,
    ensures
        ({
            let update = world.ticked(sightings, g).1;
            &&& entered(update.events) == update.created
            &&& departed(update.events) == update.removed
            &&& update.created.no_duplicates()
            &&& update.removed.no_duplicates()
            &&& forall|id: u32| #[trigger] update.created.contains(id) ==> update.shows(id)
            &&& forall|id: u32| #[trigger] update.removed.contains(id) ==> !update.shows(id)
        }),
{
    lemma_tick_is_sound(world, sightings, g);
    reveal(is_sound);
    let update = world.ticked(sightings, g).1;
    assert forall|id: u32| #[trigger] update.removed.contains(id) implies !update.shows(id) by {}
}

} // verus!
