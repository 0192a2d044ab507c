//! What holds of every world and every tick.
use vstd::prelude::*;
use crate::labels::{distinct_texts, has_text, lowercase_text};
use crate::line_crossing::{
    CrossingDirection, LineCrossingEvent, LineDirectionFilter, PreparedLine, SegmentMeasure,
    PARALLEL_LIMIT, SAME_PLACE_LIMIT,
};
use crate::reading::{Level, Stamp, ONE};
use crate::semantic::{SemanticEvent, TrackSnapshot, TrackState};
use crate::track::{
    law_advance_keeps_identity, law_advance_keeps_order, law_resuming_is_no_movement, pictures,
    Measure, Sighting, TrackSegment, WorldConfig, WorldTrack,
};
use crate::types::{CameraMotion, Detection, Rect};
use crate::world_model::{
    asleep, best_match, class_of, confidence_of, dormant_count, evicted, excess, fate, feed_of,
    has_id, index_of, is_confirmed, is_roaming, labels_after, lemma_best_match_in_range,
    lemma_index_of, lemma_removed_ok, lemma_replaced_ok, oldest_dormant, resumable, shown_tracks,
    stood_still, swept, Crossings, Fate, Lapse, Senses, TickState, WorldState,
};

verus! {

/// Ids that were handed out while going from one world to a later one: every object of the
/// later world was there before or carries a new id.
pub open spec fn ids_continue(before: WorldState, after: WorldState) -> bool {
    &&& before.next_id <= after.next_id
    &&& forall|id: u32| #[trigger]
        has_id(after.tracks, id) ==> has_id(before.tracks, id) || before.next_id <= id
            < after.next_id
}

pub proof fn lemma_located(
    world: WorldState,
    s: Sighting,
    label: String,
    t_ms: Stamp,
    rate: spec_fn(Rect, Rect) -> Level,
)
    requires
        world.ok(),
        world.next_id < u32::MAX,
    ensures
        ({
            let (after, found) = world.located(s, label, t_ms, rate);
            &&& after.ok()
            &&& after.next_id <= world.next_id + 1
            &&& ids_continue(world, after)
            &&& found matches Some(id) ==> has_id(after.tracks, id)
            &&& forall|id: u32| has_id(world.tracks, id) ==> #[trigger] has_id(after.tracks, id)
        }),
{
    let (after, found) = world.located(s, label, t_ms, rate);
    lemma_best_match_in_range(
        world.tracks,
        label@,
        s.bbox,
        rate,
        world.config.reassoc_iou,
        world.tracks.len() as int,
    );
    match world.known(s.engine_id) {
        Some(id) => {},
        None => match best_match(
            world.tracks,
            label@,
            s.bbox,
            rate,
            world.config.reassoc_iou,
            world.tracks.len() as int,
        ) {
            Some(i) => {
                lemma_index_of(world.tracks, i);
                assert(after.ok());
            },
            None => if s.score >= world.min_confidence {
                let n = world.tracks.len() as int;
                assert(after.tracks[n].id == world.next_id);
                assert(after.ok());
                assert forall|id: u32| has_id(world.tracks, id) implies #[trigger] has_id(
                    after.tracks,
                    id,
                ) by {
                    assert(after.tracks[index_of(world.tracks, id)].id == id);
                }
                assert forall|id: u32| #[trigger] has_id(after.tracks, id) implies has_id(
                    world.tracks,
                    id,
                ) || id == world.next_id by {
                    let i = index_of(after.tracks, id);
                    if i < n {
                        assert(world.tracks[i].id == id);
                    }
                }
            },
        },
    }
}

pub proof fn lemma_same_ids(before: Seq<WorldTrack>, i: int, track: WorldTrack)
    requires
        0 <= i < before.len(),
        track.id == before[i].id,
    ensures
        forall|id: u32| #[trigger] has_id(before.update(i, track), id) <==> has_id(before, id),
{
    let after = before.update(i, track);
    assert forall|id: u32| #[trigger] has_id(after, id) <==> has_id(before, id) by {
        if has_id(after, id) {
            assert(before[index_of(after, id)].id == id);
        }
        if has_id(before, id) {
            assert(after[index_of(before, id)].id == id);
        }
    }
}

pub proof fn lemma_sighted(
    world: WorldState,
    log: TickState,
    s: Sighting,
    t_ms: Stamp,
    rate: spec_fn(Rect, Rect) -> Level,
    assess: spec_fn(WorldTrack, Sighting) -> Measure,
)
    requires
        world.ok(),
        world.next_id < u32::MAX,
    ensures
        ({
            let (after, logged) = world.sighted(log, s, t_ms, rate, assess);
            &&& after.ok()
            &&& after.next_id <= world.next_id + 1
            &&& ids_continue(world, after)
            &&& forall|id: u32| has_id(world.tracks, id) ==> #[trigger] has_id(after.tracks, id)
        }),
{
    if s.is_activated && 0 <= s.class_id < world.labels.len() {
        let label = world.labels[s.class_id as int];
        lemma_located(world, s, label, t_ms, rate);
        let (located, found) = world.located(s, label, t_ms, rate);
        if let Some(id) = found {
            let i = index_of(located.tracks, id);
            let track = located.tracks[i];
            let m = assess(track, s);
            assert(track.ok(located.config));
            law_advance_keeps_identity(track, s, label, m, t_ms, located.config);
            law_advance_keeps_order(track, s, label, m, t_ms, located.config);
            let advanced = track.advanced(s, label, m, t_ms, located.config).track;
            lemma_replaced_ok(located, i, advanced);
            lemma_same_ids(located.tracks, i, advanced);
        }
    }
}

pub proof fn lemma_sighted_all(
    world: WorldState,
    sightings: Seq<Sighting>,
    t_ms: Stamp,
    rate: spec_fn(Rect, Rect) -> Level,
    assess: spec_fn(WorldTrack, Sighting) -> Measure,
    n: int,
)
    requires
        world.ok(),
        0 <= n,
        world.next_id + n <= u32::MAX,
    ensures
        ({
            let after = world.sighted_all(sightings, t_ms, rate, assess, n).0;
            &&& after.ok()
            &&& after.next_id <= world.next_id + n
            &&& ids_continue(world, after)
            &&& forall|id: u32| has_id(world.tracks, id) ==> #[trigger] has_id(after.tracks, id)
        }),
    decreases n,
{
    if n > 0 {
        lemma_sighted_all(world, sightings, t_ms, rate, assess, n - 1);
        let (before, log) = world.sighted_all(sightings, t_ms, rate, assess, n - 1);
        lemma_sighted(before, log, sightings[n - 1], t_ms, rate, assess);
    }
}

/// The object is awake, confirmed, was going somewhere, and has been out of sight for
/// longer than the grace.
pub open spec fn went_away(
    track: WorldTrack,
    seen: Seq<u32>,
    l: Lapse,
    config: WorldConfig,
) -> bool {
    &&& !seen.contains(track.id)
    &&& !track.dormant
    &&& track.state == TrackState::Active
    &&& l.since_seen > config.depart_grace_ms
    &&& l.rest < config.depart_grace_ms
    &&& track.still_since_ms != track.first_seen_ms
}

/// Only an awake, confirmed object that was going somewhere departs, and only after it was
/// out of sight for longer than the grace.
pub proof fn law_only_movers_depart(
    tracks: Seq<WorldTrack>,
    seen: Seq<u32>,
    lapse: spec_fn(WorldTrack) -> Lapse,
    config: WorldConfig,
    n: int,
)
    requires
        0 <= n <= tracks.len(),
        forall|i: int| 0 <= i < tracks.len() ==> (#[trigger] tracks[i]).ok(config),
    ensures
        forall|id: u32| #[trigger]
            swept(tracks, seen, lapse, config, n).removed.contains(id) ==> exists|i: int|
                0 <= i < n && (#[trigger] tracks[i]).id == id && went_away(
                    tracks[i],
                    seen,
                    lapse(tracks[i]),
                    config,
                ),
    decreases n,
{
    if n > 0 {
        law_only_movers_depart(tracks, seen, lapse, config, n - 1);
        let before = swept(tracks, seen, lapse, config, n - 1);
        let sweep = swept(tracks, seen, lapse, config, n);
        assert(tracks[n - 1].ok(config));
        assert forall|id: u32| #[trigger] sweep.removed.contains(id) implies exists|i: int|
            0 <= i < n && (#[trigger] tracks[i]).id == id && went_away(
                tracks[i],
                seen,
                lapse(tracks[i]),
                config,
            ) by {
            let k = choose|k: int| 0 <= k < sweep.removed.len() && sweep.removed[k] == id;
            if k < before.removed.len() {
                assert(before.removed[k] == id);
                assert(before.removed.contains(id));
            } else {
                assert(tracks[n - 1].id == id);
            }
        }
    }
}

/// The end of a tick changes an object only by putting it to sleep, and keeps their order.
pub proof fn law_sweep_keeps_or_drops(
    tracks: Seq<WorldTrack>,
    seen: Seq<u32>,
    lapse: spec_fn(WorldTrack) -> Lapse,
    config: WorldConfig,
    n: int,
)
    requires
        0 <= n <= tracks.len(),
    ensures
        ({
            let sweep = swept(tracks, seen, lapse, config, n);
            &&& forall|k: int|
                0 <= k < sweep.tracks.len() ==> exists|i: int|
                    {
                        &&& 0 <= i < n
                        &&& #[trigger] sweep.tracks[k] == tracks[i] || sweep.tracks[k] == asleep(
                            #[trigger] tracks[i],
                        )
                        &&& !(fate(tracks[i], seen, lapse(tracks[i]), config) is Depart)
                        &&& sweep.tracks[k] == asleep(tracks[i]) ==> sweep.tracks[k] == tracks[i]
                            || fate(tracks[i], seen, lapse(tracks[i]), config) is Sleep
                    }
            &&& forall|i: int|
                0 <= i < n && seen.contains((#[trigger] tracks[i]).id) ==> sweep.tracks.contains(
                    tracks[i],
                )
        }),
    decreases n,
{
    if n > 0 {
        law_sweep_keeps_or_drops(tracks, seen, lapse, config, n - 1);
        let before = swept(tracks, seen, lapse, config, n - 1);
        let sweep = swept(tracks, seen, lapse, config, n);
        let last = tracks[n - 1];
        assert forall|k: int| 0 <= k < sweep.tracks.len() implies exists|i: int|
            {
                &&& 0 <= i < n
                &&& #[trigger] sweep.tracks[k] == tracks[i] || sweep.tracks[k] == asleep(
                    #[trigger] tracks[i],
                )
                &&& !(fate(tracks[i], seen, lapse(tracks[i]), config) is Depart)
                &&& sweep.tracks[k] == asleep(tracks[i]) ==> sweep.tracks[k] == tracks[i] || fate(
                    tracks[i],
                    seen,
                    lapse(tracks[i]),
                    config,
                ) is Sleep
            } by {
            if k < before.tracks.len() {
                assert(sweep.tracks[k] == before.tracks[k]);
            } else {
                assert(sweep.tracks[k] == tracks[n - 1] || sweep.tracks[k] == asleep(
                    tracks[n - 1],
                ));
            }
        }
        assert forall|i: int| 0 <= i < n && seen.contains((#[trigger] tracks[i]).id) implies
            sweep.tracks.contains(tracks[i]) by {
            if i < n - 1 {
                let k = choose|k: int|
                    0 <= k < before.tracks.len() && before.tracks[k] == tracks[i];
                assert(sweep.tracks[k] == tracks[i]);
            } else {
                assert(sweep.tracks[sweep.tracks.len() - 1] == tracks[i]);
            }
        }
    }
}

pub proof fn lemma_swept_ok(
    world: WorldState,
    seen: Seq<u32>,
    lapse: spec_fn(WorldTrack) -> Lapse,
    n: int,
)
    requires
        world.ok(),
        0 <= n <= world.tracks.len(),
    ensures
        ({
            let sweep = swept(world.tracks, seen, lapse, world.config, n);
            &&& forall|a: int, b: int|
                0 <= a < b < sweep.tracks.len() ==> (#[trigger] sweep.tracks[a]).id < (
                #[trigger] sweep.tracks[b]).id
            &&& forall|a: int|
                0 <= a < sweep.tracks.len() ==> {
                    &&& (#[trigger] sweep.tracks[a]).ok(world.config)
                    &&& has_id(world.tracks, sweep.tracks[a].id)
                    &&& !sweep.removed.contains(sweep.tracks[a].id)
                    &&& n > 0 && sweep.tracks[a].id <= world.tracks[n - 1].id
                }
            &&& forall|k: int|
                0 <= k < sweep.removed.len() ==> n > 0 && (#[trigger] sweep.removed[k])
                    <= world.tracks[n - 1].id
        }),
    decreases n,
{
    if n > 0 {
        lemma_swept_ok(world, seen, lapse, n - 1);
        let before = swept(world.tracks, seen, lapse, world.config, n - 1);
        let sweep = swept(world.tracks, seen, lapse, world.config, n);
        let last = world.tracks[n - 1];
        assert(last.ok(world.config));
        if n > 1 {
            assert(world.tracks[n - 2].id < world.tracks[n - 1].id);
        }
        assert forall|a: int| 0 <= a < sweep.tracks.len() implies {
            &&& (#[trigger] sweep.tracks[a]).ok(world.config)
            &&& has_id(world.tracks, sweep.tracks[a].id)
            &&& !sweep.removed.contains(sweep.tracks[a].id)
            &&& n > 0 && sweep.tracks[a].id <= world.tracks[n - 1].id
        } by {
            if a < before.tracks.len() {
                assert(sweep.tracks[a] == before.tracks[a]);
            } else {
                assert(world.tracks[n - 1].id == sweep.tracks[a].id);
            }
            if sweep.removed.contains(sweep.tracks[a].id) {
                let k = choose|k: int|
                    0 <= k < sweep.removed.len() && sweep.removed[k] == sweep.tracks[a].id;
                if k < before.removed.len() {
                    assert(before.removed[k] == sweep.tracks[a].id);
                }
            }
        }
    }
}

pub proof fn lemma_segments_are_of_objects(
    world: WorldState,
    sightings: Seq<Sighting>,
    t_ms: Stamp,
    rate: spec_fn(Rect, Rect) -> Level,
    assess: spec_fn(WorldTrack, Sighting) -> Measure,
    n: int,
)
    requires
        world.ok(),
        0 <= n,
        world.next_id + n <= u32::MAX,
    ensures
        ({
            let (after, log) = world.sighted_all(sightings, t_ms, rate, assess, n);
            forall|i: int|
                0 <= i < log.segments.len() ==> has_id(
                    after.tracks,
                    (#[trigger] log.segments[i]).track_id,
                )
        }),
    decreases n,
{
    if n > 0 {
        lemma_segments_are_of_objects(world, sightings, t_ms, rate, assess, n - 1);
        lemma_sighted_all(world, sightings, t_ms, rate, assess, n - 1);
        let (before, log) = world.sighted_all(sightings, t_ms, rate, assess, n - 1);
        let s = sightings[n - 1];
        lemma_sighted(before, log, s, t_ms, rate, assess);
        let (after, logged) = world.sighted_all(sightings, t_ms, rate, assess, n);
        if s.is_activated && 0 <= s.class_id < before.labels.len() {
            let label = before.labels[s.class_id as int];
            lemma_located(before, s, label, t_ms, rate);
            let (located, found) = before.located(s, label, t_ms, rate);
            if let Some(id) = found {
                let i = index_of(located.tracks, id);
                let track = located.tracks[i];
                let m = assess(track, s);
                law_advance_keeps_identity(track, s, label, m, t_ms, located.config);
                lemma_same_ids(
                    located.tracks,
                    i,
                    track.advanced(s, label, m, t_ms, located.config).track,
                );
                assert(has_id(after.tracks, id));
            }
        }
        assert forall|i: int| 0 <= i < logged.segments.len() implies has_id(
            after.tracks,
            (#[trigger] logged.segments[i]).track_id,
        ) by {
            if i < log.segments.len() {
                assert(logged.segments[i] == log.segments[i]);
                assert(has_id(before.tracks, log.segments[i].track_id));
            }
        }
    }
}

/// What is remembered after the first `n` movements is of an object that has moved, or was
/// remembered before.
pub open spec fn remembers_movers(
    before: Set<(u32, u32)>,
    after: Set<(u32, u32)>,
    segments: Seq<TrackSegment>,
) -> bool {
    forall|key: (u32, u32)| #[trigger]
        after.contains(key) ==> before.contains(key) || has_moved(segments, key.0)
}

/// One of the movements is of the object with this id.
pub open spec fn has_moved(segments: Seq<TrackSegment>, id: u32) -> bool {
    exists|i: int| 0 <= i < segments.len() && (#[trigger] segments[i]).track_id == id
}

proof fn lemma_line_memory_is_of_the_segment(
    world: WorldState,
    c: Crossings,
    segment: TrackSegment,
    t_ms: Stamp,
    cross: spec_fn(TrackSegment, PreparedLine) -> SegmentMeasure,
    n: int,
)
    ensures
        ({
            let after = world.lines_crossed(c, segment, t_ms, cross, n);
            &&& forall|key: (u32, u32)| #[trigger]
                after.memory.contains(key) ==> c.memory.contains(key) || key.0 == segment.track_id
            &&& c.events.len() <= after.events.len()
            &&& forall|i: int|
                0 <= i < after.events.len() ==> if i < c.events.len() {
                    #[trigger] after.events[i] == c.events[i]
                } else {
                    after.events[i].track_id == segment.track_id
                }
        }),
    decreases n,
{
    if n > 0 {
        lemma_line_memory_is_of_the_segment(world, c, segment, t_ms, cross, n - 1);
    }
}

/// Only objects that have moved are reported to have crossed a line, or remembered for it.
pub proof fn law_crossings_are_of_movers(
    world: WorldState,
    segments: Seq<TrackSegment>,
    t_ms: Stamp,
    cross: spec_fn(TrackSegment, PreparedLine) -> SegmentMeasure,
    n: int,
)
    requires
        0 <= n <= segments.len(),
    ensures
        ({
            let after = world.all_crossed(segments, t_ms, cross, n);
            &&& remembers_movers(world.memory, after.memory, segments)
            &&& forall|i: int|
                0 <= i < after.events.len() ==> has_moved(
                    segments,
                    (#[trigger] after.events[i]).track_id,
                )
        }),
    decreases n,
{
    if n > 0 {
        law_crossings_are_of_movers(world, segments, t_ms, cross, n - 1);
        let before = world.all_crossed(segments, t_ms, cross, n - 1);
        let after = world.all_crossed(segments, t_ms, cross, n);
        let segment = segments[n - 1];
        lemma_line_memory_is_of_the_segment(
            world,
            before,
            segment,
            t_ms,
            cross,
            world.lines.len() as int,
        );
        assert(has_moved(segments, segment.track_id));
        assert forall|i: int| 0 <= i < after.events.len() implies has_moved(
            segments,
            (#[trigger] after.events[i]).track_id,
        ) by {
            if i < before.events.len() {
                assert(after.events[i] == before.events[i]);
            }
        }
    }
}

/// A tick keeps the world in order. Every object after it was there before or carries an
/// id that was not handed out before, so no id is ever used twice; and an object reported
/// as departed is gone.
pub proof fn law_tick_never_reuses_an_id(world: WorldState, sightings: Seq<Sighting>, g: Senses)
    requires
        world.ok(),
        world.next_id + sightings.len() <= u32::MAX,
    ensures
        ({
            let (after, update) = world.ticked(sightings, g);
            &&& after.ok()
            &&& ids_continue(world, after)
            &&& forall|i: int, j: int|
                0 <= i < j < after.tracks.len() ==> (#[trigger] after.tracks[i]).id < (
                #[trigger] after.tracks[j]).id
            &&& forall|k: int|
                0 <= k < update.removed.len() ==> !has_id(
                    after.tracks,
                    #[trigger] update.removed[k],
                )
        }),
{
    let t_ms = world.last_t_ms;
    let n = sightings.len() as int;
    lemma_sighted_all(world, sightings, t_ms, g.rate, g.assess, n);
    let (seen_world, log) = world.sighted_all(sightings, t_ms, g.rate, g.assess, n);
    lemma_swept_ok(seen_world, log.seen, g.lapse, seen_world.tracks.len() as int);
    let (after, update) = world.ticked(sightings, g);
    let sweep = swept(
        seen_world.tracks,
        log.seen,
        g.lapse,
        seen_world.config,
        seen_world.tracks.len() as int,
    );
    assert(after.tracks == sweep.tracks);
    lemma_sighted_frame(world, sightings, t_ms, g.rate, g.assess, n);
    lemma_segments_are_of_objects(world, sightings, t_ms, g.rate, g.assess, n);
    law_crossings_are_of_movers(
        seen_world,
        log.segments,
        t_ms,
        g.cross,
        log.segments.len() as int,
    );
    assert forall|id: u32, line: u32| #[trigger] after.memory.contains((id, line)) implies id
        < after.next_id by {
        if has_moved(log.segments, id) {
            assert(has_id(seen_world.tracks, id));
        } else {
            assert(seen_world.memory.contains((id, line)));
        }
    }
    assert forall|i: int| 0 <= i < after.tracks.len() implies 1 <= (#[trigger] after.tracks[i]).id
        < after.next_id by {
        assert(has_id(seen_world.tracks, sweep.tracks[i].id));
    }
    assert forall|id: u32| #[trigger] has_id(after.tracks, id) implies has_id(world.tracks, id)
        || world.next_id <= id < after.next_id by {
        let a = index_of(after.tracks, id);
        assert(has_id(seen_world.tracks, sweep.tracks[a].id));
    }
    assert forall|k: int| 0 <= k < update.removed.len() implies !has_id(
        after.tracks,
        #[trigger] update.removed[k],
    ) by {
        if has_id(after.tracks, update.removed[k]) {
            let a = index_of(after.tracks, update.removed[k]);
            assert(!sweep.removed.contains(sweep.tracks[a].id));
        }
    }
}

/// The keys tell for each reported crossing which object went over which line: no pair
/// twice, none that was remembered, and each remembered from now on.
pub open spec fn each_once(
    lines: Seq<PreparedLine>,
    before: Set<(u32, u32)>,
    after: Crossings,
    keys: Seq<(u32, u32)>,
) -> bool {
    &&& keys.len() == after.events.len()
    &&& forall|i: int, j: int|
        0 <= i < j < keys.len() ==> #[trigger] keys[i] != #[trigger] keys[j]
    &&& forall|i: int|
        0 <= i < keys.len() ==> {
            &&& !before.contains(#[trigger] keys[i])
            &&& after.memory.contains(keys[i])
            &&& keys[i].1 < lines.len()
            &&& after.events[i].track_id == keys[i].0
            &&& after.events[i].line_name == lines[keys[i].1 as int].name
        }
    &&& forall|key: (u32, u32)| #[trigger] before.contains(key) ==> after.memory.contains(key)
}

proof fn lemma_lines_crossed_once(
    world: WorldState,
    start: Set<(u32, u32)>,
    c: Crossings,
    keys: Seq<(u32, u32)>,
    segment: TrackSegment,
    t_ms: Stamp,
    cross: spec_fn(TrackSegment, PreparedLine) -> SegmentMeasure,
    n: int,
) -> (more: Seq<(u32, u32)>)
    requires
        world.lines.len() <= u32::MAX,
        0 <= n <= world.lines.len(),
        each_once(world.lines, start, c, keys),
    ensures
        each_once(world.lines, start, world.lines_crossed(c, segment, t_ms, cross, n), more),
    decreases n,
{
    if n <= 0 {
        keys
    } else {
        let before = world.lines_crossed(c, segment, t_ms, cross, n - 1);
        let so_far = lemma_lines_crossed_once(
            world,
            start,
            c,
            keys,
            segment,
            t_ms,
            cross,
            n - 1,
        );
        let after = world.lines_crossed(c, segment, t_ms, cross, n);
        if after.events.len() == before.events.len() {
            so_far
        } else {
            let key = (segment.track_id, (n - 1) as u32);
            let more = so_far.push(key);
            assert(!before.memory.contains(key));
            assert(!start.contains(key));
            assert forall|i: int, j: int| 0 <= i < j < more.len() implies #[trigger] more[i]
                != #[trigger] more[j] by {
                if j == so_far.len() {
                    assert(before.memory.contains(so_far[i]));
                }
            }
            assert forall|i: int| 0 <= i < more.len() implies {
                &&& !start.contains(#[trigger] more[i])
                &&& after.memory.contains(more[i])
                &&& more[i].1 < world.lines.len()
                &&& after.events[i].track_id == more[i].0
                &&& after.events[i].line_name == world.lines[more[i].1 as int].name
            } by {
                if i < so_far.len() {
                    assert(so_far[i] == more[i]);
                    assert(after.events[i] == before.events[i]);
                }
            }
            more
        }
    }
}

proof fn lemma_all_crossed_once(
    world: WorldState,
    segments: Seq<TrackSegment>,
    t_ms: Stamp,
    cross: spec_fn(TrackSegment, PreparedLine) -> SegmentMeasure,
    n: int,
) -> (keys: Seq<(u32, u32)>)
    requires
        world.lines.len() <= u32::MAX,
        0 <= n,
    ensures
        each_once(
            world.lines,
            world.memory,
            world.all_crossed(segments, t_ms, cross, n),
            keys,
        ),
    decreases n,
{
    if n <= 0 {
        Seq::empty()
    } else {
        let so_far = lemma_all_crossed_once(world, segments, t_ms, cross, n - 1);
        let before = world.all_crossed(segments, t_ms, cross, n - 1);
        if stood_still(segments[n - 1]) {
            so_far
        } else {
            lemma_lines_crossed_once(
                world,
                world.memory,
                before,
                so_far,
                segments[n - 1],
                t_ms,
                cross,
                world.lines.len() as int,
            )
        }
    }
}

pub proof fn lemma_sighted_frame(
    world: WorldState,
    sightings: Seq<Sighting>,
    t_ms: Stamp,
    rate: spec_fn(Rect, Rect) -> Level,
    assess: spec_fn(WorldTrack, Sighting) -> Measure,
    n: int,
)
    ensures
        ({
            let after = world.sighted_all(sightings, t_ms, rate, assess, n).0;
            &&& after.memory == world.memory
            &&& after.lines == world.lines
            &&& after.config == world.config
            &&& after.labels == world.labels
            &&& after.last_t_ms == world.last_t_ms
        }),
    decreases n,
{
    if n > 0 {
        lemma_sighted_frame(world, sightings, t_ms, rate, assess, n - 1);
    }
}

/// An object is reported at most once for each line. A tick reports no crossing that is
/// remembered from before and none twice, and remembers what it reports, except for
/// objects that depart in the same tick.
pub proof fn law_each_crossing_is_reported_once(
    world: WorldState,
    sightings: Seq<Sighting>,
    g: Senses,
) -> (keys: Seq<(u32, u32)>)
    requires
        world.ok(),
    ensures
        ({
            let (after, update) = world.ticked(sightings, g);
            &&& keys.len() == update.crossings.len()
            &&& forall|i: int, j: int|
                0 <= i < j < keys.len() ==> #[trigger] keys[i] != #[trigger] keys[j]
            &&& forall|i: int|
                0 <= i < keys.len() ==> {
                    &&& !world.memory.contains(#[trigger] keys[i])
                    &&& keys[i].1 < world.lines.len()
                    &&& update.crossings[i].track_id == keys[i].0
                    &&& update.crossings[i].line_name == world.lines[keys[i].1 as int].name
                    &&& after.memory.contains(keys[i]) || update.removed.contains(keys[i].0)
                }
            &&& forall|key: (u32, u32)| #[trigger]
                world.memory.contains(key) ==> after.memory.contains(key)
                    || update.removed.contains(key.0)
        }),
{
    let t_ms = world.last_t_ms;
    let n = sightings.len() as int;
    lemma_sighted_frame(world, sightings, t_ms, g.rate, g.assess, n);
    let (seen_world, log) = world.sighted_all(sightings, t_ms, g.rate, g.assess, n);
    let (after, update) = world.ticked(sightings, g);
    let keys = lemma_all_crossed_once(
        seen_world,
        log.segments,
        t_ms,
        g.cross,
        log.segments.len() as int,
    );
    let c = seen_world.all_crossed(log.segments, t_ms, g.cross, log.segments.len() as int);
    assert forall|key: (u32, u32)| #[trigger] c.memory.contains(key) implies after.memory.contains(
        key,
    ) || update.removed.contains(key.0) by {}
    assert forall|i: int| 0 <= i < keys.len() implies {
        &&& !world.memory.contains(#[trigger] keys[i])
        &&& keys[i].1 < world.lines.len()
        &&& update.crossings[i].track_id == keys[i].0
        &&& update.crossings[i].line_name == world.lines[keys[i].1 as int].name
        &&& after.memory.contains(keys[i]) || update.removed.contains(keys[i].0)
    } by {
        assert(c.memory.contains(keys[i]));
    }
    keys
}

/// No two sightings of a tick are of the same engine object.
pub open spec fn each_engine_object_once(sightings: Seq<Sighting>) -> bool {
    forall|i: int, j: int|
        0 <= i < j < sightings.len() ==> (#[trigger] sightings[i]).engine_id != (
        #[trigger] sightings[j]).engine_id
}

proof fn lemma_fresh_engine_gives_no_movement(
    world: WorldState,
    sightings: Seq<Sighting>,
    t_ms: Stamp,
    rate: spec_fn(Rect, Rect) -> Level,
    assess: spec_fn(WorldTrack, Sighting) -> Measure,
    n: int,
)
    requires
        world.ok(),
        world.engine_map == Map::<i64, u32>::empty(),
        each_engine_object_once(sightings),
        0 <= n <= sightings.len(),
        world.next_id + n <= u32::MAX,
    ensures
        ({
            let (after, log) = world.sighted_all(sightings, t_ms, rate, assess, n);
            &&& forall|k: i64| #[trigger]
                after.engine_map.dom().contains(k) ==> exists|i: int|
                    0 <= i < n && (#[trigger] sightings[i]).engine_id == k
            &&& forall|i: int|
                0 <= i < log.segments.len() ==> (#[trigger] log.segments[i]).track_id
                    >= world.next_id
        }),
    decreases n,
{
    if n > 0 {
        lemma_fresh_engine_gives_no_movement(world, sightings, t_ms, rate, assess, n - 1);
        lemma_sighted_all(world, sightings, t_ms, rate, assess, n - 1);
        let (before, log) = world.sighted_all(sightings, t_ms, rate, assess, n - 1);
        let (after, logged) = world.sighted_all(sightings, t_ms, rate, assess, n);
        let s = sightings[n - 1];
        assert(before.known(s.engine_id) is None) by {
            if before.engine_map.dom().contains(s.engine_id as i64) {
                let i = choose|i: int|
                    0 <= i < n - 1 && (#[trigger] sightings[i]).engine_id == s.engine_id as i64;
                assert(sightings[i].engine_id != sightings[n - 1].engine_id);
            }
        }
        if s.is_activated && 0 <= s.class_id < before.labels.len() {
            let label = before.labels[s.class_id as int];
            lemma_located(before, s, label, t_ms, rate);
            let (located, found) = before.located(s, label, t_ms, rate);
            lemma_best_match_in_range(
                before.tracks,
                label@,
                s.bbox,
                rate,
                before.config.reassoc_iou,
                before.tracks.len() as int,
            );
            match best_match(
                before.tracks,
                label@,
                s.bbox,
                rate,
                before.config.reassoc_iou,
                before.tracks.len() as int,
            ) {
                Some(i) => {
                    lemma_index_of(before.tracks, i);
                    let track = before.tracks[i];
                    assert(track.ok(before.config));
                    law_resuming_is_no_movement(
                        track,
                        s,
                        label,
                        assess(track, s),
                        t_ms,
                        before.config,
                    );
                    assert(logged.segments == log.segments);
                },
                None => if found is Some {
                    let last = located.tracks.len() - 1;
                    assert(located.tracks[last].id == before.next_id);
                    lemma_index_of(located.tracks, last);
                },
            }
        }
        assert forall|k: i64| #[trigger] after.engine_map.dom().contains(k) implies exists|i: int|
            0 <= i < n && (#[trigger] sightings[i]).engine_id == k by {
            if before.engine_map.dom().contains(k) {
                let i = choose|i: int| 0 <= i < n - 1 && (#[trigger] sightings[i]).engine_id == k;
                assert(sightings[i].engine_id == k);
            } else {
                assert(sightings[n - 1].engine_id == k);
            }
        }
    }
}

proof fn lemma_no_movement_for_a_fresh_engine(
    world: WorldState,
    sightings: Seq<Sighting>,
    g: Senses,
)
    requires
        world.ok(),
        world.engine_map == Map::<i64, u32>::empty(),
        each_engine_object_once(sightings),
        world.next_id + sightings.len() <= u32::MAX,
    ensures
        ({
            let crossings = world.ticked(sightings, g).1.crossings;
            forall|i: int|
                0 <= i < crossings.len() ==> (#[trigger] crossings[i]).track_id >= world.next_id
        }),
{
    let t_ms = world.last_t_ms;
    let n = sightings.len() as int;
    lemma_fresh_engine_gives_no_movement(world, sightings, t_ms, g.rate, g.assess, n);
    let (seen_world, log) = world.sighted_all(sightings, t_ms, g.rate, g.assess, n);
    law_crossings_are_of_movers(
        seen_world,
        log.segments,
        t_ms,
        g.cross,
        log.segments.len() as int,
    );
    let crossings = world.ticked(sightings, g).1.crossings;
    assert forall|i: int| 0 <= i < crossings.len() implies (#[trigger] crossings[i]).track_id
        >= world.next_id by {
        assert(has_moved(log.segments, crossings[i].track_id));
    }
}

pub proof fn lemma_oldest(tracks: Seq<WorldTrack>, n: int)
    requires
        0 <= n <= tracks.len(),
    ensures
        match oldest_dormant(tracks, n) {
            Some(i) => {
                &&& 0 <= i < n
                &&& tracks[i].dormant
                &&& dormant_count(tracks, n) > 0
                &&& forall|j: int|
                    0 <= j < n && (#[trigger] tracks[j]).dormant ==> tracks[i].last_seen_ms
                        <= tracks[j].last_seen_ms
            },
            None => dormant_count(tracks, n) == 0,
        },
    decreases n,
{
    if n > 0 {
        lemma_oldest(tracks, n - 1);
        if oldest_dormant(tracks, n - 1) is None {
            lemma_none_dormant(tracks, n - 1);
        }
    }
}

proof fn lemma_none_dormant(tracks: Seq<WorldTrack>, n: int)
    requires
        0 <= n <= tracks.len(),
        dormant_count(tracks, n) == 0,
    ensures
        forall|j: int| 0 <= j < n ==> !(#[trigger] tracks[j]).dormant,
    decreases n,
{
    if n > 0 {
        lemma_none_dormant(tracks, n - 1);
    }
}

proof fn lemma_all_dormant(tracks: Seq<WorldTrack>, n: int)
    requires
        0 <= n <= tracks.len(),
        forall|j: int| 0 <= j < n ==> (#[trigger] tracks[j]).dormant,
    ensures
        dormant_count(tracks, n) == n,
    decreases n,
{
    if n > 0 {
        lemma_all_dormant(tracks, n - 1);
    }
}

proof fn lemma_same_count(a: Seq<WorldTrack>, b: Seq<WorldTrack>, n: int)
    requires
        0 <= n <= a.len(),
        n <= b.len(),
        forall|j: int| 0 <= j < n ==> #[trigger] a[j] == b[j],
    ensures
        dormant_count(a, n) == dormant_count(b, n),
    decreases n,
{
    if n > 0 {
        lemma_same_count(a, b, n - 1);
    }
}

proof fn lemma_count_without(tracks: Seq<WorldTrack>, i: int, n: int)
    requires
        0 <= i < n <= tracks.len(),
        tracks[i].dormant,
    ensures
        dormant_count(tracks.remove(i), n - 1) + 1 == dormant_count(tracks, n),
    decreases n,
{
    let rest = tracks.remove(i);
    if i == n - 1 {
        lemma_same_count(rest, tracks, n - 1);
    } else {
        lemma_count_without(tracks, i, n - 1);
        assert(rest[n - 2] == tracks[n - 1]);
    }
}

pub proof fn lemma_filter_in_order(tracks: Seq<WorldTrack>, keep: spec_fn(WorldTrack) -> bool)
    requires
        forall|i: int, j: int|
            0 <= i < j < tracks.len() ==> (#[trigger] tracks[i]).id < (#[trigger] tracks[j]).id,
    ensures
        ({
            let kept = tracks.filter(keep);
            &&& forall|i: int, j: int|
                0 <= i < j < kept.len() ==> (#[trigger] kept[i]).id < (#[trigger] kept[j]).id
            &&& forall|i: int|
                0 <= i < kept.len() ==> keep(#[trigger] kept[i]) && tracks.contains(kept[i])
        }),
    decreases tracks.len(),
{
    reveal(Seq::filter);
    if tracks.len() > 0 {
        let rest = tracks.drop_last();
        assert forall|i: int, j: int| 0 <= i < j < rest.len() implies (#[trigger] rest[i]).id < (
        #[trigger] rest[j]).id by {
            assert(tracks[i].id < tracks[j].id);
        }
        lemma_filter_in_order(rest, keep);
        let before = rest.filter(keep);
        let kept = tracks.filter(keep);
        assert forall|i: int| 0 <= i < before.len() implies (#[trigger] before[i]).id
            < tracks.last().id && tracks.contains(before[i]) by {
            let k = choose|k: int| 0 <= k < rest.len() && rest[k] == before[i];
            assert(tracks[k] == before[i]);
        }
        assert forall|i: int| 0 <= i < kept.len() implies keep(#[trigger] kept[i])
            && tracks.contains(kept[i]) by {
            if i < before.len() {
                assert(kept[i] == before[i]);
            } else {
                assert(kept[i] == tracks[tracks.len() - 1]);
            }
        }
    }
}

proof fn lemma_evicted_ok(world: WorldState, k: nat)
    requires
        world.ok(),
    ensures
        (WorldState { tracks: evicted(world.tracks, k), ..world }).ok(),
    decreases k,
{
    if k > 0 {
        lemma_oldest(world.tracks, world.tracks.len() as int);
        match oldest_dormant(world.tracks, world.tracks.len() as int) {
            Some(i) => {
                lemma_removed_ok(world, i);
                lemma_evicted_ok(
                    WorldState { tracks: world.tracks.remove(i), ..world },
                    (k - 1) as nat,
                );
            },
            None => {},
        }
    }
}

/// A tick begins with a world in order, with no id handed out on the way.
pub proof fn law_a_tick_begins_in_order(
    world: WorldState,
    t_ms: Stamp,
    since_last: Stamp,
    motion: Option<CameraMotion>,
    shift: spec_fn(Rect) -> Rect,
)
    requires
        world.ok(),
    ensures
        world.begun(t_ms, since_last, motion, shift).ok(),
        world.begun(t_ms, since_last, motion, shift).next_id == world.next_id,
{
    let rested = if world.is_gap(since_last) {
        let keep = |t: WorldTrack| is_confirmed(t);
        let kept = world.tracks.filter(keep);
        lemma_filter_in_order(world.tracks, keep);
        let sleepers = kept.map_values(|t: WorldTrack| asleep(t));
        let dozing = WorldState { tracks: sleepers, engine_map: Map::empty(), ..world };
        assert forall|i: int| 0 <= i < sleepers.len() implies 1 <= (#[trigger] sleepers[i]).id
            < world.next_id && sleepers[i].ok(world.config) by {
            let j = choose|j: int| 0 <= j < world.tracks.len() && world.tracks[j] == kept[i];
            assert(1 <= world.tracks[j].id < world.next_id);
            assert(world.tracks[j].ok(world.config));
            assert(keep(kept[i]));
        }
        assert forall|i: int, j: int| 0 <= i < j < sleepers.len() implies (
        #[trigger] sleepers[i]).id < (#[trigger] sleepers[j]).id by {
            assert(kept[i].id < kept[j].id);
        }
        assert(dozing.ok());
        lemma_evicted_ok(dozing, excess(sleepers, world.config.max_dormant));
        world.gap_passed()
    } else {
        world
    };
    assert(rested.ok());
    let ready = WorldState { last_t_ms: t_ms, ..rested };
    assert(ready.ok());
    let after = ready.panned(motion, shift);
    assert forall|i: int| 0 <= i < after.tracks.len() implies (#[trigger] after.tracks[i]).id
        == ready.tracks[i].id && after.tracks[i].ok(world.config) by {
        assert(ready.tracks[i].ok(world.config));
    }
    assert forall|i: int, j: int| 0 <= i < j < after.tracks.len() implies (
    #[trigger] after.tracks[i]).id < (#[trigger] after.tracks[j]).id by {
        assert(ready.tracks[i].id < ready.tracks[j].id);
    }
    assert forall|i: int| 0 <= i < after.tracks.len() implies 1 <= (#[trigger] after.tracks[i]).id
        < after.next_id by {
        assert(1 <= ready.tracks[i].id < ready.next_id);
    }
}

/// Missing time is no movement: in the tick after a gap no object that was there before
/// the gap is reported to have crossed a line.
pub proof fn law_no_crossing_across_a_gap(
    world: WorldState,
    t_ms: Stamp,
    since_last: Stamp,
    motion: Option<CameraMotion>,
    shift: spec_fn(Rect) -> Rect,
    labels: Seq<String>,
    sightings: Seq<Sighting>,
    g: Senses,
)
    requires
        world.ok(),
        world.is_gap(since_last),
        distinct_texts(labels),
        each_engine_object_once(sightings),
        world.next_id + sightings.len() <= u32::MAX,
    ensures
        ({
            let begun = WorldState { labels, ..world.begun(t_ms, since_last, motion, shift) };
            let crossings = begun.ticked(sightings, g).1.crossings;
            forall|i: int|
                0 <= i < crossings.len() ==> (#[trigger] crossings[i]).track_id >= world.next_id
        }),
{
    law_a_tick_begins_in_order(world, t_ms, since_last, motion, shift);
    let begun = WorldState { labels, ..world.begun(t_ms, since_last, motion, shift) };
    assert(begun.ok());
    lemma_no_movement_for_a_fresh_engine(begun, sightings, g);
}

/// A pan moves boxes and anchors and changes nothing else of an object: whoever is parked
/// stays parked, and nobody's speed changes.
pub proof fn law_a_pan_only_moves_boxes(
    world: WorldState,
    motion: Option<CameraMotion>,
    shift: spec_fn(Rect) -> Rect,
    i: int,
)
    requires
        0 <= i < world.tracks.len(),
    ensures
        ({
            let after = world.panned(motion, shift);
            let moved = world.is_pan(motion);
            &&& after.tracks.len() == world.tracks.len()
            &&& after.tracks[i] == WorldTrack {
                bbox: after.tracks[i].bbox,
                anchor: after.tracks[i].anchor,
                ..world.tracks[i]
            }
            &&& after.tracks[i].bbox == (if moved {
                shift(world.tracks[i].bbox)
            } else {
                world.tracks[i].bbox
            })
            &&& after.tracks[i].anchor == (if moved {
                shift(world.tracks[i].anchor)
            } else {
                world.tracks[i].anchor
            })
            &&& motion is Some ==> after.pose == motion
        }),
{
}

/// A class id stays with its label: new labels get new ids, and no id changes.
pub proof fn law_class_ids_are_kept(
    labels: Seq<String>,
    detections: Seq<Detection>,
    kept: Seq<u32>,
    n: int,
)
    requires
        distinct_texts(labels),
        0 <= n <= kept.len(),
    ensures
        ({
            let after = labels_after(labels, detections, kept, n);
            &&& after.len() >= labels.len()
            &&& after.take(labels.len() as int) == labels
            &&& distinct_texts(after)
            &&& forall|k: int|
                0 <= k < n ==> has_text(after, detections[#[trigger] kept[k] as int].label@)
        }),
    decreases n,
{
    let after = labels_after(labels, detections, kept, n);
    if n > 0 {
        law_class_ids_are_kept(labels, detections, kept, n - 1);
        let before = labels_after(labels, detections, kept, n - 1);
        let label = detections[kept[n - 1] as int].label;
        assert(after.take(labels.len() as int) =~= before.take(labels.len() as int));
        assert forall|text: Seq<char>| has_text(before, text) implies #[trigger] has_text(
            after,
            text,
        ) by {
            let i = choose|i: int| 0 <= i < before.len() && #[trigger] before[i]@ == text;
            assert(after[i]@ == text);
        }
        if !has_text(before, label@) {
            assert(after[before.len() as int]@ == label@);
            assert forall|i: int, j: int| 0 <= i < j < after.len() implies #[trigger] after[i]@
                != #[trigger] after[j]@ by {
                if j == before.len() {
                    assert(before[i]@ != label@);
                }
            }
        }
    } else {
        assert(after.take(labels.len() as int) =~= labels);
    }
}

/// One of the first `n` objects has this id and is confirmed.
pub open spec fn is_confirmed_id(tracks: Seq<WorldTrack>, n: int, id: u32) -> bool {
    exists|i: int| 0 <= i < n && is_confirmed(#[trigger] tracks[i]) && tracks[i].id == id
}

/// A flicker dies silently: the end of a tick reports only confirmed objects, and an
/// unconfirmed one that fades is gone without being reported as removed.
pub proof fn law_flickers_die_silently(
    tracks: Seq<WorldTrack>,
    seen: Seq<u32>,
    lapse: spec_fn(WorldTrack) -> Lapse,
    config: WorldConfig,
    n: int,
)
    requires
        0 <= n <= tracks.len(),
    ensures
        ({
            let sweep = swept(tracks, seen, lapse, config, n);
            &&& forall|k: int|
                0 <= k < sweep.events.len() ==> is_confirmed_id(
                    tracks,
                    n,
                    (#[trigger] sweep.events[k]).subject().track_id,
                )
            &&& forall|k: int|
                0 <= k < sweep.removed.len() ==> is_confirmed_id(
                    tracks,
                    n,
                    #[trigger] sweep.removed[k],
                )
        }),
    decreases n,
{
    if n > 0 {
        law_flickers_die_silently(tracks, seen, lapse, config, n - 1);
        let before = swept(tracks, seen, lapse, config, n - 1);
        let sweep = swept(tracks, seen, lapse, config, n);
        assert forall|id: u32| #[trigger]
            is_confirmed_id(tracks, n - 1, id) implies is_confirmed_id(tracks, n, id) by {
            let i = choose|i: int|
                0 <= i < n - 1 && is_confirmed(#[trigger] tracks[i]) && tracks[i].id == id;
            assert(is_confirmed(tracks[i]));
        }
        assert(is_confirmed(tracks[n - 1]) ==> is_confirmed_id(tracks, n, tracks[n - 1].id));
        assert forall|k: int| 0 <= k < sweep.events.len() implies is_confirmed_id(
            tracks,
            n,
            (#[trigger] sweep.events[k]).subject().track_id,
        ) by {
            if k < before.events.len() {
                assert(sweep.events[k] == before.events[k]);
            }
        }
        assert forall|k: int| 0 <= k < sweep.removed.len() implies is_confirmed_id(
            tracks,
            n,
            #[trigger] sweep.removed[k],
        ) by {
            if k < before.removed.len() {
                assert(sweep.removed[k] == before.removed[k]);
            }
        }
    }
}

/// Eviction takes away as many sleepers as asked for and nobody else, and always the ones
/// that were seen longest ago: whoever is missing afterwards was asleep, and was seen no
/// later than any sleeper that is still there.
pub proof fn law_eviction_takes_the_oldest(tracks: Seq<WorldTrack>, k: nat)
    requires
        k <= dormant_count(tracks, tracks.len() as int),
    ensures
        ({
            let left = evicted(tracks, k);
            &&& left.len() == tracks.len() - k
            &&& dormant_count(left, left.len() as int) == dormant_count(
                tracks,
                tracks.len() as int,
            ) - k
            &&& forall|a: int| 0 <= a < left.len() ==> tracks.contains(#[trigger] left[a])
            &&& forall|b: int|
                0 <= b < tracks.len() && !left.contains(#[trigger] tracks[b]) ==> tracks[b].dormant
            &&& forall|a: int, b: int|
                0 <= a < left.len() && 0 <= b < tracks.len() && (#[trigger] left[a]).dormant
                    && !left.contains(#[trigger] tracks[b]) ==> tracks[b].last_seen_ms
                    <= left[a].last_seen_ms
        }),
    decreases k,
{
    if k > 0 {
        let n = tracks.len() as int;
        lemma_oldest(tracks, n);
        let i = oldest_dormant(tracks, n)->0;
        let rest = tracks.remove(i);
        lemma_count_without(tracks, i, n);
        law_eviction_takes_the_oldest(rest, (k - 1) as nat);
        let left = evicted(tracks, k);
        assert(left == evicted(rest, (k - 1) as nat));
        assert forall|a: int| 0 <= a < left.len() implies tracks.contains(#[trigger] left[a]) by {
            let b = choose|b: int| 0 <= b < rest.len() && rest[b] == left[a];
            if b < i {
                assert(tracks[b] == left[a]);
            } else {
                assert(tracks[b + 1] == left[a]);
            }
        }
        assert forall|b: int|
            0 <= b < tracks.len() && !left.contains(
                #[trigger] tracks[b],
            ) implies tracks[b].dormant by {
            if b != i {
                let c = if b < i {
                    b
                } else {
                    b - 1
                };
                assert(rest[c] == tracks[b]);
            }
        }
        assert forall|a: int, b: int|
            0 <= a < left.len() && 0 <= b < tracks.len() && (#[trigger] left[a]).dormant
                && !left.contains(#[trigger] tracks[b]) implies tracks[b].last_seen_ms
            <= left[a].last_seen_ms by {
            if b == i {
                let c = choose|c: int| 0 <= c < tracks.len() && tracks[c] == left[a];
                assert(tracks[c].dormant);
            } else {
                let c = if b < i {
                    b
                } else {
                    b - 1
                };
                assert(rest[c] == tracks[b]);
            }
        }
    } else {
        assert forall|a: int| 0 <= a < tracks.len() implies tracks.contains(
            #[trigger] tracks[a],
        ) by {}
    }
}

/// After a gap everyone sleeps, nobody is unconfirmed, no more are left than may sleep,
/// and no engine id stands for anyone.
pub proof fn law_gap_leaves_confirmed_sleepers(world: WorldState)
    requires
        world.ok(),
    ensures
        ({
            let after = world.gap_passed();
            &&& after.tracks.len() <= world.config.max_dormant
            &&& forall|i: int|
                0 <= i < after.tracks.len() ==> {
                    &&& (#[trigger] after.tracks[i]).dormant
                    &&& is_confirmed(after.tracks[i])
                    &&& has_id(world.tracks, after.tracks[i].id)
                }
            &&& after.engine_map == Map::<i64, u32>::empty()
            &&& after.next_id == world.next_id
        }),
{
    let keep = |t: WorldTrack| is_confirmed(t);
    let confirmed = world.tracks.filter(keep);
    let sleepers = confirmed.map_values(|t: WorldTrack| asleep(t));
    assert forall|j: int| 0 <= j < sleepers.len() implies {
        &&& (#[trigger] sleepers[j]).dormant
        &&& is_confirmed(sleepers[j])
        &&& has_id(world.tracks, sleepers[j].id)
    } by {
        world.tracks.lemma_filter_pred(keep, j);
        lemma_filtered_are_members(world.tracks, keep, j);
        let i = choose|i: int| 0 <= i < world.tracks.len() && world.tracks[i] == confirmed[j];
        assert(world.tracks[i].id == sleepers[j].id);
    }
    lemma_all_dormant(sleepers, sleepers.len() as int);
    let k = excess(sleepers, world.config.max_dormant);
    law_eviction_takes_the_oldest(sleepers, k);
    let after = world.gap_passed();
    assert(after.tracks == evicted(sleepers, k));
    assert forall|i: int| 0 <= i < after.tracks.len() implies {
        &&& (#[trigger] after.tracks[i]).dormant
        &&& is_confirmed(after.tracks[i])
        &&& has_id(world.tracks, after.tracks[i].id)
    } by {
        assert(sleepers.contains(after.tracks[i]));
        let j = choose|j: int| 0 <= j < sleepers.len() && sleepers[j] == after.tracks[i];
        assert(sleepers[j].dormant);
    }
}

pub proof fn lemma_filtered_are_members(
    tracks: Seq<WorldTrack>,
    keep: spec_fn(WorldTrack) -> bool,
    j: int,
)
    requires
        0 <= j < tracks.filter(keep).len(),
    ensures
        tracks.contains(tracks.filter(keep)[j]),
    decreases tracks.len(),
{
    reveal(Seq::filter);
    if tracks.len() > 0 {
        let rest = tracks.drop_last();
        if j < rest.filter(keep).len() {
            lemma_filtered_are_members(rest, keep, j);
            let i = choose|i: int| 0 <= i < rest.len() && rest[i] == rest.filter(keep)[j];
            assert(tracks[i] == tracks.filter(keep)[j]);
        } else {
            assert(tracks[tracks.len() - 1] == tracks.filter(keep)[j]);
        }
    }
}

/// After a camera move nobody is asleep or parked, all others are as they were, and no
/// crossing is remembered.
pub proof fn law_camera_move_clears_the_parked(world: WorldState)
    requires
        world.ok(),
    ensures
        ({
            let after = world.camera_moved();
            &&& forall|i: int|
                0 <= i < after.tracks.len() ==> is_roaming(#[trigger] after.tracks[i])
                    && world.tracks.contains(after.tracks[i])
            &&& forall|i: int|
                0 <= i < world.tracks.len() && is_roaming(#[trigger] world.tracks[i])
                    ==> after.tracks.contains(world.tracks[i])
            &&& after.memory == Set::<(u32, u32)>::empty()
            &&& after.pose is None
            &&& forall|k: i64| #[trigger]
                after.engine_map.dom().contains(k) ==> has_id(after.tracks, after.engine_map[k])
        }),
{
    let keep = |t: WorldTrack| is_roaming(t);
    let after = world.camera_moved();
    assert forall|i: int| 0 <= i < after.tracks.len() implies is_roaming(#[trigger] after.tracks[i])
        && world.tracks.contains(after.tracks[i]) by {
        world.tracks.lemma_filter_pred(keep, i);
        lemma_filtered_are_members(world.tracks, keep, i);
    }
    assert forall|i: int| 0 <= i < world.tracks.len() && is_roaming(
        #[trigger] world.tracks[i],
    ) implies after.tracks.contains(world.tracks[i]) by {
        world.tracks.lemma_filter_contains(keep, i);
    }
}

proof fn lemma_sighting_keeps_who_is_who(
    world: WorldState,
    log: TickState,
    s: Sighting,
    t_ms: Stamp,
    rate: spec_fn(Rect, Rect) -> Level,
    assess: spec_fn(WorldTrack, Sighting) -> Measure,
    k: u32,
    id: u32,
)
    requires
        world.known(k) == Some(id),
    ensures
        world.sighted(log, s, t_ms, rate, assess).0.known(k) == Some(id),
{
    if s.is_activated && 0 <= s.class_id < world.labels.len() {
        let label = world.labels[s.class_id as int];
        let n = world.tracks.len() as int;
        lemma_best_match_in_range(
            world.tracks,
            label@,
            s.bbox,
            rate,
            world.config.reassoc_iou,
            n,
        );
        let (located, found) = world.located(s, label, t_ms, rate);
        let at = index_of(world.tracks, id);
        assert(world.tracks[at].id == id);
        assert(located.tracks[at].id == id);
        if let Some(other) = found {
            if world.known(s.engine_id) is None && !(best_match(
                world.tracks,
                label@,
                s.bbox,
                rate,
                world.config.reassoc_iou,
                n,
            ) is Some) {
                assert(located.tracks[n].id == other);
            }
            assert(has_id(located.tracks, other));
            let i = index_of(located.tracks, other);
            let track = located.tracks[i];
            let after = located.observed(log, other, s, label, t_ms, assess).0;
            law_advance_keeps_identity(track, s, label, assess(track, s), t_ms, world.config);
            assert(after.tracks[at].id == id);
            assert(has_id(after.tracks, id));
        }
    }
}

proof fn lemma_sightings_keep_who_is_who(
    world: WorldState,
    sightings: Seq<Sighting>,
    t_ms: Stamp,
    rate: spec_fn(Rect, Rect) -> Level,
    assess: spec_fn(WorldTrack, Sighting) -> Measure,
    k: u32,
    id: u32,
    n: int,
)
    requires
        world.known(k) == Some(id),
    ensures
        world.sighted_all(sightings, t_ms, rate, assess, n).0.known(k) == Some(id),
    decreases n,
{
    if n > 0 {
        lemma_sightings_keep_who_is_who(world, sightings, t_ms, rate, assess, k, id, n - 1);
        let (before, log) = world.sighted_all(sightings, t_ms, rate, assess, n - 1);
        lemma_sighting_keeps_who_is_who(
            before,
            log,
            sightings[n - 1],
            t_ms,
            rate,
            assess,
            k,
            id,
        );
    }
}

/// An object keeps its identity from tick to tick: the engine id that stands for it goes on
/// doing so for as long as the object is there.
pub proof fn law_identity_is_stable(
    world: WorldState,
    sightings: Seq<Sighting>,
    g: Senses,
    k: u32,
    id: u32,
)
    requires
        world.ok(),
        world.next_id + sightings.len() <= u32::MAX,
        world.known(k) == Some(id),
        has_id(world.ticked(sightings, g).0.tracks, id),
    ensures
        world.ticked(sightings, g).0.known(k) == Some(id),
{
    let t_ms = world.last_t_ms;
    let n = sightings.len() as int;
    lemma_sightings_keep_who_is_who(world, sightings, t_ms, g.rate, g.assess, k, id, n);
    law_tick_never_reuses_an_id(world, sightings, g);
    let (after, update) = world.ticked(sightings, g);
    assert(!update.removed.contains(id)) by {
        if update.removed.contains(id) {
            let j = choose|j: int| 0 <= j < update.removed.len() && update.removed[j] == id;
            assert(!has_id(after.tracks, update.removed[j]));
        }
    }
}

/// A sighting takes up the dormant object with its label whose anchor it overlaps most,
/// the oldest of equals, and one is found whenever any overlaps enough.
pub proof fn law_best_match_overlaps_most(
    tracks: Seq<WorldTrack>,
    label: Seq<char>,
    bbox: Rect,
    rate: spec_fn(Rect, Rect) -> Level,
    floor: Level,
    n: int,
)
    requires
        0 <= n <= tracks.len(),
    ensures
        match best_match(tracks, label, bbox, rate, floor, n) {
            Some(i) => {
                &&& 0 <= i < n
                &&& resumable(tracks[i], label, bbox, rate, floor)
                &&& forall|j: int|
                    0 <= j < n && resumable(#[trigger] tracks[j], label, bbox, rate, floor)
                        ==> rate(tracks[j].anchor, bbox) <= rate(tracks[i].anchor, bbox) && (j < i
                        ==> rate(tracks[j].anchor, bbox) < rate(tracks[i].anchor, bbox))
            },
            None => forall|j: int|
                0 <= j < n ==> !resumable(#[trigger] tracks[j], label, bbox, rate, floor),
        },
    decreases n,
{
    if n > 0 {
        law_best_match_overlaps_most(tracks, label, bbox, rate, floor, n - 1);
    }
}

/// Coming back in place keeps the identity: a sighting of an unknown engine object that
/// overlaps a sleeper with its label enough is taken for such a sleeper, whatever its
/// score, and no new id is handed out.
pub proof fn law_resuming_keeps_the_identity(
    world: WorldState,
    s: Sighting,
    label: String,
    t_ms: Stamp,
    rate: spec_fn(Rect, Rect) -> Level,
    j: int,
)
    requires
        world.ok(),
        world.known(s.engine_id) is None,
        0 <= j < world.tracks.len(),
        resumable(world.tracks[j], label@, s.bbox, rate, world.config.reassoc_iou),
    ensures
        ({
            let (after, found) = world.located(s, label, t_ms, rate);
            &&& after.next_id == world.next_id
            &&& after.tracks == world.tracks
            &&& found matches Some(id) && has_id(world.tracks, id) && resumable(
                world.tracks[index_of(world.tracks, id)],
                label@,
                s.bbox,
                rate,
                world.config.reassoc_iou,
            )
        }),
{
    let n = world.tracks.len() as int;
    law_best_match_overlaps_most(
        world.tracks,
        label@,
        s.bbox,
        rate,
        world.config.reassoc_iou,
        n,
    );
    let i = best_match(world.tracks, label@, s.bbox, rate, world.config.reassoc_iou, n)->0;
    lemma_index_of(world.tracks, i);
}

/// A new identity takes a score that reaches the threshold: a sighting below it adds no
/// object and uses up no id.
pub proof fn law_new_identity_needs_the_score(
    world: WorldState,
    log: TickState,
    s: Sighting,
    t_ms: Stamp,
    rate: spec_fn(Rect, Rect) -> Level,
    assess: spec_fn(WorldTrack, Sighting) -> Measure,
)
    requires
        world.ok(),
        world.next_id < u32::MAX,
        s.score < world.min_confidence,
    ensures
        world.sighted(log, s, t_ms, rate, assess).0.next_id == world.next_id,
        world.sighted(log, s, t_ms, rate, assess).0.tracks.len() == world.tracks.len(),
{
    if s.is_activated && 0 <= s.class_id < world.labels.len() {
        lemma_located(world, s, world.labels[s.class_id as int], t_ms, rate);
    }
}

/// Nobody of this id is left, and nobody of this id is reported to be removed.
spec fn is_silent(
    tracks: Seq<WorldTrack>,
    seen: Seq<u32>,
    lapse: spec_fn(WorldTrack) -> Lapse,
    config: WorldConfig,
    n: int,
    id: u32,
) -> bool {
    let sweep = swept(tracks, seen, lapse, config, n);
    &&& !has_id(sweep.tracks, id)
    &&& !sweep.removed.contains(id)
    &&& forall|k: int|
        0 <= k < sweep.events.len() ==> (#[trigger] sweep.events[k]).subject().track_id != id
}

proof fn lemma_sweep_is_silent(
    tracks: Seq<WorldTrack>,
    seen: Seq<u32>,
    lapse: spec_fn(WorldTrack) -> Lapse,
    config: WorldConfig,
    n: int,
    id: u32,
)
    requires
        0 <= n <= tracks.len(),
        forall|j: int| 0 <= j < n ==> (#[trigger] tracks[j]).id != id,
    ensures
        is_silent(tracks, seen, lapse, config, n, id),
    decreases n,
{
    if n > 0 {
        lemma_sweep_is_silent(tracks, seen, lapse, config, n - 1, id);
        let before = swept(tracks, seen, lapse, config, n - 1);
        let sweep = swept(tracks, seen, lapse, config, n);
        assert(tracks[n - 1].id != id);
        if has_id(sweep.tracks, id) {
            let k = index_of(sweep.tracks, id);
            if k < before.tracks.len() {
                assert(before.tracks[k].id == id);
            }
        }
        if sweep.removed.contains(id) {
            let k = choose|k: int| 0 <= k < sweep.removed.len() && sweep.removed[k] == id;
            if k < before.removed.len() {
                assert(before.removed.contains(id));
            }
        }
        assert forall|k: int| 0 <= k < sweep.events.len() implies (
        #[trigger] sweep.events[k]).subject().track_id != id by {
            if k < before.events.len() {
                assert(sweep.events[k] == before.events[k]);
            }
        }
    }
}

/// What becomes of the object with number `i` among the first `n`.
spec fn is_swept(
    tracks: Seq<WorldTrack>,
    seen: Seq<u32>,
    lapse: spec_fn(WorldTrack) -> Lapse,
    config: WorldConfig,
    n: int,
    i: int,
) -> bool {
    let sweep = swept(tracks, seen, lapse, config, n);
    let track = tracks[i];
    let f = fate(track, seen, lapse(track), config);
    &&& has_id(sweep.tracks, track.id) <==> f is Stay || f is Sleep
    &&& f is Stay ==> sweep.tracks.contains(track)
    &&& f is Sleep ==> sweep.tracks.contains(asleep(track))
    &&& sweep.removed.contains(track.id) <==> f is Depart
    &&& forall|k: int|
        0 <= k < sweep.events.len() && (#[trigger] sweep.events[k]).subject().track_id == track.id
            ==> (f is Sleep && sweep.events[k] == SemanticEvent::ObjectLost(
            asleep(track).shown(),
        )) || (f is Depart && sweep.events[k] == SemanticEvent::ObjectDeparted(
            track.shown().departed(),
        ))
    &&& f is Sleep || f is Depart ==> exists|k: int|
        0 <= k < sweep.events.len() && (#[trigger] sweep.events[k]).subject().track_id == track.id
}

proof fn lemma_sweep_of_one(
    tracks: Seq<WorldTrack>,
    seen: Seq<u32>,
    lapse: spec_fn(WorldTrack) -> Lapse,
    config: WorldConfig,
    n: int,
    i: int,
)
    requires
        0 <= i < n <= tracks.len(),
        forall|a: int, b: int|
            0 <= a < b < tracks.len() ==> (#[trigger] tracks[a]).id < (#[trigger] tracks[b]).id,
    ensures
        is_swept(tracks, seen, lapse, config, n, i),
    decreases n,
{
    let before = swept(tracks, seen, lapse, config, n - 1);
    let sweep = swept(tracks, seen, lapse, config, n);
    let track = tracks[i];
    let id = track.id;
    let f = fate(track, seen, lapse(track), config);
    if i < n - 1 {
        lemma_sweep_of_one(tracks, seen, lapse, config, n - 1, i);
        assert(tracks[i].id < tracks[n - 1].id);
        if has_id(before.tracks, id) {
            let k = index_of(before.tracks, id);
            assert(sweep.tracks[k].id == id);
        }
        if has_id(sweep.tracks, id) {
            let k = index_of(sweep.tracks, id);
            assert(k < before.tracks.len());
            assert(before.tracks[k].id == id);
        }
        assert forall|t: WorldTrack| before.tracks.contains(t) implies #[trigger]
            sweep.tracks.contains(t) by {
            let k = choose|k: int| 0 <= k < before.tracks.len() && before.tracks[k] == t;
            assert(sweep.tracks[k] == t);
        }
        if before.removed.contains(id) {
            let k = choose|k: int| 0 <= k < before.removed.len() && before.removed[k] == id;
            assert(sweep.removed[k] == id);
        }
        if sweep.removed.contains(id) {
            let k = choose|k: int| 0 <= k < sweep.removed.len() && sweep.removed[k] == id;
            assert(before.removed[k] == id);
        }
        assert forall|k: int|
            0 <= k < sweep.events.len() && (#[trigger] sweep.events[k]).subject().track_id
                == id implies k < before.events.len() && before.events[k] == sweep.events[k] by {}
        if f is Sleep || f is Depart {
            let k = choose|k: int|
                0 <= k < before.events.len() && (#[trigger] before.events[k]).subject().track_id
                    == id;
            assert(sweep.events[k] == before.events[k]);
        }
    } else {
        assert forall|j: int| 0 <= j < n - 1 implies (#[trigger] tracks[j]).id != id by {
            assert(tracks[j].id < tracks[i].id);
        }
        lemma_sweep_is_silent(tracks, seen, lapse, config, n - 1, id);
        match f {
            Fate::Stay => {
                assert(sweep.tracks.last() == track);
                assert(sweep.tracks[sweep.tracks.len() - 1].id == id);
            },
            Fate::Sleep => {
                assert(sweep.tracks.last() == asleep(track));
                assert(sweep.tracks[sweep.tracks.len() - 1].id == id);
                assert(sweep.events[sweep.events.len() - 1].subject().track_id == id);
            },
            Fate::Fade => {},
            Fate::Depart => {
                assert(sweep.removed.last() == id);
                assert(sweep.events[sweep.events.len() - 1].subject().track_id == id);
            },
        }
        assert forall|k: int| 0 <= k < sweep.events.len() && k < before.events.len() implies (
        #[trigger] sweep.events[k]).subject().track_id != id by {
            assert(sweep.events[k] == before.events[k]);
        }
        if has_id(sweep.tracks, id) {
            let k = index_of(sweep.tracks, id);
            if k < before.tracks.len() {
                assert(before.tracks[k].id == id);
            }
        }
        if sweep.removed.contains(id) {
            let k = choose|k: int| 0 <= k < sweep.removed.len() && sweep.removed[k] == id;
            if k < before.removed.len() {
                assert(before.removed.contains(id));
            }
        }
    }
}

proof fn lemma_tick_of_one(
    world: WorldState,
    sightings: Seq<Sighting>,
    g: Senses,
    i: int,
)
    requires
        world.ok(),
        world.next_id + sightings.len() <= u32::MAX,
        0 <= i < world.sighted_all(
            sightings,
            world.last_t_ms,
            g.rate,
            g.assess,
            sightings.len() as int,
        ).0.tracks.len(),
    ensures
        ({
            let (mid, log) = world.sighted_all(
                sightings,
                world.last_t_ms,
                g.rate,
                g.assess,
                sightings.len() as int,
            );
            let track = mid.tracks[i];
            let (after, update) = world.ticked(sightings, g);
            let sweep = swept(
                mid.tracks,
                log.seen,
                g.lapse,
                world.config,
                mid.tracks.len() as int,
            );
            &&& is_swept(
                mid.tracks,
                log.seen,
                g.lapse,
                world.config,
                mid.tracks.len() as int,
                i,
            )
            &&& after.tracks == sweep.tracks
            &&& update.removed == sweep.removed
            &&& update.events == log.events + sweep.events
            &&& track.ok(world.config)
        }),
{
    let t_ms = world.last_t_ms;
    let n = sightings.len() as int;
    lemma_sighted_all(world, sightings, t_ms, g.rate, g.assess, n);
    lemma_sighted_frame(world, sightings, t_ms, g.rate, g.assess, n);
    let (mid, log) = world.sighted_all(sightings, t_ms, g.rate, g.assess, n);
    lemma_sweep_of_one(
        mid.tracks,
        log.seen,
        g.lapse,
        world.config,
        mid.tracks.len() as int,
        i,
    );
}

/// The events tell that the object departed, and show it as it was last.
pub open spec fn tells_departure(events: Seq<SemanticEvent>, track: WorldTrack) -> bool {
    exists|k: int|
        0 <= k < events.len() && ((#[trigger] events[k]) matches SemanticEvent::ObjectDeparted(p)
            && pictures(p, WorldTrack { state: TrackState::Departed, ..track }))
}

/// The events tell that the object is out of sight, and show it as it was last.
pub open spec fn tells_loss(events: Seq<SemanticEvent>, track: WorldTrack) -> bool {
    exists|k: int|
        0 <= k < events.len() && ((#[trigger] events[k]) matches SemanticEvent::ObjectLost(p)
            && pictures(p, track))
}

/// Whoever was going somewhere and is out of sight for longer than the grace departs: an
/// awake, active object that was not seen, was anchored anew since it was first seen, and had
/// been in place for less than the grace, is listed as removed, reported as departed, and is
/// gone, with all that was remembered of it.
pub proof fn law_whoever_was_going_somewhere_departs(
    world: WorldState,
    sightings: Seq<Sighting>,
    g: Senses,
    i: int,
)
    requires
        world.ok(),
        world.next_id + sightings.len() <= u32::MAX,
        ({
            let (mid, log) = world.sighted_all(
                sightings,
                world.last_t_ms,
                g.rate,
                g.assess,
                sightings.len() as int,
            );
            let track = mid.tracks[i];
            let l = (g.lapse)(track);
            &&& 0 <= i < mid.tracks.len()
            &&& !log.seen.contains(track.id)
            &&& !track.dormant
            &&& track.state == TrackState::Active
            &&& l.since_seen > world.config.depart_grace_ms
            &&& l.rest < world.config.depart_grace_ms
            &&& track.still_since_ms != track.first_seen_ms
        }),
    ensures
        ({
            let (mid, log) = world.sighted_all(
                sightings,
                world.last_t_ms,
                g.rate,
                g.assess,
                sightings.len() as int,
            );
            let track = mid.tracks[i];
            let (after, update) = world.ticked(sightings, g);
            &&& update.removed.contains(track.id)
            &&& tells_departure(update.events, track)
            &&& forall|k: int| 0 <= k < after.tracks.len() ==> (#[trigger] after.tracks[k]).id
                != track.id
            &&& forall|k: i64| #[trigger]
                after.engine_map.dom().contains(k) ==> after.engine_map[k] != track.id
            &&& forall|line: u32| !after.memory.contains((track.id, line))
        }),
{
    lemma_tick_of_one(world, sightings, g, i);
    let (mid, log) = world.sighted_all(
        sightings,
        world.last_t_ms,
        g.rate,
        g.assess,
        sightings.len() as int,
    );
    let track = mid.tracks[i];
    let (after, update) = world.ticked(sightings, g);
    let events = swept(
        mid.tracks,
        log.seen,
        g.lapse,
        world.config,
        mid.tracks.len() as int,
    ).events;
    let k = choose|k: int|
        0 <= k < events.len() && (#[trigger] events[k]).subject().track_id == track.id;
    assert(update.events[log.events.len() + k] == events[k]);
    assert forall|k: int| 0 <= k < after.tracks.len() implies (#[trigger] after.tracks[k]).id
        != track.id by {
        if after.tracks[k].id == track.id {
            assert(has_id(after.tracks, track.id));
        }
    }
}

/// Whoever was in place and is out of sight for longer than the grace falls asleep: an awake,
/// confirmed object that was not seen and is parked, was never anchored anew, or had been in
/// place for at least the grace, stays with nothing changed but that it sleeps, is reported
/// as lost, and is not removed.
pub proof fn law_whoever_was_in_place_falls_asleep(
    world: WorldState,
    sightings: Seq<Sighting>,
    g: Senses,
    i: int,
)
    requires
        world.ok(),
        world.next_id + sightings.len() <= u32::MAX,
        ({
            let (mid, log) = world.sighted_all(
                sightings,
                world.last_t_ms,
                g.rate,
                g.assess,
                sightings.len() as int,
            );
            let track = mid.tracks[i];
            let l = (g.lapse)(track);
            &&& 0 <= i < mid.tracks.len()
            &&& !log.seen.contains(track.id)
            &&& !track.dormant
            &&& track.state != TrackState::Tentative
            &&& l.since_seen > world.config.depart_grace_ms
            &&& track.state == TrackState::Stationary || track.still_since_ms
                == track.first_seen_ms || l.rest >= world.config.depart_grace_ms
        }),
    ensures
        ({
            let (mid, log) = world.sighted_all(
                sightings,
                world.last_t_ms,
                g.rate,
                g.assess,
                sightings.len() as int,
            );
            let track = mid.tracks[i];
            let (after, update) = world.ticked(sightings, g);
            &&& after.tracks.contains(WorldTrack { dormant: true, moving_streak: 0, ..track })
            &&& tells_loss(update.events, track)
            &&& !update.removed.contains(track.id)
        }),
{
    lemma_tick_of_one(world, sightings, g, i);
    let (mid, log) = world.sighted_all(
        sightings,
        world.last_t_ms,
        g.rate,
        g.assess,
        sightings.len() as int,
    );
    let track = mid.tracks[i];
    let (after, update) = world.ticked(sightings, g);
    let events = swept(
        mid.tracks,
        log.seen,
        g.lapse,
        world.config,
        mid.tracks.len() as int,
    ).events;
    let k = choose|k: int|
        0 <= k < events.len() && (#[trigger] events[k]).subject().track_id == track.id;
    assert(update.events[log.events.len() + k] == events[k]);
}

/// Whoever was seen, sleeps, or is not out of sight for longer than the grace stays as it is,
/// and the end of the tick tells nothing of it.
pub proof fn law_whoever_is_in_sight_stays(
    world: WorldState,
    sightings: Seq<Sighting>,
    g: Senses,
    i: int,
)
    requires
        world.ok(),
        world.next_id + sightings.len() <= u32::MAX,
        ({
            let (mid, log) = world.sighted_all(
                sightings,
                world.last_t_ms,
                g.rate,
                g.assess,
                sightings.len() as int,
            );
            let track = mid.tracks[i];
            let l = (g.lapse)(track);
            &&& 0 <= i < mid.tracks.len()
            &&& log.seen.contains(track.id) || track.dormant || l.since_seen
                <= world.config.depart_grace_ms
        }),
    ensures
        ({
            let (mid, log) = world.sighted_all(
                sightings,
                world.last_t_ms,
                g.rate,
                g.assess,
                sightings.len() as int,
            );
            let track = mid.tracks[i];
            let (after, update) = world.ticked(sightings, g);
            &&& after.tracks.contains(track)
            &&& !update.removed.contains(track.id)
            &&& forall|k: int|
                log.events.len() <= k < update.events.len() ==> (
                #[trigger] update.events[k]).subject().track_id != track.id
        }),
{
    lemma_tick_of_one(world, sightings, g, i);
    let (mid, log) = world.sighted_all(
        sightings,
        world.last_t_ms,
        g.rate,
        g.assess,
        sightings.len() as int,
    );
    let track = mid.tracks[i];
    let (after, update) = world.ticked(sightings, g);
    let events = swept(
        mid.tracks,
        log.seen,
        g.lapse,
        world.config,
        mid.tracks.len() as int,
    ).events;
    assert forall|k: int| log.events.len() <= k < update.events.len() implies (
    #[trigger] update.events[k]).subject().track_id != track.id by {
        assert(update.events[k] == events[k - log.events.len()]);
    }
}

/// Whoever was never confirmed and is out of sight for longer than the grace is gone, and
/// the end of the tick tells nothing of it.
pub proof fn law_whoever_was_never_confirmed_is_forgotten(
    world: WorldState,
    sightings: Seq<Sighting>,
    g: Senses,
    i: int,
)
    requires
        world.ok(),
        world.next_id + sightings.len() <= u32::MAX,
        ({
            let (mid, log) = world.sighted_all(
                sightings,
                world.last_t_ms,
                g.rate,
                g.assess,
                sightings.len() as int,
            );
            let track = mid.tracks[i];
            let l = (g.lapse)(track);
            &&& 0 <= i < mid.tracks.len()
            &&& !log.seen.contains(track.id)
            &&& track.state == TrackState::Tentative
            &&& l.since_seen > world.config.depart_grace_ms
        }),
    ensures
        ({
            let (mid, log) = world.sighted_all(
                sightings,
                world.last_t_ms,
                g.rate,
                g.assess,
                sightings.len() as int,
            );
            let track = mid.tracks[i];
            let (after, update) = world.ticked(sightings, g);
            &&& forall|k: int| 0 <= k < after.tracks.len() ==> (#[trigger] after.tracks[k]).id
                != track.id
            &&& !update.removed.contains(track.id)
            &&& forall|k: int|
                log.events.len() <= k < update.events.len() ==> (
                #[trigger] update.events[k]).subject().track_id != track.id
        }),
{
    lemma_tick_of_one(world, sightings, g, i);
    let (mid, log) = world.sighted_all(
        sightings,
        world.last_t_ms,
        g.rate,
        g.assess,
        sightings.len() as int,
    );
    let track = mid.tracks[i];
    let (after, update) = world.ticked(sightings, g);
    let events = swept(
        mid.tracks,
        log.seen,
        g.lapse,
        world.config,
        mid.tracks.len() as int,
    ).events;
    assert forall|k: int| log.events.len() <= k < update.events.len() implies (
    #[trigger] update.events[k]).subject().track_id != track.id by {
        assert(update.events[k] == events[k - log.events.len()]);
    }
    assert forall|k: int| 0 <= k < after.tracks.len() implies (#[trigger] after.tracks[k]).id
        != track.id by {
        if after.tracks[k].id == track.id {
            assert(has_id(after.tracks, track.id));
        }
    }
}

/// In a tick without a sighting each object departs, falls asleep, is forgotten or stays as it
/// is, by how long it is out of sight and how long it had been in place.
pub proof fn law_a_tick_without_a_sighting(world: WorldState, g: Senses, i: int)
    requires
        world.ok(),
        0 <= i < world.tracks.len(),
    ensures
        ({
            let track = world.tracks[i];
            let l = (g.lapse)(track);
            let (after, update) = world.ticked(Seq::empty(), g);
            let out_of_sight = !track.dormant && l.since_seen > world.config.depart_grace_ms;
            let confirmed = track.state != TrackState::Tentative;
            let in_place = track.state == TrackState::Stationary || track.still_since_ms
                == track.first_seen_ms || l.rest >= world.config.depart_grace_ms;
            let left = exists|k: int|
                0 <= k < after.tracks.len() && (#[trigger] after.tracks[k]).id == track.id;
            &&& left <==> !out_of_sight || confirmed && in_place
            &&& !out_of_sight ==> after.tracks.contains(track)
            &&& out_of_sight && confirmed && in_place ==> after.tracks.contains(
                WorldTrack { dormant: true, moving_streak: 0, ..track },
            )
            &&& update.removed.contains(track.id) <==> out_of_sight && confirmed && !in_place
            &&& tells_departure(update.events, track) <==> out_of_sight && confirmed && !in_place
            &&& tells_loss(update.events, track) <==> out_of_sight && confirmed && in_place
            &&& update.created.len() == 0 && update.crossings.len() == 0
        }),
{
    let none = Seq::<Sighting>::empty();
    lemma_tick_of_one(world, none, g, i);
    let track = world.tracks[i];
    let (mid, log) = world.sighted_all(none, world.last_t_ms, g.rate, g.assess, 0);
    let (after, update) = world.ticked(none, g);
    let events = swept(
        world.tracks,
        log.seen,
        g.lapse,
        world.config,
        world.tracks.len() as int,
    ).events;
    assert(update.events =~= events);
    assert(has_id(after.tracks, track.id) <==> exists|k: int|
        0 <= k < after.tracks.len() && (#[trigger] after.tracks[k]).id == track.id);
    let f = fate(track, log.seen, (g.lapse)(track), world.config);
    if f is Sleep || f is Depart {
        let k = choose|k: int|
            0 <= k < events.len() && (#[trigger] events[k]).subject().track_id == track.id;
        assert(update.events[k] == events[k]);
    }
    assert(tells_departure(update.events, track) ==> f is Depart) by {
        if tells_departure(update.events, track) {
            let k = choose|k: int|
                0 <= k < update.events.len() && ((
                #[trigger] update.events[k]) matches SemanticEvent::ObjectDeparted(p) && pictures(
                    p,
                    WorldTrack { state: TrackState::Departed, ..track },
                ));
            assert(events[k].subject().track_id == track.id);
        }
    }
    assert(tells_loss(update.events, track) ==> f is Sleep) by {
        if tells_loss(update.events, track) {
            let k = choose|k: int|
                0 <= k < update.events.len() && ((
                #[trigger] update.events[k]) matches SemanticEvent::ObjectLost(p) && pictures(
                    p,
                    track,
                ));
            assert(events[k].subject().track_id == track.id);
        }
    }
}

/// The movement is one over the line: it changes its place, the line watches its label, the
/// two are not parallel and meet within both, and the line lets the direction through.
pub open spec fn goes_over(segment: TrackSegment, line: PreparedLine, m: SegmentMeasure) -> bool {
    &&& segment.shift_x >= SAME_PLACE_LIMIT || segment.shift_y >= SAME_PLACE_LIMIT
    &&& line.labels@.len() == 0 || exists|i: int|
        0 <= i < line.labels@.len() && #[trigger] line.labels@[i]@ == lowercase_text(
            segment.label@,
        )
    &&& m.denom >= PARALLEL_LIMIT
    &&& 0 <= m.along_track && m.along_track <= ONE
    &&& 0 <= m.along_line && m.along_line <= ONE
    &&& m.cross > 0 && line.direction != LineDirectionFilter::BToA || m.cross < 0
        && line.direction != LineDirectionFilter::AToB
}

/// The event is of this movement over this line at this time, from A to B exactly if the
/// cross product is positive.
pub open spec fn is_crossing_of(
    event: LineCrossingEvent,
    segment: TrackSegment,
    line: PreparedLine,
    m: SegmentMeasure,
    t_ms: Stamp,
) -> bool {
    &&& event.line_name@ == line.name@
    &&& event.track_id == segment.track_id
    &&& event.label@ == segment.label@
    &&& event.prev_pos == segment.from && event.curr_pos == segment.to
    &&& event.timestamp_ms == t_ms
    &&& event.direction == CrossingDirection::AToB <==> m.cross > 0
}

/// Some movement over some line explains the event.
pub open spec fn is_explained(
    event: LineCrossingEvent,
    segments: Seq<TrackSegment>,
    lines: Seq<PreparedLine>,
    t_ms: Stamp,
    cross: spec_fn(TrackSegment, PreparedLine) -> SegmentMeasure,
) -> bool {
    exists|k: int, l: int|
        {
            &&& 0 <= k < segments.len()
            &&& 0 <= l < lines.len()
            &&& goes_over(segments[k], lines[l], cross(segments[k], lines[l]))
            &&& is_crossing_of(
                event,
                #[trigger] segments[k],
                #[trigger] lines[l],
                cross(segments[k], lines[l]),
                t_ms,
            )
        }
}

proof fn lemma_lines_are_crossed(
    world: WorldState,
    before: Crossings,
    segment: TrackSegment,
    t_ms: Stamp,
    cross: spec_fn(TrackSegment, PreparedLine) -> SegmentMeasure,
    n: int,
)
    requires
        0 <= n <= world.lines.len() <= u32::MAX,
        !stood_still(segment),
    ensures
        ({
            let after = world.lines_crossed(before, segment, t_ms, cross, n);
            &&& before.events.len() <= after.events.len()
            &&& after.events.take(before.events.len() as int) == before.events
            &&& forall|key: (u32, u32)| #[trigger]
                after.memory.contains(key) <==> before.memory.contains(key) || (key.0
                    == segment.track_id && key.1 < n && goes_over(
                    segment,
                    world.lines[key.1 as int],
                    cross(segment, world.lines[key.1 as int]),
                ))
            &&& forall|e: int|
                before.events.len() <= e < after.events.len() ==> is_explained(
                    #[trigger] after.events[e],
                    seq![segment],
                    world.lines,
                    t_ms,
                    cross,
                ) && after.events[e].confidence == confidence_of(world.tracks, segment.track_id)
            &&& forall|l: int|
                0 <= l < n && !before.memory.contains((segment.track_id, l as u32)) && goes_over(
                    segment,
                    #[trigger] world.lines[l],
                    cross(segment, world.lines[l]),
                ) ==> exists|e: int|
                    before.events.len() <= e < after.events.len() && is_crossing_of(
                        #[trigger] after.events[e],
                        segment,
                        world.lines[l],
                        cross(segment, world.lines[l]),
                        t_ms,
                    )
        }),
    decreases n,
{
    let after = world.lines_crossed(before, segment, t_ms, cross, n);
    if n > 0 {
        lemma_lines_are_crossed(world, before, segment, t_ms, cross, n - 1);
        let so_far = world.lines_crossed(before, segment, t_ms, cross, n - 1);
        let line = world.lines[n - 1];
        let m = cross(segment, line);
        let key = (segment.track_id, (n - 1) as u32);
        let lower = lowercase_text(segment.label@);
        assert(line.crossed(lower, m) is Some <==> goes_over(segment, line, m));
        assert(after.events.take(before.events.len() as int) =~= so_far.events.take(
            before.events.len() as int,
        ));
        assert(!so_far.memory.contains(key) <==> !before.memory.contains(key));
        assert forall|e: int| before.events.len() <= e < after.events.len() implies is_explained(
            #[trigger] after.events[e],
            seq![segment],
            world.lines,
            t_ms,
            cross,
        ) && after.events[e].confidence == confidence_of(world.tracks, segment.track_id) by {
            if e < so_far.events.len() {
                assert(after.events[e] == so_far.events[e]);
            } else {
                let one = seq![segment];
                assert(one[0] == segment);
                assert(is_crossing_of(after.events[e], one[0], world.lines[n - 1], m, t_ms));
            }
        }
        assert forall|l: int|
            0 <= l < n && !before.memory.contains((segment.track_id, l as u32)) && goes_over(
                segment,
                #[trigger] world.lines[l],
                cross(segment, world.lines[l]),
            ) implies exists|e: int|
            before.events.len() <= e < after.events.len() && is_crossing_of(
                #[trigger] after.events[e],
                segment,
                world.lines[l],
                cross(segment, world.lines[l]),
                t_ms,
            ) by {
            if l < n - 1 {
                let e = choose|e: int|
                    before.events.len() <= e < so_far.events.len() && is_crossing_of(
                        #[trigger] so_far.events[e],
                        segment,
                        world.lines[l],
                        cross(segment, world.lines[l]),
                        t_ms,
                    );
                assert(after.events[e] == so_far.events[e]);
            } else {
                assert(is_crossing_of(after.events.last(), segment, line, m, t_ms));
                assert(after.events[after.events.len() - 1] == after.events.last());
            }
        }
    } else {
        assert(after.events.take(before.events.len() as int) =~= before.events);
    }
}

/// One of the first `n` movements with this id goes over the line.
pub open spec fn some_goes_over(
    segments: Seq<TrackSegment>,
    id: u32,
    line: PreparedLine,
    cross: spec_fn(TrackSegment, PreparedLine) -> SegmentMeasure,
    n: int,
) -> bool {
    exists|k: int|
        0 <= k < n && (#[trigger] segments[k]).track_id == id && goes_over(
            segments[k],
            line,
            cross(segments[k], line),
        )
}

proof fn lemma_all_are_crossed(
    world: WorldState,
    segments: Seq<TrackSegment>,
    t_ms: Stamp,
    cross: spec_fn(TrackSegment, PreparedLine) -> SegmentMeasure,
    n: int,
)
    requires
        world.lines.len() <= u32::MAX,
        0 <= n <= segments.len(),
    ensures
        ({
            let after = world.all_crossed(segments, t_ms, cross, n);
            &&& forall|id: u32, l: u32| #[trigger]
                after.memory.contains((id, l)) <==> world.memory.contains((id, l)) || l
                    < world.lines.len() && some_goes_over(
                    segments,
                    id,
                    world.lines[l as int],
                    cross,
                    n,
                )
            &&& forall|e: int|
                0 <= e < after.events.len() ==> is_explained(
                    #[trigger] after.events[e],
                    segments,
                    world.lines,
                    t_ms,
                    cross,
                ) && after.events[e].confidence == confidence_of(
                    world.tracks,
                    after.events[e].track_id,
                )
        }),
    decreases n,
{
    let after = world.all_crossed(segments, t_ms, cross, n);
    if n > 0 {
        lemma_all_are_crossed(world, segments, t_ms, cross, n - 1);
        let before = world.all_crossed(segments, t_ms, cross, n - 1);
        let segment = segments[n - 1];
        let all = world.lines.len() as int;
        if !stood_still(segment) {
            lemma_lines_are_crossed(world, before, segment, t_ms, cross, all);
        }
        assert forall|id: u32, l: u32| #[trigger]
            after.memory.contains((id, l)) <==> world.memory.contains((id, l)) || l
                < world.lines.len() && some_goes_over(
                segments,
                id,
                world.lines[l as int],
                cross,
                n,
            ) by {
            let line = world.lines[l as int];
            assert(before.memory.contains((id, l)) <==> world.memory.contains((id, l)) || l < all
                && some_goes_over(segments, id, line, cross, n - 1));
            if some_goes_over(segments, id, line, cross, n) {
                let k = choose|k: int|
                    0 <= k < n && (#[trigger] segments[k]).track_id == id && goes_over(
                        segments[k],
                        line,
                        cross(segments[k], line),
                    );
                if k < n - 1 {
                    assert(some_goes_over(segments, id, line, cross, n - 1));
                }
            }
            if some_goes_over(segments, id, line, cross, n - 1) {
                let k = choose|k: int|
                    0 <= k < n - 1 && (#[trigger] segments[k]).track_id == id && goes_over(
                        segments[k],
                        line,
                        cross(segments[k], line),
                    );
                assert(segments[k].track_id == id);
            }
            if segment.track_id == id && goes_over(segment, line, cross(segment, line)) {
                assert(segments[n - 1].track_id == id);
            }
        }
        assert forall|e: int| 0 <= e < after.events.len() implies is_explained(
            #[trigger] after.events[e],
            segments,
            world.lines,
            t_ms,
            cross,
        ) && after.events[e].confidence == confidence_of(
            world.tracks,
            after.events[e].track_id,
        ) by {
            if e < before.events.len() {
                assert(after.events.take(before.events.len() as int)[e] == after.events[e]);
                assert(after.events[e] == before.events[e]);
            } else {
                let one = seq![segment];
                assert(is_explained(after.events[e], one, world.lines, t_ms, cross));
                let (k, l) = choose|k: int, l: int|
                    {
                        &&& 0 <= k < one.len()
                        &&& 0 <= l < world.lines.len()
                        &&& goes_over(one[k], world.lines[l], cross(one[k], world.lines[l]))
                        &&& is_crossing_of(
                            after.events[e],
                            #[trigger] one[k],
                            #[trigger] world.lines[l],
                            cross(one[k], world.lines[l]),
                            t_ms,
                        )
                    };
                assert(segments[n - 1] == one[k]);
                assert(is_crossing_of(
                    after.events[e],
                    segments[n - 1],
                    world.lines[l],
                    cross(segments[n - 1], world.lines[l]),
                    t_ms,
                ));
            }
        }
    }
}

proof fn lemma_crossings_stay(
    world: WorldState,
    segments: Seq<TrackSegment>,
    t_ms: Stamp,
    cross: spec_fn(TrackSegment, PreparedLine) -> SegmentMeasure,
    a: int,
    b: int,
)
    requires
        world.lines.len() <= u32::MAX,
        0 <= a <= b <= segments.len(),
    ensures
        ({
            let before = world.all_crossed(segments, t_ms, cross, a);
            let after = world.all_crossed(segments, t_ms, cross, b);
            &&& before.events.len() <= after.events.len()
            &&& forall|e: int|
                0 <= e < before.events.len() ==> #[trigger] after.events[e] == before.events[e]
        }),
    decreases b,
{
    if a < b {
        lemma_crossings_stay(world, segments, t_ms, cross, a, b - 1);
        let before = world.all_crossed(segments, t_ms, cross, a);
        let mid = world.all_crossed(segments, t_ms, cross, b - 1);
        let after = world.all_crossed(segments, t_ms, cross, b);
        if !stood_still(segments[b - 1]) {
            lemma_lines_are_crossed(
                world,
                mid,
                segments[b - 1],
                t_ms,
                cross,
                world.lines.len() as int,
            );
        }
        assert forall|e: int| 0 <= e < before.events.len() implies #[trigger] after.events[e]
            == before.events[e] by {
            assert(mid.events[e] == before.events[e]);
            assert(after.events.take(mid.events.len() as int)[e] == after.events[e]
                || after == mid);
        }
    }
}

/// A tick reports every crossing that is not remembered: if a movement of the tick goes over
/// a line, and no earlier movement of the same object in this tick does, the crossing of that
/// line by that movement is reported.
pub proof fn law_every_new_crossing_is_reported(
    world: WorldState,
    sightings: Seq<Sighting>,
    g: Senses,
    k: int,
    l: u32,
)
    requires
        world.ok(),
        world.next_id + sightings.len() <= u32::MAX,
        l < world.lines.len(),
        ({
            let segments = world.sighted_all(
                sightings,
                world.last_t_ms,
                g.rate,
                g.assess,
                sightings.len() as int,
            ).1.segments;
            let line = world.lines[l as int];
            let segment = segments[k];
            let m = (g.cross)(segment, line);
            &&& 0 <= k < segments.len()
            &&& segment.shift_x >= SAME_PLACE_LIMIT || segment.shift_y >= SAME_PLACE_LIMIT
            &&& line.labels@.len() == 0 || exists|i: int|
                0 <= i < line.labels@.len() && #[trigger] line.labels@[i]@ == lowercase_text(
                    segment.label@,
                )
            &&& m.denom >= PARALLEL_LIMIT
            &&& 0 <= m.along_track && m.along_track <= ONE
            &&& 0 <= m.along_line && m.along_line <= ONE
            &&& m.cross > 0 && line.direction != LineDirectionFilter::BToA || m.cross < 0
                && line.direction != LineDirectionFilter::AToB
            &&& !world.memory.contains((segment.track_id, l))
            &&& forall|j: int| 0 <= j < k ==> (#[trigger] segments[j]).track_id != segment.track_id
        }),
    ensures
        ({
            let segment = world.sighted_all(
                sightings,
                world.last_t_ms,
                g.rate,
                g.assess,
                sightings.len() as int,
            ).1.segments[k];
            let line = world.lines[l as int];
            let crossings = world.ticked(sightings, g).1.crossings;
            exists|e: int|
                {
                    &&& 0 <= e < crossings.len()
                    &&& (#[trigger] crossings[e]).line_name@ == line.name@
                    &&& crossings[e].track_id == segment.track_id
                    &&& crossings[e].label@ == segment.label@
                    &&& crossings[e].prev_pos == segment.from
                    &&& crossings[e].curr_pos == segment.to
                    &&& crossings[e].timestamp_ms == world.last_t_ms
                    &&& crossings[e].direction == CrossingDirection::AToB <==> (g.cross)(
                        segment,
                        line,
                    ).cross > 0
                }
        }),
{
    let t_ms = world.last_t_ms;
    let n = sightings.len() as int;
    lemma_sighted_all(world, sightings, t_ms, g.rate, g.assess, n);
    lemma_sighted_frame(world, sightings, t_ms, g.rate, g.assess, n);
    let (mid, log) = world.sighted_all(sightings, t_ms, g.rate, g.assess, n);
    let segments = log.segments;
    let segment = segments[k];
    let line = world.lines[l as int];
    let m = (g.cross)(segment, line);
    let crossings = world.ticked(sightings, g).1.crossings;
    lemma_all_are_crossed(mid, segments, t_ms, g.cross, k);
    let before = mid.all_crossed(segments, t_ms, g.cross, k);
    let after = mid.all_crossed(segments, t_ms, g.cross, k + 1);
    assert(!before.memory.contains((segment.track_id, l))) by {
        assert(!some_goes_over(segments, segment.track_id, line, g.cross, k));
    }
    assert(goes_over(segment, line, m));
    lemma_lines_are_crossed(mid, before, segment, t_ms, g.cross, mid.lines.len() as int);
    assert(mid.lines[l as int] == line);
    let e = choose|e: int|
        before.events.len() <= e < after.events.len() && is_crossing_of(
            #[trigger] after.events[e],
            segment,
            mid.lines[l as int],
            (g.cross)(segment, mid.lines[l as int]),
            t_ms,
        );
    lemma_crossings_stay(mid, segments, t_ms, g.cross, k + 1, segments.len() as int);
    assert(crossings[e] == after.events[e]);
}

/// Every crossing a tick reports is one: some movement of the tick, not one in place, goes
/// over the line of that name, which watches its label and lets the direction through; the
/// crossing carries the time of the tick and the score of the object.
pub proof fn law_every_reported_crossing_is_one(
    world: WorldState,
    sightings: Seq<Sighting>,
    g: Senses,
    e: int,
)
    requires
        world.ok(),
        world.next_id + sightings.len() <= u32::MAX,
        0 <= e < world.ticked(sightings, g).1.crossings.len(),
    ensures
        ({
            let (mid, log) = world.sighted_all(
                sightings,
                world.last_t_ms,
                g.rate,
                g.assess,
                sightings.len() as int,
            );
            let event = world.ticked(sightings, g).1.crossings[e];
            &&& is_explained(event, log.segments, world.lines, world.last_t_ms, g.cross)
            &&& forall|i: int|
                0 <= i < mid.tracks.len() && (#[trigger] mid.tracks[i]).id == event.track_id
                    ==> event.confidence == mid.tracks[i].confidence
        }),
{
    let t_ms = world.last_t_ms;
    let n = sightings.len() as int;
    lemma_sighted_all(world, sightings, t_ms, g.rate, g.assess, n);
    lemma_sighted_frame(world, sightings, t_ms, g.rate, g.assess, n);
    let (mid, log) = world.sighted_all(sightings, t_ms, g.rate, g.assess, n);
    lemma_all_are_crossed(mid, log.segments, t_ms, g.cross, log.segments.len() as int);
    let after = mid.all_crossed(log.segments, t_ms, g.cross, log.segments.len() as int);
    let event = world.ticked(sightings, g).1.crossings[e];
    assert(event == after.events[e]);
    assert forall|i: int|
        0 <= i < mid.tracks.len() && (#[trigger] mid.tracks[i]).id
            == event.track_id implies event.confidence == mid.tracks[i].confidence by {
        lemma_index_of(mid.tracks, i);
    }
}

/// A tick remembers a crossing exactly if it was remembered before or a movement of the tick
/// goes over the line, and the object has not departed.
pub proof fn law_crossings_are_remembered(
    world: WorldState,
    sightings: Seq<Sighting>,
    g: Senses,
    id: u32,
    l: u32,
)
    requires
        world.ok(),
        world.next_id + sightings.len() <= u32::MAX,
        l < world.lines.len(),
    ensures
        ({
            let segments = world.sighted_all(
                sightings,
                world.last_t_ms,
                g.rate,
                g.assess,
                sightings.len() as int,
            ).1.segments;
            let (after, update) = world.ticked(sightings, g);
            after.memory.contains((id, l)) <==> !update.removed.contains(id) && (
            world.memory.contains((id, l)) || exists|k: int|
                0 <= k < segments.len() && (#[trigger] segments[k]).track_id == id && goes_over(
                    segments[k],
                    world.lines[l as int],
                    (g.cross)(segments[k], world.lines[l as int]),
                ))
        }),
{
    let t_ms = world.last_t_ms;
    let n = sightings.len() as int;
    lemma_sighted_all(world, sightings, t_ms, g.rate, g.assess, n);
    lemma_sighted_frame(world, sightings, t_ms, g.rate, g.assess, n);
    let (mid, log) = world.sighted_all(sightings, t_ms, g.rate, g.assess, n);
    let count = log.segments.len() as int;
    lemma_all_are_crossed(mid, log.segments, t_ms, g.cross, count);
    let crossed = mid.all_crossed(log.segments, t_ms, g.cross, count);
    assert(crossed.memory.contains((id, l)) <==> world.memory.contains((id, l))
        || some_goes_over(log.segments, id, world.lines[l as int], g.cross, count));
}

/// The engine id stands for an object that is there.
pub open spec fn stands_for_someone(world: WorldState, engine_id: u32) -> bool {
    &&& world.engine_map.dom().contains(engine_id as i64)
    &&& exists|i: int|
        0 <= i < world.tracks.len() && (#[trigger] world.tracks[i]).id
            == world.engine_map[engine_id as i64]
}

/// The object sleeps, has this label, and its anchor overlaps the box by at least the share
/// from which on it is taken up again.
pub open spec fn could_be(
    track: WorldTrack,
    label: Seq<char>,
    bbox: Rect,
    rate: spec_fn(Rect, Rect) -> Level,
    config: WorldConfig,
) -> bool {
    &&& track.dormant
    &&& track.label@ == label
    &&& rate(track.anchor, bbox) >= config.reassoc_iou
}

/// A sighting is taken for the object its engine id stands for, and nothing else changes.
pub proof fn law_a_known_engine_object_is_that_object(
    world: WorldState,
    s: Sighting,
    label: String,
    t_ms: Stamp,
    rate: spec_fn(Rect, Rect) -> Level,
)
    requires
        stands_for_someone(world, s.engine_id),
    ensures
        world.located(s, label, t_ms, rate) == (
            world,
            Some(world.engine_map[s.engine_id as i64]),
        ),
{
    let i = choose|i: int|
        0 <= i < world.tracks.len() && (#[trigger] world.tracks[i]).id
            == world.engine_map[s.engine_id as i64];
    assert(has_id(world.tracks, world.engine_map[s.engine_id as i64]));
}

/// A sighting of an unknown engine object is taken for the sleeper with its label whose anchor
/// it overlaps most, the oldest of equals, if any overlaps enough: whatever its score. Its
/// engine id stands for that object from now on, and nothing else changes.
pub proof fn law_an_unknown_engine_object_is_the_likeliest_sleeper(
    world: WorldState,
    s: Sighting,
    label: String,
    t_ms: Stamp,
    rate: spec_fn(Rect, Rect) -> Level,
    j: int,
)
    requires
        !stands_for_someone(world, s.engine_id),
        0 <= j < world.tracks.len(),
        could_be(world.tracks[j], label@, s.bbox, rate, world.config),
    ensures
        ({
            let (after, found) = world.located(s, label, t_ms, rate);
            exists|i: int|
                {
                    &&& 0 <= i < world.tracks.len()
                    &&& found == Some((#[trigger] world.tracks[i]).id)
                    &&& could_be(world.tracks[i], label@, s.bbox, rate, world.config)
                    &&& rate(world.tracks[j].anchor, s.bbox) <= rate(
                        world.tracks[i].anchor,
                        s.bbox,
                    )
                    &&& j < i ==> rate(world.tracks[j].anchor, s.bbox) < rate(
                        world.tracks[i].anchor,
                        s.bbox,
                    )
                    &&& after == (WorldState {
                        engine_map: world.engine_map.insert(
                            s.engine_id as i64,
                            world.tracks[i].id,
                        ),
                        ..world
                    })
                }
        }),
{
    let n = world.tracks.len() as int;
    law_best_match_overlaps_most(
        world.tracks,
        label@,
        s.bbox,
        rate,
        world.config.reassoc_iou,
        n,
    );
    assert(world.known(s.engine_id) is None) by {
        if world.known(s.engine_id) is Some {
            let i = index_of(world.tracks, world.engine_map[s.engine_id as i64]);
            assert(world.tracks[i].id == world.engine_map[s.engine_id as i64]);
        }
    }
    assert(resumable(world.tracks[j], label@, s.bbox, rate, world.config.reassoc_iou));
    let i = best_match(world.tracks, label@, s.bbox, rate, world.config.reassoc_iou, n)->0;
    assert(world.located(s, label, t_ms, rate).1 == Some(world.tracks[i].id));
}

/// A sighting of an unknown engine object that could be no sleeper begins a new object under
/// the next id if its score reaches the threshold, at rest and tentative where it was seen;
/// otherwise it is passed over, and nothing changes.
pub proof fn law_an_unknown_engine_object_begins_anew(
    world: WorldState,
    s: Sighting,
    label: String,
    t_ms: Stamp,
    rate: spec_fn(Rect, Rect) -> Level,
)
    requires
        world.next_id < u32::MAX,
        !stands_for_someone(world, s.engine_id),
        forall|j: int|
            0 <= j < world.tracks.len() ==> !could_be(
                #[trigger] world.tracks[j],
                label@,
                s.bbox,
                rate,
                world.config,
            ),
    ensures
        ({
            let (after, found) = world.located(s, label, t_ms, rate);
            let n = world.tracks.len() as int;
            &&& s.score < world.min_confidence ==> after == world && found is None
            &&& s.score >= world.min_confidence ==> {
                &&& found == Some(world.next_id)
                &&& after.next_id == world.next_id + 1
                &&& after.engine_map == world.engine_map.insert(s.engine_id as i64, world.next_id)
                &&& after.tracks.len() == n + 1
                &&& forall|i: int| 0 <= i < n ==> #[trigger] after.tracks[i] == world.tracks[i]
                &&& after.tracks[n].id == world.next_id
                &&& after.tracks[n].label@ == label@
                &&& after.tracks[n].bbox == s.bbox && after.tracks[n].anchor == s.bbox
                &&& after.tracks[n].confidence == s.score
                &&& after.tracks[n].state == TrackState::Tentative && !after.tracks[n].dormant
                &&& after.tracks[n].first_seen_ms == t_ms
                &&& after.tracks[n].still_since_ms == t_ms
                &&& after.tracks[n].speed == 0
            }
        }),
{
    let n = world.tracks.len() as int;
    assert(world.known(s.engine_id) is None) by {
        if world.known(s.engine_id) is Some {
            let i = index_of(world.tracks, world.engine_map[s.engine_id as i64]);
            assert(world.tracks[i].id == world.engine_map[s.engine_id as i64]);
        }
    }
    law_best_match_overlaps_most(
        world.tracks,
        label@,
        s.bbox,
        rate,
        world.config.reassoc_iou,
        n,
    );
    if let Some(i) = best_match(world.tracks, label@, s.bbox, rate, world.config.reassoc_iou, n) {
        assert(could_be(world.tracks[i], label@, s.bbox, rate, world.config));
    }
}

/// A sighting the engine does not stand by yet, or of a class that was never fed, changes
/// nothing.
pub proof fn law_an_unsure_sighting_is_passed_over(
    world: WorldState,
    log: TickState,
    s: Sighting,
    t_ms: Stamp,
    rate: spec_fn(Rect, Rect) -> Level,
    assess: spec_fn(WorldTrack, Sighting) -> Measure,
)
    requires
        !s.is_activated || s.class_id < 0 || s.class_id >= world.labels.len(),
    ensures
        world.sighted(log, s, t_ms, rate, assess) == (world, log),
{
}

/// A sighting changes the object it is taken for, as the life of an object goes, and no other;
/// what it tells is added to what the tick has told so far.
pub proof fn law_a_sighting_changes_one_object(
    world: WorldState,
    log: TickState,
    s: Sighting,
    t_ms: Stamp,
    rate: spec_fn(Rect, Rect) -> Level,
    assess: spec_fn(WorldTrack, Sighting) -> Measure,
    i: int,
)
    requires
        world.ok(),
        world.next_id < u32::MAX,
        s.is_activated,
        0 <= s.class_id < world.labels.len(),
        ({
            let label = world.labels[s.class_id as int];
            let (mid, found) = world.located(s, label, t_ms, rate);
            0 <= i < mid.tracks.len() && found == Some(mid.tracks[i].id)
        }),
    ensures
        ({
            let label = world.labels[s.class_id as int];
            let mid = world.located(s, label, t_ms, rate).0;
            let track = mid.tracks[i];
            let a = track.advanced(s, label, assess(track, s), t_ms, world.config);
            let (after, logged) = world.sighted(log, s, t_ms, rate, assess);
            &&& after.tracks.len() == mid.tracks.len()
            &&& after.tracks[i] == a.track
            &&& forall|k: int|
                0 <= k < mid.tracks.len() && k != i ==> #[trigger] after.tracks[k] == mid.tracks[k]
            &&& after.engine_map == mid.engine_map && after.next_id == mid.next_id
            &&& logged.events == log.events + a.events
            &&& logged.seen == (if a.seen {
                log.seen.push(track.id)
            } else {
                log.seen
            })
            &&& logged.created == (if a.created {
                log.created.push(track.id)
            } else {
                log.created
            })
            &&& a.segment is None ==> logged.segments == log.segments
            &&& a.segment matches Some(segment) ==> logged.segments == log.segments.push(segment)
        }),
{
    let label = world.labels[s.class_id as int];
    lemma_located(world, s, label, t_ms, rate);
    lemma_index_of(world.located(s, label, t_ms, rate).0.tracks, i);
}

/// A sighting that is taken for nobody changes nothing.
pub proof fn law_a_sighting_of_nobody_changes_nothing(
    world: WorldState,
    log: TickState,
    s: Sighting,
    t_ms: Stamp,
    rate: spec_fn(Rect, Rect) -> Level,
    assess: spec_fn(WorldTrack, Sighting) -> Measure,
)
    requires
        0 <= s.class_id < world.labels.len(),
        world.located(s, world.labels[s.class_id as int], t_ms, rate).1 is None,
    ensures
        world.sighted(log, s, t_ms, rate, assess) == (world, log),
{
}

/// The sightings of a tick are taken in one after the other, in their order, beginning with
/// nothing told.
pub proof fn law_sightings_are_taken_in_in_order(
    world: WorldState,
    sightings: Seq<Sighting>,
    t_ms: Stamp,
    rate: spec_fn(Rect, Rect) -> Level,
    assess: spec_fn(WorldTrack, Sighting) -> Measure,
    n: int,
)
    requires
        0 <= n < sightings.len(),
    ensures
        ({
            let (none, log) = world.sighted_all(sightings, t_ms, rate, assess, 0);
            &&& none == world
            &&& log.seen.len() == 0 && log.segments.len() == 0
            &&& log.created.len() == 0 && log.events.len() == 0
        }),
        ({
            let (before, log) = world.sighted_all(sightings, t_ms, rate, assess, n);
            world.sighted_all(sightings, t_ms, rate, assess, n + 1) == before.sighted(
                log,
                sightings[n],
                t_ms,
                rate,
                assess,
            )
        }),
{
}

/// The snapshot is of a confirmed object that was seen.
spec fn is_of_someone_seen(s: TrackSnapshot, tracks: Seq<WorldTrack>, seen: Seq<u32>) -> bool {
    exists|i: int|
        0 <= i < tracks.len() && seen.contains(tracks[i].id) && tracks[i].state
            != TrackState::Tentative && pictures(s, #[trigger] tracks[i])
}

/// One of the snapshots is of the object.
spec fn is_among(shown: Seq<TrackSnapshot>, track: WorldTrack) -> bool {
    exists|k: int| 0 <= k < shown.len() && pictures(#[trigger] shown[k], track)
}

proof fn lemma_shown(tracks: Seq<WorldTrack>, seen: Seq<u32>, n: int)
    requires
        0 <= n <= seen.len(),
    ensures
        ({
            let shown = shown_tracks(tracks, seen, n);
            &&& forall|k: int|
                0 <= k < shown.len() ==> is_of_someone_seen(#[trigger] shown[k], tracks, seen)
            &&& forall|j: int|
                0 <= j < n && has_id(tracks, #[trigger] seen[j]) && tracks[index_of(
                    tracks,
                    seen[j],
                )].state != TrackState::Tentative ==> is_among(
                    shown,
                    tracks[index_of(tracks, seen[j])],
                )
        }),
    decreases n,
{
    if n > 0 {
        lemma_shown(tracks, seen, n - 1);
        let before = shown_tracks(tracks, seen, n - 1);
        let shown = shown_tracks(tracks, seen, n);
        let id = seen[n - 1];
        let at = index_of(tracks, id);
        assert forall|k: int| 0 <= k < shown.len() implies is_of_someone_seen(
            #[trigger] shown[k],
            tracks,
            seen,
        ) by {
            if k < before.len() {
                assert(shown[k] == before[k]);
            } else {
                assert(tracks[at].id == id);
                assert(seen[n - 1] == id);
                assert(pictures(shown[k], tracks[at]));
            }
        }
        assert forall|j: int|
            0 <= j < n && has_id(tracks, #[trigger] seen[j]) && tracks[index_of(
                tracks,
                seen[j],
            )].state != TrackState::Tentative implies is_among(
            shown,
            tracks[index_of(tracks, seen[j])],
        ) by {
            if j < n - 1 {
                assert(is_among(before, tracks[index_of(tracks, seen[j])]));
                let k = choose|k: int|
                    0 <= k < before.len() && pictures(
                        #[trigger] before[k],
                        tracks[index_of(tracks, seen[j])],
                    );
                assert(shown[k] == before[k]);
            } else {
                assert(pictures(shown[shown.len() - 1], tracks[at]));
            }
        }
    }
}

/// A tick shows the confirmed objects that were seen, as they are after it, and only those.
pub proof fn law_a_tick_shows_who_was_seen(
    world: WorldState,
    sightings: Seq<Sighting>,
    g: Senses,
    k: int,
    i: int,
)
    requires
        world.ok(),
        world.next_id + sightings.len() <= u32::MAX,
    ensures
        ({
            let log = world.sighted_all(
                sightings,
                world.last_t_ms,
                g.rate,
                g.assess,
                sightings.len() as int,
            ).1;
            let (after, update) = world.ticked(sightings, g);
            &&& 0 <= k < update.tracks.len() ==> exists|j: int|
                0 <= j < after.tracks.len() && log.seen.contains(after.tracks[j].id)
                    && after.tracks[j].state != TrackState::Tentative && pictures(
                    update.tracks[k],
                    #[trigger] after.tracks[j],
                )
            &&& 0 <= i < after.tracks.len() && log.seen.contains(after.tracks[i].id)
                && after.tracks[i].state != TrackState::Tentative ==> exists|j: int|
                0 <= j < update.tracks.len() && pictures(
                    #[trigger] update.tracks[j],
                    after.tracks[i],
                )
            &&& update.created == log.created
        }),
{
    let log = world.sighted_all(
        sightings,
        world.last_t_ms,
        g.rate,
        g.assess,
        sightings.len() as int,
    ).1;
    let (after, update) = world.ticked(sightings, g);
    law_tick_never_reuses_an_id(world, sightings, g);
    lemma_shown(after.tracks, log.seen, log.seen.len() as int);
    if 0 <= k < update.tracks.len() {
        assert(is_of_someone_seen(update.tracks[k], after.tracks, log.seen));
    }
    if 0 <= i < after.tracks.len() && log.seen.contains(after.tracks[i].id) && after.tracks[i].state
        != TrackState::Tentative {
        lemma_index_of(after.tracks, i);
        let j = choose|j: int| 0 <= j < log.seen.len() && log.seen[j] == after.tracks[i].id;
        assert(has_id(after.tracks, log.seen[j]));
        assert(is_among(update.tracks, after.tracks[i]));
    }
}

/// A tick forgets of the engine ids exactly those that stand for departed objects.
pub proof fn law_engine_ids_of_the_rest_are_kept(
    world: WorldState,
    sightings: Seq<Sighting>,
    g: Senses,
    k: i64,
)
    ensures
        ({
            let mid = world.sighted_all(
                sightings,
                world.last_t_ms,
                g.rate,
                g.assess,
                sightings.len() as int,
            ).0;
            let (after, update) = world.ticked(sightings, g);
            &&& after.engine_map.dom().contains(k) <==> mid.engine_map.dom().contains(k)
                && !update.removed.contains(mid.engine_map[k])
            &&& after.engine_map.dom().contains(k) ==> after.engine_map[k] == mid.engine_map[k]
            &&& after.next_id == mid.next_id
            &&& after.config == mid.config && after.lines == mid.lines
            &&& after.labels == mid.labels && after.pose == mid.pose
            &&& after.last_t_ms == mid.last_t_ms
        }),
{
}

/// A camera that is known to point elsewhere than before moves the box and the anchor of each
/// object; one whose direction is not known, was not known, or is the same moves none. What
/// is known of the direction is remembered.
pub proof fn law_a_turned_camera_moves_every_box(
    world: WorldState,
    motion: Option<CameraMotion>,
    shift: spec_fn(Rect) -> Rect,
    i: int,
)
    requires
        0 <= i < world.tracks.len(),
    ensures
        ({
            let after = world.panned(motion, shift);
            let turned = match (motion, world.pose) {
                (Some(now), Some(before)) => now.x != before.x || now.y != before.y,
                _ => false,
            };
            &&& after.tracks.len() == world.tracks.len()
            &&& turned ==> after.tracks[i].bbox == shift(world.tracks[i].bbox)
                && after.tracks[i].anchor == shift(world.tracks[i].anchor)
            &&& !turned ==> after.tracks[i] == world.tracks[i]
            &&& motion is Some ==> after.pose == motion
            &&& motion is None ==> after.pose == world.pose
        }),
{
}

/// A tick begins by a gap exactly if there was a tick before and more time has passed since
/// than may; without one it changes no object but for a turned camera. It is the time of the
/// tick from then on.
pub proof fn law_a_tick_begins_by_a_gap_after_too_long(
    world: WorldState,
    t_ms: Stamp,
    since_last: Stamp,
    motion: Option<CameraMotion>,
    shift: spec_fn(Rect) -> Rect,
)
    ensures
        world.is_gap(since_last) <==> world.last_t_ms != 0 && since_last
            > world.config.gap_reset_ms,
        world.begun(t_ms, since_last, motion, shift).last_t_ms == t_ms,
        world.last_t_ms == 0 || since_last <= world.config.gap_reset_ms ==> world.begun(
            t_ms,
            since_last,
            motion,
            shift,
        ) == (WorldState { last_t_ms: t_ms, ..world }).panned(motion, shift),
        world.last_t_ms != 0 && since_last > world.config.gap_reset_ms ==> world.begun(
            t_ms,
            since_last,
            motion,
            shift,
        ) == (WorldState { last_t_ms: t_ms, ..world.gap_passed() }).panned(motion, shift),
{
}

/// A gap puts every confirmed object to sleep and forgets the others and all engine ids; if
/// no more are confirmed than may sleep, none of them is lost.
pub proof fn law_a_gap_puts_everyone_to_sleep(world: WorldState, i: int)
    requires
        world.ok(),
        0 <= i < world.tracks.len(),
        world.tracks.filter(|t: WorldTrack| t.state != TrackState::Tentative).len()
            <= world.config.max_dormant,
    ensures
        ({
            let after = world.gap_passed();
            let track = world.tracks[i];
            &&& track.state != TrackState::Tentative ==> after.tracks.contains(
                WorldTrack { dormant: true, moving_streak: 0, ..track },
            )
            &&& track.state == TrackState::Tentative ==> forall|k: int|
                0 <= k < after.tracks.len() ==> (#[trigger] after.tracks[k]).id != track.id
            &&& forall|k: i64| !after.engine_map.dom().contains(k)
            &&& after.memory == world.memory && after.next_id == world.next_id
        }),
{
    let keep = |t: WorldTrack| is_confirmed(t);
    let raw = |t: WorldTrack| t.state != TrackState::Tentative;
    assert(keep =~= raw);
    let kept = world.tracks.filter(keep);
    let sleepers = kept.map_values(|t: WorldTrack| asleep(t));
    assert forall|j: int| 0 <= j < sleepers.len() implies (#[trigger] sleepers[j]).dormant by {}
    lemma_all_dormant(sleepers, sleepers.len() as int);
    let after = world.gap_passed();
    assert(excess(sleepers, world.config.max_dormant) == 0);
    assert(after.tracks == sleepers);
    let track = world.tracks[i];
    if track.state != TrackState::Tentative {
        world.tracks.lemma_filter_contains(keep, i);
        let j = choose|j: int| 0 <= j < kept.len() && kept[j] == track;
        assert(sleepers[j] == asleep(track));
    } else {
        assert forall|k: int| 0 <= k < after.tracks.len() implies (#[trigger] after.tracks[k]).id
            != track.id by {
            world.tracks.lemma_filter_pred(keep, k);
            lemma_filtered_are_members(world.tracks, keep, k);
            let j = choose|j: int| 0 <= j < world.tracks.len() && world.tracks[j] == kept[k];
            if j < i {
                assert(world.tracks[j].id < world.tracks[i].id);
            }
            if i < j {
                assert(world.tracks[i].id < world.tracks[j].id);
            }
        }
    }
}

/// A moved camera leaves exactly the objects that are awake and not parked, unchanged, and of
/// the engine ids exactly those that stand for one of them.
pub proof fn law_a_moved_camera_leaves_the_roaming(world: WorldState, i: int, k: i64)
    requires
        world.ok(),
        0 <= i < world.tracks.len(),
    ensures
        ({
            let after = world.camera_moved();
            let track = world.tracks[i];
            &&& after.tracks.contains(track) <==> !track.dormant && track.state
                != TrackState::Stationary
            &&& after.engine_map.dom().contains(k) <==> world.engine_map.dom().contains(k)
                && exists|j: int|
                0 <= j < after.tracks.len() && (#[trigger] after.tracks[j]).id
                    == world.engine_map[k]
            &&& after.engine_map.dom().contains(k) ==> after.engine_map[k] == world.engine_map[k]
            &&& after.next_id == world.next_id && after.last_t_ms == world.last_t_ms
            &&& after.lines == world.lines && after.zones == world.zones
        }),
{
    let keep = |t: WorldTrack| is_roaming(t);
    let after = world.camera_moved();
    let track = world.tracks[i];
    if keep(track) {
        world.tracks.lemma_filter_contains(keep, i);
    }
    if after.tracks.contains(track) {
        let j = choose|j: int| 0 <= j < after.tracks.len() && after.tracks[j] == track;
        world.tracks.lemma_filter_pred(keep, j);
    }
}

/// The engine is fed the kept detections in their order, each under a class whose label is
/// that of the detection.
pub proof fn law_a_detection_is_fed_under_its_label(
    labels: Seq<String>,
    detections: Seq<Detection>,
    kept: Seq<u32>,
    i: int,
)
    requires
        0 <= i < kept.len(),
        distinct_texts(labels),
        labels.len() <= usize::MAX,
    ensures
        ({
            let all = labels_after(labels, detections, kept, kept.len() as int);
            let feed = feed_of(all, detections, kept);
            &&& feed.len() == kept.len()
            &&& feed[i].index == kept[i]
            &&& all.len() <= usize::MAX ==> feed[i].class < all.len() && all[feed[i].class as int]@
                == detections[kept[i] as int].label@
        }),
{
    law_class_ids_are_kept(labels, detections, kept, kept.len() as int);
    let all = labels_after(labels, detections, kept, kept.len() as int);
    let text = detections[kept[i] as int].label@;
    assert(has_text(all, text));
    let c = class_of(all, text);
    assert(0 <= c < all.len() && all[c]@ == text);
}

/// A new world holds nothing: no object, no line, no zone, no label and no crossing; its first
/// object gets the id 1, and any score will do.
pub proof fn law_a_new_world_is_empty(world: WorldState, config: WorldConfig)
    requires
        world.newborn(config),
    ensures
        world.config == config,
        world.tracks.len() == 0 && world.lines.len() == 0 && world.labels.len() == 0,
        world.zones.active_zones@.len() == 0 && world.zones.privacy_masks@.len() == 0,
        world.zones.all_labels@.len() == 0,
        world.next_id == 1,
        world.last_t_ms == 0,
        world.min_confidence == 0,
        world.pose is None,
        forall|k: i64| !world.engine_map.dom().contains(k),
        forall|key: (u32, u32)| !world.memory.contains(key),
{
}

/// A gap lets as many confirmed objects sleep as may, and if there are more, those that were
/// seen last: whoever is missing afterwards was seen no later than anyone who is left.
pub proof fn law_a_gap_keeps_who_was_seen_last(world: WorldState, i: int, k: int)
    requires
        world.ok(),
    ensures
        ({
            let after = world.gap_passed();
            let confirmed = world.tracks.filter(
                |t: WorldTrack| t.state != TrackState::Tentative,
            ).len();
            &&& after.tracks.len() == (if confirmed <= world.config.max_dormant {
                confirmed as int
            } else {
                world.config.max_dormant as int
            })
            &&& 0 <= i < world.tracks.len() && world.tracks[i].state != TrackState::Tentative && 0
                <= k < after.tracks.len() && !after.tracks.contains(
                WorldTrack { dormant: true, moving_streak: 0, ..world.tracks[i] },
            ) ==> world.tracks[i].last_seen_ms <= after.tracks[k].last_seen_ms
        }),
{
    let keep = |t: WorldTrack| is_confirmed(t);
    let raw = |t: WorldTrack| t.state != TrackState::Tentative;
    assert(keep =~= raw);
    let kept = world.tracks.filter(keep);
    let sleepers = kept.map_values(|t: WorldTrack| asleep(t));
    assert forall|j: int| 0 <= j < sleepers.len() implies (#[trigger] sleepers[j]).dormant by {}
    lemma_all_dormant(sleepers, sleepers.len() as int);
    let n = excess(sleepers, world.config.max_dormant);
    law_eviction_takes_the_oldest(sleepers, n);
    let after = world.gap_passed();
    assert(after.tracks == evicted(sleepers, n));
    if 0 <= i < world.tracks.len() && world.tracks[i].state != TrackState::Tentative && 0 <= k
        < after.tracks.len() && !after.tracks.contains(asleep(world.tracks[i])) {
        world.tracks.lemma_filter_contains(keep, i);
        let j = choose|j: int| 0 <= j < kept.len() && kept[j] == world.tracks[i];
        assert(sleepers[j] == asleep(world.tracks[i]));
        assert(sleepers.contains(after.tracks[k]));
        let c = choose|c: int| 0 <= c < sleepers.len() && sleepers[c] == after.tracks[k];
        assert(after.tracks[k].dormant);
    }
}

} // verus!
