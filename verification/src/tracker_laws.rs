//! What holds of every tracker and every frame.
use vstd::arithmetic::power2::{lemma2_to64, lemma2_to64_rest};
use vstd::prelude::*;
use crate::grouping::{labels_of, lemma_labels_are_met};
use crate::id_map::stands_for;
use crate::labels::lowercase_text;
use crate::line_crossing::{
    CrossingDirection, LineCrossingEvent, LineDirectionFilter, PreparedLine, SegmentMeasure,
    PARALLEL_LIMIT, SAME_PLACE_LIMIT,
};
use crate::reading::{lemma_is_nearest, level_is, stamp_is, Level, Stamp, ONE};
use crate::track::TrackSegment;
use crate::tracker_model::{
    class_at, default_tracker_config, has_class, id_after, idle, lemma_class_at, lemma_label_unmet,
    lemma_named_without_zero, movement, named, names_crossed, planned, track_box,
    with_class, with_label, ClassRun, ClassState, Gauges, NamedCrossings, PlanState, RawTrack,
    TrackerState,
};
use crate::types::{Detection, Point, Rect, TrackedDetection};
use crate::world_laws::{goes_over, is_crossing_of};
use crate::world_model::stood_still;

verus! {

/// No two tracks, of the same class or of different ones, have the same id, and every id in
/// use was handed out before.
pub open spec fn ids_are_unique(classes: Seq<ClassState>, next: u32) -> bool {
    &&& forall|i: int, k: i64|
        0 <= i < classes.len() && #[trigger] classes[i].ids.dom().contains(k) ==> 1
            <= classes[i].ids[k] < next
    &&& forall|i: int, k: i64, j: int, l: i64|
        0 <= i < classes.len() && 0 <= j < classes.len()
            && #[trigger] classes[i].ids.dom().contains(k)
            && #[trigger] classes[j].ids.dom().contains(l) && classes[i].ids[k] == classes[j].ids[l]
            ==> i == j && k == l
}

/// How many objects the first `n` runs report.
pub open spec fn raw_count(runs: Seq<ClassRun>, n: int) -> nat
    decreases n,
{
    if n <= 0 {
        0
    } else {
        raw_count(runs, n - 1) + runs[n - 1].raws@.len()
    }
}

proof fn lemma_named(ids: Map<i64, u32>, next: u32, raws: Seq<RawTrack>, n: int)
    requires
        1 <= next,
        0 <= n <= raws.len(),
        next + n <= u32::MAX,
        forall|k: i64| #[trigger] ids.dom().contains(k) ==> 1 <= ids[k] < next,
        forall|k: i64, l: i64| #[trigger]
            ids.dom().contains(k) && #[trigger] ids.dom().contains(l) && ids[k] == ids[l] ==> k
                == l,
    ensures
        ({
            let (after, last) = named(ids, next, raws, n);
            &&& next <= last <= next + n
            &&& forall|k: i64| #[trigger]
                ids.dom().contains(k) ==> after.dom().contains(k) && after[k] == ids[k]
            &&& forall|k: i64| #[trigger]
                after.dom().contains(k) ==> 1 <= after[k] < last && (ids.dom().contains(k)
                    || after[k] >= next)
            &&& forall|k: i64, l: i64| #[trigger]
                after.dom().contains(k) && #[trigger] after.dom().contains(l) && after[k]
                    == after[l] ==> k == l
            &&& forall|i: int|
                0 <= i < n ==> after.dom().contains((#[trigger] raws[i]).engine_id)
        }),
    decreases n,
{
    if n > 0 {
        lemma_named(ids, next, raws, n - 1);
    }
}

proof fn lemma_class_ran_unique(state: TrackerState, run: ClassRun)
    requires
        state.ok(),
        ids_are_unique(state.classes, state.next_track_id),
        state.next_track_id + run.raws@.len() <= u32::MAX,
    ensures
        ({
            let after = state.class_ran(run).0;
            &&& after.ok()
            &&& ids_are_unique(after.classes, after.next_track_id)
            &&& after.next_track_id <= state.next_track_id + run.raws@.len()
        }),
{
    let n = run.raws@.len() as int;
    let classes = with_class(state.classes, run.label@);
    if !has_class(state.classes, run.label@) {
        assert(classes[state.classes.len() as int].label == run.label@);
        assert(has_class(classes, run.label@));
        assert forall|i: int, k: i64|
            0 <= i < classes.len() && #[trigger] classes[i].ids.dom().contains(k) implies 0 <= i
            < state.classes.len() && classes[i] == state.classes[i] by {}
    }
    let at = class_at(classes, run.label@);
    assert(0 <= at < classes.len() && classes[at].label == run.label@);
    assert(ids_are_unique(classes, state.next_track_id));
    let old_ids = classes[at].ids;
    lemma_named(old_ids, state.next_track_id, run.raws@, n);
    let (ids, next) = named(old_ids, state.next_track_id, run.raws@, n);
    let after = state.class_ran(run).0;
    assert forall|i: int, k: i64|
        0 <= i < after.classes.len() && #[trigger] after.classes[i].ids.dom().contains(
            k,
        ) implies if i == at {
        ids.dom().contains(k) && after.classes[i].ids[k] == ids[k]
    } else {
        classes[i].ids.dom().contains(k) && after.classes[i].ids[k] == classes[i].ids[k]
            && classes[i].ids[k] < state.next_track_id
    } by {}
    assert forall|i: int, k: i64, j: int, l: i64|
        0 <= i < after.classes.len() && 0 <= j < after.classes.len()
            && #[trigger] after.classes[i].ids.dom().contains(k)
            && #[trigger] after.classes[j].ids.dom().contains(l) && after.classes[i].ids[k]
            == after.classes[j].ids[l] implies i == j && k == l by {
        if i == at && j != at {
            if old_ids.dom().contains(k) {
                assert(classes[i].ids.dom().contains(k));
                assert(classes[j].ids.dom().contains(l));
            }
        }
        if i != at && j == at {
            if old_ids.dom().contains(l) {
                assert(classes[i].ids.dom().contains(k));
                assert(classes[j].ids.dom().contains(l));
            }
        }
    }
    assert forall|i: int, j: int| 0 <= i < j < after.classes.len() implies (
    #[trigger] after.classes[i]).label != (#[trigger] after.classes[j]).label by {
        assert(after.classes[i].label == classes[i].label);
        assert(after.classes[j].label == classes[j].label);
        if !has_class(state.classes, run.label@) && j == state.classes.len() {
            assert(state.classes[i].label != run.label@);
        } else {
            assert(state.classes[i].label != state.classes[j].label);
        }
    }
}

proof fn lemma_ran_unique(state: TrackerState, runs: Seq<ClassRun>, n: int)
    requires
        state.ok(),
        ids_are_unique(state.classes, state.next_track_id),
        0 <= n <= runs.len(),
        state.next_track_id + raw_count(runs, n) <= u32::MAX,
    ensures
        ({
            let after = state.ran(runs, n).0;
            &&& after.ok()
            &&& ids_are_unique(after.classes, after.next_track_id)
            &&& after.next_track_id <= state.next_track_id + raw_count(runs, n)
        }),
    decreases n,
{
    if n > 0 {
        lemma_ran_unique(state, runs, n - 1);
        lemma_class_ran_unique(state.ran(runs, n - 1).0, runs[n - 1]);
    }
}

proof fn lemma_placed_frame(
    state: TrackerState,
    tracks: Seq<TrackedDetection>,
    center: spec_fn(Rect) -> Point,
    n: int,
)
    ensures
        ({
            let after = state.placed(tracks, center, n);
            &&& after.classes.len() == state.classes.len()
            &&& forall|i: int|
                0 <= i < state.classes.len() ==> {
                    &&& (#[trigger] after.classes[i]).ids == state.classes[i].ids
                    &&& after.classes[i].label == state.classes[i].label
                }
            &&& after.next_track_id == state.next_track_id
            &&& after.memory == state.memory
        }),
    decreases n,
{
    if n > 0 {
        lemma_placed_frame(state, tracks, center, n - 1);
        let before = state.placed(tracks, center, n - 1);
        let label = tracks[n - 1].label@;
        if has_class(before.classes, label) {
            let i = class_at(before.classes, label);
            assert(0 <= i < before.classes.len());
        }
    }
}

/// Ids never collide, neither within a class nor across classes, as long as they do not
/// run out.
pub proof fn law_ids_stay_unique(
    state: TrackerState,
    runs: Seq<ClassRun>,
    t_ms: Stamp,
    g: Gauges,
)
    requires
        state.ok(),
        ids_are_unique(state.classes, state.next_track_id),
        state.next_track_id + raw_count(runs, runs.len() as int) <= u32::MAX,
    ensures
        ({
            let after = state.framed(runs, t_ms, g).0;
            ids_are_unique(after.classes, after.next_track_id)
        }),
{
    let n = runs.len() as int;
    lemma_ran_unique(state, runs, n);
    let (ran, tracks) = state.ran(runs, n);
    if state.lines.len() > 0 {
        let m = tracks.len() as int;
        let c = ran.crossed(tracks, t_ms, g, m);
        let remembering = TrackerState { memory: c.memory, ..ran };
        lemma_placed_frame(remembering, tracks, g.center, m);
        let after = state.framed(runs, t_ms, g).0;
        assert forall|i: int| 0 <= i < after.classes.len() implies (
        #[trigger] after.classes[i]).ids == ran.classes[i].ids by {}
    }
}

/// A track keeps its id for as long as its engine holds the object, whether it reports it
/// or not; once the object is let go, its id is forgotten.
pub proof fn law_a_held_object_keeps_its_id(state: TrackerState, run: ClassRun, k: i64)
    requires
        state.ok(),
        has_class(state.classes, run.label@),
        state.classes[class_at(state.classes, run.label@)].ids.dom().contains(k),
    ensures
        ({
            let at = class_at(state.classes, run.label@);
            let after = state.class_ran(run).0.classes[at];
            if run.alive@.contains(k) {
                after.ids.dom().contains(k) && after.ids[k] == state.classes[at].ids[k]
            } else {
                !after.ids.dom().contains(k)
            }
        }),
{
    let at = class_at(state.classes, run.label@);
    lemma_named_keeps(
        state.classes[at].ids,
        state.next_track_id,
        run.raws@,
        run.raws@.len() as int,
        k,
    );
}

proof fn lemma_named_keeps(ids: Map<i64, u32>, next: u32, raws: Seq<RawTrack>, n: int, k: i64)
    requires
        ids.dom().contains(k),
    ensures
        named(ids, next, raws, n).0.dom().contains(k),
        named(ids, next, raws, n).0[k] == ids[k],
    decreases n,
{
    if n > 0 {
        lemma_named_keeps(ids, next, raws, n - 1, k);
    }
}

/// The engine id stands for this track in the class with this label.
pub open spec fn is_known_as(
    classes: Seq<ClassState>,
    label: Seq<char>,
    k: i64,
    id: u32,
) -> bool {
    &&& has_class(classes, label)
    &&& classes[class_at(classes, label)].ids.dom().contains(k)
    &&& classes[class_at(classes, label)].ids[k] == id
}

proof fn lemma_class_ran_ok(state: TrackerState, run: ClassRun)
    requires
        state.ok(),
    ensures
        ({
            let classes = with_class(state.classes, run.label@);
            let after = state.class_ran(run).0;
            &&& after.ok()
            &&& has_class(classes, run.label@)
            &&& after.classes.len() == classes.len()
            &&& forall|i: int|
                0 <= i < classes.len() ==> (#[trigger] after.classes[i]).label == classes[i].label
            &&& forall|i: int, j: int|
                0 <= i < j < classes.len() ==> (#[trigger] classes[i]).label != (
                #[trigger] classes[j]).label
        }),
{
    let classes = with_class(state.classes, run.label@);
    let after = state.class_ran(run).0;
    assert forall|i: int, j: int| 0 <= i < j < classes.len() implies (#[trigger] classes[i]).label
        != (#[trigger] classes[j]).label by {
        if j == state.classes.len() {
            assert(state.classes[i].label != run.label@);
        }
    }
    assert(has_class(classes, run.label@)) by {
        if has_class(state.classes, run.label@) {
            let c = class_at(state.classes, run.label@);
            assert(classes[c].label == run.label@);
        } else {
            assert(classes[state.classes.len() as int].label == run.label@);
        }
    }
    let c = class_at(classes, run.label@);
    assert forall|i: int| 0 <= i < classes.len() implies (#[trigger] after.classes[i]).label
        == classes[i].label by {}
    assert forall|i: int, j: int| 0 <= i < j < after.classes.len() implies (
    #[trigger] after.classes[i]).label != (#[trigger] after.classes[j]).label by {
        assert(classes[i].label != classes[j].label);
    }
    assert forall|i: int, k: i64|
        0 <= i < classes.len() && #[trigger] classes[i].ids.dom().contains(
            k,
        ) implies classes[i].ids[k] >= 1 by {
        if i < state.classes.len() {
            assert(state.classes[i].ids.dom().contains(k));
        }
    }
    let n = run.raws@.len() as int;
    lemma_named_without_zero(classes[c].ids, state.next_track_id, run.raws@, n);
    assert forall|i: int, k: i64|
        0 <= i < after.classes.len() && #[trigger] after.classes[i].ids.dom().contains(
            k,
        ) implies after.classes[i].ids[k] >= 1 by {
        if i == c {
            assert(named(
                classes[c].ids,
                state.next_track_id,
                run.raws@,
                n,
            ).0.dom().contains(k));
        } else {
            assert(classes[i].ids.dom().contains(k));
        }
    }
}

proof fn lemma_run_keeps_ids(state: TrackerState, run: ClassRun, label: Seq<char>, k: i64, id: u32)
    requires
        state.ok(),
        is_known_as(state.classes, label, k, id),
        run.label@ == label ==> run.alive@.contains(k),
    ensures
        ({
            let after = state.class_ran(run).0;
            &&& is_known_as(after.classes, label, k, id)
            &&& after.ok()
        }),
{
    let at = class_at(state.classes, label);
    let classes = with_class(state.classes, run.label@);
    let after = state.class_ran(run).0;
    lemma_class_ran_ok(state, run);
    assert(classes[at] == state.classes[at]);
    assert(after.classes[at].label == label);
    lemma_class_at(after.classes, at);
    if run.label@ == label {
        lemma_class_at(classes, at);
        lemma_named_keeps(
            classes[at].ids,
            state.next_track_id,
            run.raws@,
            run.raws@.len() as int,
            k,
        );
    }
}

proof fn lemma_runs_keep_ids(
    state: TrackerState,
    runs: Seq<ClassRun>,
    label: Seq<char>,
    k: i64,
    id: u32,
    n: int,
)
    requires
        state.ok(),
        0 <= n <= runs.len(),
        is_known_as(state.classes, label, k, id),
        forall|i: int|
            0 <= i < runs.len() && (#[trigger] runs[i]).label@ == label
                ==> runs[i].alive@.contains(k),
    ensures
        is_known_as(state.ran(runs, n).0.classes, label, k, id),
        state.ran(runs, n).0.ok(),
    decreases n,
{
    if n > 0 {
        lemma_runs_keep_ids(state, runs, label, k, id, n - 1);
        lemma_run_keeps_ids(state.ran(runs, n - 1).0, runs[n - 1], label, k, id);
    }
}

/// Ids are stable across frames: as long as the engine of its class holds an object, a frame
/// leaves the object the id it has, whatever else the frame brings.
pub proof fn law_ids_are_stable(
    state: TrackerState,
    runs: Seq<ClassRun>,
    t_ms: Stamp,
    g: Gauges,
    label: Seq<char>,
    k: i64,
    id: u32,
)
    requires
        state.ok(),
        is_known_as(state.classes, label, k, id),
        forall|i: int|
            0 <= i < runs.len() && (#[trigger] runs[i]).label@ == label
                ==> runs[i].alive@.contains(k),
    ensures
        is_known_as(state.framed(runs, t_ms, g).0.classes, label, k, id),
{
    let n = runs.len() as int;
    lemma_runs_keep_ids(state, runs, label, k, id, n);
    let (ran, tracks) = state.ran(runs, n);
    if state.lines.len() > 0 {
        let m = tracks.len() as int;
        let c = ran.crossed(tracks, t_ms, g, m);
        let remembering = TrackerState { memory: c.memory, ..ran };
        lemma_placed_frame(remembering, tracks, g.center, m);
        let after = state.framed(runs, t_ms, g).0;
        let at = class_at(ran.classes, label);
        assert forall|i: int, j: int| 0 <= i < j < after.classes.len() implies (
        #[trigger] after.classes[i]).label != (#[trigger] after.classes[j]).label by {
            assert(ran.classes[i].label != ran.classes[j].label);
        }
        lemma_class_at(after.classes, at);
    }
}

/// The keys tell for each reported crossing which track went over the line with which name:
/// no pair twice, none that was remembered, and each remembered from now on.
pub open spec fn each_named_once(
    before: Set<(u32, Seq<char>)>,
    after: NamedCrossings,
    keys: Seq<(u32, Seq<char>)>,
) -> bool {
    &&& keys.len() == after.events.len()
    &&& forall|i: int, j: int|
        0 <= i < j < keys.len() ==> #[trigger] keys[i] != #[trigger] keys[j]
    &&& forall|i: int|
        0 <= i < keys.len() ==> {
            &&& !before.contains(#[trigger] keys[i])
            &&& after.memory.contains(keys[i])
            &&& after.events[i].track_id == keys[i].0
            &&& after.events[i].line_name@ == keys[i].1
        }
    &&& forall|key: (u32, Seq<char>)| #[trigger]
        before.contains(key) ==> after.memory.contains(key)
}

proof fn lemma_names_once(
    start: Set<(u32, Seq<char>)>,
    lines: Seq<PreparedLine>,
    c: NamedCrossings,
    keys: Seq<(u32, Seq<char>)>,
    segment: TrackSegment,
    confidence: Level,
    t_ms: Stamp,
    cross: spec_fn(TrackSegment, PreparedLine) -> SegmentMeasure,
    n: int,
) -> (more: Seq<(u32, Seq<char>)>)
    requires
        0 <= n <= lines.len(),
        each_named_once(start, c, keys),
    ensures
        each_named_once(
            start,
            names_crossed(lines, c, segment, confidence, t_ms, cross, n),
            more,
        ),
    decreases n,
{
    if n <= 0 {
        keys
    } else {
        let before = names_crossed(lines, c, segment, confidence, t_ms, cross, n - 1);
        let so_far = lemma_names_once(
            start,
            lines,
            c,
            keys,
            segment,
            confidence,
            t_ms,
            cross,
            n - 1,
        );
        let after = names_crossed(lines, c, segment, confidence, t_ms, cross, n);
        if after.events.len() == before.events.len() {
            so_far
        } else {
            let key = (segment.track_id, lines[n - 1].name@);
            let more = so_far.push(key);
            assert(!before.memory.contains(key));
            assert forall|i: int, j: int| 0 <= i < j < more.len() implies #[trigger] more[i]
                != #[trigger] more[j] by {
                if j == so_far.len() {
                    assert(before.memory.contains(so_far[i]));
                }
            }
            assert forall|i: int| 0 <= i < more.len() implies {
                &&& !start.contains(#[trigger] more[i])
                &&& after.memory.contains(more[i])
                &&& after.events[i].track_id == more[i].0
                &&& after.events[i].line_name@ == more[i].1
            } by {
                if i < so_far.len() {
                    assert(so_far[i] == more[i]);
                    assert(after.events[i] == before.events[i]);
                }
            }
            more
        }
    }
}

/// However often a track is reported in a frame, it crosses the lines with one name at most
/// once, and none it is remembered to have crossed.
pub proof fn law_each_name_is_crossed_once(
    state: TrackerState,
    tracks: Seq<TrackedDetection>,
    t_ms: Stamp,
    g: Gauges,
    n: int,
) -> (keys: Seq<(u32, Seq<char>)>)
    requires
        0 <= n,
    ensures
        each_named_once(state.memory, state.crossed(tracks, t_ms, g, n), keys),
    decreases n,
{
    if n <= 0 {
        Seq::empty()
    } else {
        let so_far = law_each_name_is_crossed_once(state, tracks, t_ms, g, n - 1);
        let track = tracks[n - 1];
        match state.place_before(track.label@, track.track_id) {
            Some(from) => {
                let segment = movement(track, from, (g.center)(track_box(track)), g.span);
                if stood_still(segment) {
                    so_far
                } else {
                    lemma_names_once(
                        state.memory,
                        state.lines,
                        state.crossed(tracks, t_ms, g, n - 1),
                        so_far,
                        segment,
                        track.confidence,
                        t_ms,
                        g.cross,
                        state.lines.len() as int,
                    )
                }
            },
            None => so_far,
        }
    }
}

proof fn lemma_ran_memory(state: TrackerState, runs: Seq<ClassRun>, n: int)
    ensures
        state.ran(runs, n).0.memory == state.memory,
    decreases n,
{
    if n > 0 {
        lemma_ran_memory(state, runs, n - 1);
    }
}

/// A track is reported at most once for each line name. A frame reports no crossing that is
/// remembered and none twice, and what it reports stays remembered for as long as the track
/// is known.
pub proof fn law_each_line_fires_once_for_a_track(
    state: TrackerState,
    runs: Seq<ClassRun>,
    t_ms: Stamp,
    g: Gauges,
) -> (keys: Seq<(u32, Seq<char>)>)
    ensures
        ({
            let (after, tracks, events) = state.framed(runs, t_ms, g);
            &&& keys.len() == events.len()
            &&& forall|i: int, j: int|
                0 <= i < j < keys.len() ==> #[trigger] keys[i] != #[trigger] keys[j]
            &&& forall|i: int|
                0 <= i < keys.len() ==> {
                    &&& !state.memory.contains(#[trigger] keys[i])
                    &&& events[i].track_id == keys[i].0
                    &&& events[i].line_name@ == keys[i].1
                    &&& after.knows(keys[i].0) ==> after.memory.contains(keys[i])
                }
            &&& forall|key: (u32, Seq<char>)| #[trigger]
                state.memory.contains(key) && after.knows(key.0) ==> after.memory.contains(key)
        }),
{
    let n = runs.len() as int;
    lemma_ran_memory(state, runs, n);
    let ran = state.ran(runs, n).0;
    let (after, tracks, events) = state.framed(runs, t_ms, g);
    if state.lines.len() == 0 {
        Seq::empty()
    } else {
        let m = tracks.len() as int;
        let c = ran.crossed(tracks, t_ms, g, m);
        let keys = law_each_name_is_crossed_once(ran, tracks, t_ms, g, m);
        let placed = TrackerState { memory: c.memory, ..ran }.placed(tracks, g.center, m);
        lemma_placed_frame(TrackerState { memory: c.memory, ..ran }, tracks, g.center, m);
        assert(after.classes == placed.classes);
        assert forall|id: u32| #[trigger] after.knows(id) implies placed.knows(id) by {}
        assert forall|key: (u32, Seq<char>)| #[trigger]
            c.memory.contains(key) && after.knows(key.0) implies after.memory.contains(key) by {
            assert(placed.knows(key.0));
        }
        assert forall|i: int| 0 <= i < keys.len() implies {
            &&& !state.memory.contains(#[trigger] keys[i])
            &&& events[i].track_id == keys[i].0
            &&& events[i].line_name@ == keys[i].1
            &&& after.knows(keys[i].0) ==> after.memory.contains(keys[i])
        } by {
            assert(c.memory.contains(keys[i]));
        }
        keys
    }
}

/// A track that is reported for the first time has not moved yet: without a known place no
/// crossing is reported.
pub proof fn law_no_crossing_without_a_place(
    state: TrackerState,
    tracks: Seq<TrackedDetection>,
    t_ms: Stamp,
    g: Gauges,
    n: int,
)
    requires
        0 <= n <= tracks.len(),
        forall|i: int|
            0 <= i < tracks.len() ==> state.place_before(
                (#[trigger] tracks[i]).label@,
                tracks[i].track_id,
            ) is None,
    ensures
        state.crossed(tracks, t_ms, g, n).events.len() == 0,
        state.crossed(tracks, t_ms, g, n).memory == state.memory,
    decreases n,
{
    if n > 0 {
        law_no_crossing_without_a_place(state, tracks, t_ms, g, n - 1);
        assert(state.place_before(
            tracks[n - 1].label@,
            tracks[n - 1].track_id,
        ) is None);
    }
}

proof fn lemma_names_are_remembered(
    lines: Seq<PreparedLine>,
    first: NamedCrossings,
    second: NamedCrossings,
    segment: TrackSegment,
    confidence: Level,
    t_ms: Stamp,
    cross: spec_fn(TrackSegment, PreparedLine) -> SegmentMeasure,
    n: int,
)
    requires
        0 <= n <= lines.len(),
        names_crossed(lines, first, segment, confidence, t_ms, cross, n).memory.subset_of(
            second.memory,
        ),
    ensures
        first.memory.subset_of(second.memory),
        names_crossed(lines, second, segment, confidence, t_ms, cross, n) == second,
    decreases n,
{
    if n > 0 {
        let before = names_crossed(lines, first, segment, confidence, t_ms, cross, n - 1);
        let after = names_crossed(lines, first, segment, confidence, t_ms, cross, n);
        assert(before.memory.subset_of(after.memory));
        lemma_names_are_remembered(
            lines,
            first,
            second,
            segment,
            confidence,
            t_ms,
            cross,
            n - 1,
        );
        if line_is_crossed(lines[n - 1], segment, cross) {
            assert(after.memory.contains((segment.track_id, lines[n - 1].name@)));
        }
    }
}

spec fn line_is_crossed(
    line: PreparedLine,
    segment: TrackSegment,
    cross: spec_fn(TrackSegment, PreparedLine) -> SegmentMeasure,
) -> bool {
    line.crossed(lowercase_text(segment.label@), cross(segment, line)) is Some
}

proof fn lemma_crossings_are_remembered(
    state: TrackerState,
    again: TrackerState,
    tracks: Seq<TrackedDetection>,
    t_ms: Stamp,
    g: Gauges,
    n: int,
)
    requires
        0 <= n <= tracks.len(),
        again.classes == state.classes,
        again.lines == state.lines,
        state.crossed(tracks, t_ms, g, n).memory.subset_of(again.memory),
    ensures
        again.crossed(tracks, t_ms, g, n) == (NamedCrossings {
            memory: again.memory,
            events: Seq::empty(),
        }),
    decreases n,
{
    if n > 0 {
        let track = tracks[n - 1];
        let none = NamedCrossings { memory: again.memory, events: Seq::empty() };
        match state.place_before(track.label@, track.track_id) {
            Some(from) => {
                let segment = movement(track, from, (g.center)(track_box(track)), g.span);
                if !stood_still(segment) {
                    lemma_names_are_remembered(
                        state.lines,
                        state.crossed(tracks, t_ms, g, n - 1),
                        none,
                        segment,
                        track.confidence,
                        t_ms,
                        g.cross,
                        state.lines.len() as int,
                    );
                }
            },
            None => {},
        }
        lemma_crossings_are_remembered(state, again, tracks, t_ms, g, n - 1);
    }
}

/// Looking a second time at the same tracks, with nothing in between, finds no crossing: all
/// that were found are remembered.
pub proof fn law_a_second_look_finds_no_crossing(
    state: TrackerState,
    tracks: Seq<TrackedDetection>,
    t_ms: Stamp,
    later_ms: Stamp,
    g: Gauges,
)
    ensures
        ({
            let n = tracks.len() as int;
            let memory = state.crossed(tracks, t_ms, g, n).memory;
            let again = TrackerState { memory, ..state };
            again.crossed(tracks, later_ms, g, n) == (NamedCrossings {
                memory,
                events: Seq::empty(),
            })
        }),
{
    let n = tracks.len() as int;
    let memory = state.crossed(tracks, t_ms, g, n).memory;
    let again = TrackerState { memory, ..state };
    lemma_memory_is_timeless(state, tracks, t_ms, later_ms, g, n);
    lemma_crossings_are_remembered(state, again, tracks, later_ms, g, n);
}

proof fn lemma_names_are_timeless(
    lines: Seq<PreparedLine>,
    first: NamedCrossings,
    second: NamedCrossings,
    segment: TrackSegment,
    confidence: Level,
    t_ms: Stamp,
    later_ms: Stamp,
    cross: spec_fn(TrackSegment, PreparedLine) -> SegmentMeasure,
    n: int,
)
    requires
        first.memory == second.memory,
    ensures
        names_crossed(lines, first, segment, confidence, t_ms, cross, n).memory == names_crossed(
            lines,
            second,
            segment,
            confidence,
            later_ms,
            cross,
            n,
        ).memory,
    decreases n,
{
    if n > 0 {
        lemma_names_are_timeless(
            lines,
            first,
            second,
            segment,
            confidence,
            t_ms,
            later_ms,
            cross,
            n - 1,
        );
    }
}

proof fn lemma_memory_is_timeless(
    state: TrackerState,
    tracks: Seq<TrackedDetection>,
    t_ms: Stamp,
    later_ms: Stamp,
    g: Gauges,
    n: int,
)
    ensures
        state.crossed(tracks, t_ms, g, n).memory == state.crossed(
            tracks,
            later_ms,
            g,
            n,
        ).memory,
    decreases n,
{
    if n > 0 {
        lemma_memory_is_timeless(state, tracks, t_ms, later_ms, g, n - 1);
        let track = tracks[n - 1];
        match state.place_before(track.label@, track.track_id) {
            Some(from) => {
                lemma_names_are_timeless(
                    state.lines,
                    state.crossed(tracks, t_ms, g, n - 1),
                    state.crossed(tracks, later_ms, g, n - 1),
                    movement(track, from, (g.center)(track_box(track)), g.span),
                    track.confidence,
                    t_ms,
                    later_ms,
                    g.cross,
                    state.lines.len() as int,
                );
            },
            None => {},
        }
    }
}

/// Some reported track with this id had a known place before.
pub open spec fn had_a_place(state: TrackerState, tracks: Seq<TrackedDetection>, id: u32) -> bool {
    exists|k: int|
        0 <= k < tracks.len() && (#[trigger] tracks[k]).track_id == id
            && state.place_before(tracks[k].label@, id) is Some
}

proof fn lemma_names_are_of_the_segment(
    lines: Seq<PreparedLine>,
    before: NamedCrossings,
    segment: TrackSegment,
    confidence: Level,
    t_ms: Stamp,
    cross: spec_fn(TrackSegment, PreparedLine) -> SegmentMeasure,
    n: int,
)
    ensures
        ({
            let after = names_crossed(lines, before, segment, confidence, t_ms, cross, n);
            &&& before.events.len() <= after.events.len()
            &&& forall|i: int|
                0 <= i < after.events.len() ==> if i < before.events.len() {
                    #[trigger] after.events[i] == before.events[i]
                } else {
                    after.events[i].track_id == segment.track_id
                }
        }),
    decreases n,
{
    if n > 0 {
        lemma_names_are_of_the_segment(
            lines,
            before,
            segment,
            confidence,
            t_ms,
            cross,
            n - 1,
        );
    }
}

/// A crossing needs a movement: every crossing is of a track that had a known place before.
pub proof fn law_a_crossing_needs_a_place(
    state: TrackerState,
    tracks: Seq<TrackedDetection>,
    t_ms: Stamp,
    g: Gauges,
    n: int,
)
    requires
        0 <= n <= tracks.len(),
    ensures
        ({
            let events = state.crossed(tracks, t_ms, g, n).events;
            forall|i: int|
                0 <= i < events.len() ==> had_a_place(
                    state,
                    tracks,
                    (#[trigger] events[i]).track_id,
                )
        }),
    decreases n,
{
    if n > 0 {
        law_a_crossing_needs_a_place(state, tracks, t_ms, g, n - 1);
        let before = state.crossed(tracks, t_ms, g, n - 1);
        let events = state.crossed(tracks, t_ms, g, n).events;
        let track = tracks[n - 1];
        match state.place_before(track.label@, track.track_id) {
            Some(from) => {
                lemma_names_are_of_the_segment(
                    state.lines,
                    before,
                    movement(track, from, (g.center)(track_box(track)), g.span),
                    track.confidence,
                    t_ms,
                    g.cross,
                    state.lines.len() as int,
                );
                assert(had_a_place(state, tracks, track.track_id));
                assert forall|i: int| 0 <= i < events.len() implies had_a_place(
                    state,
                    tracks,
                    (#[trigger] events[i]).track_id,
                ) by {
                    if i < before.events.len() {
                        assert(events[i] == before.events[i]);
                    }
                }
            },
            None => {},
        }
    }
}

proof fn lemma_idle(classes: Seq<ClassState>, detections: Seq<Detection>, n: int)
    requires
        0 <= n <= classes.len(),
    ensures
        ({
            let labels = labels_of(detections, detections.len() as int);
            let plans = idle(classes, detections, n);
            &&& forall|k: int|
                0 <= k < plans.len() ==> {
                    &&& (#[trigger] plans[k]).detections.len() == 0
                    &&& !labels.contains(plans[k].label)
                    &&& exists|i: int|
                        0 <= i < n && (#[trigger] classes[i]).label == plans[k].label
                }
            &&& forall|i: int|
                0 <= i < n && !labels.contains((#[trigger] classes[i]).label) ==> exists|k: int|
                    0 <= k < plans.len() && (#[trigger] plans[k]).label == classes[i].label
        }),
    decreases n,
{
    if n > 0 {
        lemma_idle(classes, detections, n - 1);
        let labels = labels_of(detections, detections.len() as int);
        let before = idle(classes, detections, n - 1);
        let plans = idle(classes, detections, n);
        assert forall|k: int| 0 <= k < plans.len() implies {
            &&& (#[trigger] plans[k]).detections.len() == 0
            &&& !labels.contains(plans[k].label)
            &&& exists|i: int| 0 <= i < n && (#[trigger] classes[i]).label == plans[k].label
        } by {
            if k < before.len() {
                assert(plans[k] == before[k]);
                let i = choose|i: int|
                    0 <= i < n - 1 && (#[trigger] classes[i]).label == before[k].label;
                assert(classes[i].label == plans[k].label);
            } else {
                assert(classes[n - 1].label == plans[k].label);
            }
        }
        assert forall|i: int|
            0 <= i < n && !labels.contains((#[trigger] classes[i]).label) implies exists|k: int|
            0 <= k < plans.len() && (#[trigger] plans[k]).label == classes[i].label by {
            if i < n - 1 {
                let k = choose|k: int|
                    0 <= k < before.len() && (#[trigger] before[k]).label == classes[i].label;
                assert(plans[k].label == classes[i].label);
            } else {
                assert(plans[before.len() as int].label == classes[i].label);
            }
        }
    }
}

proof fn lemma_idle_once(classes: Seq<ClassState>, detections: Seq<Detection>, n: int)
    requires
        0 <= n <= classes.len(),
        forall|i: int, j: int|
            0 <= i < j < classes.len() ==> (#[trigger] classes[i]).label != (
            #[trigger] classes[j]).label,
    ensures
        ({
            let plans = idle(classes, detections, n);
            forall|i: int, j: int|
                0 <= i < j < plans.len() ==> (#[trigger] plans[i]).label != (
                #[trigger] plans[j]).label
        }),
    decreases n,
{
    if n > 0 {
        lemma_idle_once(classes, detections, n - 1);
        lemma_idle(classes, detections, n - 1);
        let before = idle(classes, detections, n - 1);
        let plans = idle(classes, detections, n);
        assert forall|i: int, j: int| 0 <= i < j < plans.len() implies (#[trigger] plans[i]).label
            != (#[trigger] plans[j]).label by {
            assert(plans[i] == before[i]);
            if j == before.len() {
                let k = choose|k: int|
                    0 <= k < n - 1 && (#[trigger] classes[k]).label == before[i].label;
                assert(classes[k].label != classes[n - 1].label);
            }
        }
    }
}

/// Every known class runs in every frame, with or without detections, and no class twice; a
/// class runs on exactly the detections with its label, so none is left out.
pub proof fn law_every_class_runs_once(classes: Seq<ClassState>, detections: Seq<Detection>)
    requires
        forall|i: int, j: int|
            0 <= i < j < classes.len() ==> (#[trigger] classes[i]).label != (
            #[trigger] classes[j]).label,
    ensures
        ({
            let plans = planned(classes, detections);
            &&& forall|i: int, j: int|
                0 <= i < j < plans.len() ==> (#[trigger] plans[i]).label != (
                #[trigger] plans[j]).label
            &&& forall|i: int|
                0 <= i < classes.len() ==> exists|k: int|
                    0 <= k < plans.len() && (#[trigger] plans[k]).label == (
                    #[trigger] classes[i]).label
            &&& forall|i: int|
                0 <= i < detections.len() ==> exists|k: int|
                    0 <= k < plans.len() && (#[trigger] plans[k]).label == (
                    #[trigger] detections[i]).label@
            &&& forall|k: int|
                0 <= k < plans.len() ==> (#[trigger] plans[k]).detections == with_label(
                    detections,
                    plans[k].label,
                )
        }),
{
    let total = detections.len() as int;
    let labels = labels_of(detections, total);
    let first = idle(classes, detections, classes.len() as int);
    let plans = planned(classes, detections);
    lemma_labels_are_met(detections, total);
    lemma_idle(classes, detections, classes.len() as int);
    lemma_idle_once(classes, detections, classes.len() as int);
    assert forall|k: int| 0 <= k < plans.len() implies #[trigger] plans[k] == (if k < first.len() {
        first[k]
    } else {
        PlanState {
            label: labels[k - first.len()],
            detections: with_label(detections, labels[k - first.len()]),
        }
    }) by {}
    assert forall|i: int, j: int| 0 <= i < j < plans.len() implies (#[trigger] plans[i]).label != (
    #[trigger] plans[j]).label by {
        if i >= first.len() {
            assert(labels[i - first.len()] != labels[j - first.len()]);
        } else if j >= first.len() {
            assert(labels.contains(labels[j - first.len()]));
            assert(!labels.contains(first[i].label));
        } else {
            assert(first[i].label != first[j].label);
        }
    }
    assert forall|text: Seq<char>| labels.contains(text) implies exists|k: int|
        0 <= k < plans.len() && (#[trigger] plans[k]).label == text by {
        let a = choose|a: int| 0 <= a < labels.len() && labels[a] == text;
        assert(plans[first.len() + a].label == text);
    }
    assert forall|i: int| 0 <= i < classes.len() implies exists|k: int|
        0 <= k < plans.len() && (#[trigger] plans[k]).label == (#[trigger] classes[i]).label by {
        if !labels.contains(classes[i].label) {
            let k = choose|k: int|
                0 <= k < first.len() && (#[trigger] first[k]).label == classes[i].label;
            assert(plans[k].label == classes[i].label);
        }
    }
    assert forall|i: int| 0 <= i < detections.len() implies exists|k: int|
        0 <= k < plans.len() && (#[trigger] plans[k]).label == (
        #[trigger] detections[i]).label@ by {
        assert(labels.contains(detections[i].label@));
    }
    assert forall|k: int| 0 <= k < plans.len() implies (#[trigger] plans[k]).detections
        == with_label(detections, plans[k].label) by {
        if k < first.len() {
            assert(!labels.contains(first[k].label));
            lemma_label_unmet(detections, first[k].label);
            assert(first[k].detections =~= with_label(detections, first[k].label));
        }
    }
}

/// Crossings are only remembered of tracks that are still known, so the memory does not
/// outgrow them.
pub proof fn law_memory_is_of_known_tracks(
    state: TrackerState,
    runs: Seq<ClassRun>,
    t_ms: Stamp,
    g: Gauges,
)
    requires
        state.lines.len() > 0,
    ensures
        ({
            let after = state.framed(runs, t_ms, g).0;
            forall|key: (u32, Seq<char>)| #[trigger]
                after.memory.contains(key) ==> after.knows(key.0)
        }),
{
    let n = runs.len() as int;
    let (ran, tracks) = state.ran(runs, n);
    let m = tracks.len() as int;
    let c = ran.crossed(tracks, t_ms, g, m);
    let placed = TrackerState { memory: c.memory, ..ran }.placed(tracks, g.center, m);
    let after = state.framed(runs, t_ms, g).0;
    assert(after == placed.without_the_gone());
    assert forall|key: (u32, Seq<char>)| #[trigger] after.memory.contains(key) implies after.knows(
        key.0,
    ) by {
        assert(placed.knows(key.0));
        let i = choose|i: int|
            0 <= i < placed.classes.len() && stands_for(
                (#[trigger] placed.classes[i]).ids,
                key.0 as i64,
            );
        assert(after.classes[i] == placed.classes[i]);
    }
}

/// The settings a tracker has unless others are asked for: matching from an overlap of 0.3,
/// 15 frames without a detection, 3 frames to begin with, no matching by looks, and a
/// distance of 0.4 where there is.
pub proof fn law_the_usual_settings()
    ensures
        ({
            let c = default_tracker_config();
            &&& level_is(c.iou_threshold, 3, 10)
            &&& c.hit_counter_max == 15
            &&& c.initialization_delay == 3
            &&& c.reid_hit_counter_max is None
            &&& stamp_is(c.reid_embedding_threshold, 4, 10)
        }),
{
    lemma2_to64();
    lemma2_to64_rest();
    lemma_is_nearest(1050253722, 0x80_0000, 150, 3, 10, 125, 1677722, 33554432);
    lemma_is_nearest(
        4600877379321698714,
        0x10_0000_0000_0000,
        1075,
        4,
        10,
        1021,
        2702159776422298,
        18014398509481984,
    );
}

proof fn lemma_ran_reports(state: TrackerState, runs: Seq<ClassRun>, n: int, r: int, j: int)
    requires
        0 <= r < n <= runs.len(),
        0 <= j < runs[r].raws@.len(),
    ensures
        ({
            let (before, _) = state.ran(runs, r);
            let (_, tracks) = state.ran(runs, n);
            &&& tracks.len() == raw_count(runs, n)
            &&& raw_count(runs, r) + j < raw_count(runs, n)
            &&& tracks[raw_count(runs, r) + j] == before.class_ran(runs[r]).1[j]
            &&& before.frame_seq == state.frame_seq
        }),
    decreases n,
{
    lemma_ran_count(state, runs, n);
    lemma_ran_count(state, runs, r);
    if r < n - 1 {
        lemma_ran_reports(state, runs, n - 1, r, j);
        let so_far = state.ran(runs, n - 1).1;
        assert(state.ran(runs, n).1[raw_count(runs, r) + j] == so_far[raw_count(runs, r) + j]);
    }
}

proof fn lemma_ran_count(state: TrackerState, runs: Seq<ClassRun>, n: int)
    requires
        0 <= n <= runs.len(),
    ensures
        state.ran(runs, n).1.len() == raw_count(runs, n),
        state.ran(runs, n).0.frame_seq == state.frame_seq,
        state.ran(runs, n).0.lines == state.lines,
    decreases n,
{
    if n > 0 {
        lemma_ran_count(state, runs, n - 1);
    }
}

/// A frame reports each object the engines report, in their order, as the engine says it is:
/// its place, its score, its speed and its velocity unchanged, whatever their sign; only a
/// negative width, height or age counts as 0. It is of the class of its engine, and lost
/// exactly if its last detection is not of this frame.
pub proof fn law_a_report_is_what_the_engine_says(
    state: TrackerState,
    runs: Seq<ClassRun>,
    t_ms: Stamp,
    g: Gauges,
    r: int,
    j: int,
)
    requires
        0 <= r < runs.len(),
        0 <= j < runs[r].raws@.len(),
    ensures
        ({
            let tracks = state.framed(runs, t_ms, g).1;
            let raw = runs[r].raws@[j];
            let track = tracks[raw_count(runs, r) + j];
            &&& tracks.len() == raw_count(runs, runs.len() as int)
            &&& raw_count(runs, r) + j < tracks.len()
            &&& track.x == raw.x && track.y == raw.y
            &&& track.confidence == raw.confidence
            &&& track.track_speed == raw.speed
            &&& track.track_velocity_x == raw.velocity_x
            &&& track.track_velocity_y == raw.velocity_y
            &&& raw.width >= 0 ==> track.width == raw.width
            &&& raw.width < 0 ==> track.width == 0
            &&& raw.height >= 0 ==> track.height == raw.height
            &&& raw.height < 0 ==> track.height == 0
            &&& raw.age >= 0 ==> track.track_age == raw.age
            &&& raw.age < 0 ==> track.track_age == 0
            &&& track.label@ == runs[r].label@
            &&& track.track_lost <==> raw.last_frame != Some(state.frame_seq)
        }),
{
    lemma_ran_reports(state, runs, runs.len() as int, r, j);
}

/// Nothing but what the engines report is reported.
pub proof fn law_nothing_else_is_reported(
    state: TrackerState,
    runs: Seq<ClassRun>,
    t_ms: Stamp,
    g: Gauges,
)
    ensures
        state.framed(runs, t_ms, g).1.len() == raw_count(runs, runs.len() as int),
        runs.len() == 0 ==> state.framed(runs, t_ms, g).1.len() == 0,
        forall|r: int|
            0 <= r < runs.len() ==> #[trigger] raw_count(runs, r + 1) == raw_count(runs, r)
                + runs[r].raws@.len(),
{
    lemma_ran_count(state, runs, runs.len() as int);
}

proof fn lemma_named_new(ids: Map<i64, u32>, next: u32, raws: Seq<RawTrack>, n: int, j: int)
    requires
        0 <= j < n <= raws.len(),
        next + n <= u32::MAX,
    ensures
        named(ids, next, raws, n).0.dom().contains(raws[j].engine_id),
        next <= named(ids, next, raws, n).1 <= next + n,
        !ids.dom().contains(raws[j].engine_id) ==> next <= named(
            ids,
            next,
            raws,
            n,
        ).0[raws[j].engine_id] < named(ids, next, raws, n).1,
    decreases n,
{
    lemma_named_next(ids, next, raws, n - 1);
    if j < n - 1 {
        lemma_named_new(ids, next, raws, n - 1, j);
    } else if !ids.dom().contains(raws[j].engine_id) && named(
        ids,
        next,
        raws,
        n - 1,
    ).0.dom().contains(raws[j].engine_id) {
        lemma_named_range(ids, next, raws, n - 1, raws[j].engine_id);
    }
}

proof fn lemma_named_next(ids: Map<i64, u32>, next: u32, raws: Seq<RawTrack>, n: int)
    requires
        0 <= n,
        next + n <= u32::MAX,
    ensures
        next <= named(ids, next, raws, n).1 <= next + n,
    decreases n,
{
    if n > 0 {
        lemma_named_next(ids, next, raws, n - 1);
    }
}

proof fn lemma_named_range(ids: Map<i64, u32>, next: u32, raws: Seq<RawTrack>, n: int, k: i64)
    requires
        0 <= n,
        next + n <= u32::MAX,
        !ids.dom().contains(k),
        named(ids, next, raws, n).0.dom().contains(k),
    ensures
        next <= named(ids, next, raws, n).0[k] < named(ids, next, raws, n).1,
    decreases n,
{
    if n > 0 {
        lemma_named_next(ids, next, raws, n - 1);
        if named(ids, next, raws, n - 1).0.dom().contains(k) {
            lemma_named_range(ids, next, raws, n - 1, k);
        }
    }
}

proof fn lemma_ran_ok(state: TrackerState, runs: Seq<ClassRun>, n: int)
    requires
        state.ok(),
        0 <= n <= runs.len(),
        state.next_track_id + raw_count(runs, n) <= u32::MAX,
    ensures
        state.ran(runs, n).0.ok(),
        state.next_track_id <= state.ran(runs, n).0.next_track_id <= state.next_track_id
            + raw_count(runs, n),
    decreases n,
{
    if n > 0 {
        lemma_ran_ok(state, runs, n - 1);
        let before = state.ran(runs, n - 1).0;
        lemma_class_ran_ok(before, runs[n - 1]);
        let classes = with_class(before.classes, runs[n - 1].label@);
        lemma_named_next(
            classes[class_at(classes, runs[n - 1].label@)].ids,
            before.next_track_id,
            runs[n - 1].raws@,
            runs[n - 1].raws@.len() as int,
        );
    }
}

/// The classes hold the same for this label.
spec fn same_class(a: Seq<ClassState>, b: Seq<ClassState>, label: Seq<char>) -> bool {
    &&& has_class(a, label) <==> has_class(b, label)
    &&& has_class(a, label) ==> a[class_at(a, label)] == b[class_at(b, label)]
}

proof fn lemma_other_runs_leave_a_class(
    state: TrackerState,
    runs: Seq<ClassRun>,
    label: Seq<char>,
    n: int,
)
    requires
        state.ok(),
        0 <= n <= runs.len(),
        state.next_track_id + raw_count(runs, n) <= u32::MAX,
        forall|i: int| 0 <= i < n ==> (#[trigger] runs[i]).label@ != label,
    ensures
        same_class(state.classes, state.ran(runs, n).0.classes, label),
    decreases n,
{
    if n > 0 {
        lemma_other_runs_leave_a_class(state, runs, label, n - 1);
        lemma_ran_ok(state, runs, n - 1);
        let before = state.ran(runs, n - 1).0;
        let run = runs[n - 1];
        let after = state.ran(runs, n).0;
        assert(run.label@ != label);
        lemma_class_ran_ok(before, run);
        let classes = with_class(before.classes, run.label@);
        if has_class(before.classes, label) {
            let at = class_at(before.classes, label);
            assert(classes[at] == before.classes[at]);
            assert(after.classes[at].label == label);
            lemma_class_at(after.classes, at);
            let other = class_at(classes, run.label@);
            assert(classes[other].label == run.label@);
            assert(after.classes[at] == classes[at]);
        }
        if has_class(after.classes, label) {
            let at = class_at(after.classes, label);
            assert(classes[at].label == label);
            if at == before.classes.len() {
                assert(classes[at].label == run.label@);
            }
            assert(before.classes[at].label == label);
        }
    }
}

/// An object is reported under the id it has: one its class knows under that id, and one it
/// does not know under an id that was not in use before. Where a class runs once, it reports
/// an object under one id however often it reports it.
pub proof fn law_an_object_is_reported_under_its_id(
    state: TrackerState,
    runs: Seq<ClassRun>,
    t_ms: Stamp,
    g: Gauges,
    r: int,
    j: int,
    i: int,
)
    requires
        state.ok(),
        state.next_track_id + raw_count(runs, runs.len() as int) <= u32::MAX,
        0 <= r < runs.len(),
        0 <= j < runs[r].raws@.len(),
        0 <= i < runs[r].raws@.len(),
        forall|a: int| 0 <= a < r ==> (#[trigger] runs[a]).label@ != runs[r].label@,
    ensures
        ({
            let tracks = state.framed(runs, t_ms, g).1;
            let label = runs[r].label@;
            let raw = runs[r].raws@[j];
            let id = tracks[raw_count(runs, r) + j].track_id;
            &&& (forall|c: int|
                0 <= c < state.classes.len() && (#[trigger] state.classes[c]).label == label
                    && state.classes[c].ids.dom().contains(raw.engine_id) ==> id
                    == state.classes[c].ids[raw.engine_id])
            &&& (forall|c: int|
                0 <= c < state.classes.len() && (#[trigger] state.classes[c]).label == label
                    ==> !state.classes[c].ids.dom().contains(raw.engine_id)) ==> id
                >= state.next_track_id
            &&& runs[r].raws@[i].engine_id == raw.engine_id ==> tracks[raw_count(runs, r)
                + i].track_id == id
        }),
{
    lemma_ran_reports(state, runs, runs.len() as int, r, j);
    lemma_ran_reports(state, runs, runs.len() as int, r, i);
    lemma_raw_count_grows(runs, r + 1, runs.len() as int);
    lemma_other_runs_leave_a_class(state, runs, runs[r].label@, r);
    lemma_ran_ok(state, runs, r);
    let before = state.ran(runs, r).0;
    let run = runs[r];
    let label = run.label@;
    let n = run.raws@.len() as int;
    let key = run.raws@[j].engine_id;
    lemma_class_ran_ok(before, run);
    let classes = with_class(before.classes, label);
    let at = class_at(classes, label);
    lemma_named_new(classes[at].ids, before.next_track_id, run.raws@, n, j);
    if classes[at].ids.dom().contains(key) {
        lemma_named_keeps(classes[at].ids, before.next_track_id, run.raws@, n, key);
    }
    assert forall|c: int|
        0 <= c < state.classes.len() && (#[trigger] state.classes[c]).label == label implies
        has_class(before.classes, label) && classes[at] == state.classes[c] by {
        lemma_class_at(state.classes, c);
        let b = class_at(before.classes, label);
        assert(classes[b] == before.classes[b]);
        lemma_class_at(classes, b);
    }
    if has_class(before.classes, label) {
        let c = class_at(state.classes, label);
        assert(state.classes[c].label == label);
        assert(classes[at] == state.classes[c]);
    } else {
        assert(classes[before.classes.len() as int].label == label);
        lemma_class_at(classes, before.classes.len() as int);
        assert(!classes[at].ids.dom().contains(key));
    }
}

proof fn lemma_raw_count_grows(runs: Seq<ClassRun>, a: int, b: int)
    requires
        0 <= a <= b,
    ensures
        raw_count(runs, a) <= raw_count(runs, b),
    decreases b,
{
    if a < b {
        lemma_raw_count_grows(runs, a, b - 1);
    }
}

/// One of the first `n` lines with this name is gone over by the movement.
spec fn some_line_is_gone_over(
    lines: Seq<PreparedLine>,
    name: Seq<char>,
    segment: TrackSegment,
    cross: spec_fn(TrackSegment, PreparedLine) -> SegmentMeasure,
    n: int,
) -> bool {
    exists|l: int|
        0 <= l < n && (#[trigger] lines[l]).name@ == name && goes_over(
            segment,
            lines[l],
            cross(segment, lines[l]),
        )
}

/// The event is of this movement over one of these lines.
spec fn is_of_the_movement(
    event: LineCrossingEvent,
    lines: Seq<PreparedLine>,
    segment: TrackSegment,
    t_ms: Stamp,
    cross: spec_fn(TrackSegment, PreparedLine) -> SegmentMeasure,
) -> bool {
    exists|l: int|
        {
            &&& 0 <= l < lines.len()
            &&& goes_over(segment, #[trigger] lines[l], cross(segment, lines[l]))
            &&& is_crossing_of(event, segment, lines[l], cross(segment, lines[l]), t_ms)
        }
}

proof fn lemma_names_are_crossed(
    lines: Seq<PreparedLine>,
    before: NamedCrossings,
    segment: TrackSegment,
    confidence: Level,
    t_ms: Stamp,
    cross: spec_fn(TrackSegment, PreparedLine) -> SegmentMeasure,
    n: int,
)
    requires
        0 <= n <= lines.len(),
        !stood_still(segment),
    ensures
        ({
            let after = names_crossed(lines, before, segment, confidence, t_ms, cross, n);
            &&& before.events.len() <= after.events.len()
            &&& forall|e: int|
                0 <= e < before.events.len() ==> #[trigger] after.events[e] == before.events[e]
            &&& forall|id: u32, name: Seq<char>| #[trigger]
                after.memory.contains((id, name)) <==> before.memory.contains((id, name)) || id
                    == segment.track_id && some_line_is_gone_over(
                    lines,
                    name,
                    segment,
                    cross,
                    n,
                )
            &&& forall|e: int|
                before.events.len() <= e < after.events.len() ==> is_of_the_movement(
                    #[trigger] after.events[e],
                    lines,
                    segment,
                    t_ms,
                    cross,
                ) && after.events[e].confidence == confidence
            &&& forall|l: int|
                0 <= l < n && !before.memory.contains((segment.track_id, lines[l].name@))
                    && goes_over(segment, #[trigger] lines[l], cross(segment, lines[l]))
                    && !some_line_is_gone_over(lines, lines[l].name@, segment, cross, l)
                    ==> exists|e: int|
                    before.events.len() <= e < after.events.len() && is_crossing_of(
                        #[trigger] after.events[e],
                        segment,
                        lines[l],
                        cross(segment, lines[l]),
                        t_ms,
                    ) && after.events[e].confidence == confidence
        }),
    decreases n,
{
    let after = names_crossed(lines, before, segment, confidence, t_ms, cross, n);
    if n > 0 {
        lemma_names_are_crossed(lines, before, segment, confidence, t_ms, cross, n - 1);
        let so_far = names_crossed(lines, before, segment, confidence, t_ms, cross, n - 1);
        let line = lines[n - 1];
        let m = cross(segment, line);
        let lower = lowercase_text(segment.label@);
        assert(line.crossed(lower, m) is Some <==> goes_over(segment, line, m));
        assert forall|e: int| 0 <= e < before.events.len() implies #[trigger] after.events[e]
            == before.events[e] by {
            assert(so_far.events[e] == before.events[e]);
        }
        assert forall|id: u32, name: Seq<char>| #[trigger]
            after.memory.contains((id, name)) <==> before.memory.contains((id, name)) || id
                == segment.track_id && some_line_is_gone_over(
                lines,
                name,
                segment,
                cross,
                n,
            ) by {
            assert(so_far.memory.contains((id, name)) <==> before.memory.contains((id, name)) || id
                == segment.track_id && some_line_is_gone_over(
                lines,
                name,
                segment,
                cross,
                n - 1,
            ));
            if some_line_is_gone_over(lines, name, segment, cross, n) {
                let l = choose|l: int|
                    0 <= l < n && (#[trigger] lines[l]).name@ == name && goes_over(
                        segment,
                        lines[l],
                        cross(segment, lines[l]),
                    );
                if l < n - 1 {
                    assert(some_line_is_gone_over(lines, name, segment, cross, n - 1));
                }
            }
            if some_line_is_gone_over(lines, name, segment, cross, n - 1) {
                let l = choose|l: int|
                    0 <= l < n - 1 && (#[trigger] lines[l]).name@ == name && goes_over(
                        segment,
                        lines[l],
                        cross(segment, lines[l]),
                    );
                assert(lines[l].name@ == name);
            }
            if goes_over(segment, line, m) && line.name@ == name {
                assert(lines[n - 1].name@ == name);
                assert(some_line_is_gone_over(lines, name, segment, cross, n));
            }
        }
        assert forall|e: int|
            before.events.len() <= e < after.events.len() implies is_of_the_movement(
            #[trigger] after.events[e],
            lines,
            segment,
            t_ms,
            cross,
        ) && after.events[e].confidence == confidence by {
            if e < so_far.events.len() {
                assert(after.events[e] == so_far.events[e]);
            } else {
                assert(is_crossing_of(after.events[e], segment, lines[n - 1], m, t_ms));
            }
        }
        assert forall|l: int|
            0 <= l < n && !before.memory.contains((segment.track_id, lines[l].name@)) && goes_over(
                segment,
                #[trigger] lines[l],
                cross(segment, lines[l]),
            ) && !some_line_is_gone_over(lines, lines[l].name@, segment, cross, l) implies exists|
            e: int,
        |
            before.events.len() <= e < after.events.len() && is_crossing_of(
                #[trigger] after.events[e],
                segment,
                lines[l],
                cross(segment, lines[l]),
                t_ms,
            ) && after.events[e].confidence == confidence by {
            if l < n - 1 {
                let e = choose|e: int|
                    before.events.len() <= e < so_far.events.len() && is_crossing_of(
                        #[trigger] so_far.events[e],
                        segment,
                        lines[l],
                        cross(segment, lines[l]),
                        t_ms,
                    ) && so_far.events[e].confidence == confidence;
                assert(after.events[e] == so_far.events[e]);
            } else {
                assert(!so_far.memory.contains((segment.track_id, line.name@)));
                assert(is_crossing_of(
                    after.events[so_far.events.len() as int],
                    segment,
                    line,
                    m,
                    t_ms,
                ));
            }
        }
    }
}

/// The movement of a reported track since it was last reported.
pub open spec fn moved_since(track: TrackedDetection, from: Point, g: Gauges) -> TrackSegment {
    let to = (g.center)(
        Rect { x: track.x, y: track.y, width: track.width, height: track.height },
    );
    TrackSegment {
        track_id: track.track_id,
        label: track.label,
        from,
        to,
        shift_x: (g.span)(from, to).x,
        shift_y: (g.span)(from, to).y,
    }
}

proof fn lemma_crossed_events(
    state: TrackerState,
    tracks: Seq<TrackedDetection>,
    t_ms: Stamp,
    g: Gauges,
    n: int,
)
    requires
        0 <= n <= tracks.len(),
    ensures
        ({
            let after = state.crossed(tracks, t_ms, g, n);
            &&& forall|id: u32, name: Seq<char>| #[trigger]
                after.memory.contains((id, name)) ==> state.memory.contains((id, name)) || exists|
                    k: int,
                |
                    0 <= k < n && (#[trigger] tracks[k]).track_id == id
            &&& forall|e: int|
                0 <= e < after.events.len() ==> is_a_crossing_of_some(
                    #[trigger] after.events[e],
                    state,
                    tracks,
                    t_ms,
                    g,
                )
        }),
    decreases n,
{
    let after = state.crossed(tracks, t_ms, g, n);
    if n > 0 {
        lemma_crossed_events(state, tracks, t_ms, g, n - 1);
        let before = state.crossed(tracks, t_ms, g, n - 1);
        let track = tracks[n - 1];
        match state.place_before(track.label@, track.track_id) {
            Some(from) => {
                let segment = moved_since(track, from, g);
                assert(segment == movement(track, from, (g.center)(track_box(track)), g.span));
                if !stood_still(segment) {
                    lemma_names_are_crossed(
                        state.lines,
                        before,
                        segment,
                        track.confidence,
                        t_ms,
                        g.cross,
                        state.lines.len() as int,
                    );
                    assert forall|id: u32, name: Seq<char>| #[trigger]
                        after.memory.contains((id, name)) implies state.memory.contains((id, name))
                        || exists|k: int| 0 <= k < n && (#[trigger] tracks[k]).track_id == id by {
                        if before.memory.contains((id, name)) {
                            if !state.memory.contains((id, name)) {
                                let k = choose|k: int|
                                    0 <= k < n - 1 && (#[trigger] tracks[k]).track_id == id;
                                assert(tracks[k].track_id == id);
                            }
                        } else {
                            assert(tracks[n - 1].track_id == id);
                        }
                    }
                    assert forall|e: int|
                        0 <= e < after.events.len() implies is_a_crossing_of_some(
                        #[trigger] after.events[e],
                        state,
                        tracks,
                        t_ms,
                        g,
                    ) by {
                        if e < before.events.len() {
                            assert(after.events[e] == before.events[e]);
                        } else {
                            let l = choose|l: int|
                                {
                                    &&& 0 <= l < state.lines.len()
                                    &&& goes_over(
                                        segment,
                                        #[trigger] state.lines[l],
                                        (g.cross)(segment, state.lines[l]),
                                    )
                                    &&& is_crossing_of(
                                        after.events[e],
                                        segment,
                                        state.lines[l],
                                        (g.cross)(segment, state.lines[l]),
                                        t_ms,
                                    )
                                };
                            assert(is_a_crossing_by(
                                after.events[e],
                                state,
                                tracks[n - 1],
                                state.lines[l],
                                t_ms,
                                g,
                            ));
                        }
                    }
                } else {
                    lemma_memory_widens(state, tracks, before.memory, n);
                }
            },
            None => {
                lemma_memory_widens(state, tracks, before.memory, n);
            },
        }
    }
}

proof fn lemma_memory_widens(
    state: TrackerState,
    tracks: Seq<TrackedDetection>,
    memory: Set<(u32, Seq<char>)>,
    n: int,
)
    requires
        0 < n,
        forall|id: u32, name: Seq<char>| #[trigger]
            memory.contains((id, name)) ==> state.memory.contains((id, name)) || exists|k: int|
                0 <= k < n - 1 && (#[trigger] tracks[k]).track_id == id,
    ensures
        forall|id: u32, name: Seq<char>| #[trigger]
            memory.contains((id, name)) ==> state.memory.contains((id, name)) || exists|k: int|
                0 <= k < n && (#[trigger] tracks[k]).track_id == id,
{
    assert forall|id: u32, name: Seq<char>| #[trigger]
        memory.contains((id, name)) implies state.memory.contains((id, name)) || exists|k: int|
        0 <= k < n && (#[trigger] tracks[k]).track_id == id by {
        if !state.memory.contains((id, name)) {
            let k = choose|k: int| 0 <= k < n - 1 && (#[trigger] tracks[k]).track_id == id;
            assert(tracks[k].track_id == id);
        }
    }
}

/// The track had a place before, its movement from there goes over the line, and the event
/// is that crossing, with the score of the track.
pub open spec fn is_a_crossing_by(
    event: LineCrossingEvent,
    state: TrackerState,
    track: TrackedDetection,
    line: PreparedLine,
    t_ms: Stamp,
    g: Gauges,
) -> bool {
    &&& state.place_before(track.label@, track.track_id) matches Some(from) && {
        let segment = moved_since(track, from, g);
        &&& goes_over(segment, line, (g.cross)(segment, line))
        &&& is_crossing_of(event, segment, line, (g.cross)(segment, line), t_ms)
    }
    &&& event.confidence == track.confidence
}

/// The event is the crossing of some line by some reported track.
pub open spec fn is_a_crossing_of_some(
    event: LineCrossingEvent,
    state: TrackerState,
    tracks: Seq<TrackedDetection>,
    t_ms: Stamp,
    g: Gauges,
) -> bool {
    exists|k: int, l: int|
        0 <= k < tracks.len() && 0 <= l < state.lines.len() && is_a_crossing_by(
            event,
            state,
            #[trigger] tracks[k],
            #[trigger] state.lines[l],
            t_ms,
            g,
        )
}

/// Every crossing that is reported is one: a reported track that had a place before has gone
/// from there over a line of that name, which watches its label and lets the direction
/// through; the crossing carries the time of the frame and the score of the track.
pub proof fn law_a_reported_crossing_is_one(
    state: TrackerState,
    tracks: Seq<TrackedDetection>,
    t_ms: Stamp,
    g: Gauges,
    e: int,
)
    requires
        0 <= e < state.crossed(tracks, t_ms, g, tracks.len() as int).events.len(),
    ensures
        is_a_crossing_of_some(
            state.crossed(tracks, t_ms, g, tracks.len() as int).events[e],
            state,
            tracks,
            t_ms,
            g,
        ),
{
    lemma_crossed_events(state, tracks, t_ms, g, tracks.len() as int);
}

/// Every crossing that is not remembered is reported: if a reported track, the first with its
/// id, has gone from the place it had before over a line, the first such line of its name,
/// the crossing of that line by that movement is reported.
pub proof fn law_a_new_crossing_is_reported(
    state: TrackerState,
    tracks: Seq<TrackedDetection>,
    t_ms: Stamp,
    g: Gauges,
    k: int,
    l: int,
    from: Point,
)
    requires
        0 <= k < tracks.len(),
        0 <= l < state.lines.len(),
        state.place_before(tracks[k].label@, tracks[k].track_id) == Some(from),
        ({
            let segment = moved_since(tracks[k], from, g);
            let line = state.lines[l];
            let m = (g.cross)(segment, line);
            &&& segment.shift_x >= SAME_PLACE_LIMIT || segment.shift_y >= SAME_PLACE_LIMIT
            &&& line.labels@.len() == 0 || exists|i: int|
                0 <= i < line.labels@.len() && #[trigger] line.labels@[i]@ == lowercase_text(
                    segment.label@,
                )
            &&& m.denom >= PARALLEL_LIMIT
            &&& 0 <= m.along_track && m.along_track <= ONE
            &&& 0 <= m.along_line && m.along_line <= ONE
            &&& m.cross > 0 && line.direction != LineDirectionFilter::BToA || m.cross < 0
                && line.direction != LineDirectionFilter::AToB
            &&& !state.memory.contains((tracks[k].track_id, line.name@))
        }),
        forall|j: int| 0 <= j < k ==> (#[trigger] tracks[j]).track_id != tracks[k].track_id,
        forall|j: int| 0 <= j < l ==> (#[trigger] state.lines[j]).name@ != state.lines[l].name@,
    ensures
        ({
            let segment = moved_since(tracks[k], from, g);
            let line = state.lines[l];
            let events = state.crossed(tracks, t_ms, g, tracks.len() as int).events;
            exists|e: int|
                {
                    &&& 0 <= e < events.len()
                    &&& (#[trigger] events[e]).line_name@ == line.name@
                    &&& events[e].track_id == tracks[k].track_id
                    &&& events[e].label@ == tracks[k].label@
                    &&& events[e].prev_pos == from
                    &&& events[e].curr_pos == segment.to
                    &&& events[e].timestamp_ms == t_ms
                    &&& events[e].confidence == tracks[k].confidence
                    &&& events[e].direction == CrossingDirection::AToB <==> (g.cross)(
                        segment,
                        line,
                    ).cross > 0
                }
        }),
{
    let segment = moved_since(tracks[k], from, g);
    let line = state.lines[l];
    assert(segment == movement(tracks[k], from, (g.center)(track_box(tracks[k])), g.span));
    lemma_crossed_events(state, tracks, t_ms, g, k);
    let before = state.crossed(tracks, t_ms, g, k);
    let after = state.crossed(tracks, t_ms, g, k + 1);
    assert(!before.memory.contains((segment.track_id, line.name@)));
    assert(goes_over(segment, line, (g.cross)(segment, line)));
    assert(!some_line_is_gone_over(state.lines, line.name@, segment, g.cross, l));
    lemma_names_are_crossed(
        state.lines,
        before,
        segment,
        tracks[k].confidence,
        t_ms,
        g.cross,
        state.lines.len() as int,
    );
    let e = choose|e: int|
        before.events.len() <= e < after.events.len() && is_crossing_of(
            #[trigger] after.events[e],
            segment,
            state.lines[l],
            (g.cross)(segment, state.lines[l]),
            t_ms,
        ) && after.events[e].confidence == tracks[k].confidence;
    let events = state.crossed(tracks, t_ms, g, tracks.len() as int).events;
    lemma_crossed_stays(state, tracks, t_ms, g, k + 1, tracks.len() as int);
    assert(events[e] == after.events[e]);
}

proof fn lemma_crossed_stays(
    state: TrackerState,
    tracks: Seq<TrackedDetection>,
    t_ms: Stamp,
    g: Gauges,
    a: int,
    b: int,
)
    requires
        0 <= a <= b <= tracks.len(),
    ensures
        ({
            let before = state.crossed(tracks, t_ms, g, a);
            let after = state.crossed(tracks, t_ms, g, b);
            &&& before.events.len() <= after.events.len()
            &&& forall|e: int|
                0 <= e < before.events.len() ==> #[trigger] after.events[e] == before.events[e]
        }),
    decreases b,
{
    if a < b {
        lemma_crossed_stays(state, tracks, t_ms, g, a, b - 1);
        let before = state.crossed(tracks, t_ms, g, a);
        let mid = state.crossed(tracks, t_ms, g, b - 1);
        let after = state.crossed(tracks, t_ms, g, b);
        let track = tracks[b - 1];
        if let Some(from) = state.place_before(track.label@, track.track_id) {
            let segment = movement(track, from, (g.center)(track_box(track)), g.span);
            if !stood_still(segment) {
                lemma_names_are_crossed(
                    state.lines,
                    mid,
                    segment,
                    track.confidence,
                    t_ms,
                    g.cross,
                    state.lines.len() as int,
                );
            }
        }
        assert forall|e: int| 0 <= e < before.events.len() implies #[trigger] after.events[e]
            == before.events[e] by {
            assert(mid.events[e] == before.events[e]);
        }
    }
}

/// A frame looks at the crossings of exactly the tracks it reports, from the places that are
/// known of them once the engines have run.
pub proof fn law_a_frame_reports_its_crossings(
    state: TrackerState,
    runs: Seq<ClassRun>,
    t_ms: Stamp,
    g: Gauges,
)
    ensures
        ({
            let (ran, tracks) = state.ran(runs, runs.len() as int);
            let (after, reported, events) = state.framed(runs, t_ms, g);
            &&& reported == tracks
            &&& ran.lines == state.lines && ran.memory == state.memory
            &&& state.lines.len() == 0 ==> events.len() == 0
            &&& state.lines.len() > 0 ==> events == ran.crossed(
                tracks,
                t_ms,
                g,
                tracks.len() as int,
            ).events
        }),
{
    lemma_ran_count(state, runs, runs.len() as int);
    lemma_ran_memory(state, runs, runs.len() as int);
}

proof fn lemma_placed_last(
    state: TrackerState,
    tracks: Seq<TrackedDetection>,
    center: spec_fn(Rect) -> Point,
    k: int,
    n: int,
)
    requires
        state.ok(),
        0 <= k < n <= tracks.len(),
        has_class(state.classes, tracks[k].label@),
        forall|j: int|
            k < j < tracks.len() ==> (#[trigger] tracks[j]).label@ != tracks[k].label@
                || tracks[j].track_id != tracks[k].track_id,
    ensures
        ({
            let after = state.placed(tracks, center, n);
            let track = tracks[k];
            &&& after.place_before(track.label@, track.track_id) == Some(
                center(
                    Rect { x: track.x, y: track.y, width: track.width, height: track.height },
                ),
            )
            &&& has_class(after.classes, track.label@)
        }),
    decreases n,
{
    lemma_placed_labels(state, tracks, center, n - 1);
    lemma_placed_labels(state, tracks, center, n);
    let before = state.placed(tracks, center, n - 1);
    let after = state.placed(tracks, center, n);
    let label = tracks[k].label@;
    let c = class_at(state.classes, label);
    assert(before.classes[c].label == label);
    assert(after.classes[c].label == label);
    lemma_class_at(before.classes, c);
    lemma_class_at(after.classes, c);
    let last = tracks[n - 1];
    if k < n - 1 {
        lemma_placed_last(state, tracks, center, k, n - 1);
        assert(tracks[n - 1].label@ != label || tracks[n - 1].track_id != tracks[k].track_id);
        if has_class(before.classes, last.label@) {
            let d = class_at(before.classes, last.label@);
            assert(before.classes[d].label == last.label@);
        }
    }
}

proof fn lemma_placed_labels(
    state: TrackerState,
    tracks: Seq<TrackedDetection>,
    center: spec_fn(Rect) -> Point,
    n: int,
)
    requires
        state.ok(),
        n <= tracks.len(),
    ensures
        ({
            let after = state.placed(tracks, center, n);
            &&& after.classes.len() == state.classes.len()
            &&& forall|i: int|
                0 <= i < after.classes.len() ==> (#[trigger] after.classes[i]).label
                    == state.classes[i].label
            &&& forall|i: int, j: int|
                0 <= i < j < after.classes.len() ==> (#[trigger] after.classes[i]).label != (
                #[trigger] after.classes[j]).label
        }),
    decreases n,
{
    let after = state.placed(tracks, center, n);
    if n > 0 {
        lemma_placed_labels(state, tracks, center, n - 1);
        let before = state.placed(tracks, center, n - 1);
        assert forall|i: int| 0 <= i < after.classes.len() implies (
        #[trigger] after.classes[i]).label == before.classes[i].label by {}
    }
    assert forall|i: int, j: int| 0 <= i < j < after.classes.len() implies (
    #[trigger] after.classes[i]).label != (#[trigger] after.classes[j]).label by {
        assert(state.classes[i].label != state.classes[j].label);
    }
}

/// Where there are lines, a frame leaves each track it reports at the center of its box, the
/// last one it reports of it.
pub proof fn law_a_track_is_left_where_it_was_reported(
    state: TrackerState,
    runs: Seq<ClassRun>,
    t_ms: Stamp,
    g: Gauges,
    k: int,
)
    requires
        state.ok(),
        state.lines.len() > 0,
        state.next_track_id + raw_count(runs, runs.len() as int) <= u32::MAX,
        ({
            let (ran, tracks) = state.ran(runs, runs.len() as int);
            &&& 0 <= k < tracks.len()
            &&& has_class(ran.classes, tracks[k].label@)
            &&& forall|j: int|
                k < j < tracks.len() ==> (#[trigger] tracks[j]).label@ != tracks[k].label@
                    || tracks[j].track_id != tracks[k].track_id
        }),
    ensures
        ({
            let (after, tracks, _) = state.framed(runs, t_ms, g);
            let track = tracks[k];
            after.place_before(track.label@, track.track_id) == Some(
                (g.center)(
                    Rect { x: track.x, y: track.y, width: track.width, height: track.height },
                ),
            )
        }),
{
    let n = runs.len() as int;
    lemma_ran_ok(state, runs, n);
    lemma_ran_count(state, runs, n);
    let (ran, tracks) = state.ran(runs, n);
    let c = ran.crossed(tracks, t_ms, g, tracks.len() as int);
    let remembering = TrackerState { memory: c.memory, ..ran };
    lemma_placed_last(remembering, tracks, g.center, k, tracks.len() as int);
    let placed = remembering.placed(tracks, g.center, tracks.len() as int);
    assert(state.framed(runs, t_ms, g).0.classes == placed.classes);
}

/// The engines leave a track the place it has for as long as its own engine holds it.
pub proof fn law_a_held_track_keeps_its_place(
    state: TrackerState,
    run: ClassRun,
    label: Seq<char>,
    k: i64,
    id: u32,
)
    requires
        state.ok(),
        is_known_as(state.classes, label, k, id),
        run.label@ == label ==> run.alive@.contains(k),
    ensures
        state.class_ran(run).0.place_before(label, id) == state.place_before(label, id),
{
    let at = class_at(state.classes, label);
    let classes = with_class(state.classes, run.label@);
    let after = state.class_ran(run).0;
    lemma_class_ran_ok(state, run);
    lemma_run_keeps_ids(state, run, label, k, id);
    assert(classes[at] == state.classes[at]);
    assert(after.classes[at].label == label);
    lemma_class_at(after.classes, at);
    if run.label@ == label {
        lemma_class_at(classes, at);
        let ids = after.classes[at].ids;
        assert(ids.dom().contains(k) && ids[k] == id as i64);
        assert(stands_for(ids, id as i64));
    } else {
        let other = class_at(classes, run.label@);
        assert(classes[other].label == run.label@);
    }
}

/// A class is run on exactly the detections with its label, in their order.
pub proof fn law_a_class_is_run_on_its_detections(
    detections: Seq<Detection>,
    label: Seq<char>,
    d: Detection,
)
    ensures
        with_label(Seq::empty(), label).len() == 0,
        d.label@ == label ==> with_label(detections.push(d), label) == with_label(
            detections,
            label,
        ).push(d),
        d.label@ != label ==> with_label(detections.push(d), label) == with_label(
            detections,
            label,
        ),
{
    reveal(Seq::filter);
    assert(detections.push(d).drop_last() =~= detections);
}

/// The classes without a detection are run before those with some.
pub proof fn law_idle_classes_run_first(
    classes: Seq<ClassState>,
    detections: Seq<Detection>,
    k: int,
    l: int,
)
    requires
        0 <= k < l < planned(classes, detections).len(),
        planned(classes, detections)[l].detections.len() == 0,
    ensures
        planned(classes, detections)[k].detections.len() == 0,
{
    let total = detections.len() as int;
    let labels = labels_of(detections, total);
    let first = idle(classes, detections, classes.len() as int);
    lemma_idle(classes, detections, classes.len() as int);
    if l >= first.len() {
        lemma_met_label_has_detections(detections, l - first.len());
    } else {
        assert(planned(classes, detections)[k] == first[k]);
    }
}

proof fn lemma_met_label_has_detections(detections: Seq<Detection>, a: int)
    requires
        0 <= a < labels_of(detections, detections.len() as int).len(),
    ensures
        with_label(
            detections,
            labels_of(detections, detections.len() as int)[a],
        ).len() > 0,
{
    let labels = labels_of(detections, detections.len() as int);
    let label = labels[a];
    lemma_labels_are_met(detections, detections.len() as int);
    assert(labels.contains(label));
    let j = choose|j: int|
        0 <= j < detections.len() && (#[trigger] detections[j]).label@ == label;
    lemma_bearer_is_run_on(detections, label, j);
}

proof fn lemma_bearer_is_run_on(detections: Seq<Detection>, label: Seq<char>, j: int)
    requires
        0 <= j < detections.len(),
        detections[j].label@ == label,
    ensures
        with_label(detections, label).len() > 0,
    decreases detections.len(),
{
    let rest = detections.drop_last();
    assert(detections =~= rest.push(detections.last()));
    law_a_class_is_run_on_its_detections(rest, label, detections.last());
    if j < rest.len() {
        lemma_bearer_is_run_on(rest, label, j);
    }
}

/// Ids are handed out one after the other; after the last comes the first, and 0 is none.
pub proof fn law_ids_are_handed_out_in_order(id: u32)
    ensures
        id < u32::MAX ==> id_after(id) == id + 1,
        id == u32::MAX ==> id_after(id) == 1,
        id_after(id) != 0,
{
}

/// A class knows of the objects its engine holds and of no others, and counts them.
pub proof fn law_a_class_knows_what_its_engine_holds(class: ClassState, alive: Seq<i64>, k: i64)
    ensures
        ({
            let after = class.keeping(alive);
            &&& after.label == class.label
            &&& after.ids.dom().contains(k) <==> class.ids.dom().contains(k) && alive.contains(k)
            &&& after.ids.dom().contains(k) ==> after.ids[k] == class.ids[k]
            &&& after.places.dom().contains(k) <==> class.places.dom().contains(k) && exists|e: i64|
                class.ids.dom().contains(e) && #[trigger] alive.contains(e) && class.ids[e] == k
            &&& after.places.dom().contains(k) ==> after.places[k] == class.places[k]
            &&& after.held == alive.len()
        }),
{
    let after = class.keeping(alive);
    if stands_for(after.ids, k) {
        let e = choose|e: i64| #[trigger] after.ids.dom().contains(e) && after.ids[e] == k;
        assert(class.ids.dom().contains(e) && alive.contains(e) && class.ids[e] == k);
    }
    assert forall|e: i64|
        class.ids.dom().contains(e) && #[trigger] alive.contains(e) && class.ids[e] == k implies
        stands_for(after.ids, k) by {
        assert(after.ids.dom().contains(e) && after.ids[e] == k);
    }
}

} // verus!
