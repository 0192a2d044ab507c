//! What holds of whole runs: of any sequence of ticks, with any settings made in between.
use vstd::prelude::*;
use crate::labels::distinct_texts;
use crate::line_crossing::{LineCrossingEvent, PreparedLine};
use crate::reading::{at_least_zero, Level, Stamp};
use crate::tick_laws::{
    held, holds_confirmed, is_sound, lemma_held, lemma_tick_is_sound, lost,
};
use crate::track::{Sighting, WorldTrack};
use crate::types::{CameraMotion, Rect};
use crate::world_laws::{
    law_a_tick_begins_in_order, law_each_crossing_is_reported_once, lemma_filter_in_order,
    lemma_oldest, lemma_sighted_frame,
};
use crate::world_model::{
    asleep, evicted, excess, has_id, index_of, is_confirmed, is_roaming, oldest_dormant, Senses,
    UpdateState, WorldState,
};
use crate::zone_filter::PreparedZones;

verus! {

/// What a tick is given: its time, the time since the last one, where the camera points and
/// where that puts a box, the class ids, and what the engine says.
pub struct TickInput {
    pub t_ms: Stamp,
    pub since_last: Stamp,
    pub motion: Option<CameraMotion>,
    pub shift: spec_fn(Rect) -> Rect,
    pub labels: Seq<String>,
    pub sightings: Seq<Sighting>,
    pub senses: Senses,
}

/// One step of a run.
pub enum Step {
    Zones(PreparedZones),
    MinConfidence(Level),
    Lines(Seq<PreparedLine>),
    CameraMove,
    Tick(TickInput),
}

/// Nothing to report.
pub open spec fn nothing() -> UpdateState {
    UpdateState {
        tracks: Seq::empty(),
        created: Seq::empty(),
        removed: Seq::empty(),
        events: Seq::empty(),
        crossings: Seq::empty(),
    }
}

impl WorldState {
    /// The world at the start of a tick, with its class ids.
    pub open spec fn awaiting(self, tick: TickInput) -> WorldState {
        WorldState {
            labels: tick.labels,
            ..self.begun(tick.t_ms, tick.since_last, tick.motion, tick.shift)
        }
    }

    /// The world can take this step: there are ids for all sightings, the class ids are told
    /// apart, and the lines can be numbered.
    pub open spec fn can_take(self, step: Step) -> bool {
        match step {
            Step::Lines(lines) => lines.len() <= u32::MAX,
            Step::Tick(tick) => distinct_texts(tick.labels) && self.next_id + tick.sightings.len()
                <= u32::MAX,
            _ => true,
        }
    }

    /// The world after a step, and what the step brings to light.
    pub open spec fn stepped(self, step: Step) -> (WorldState, UpdateState) {
        match step {
            Step::Zones(zones) => (WorldState { zones, ..self }, nothing()),
            Step::MinConfidence(level) => (
                WorldState { min_confidence: at_least_zero(level), ..self },
                nothing(),
            ),
            Step::Lines(lines) => (WorldState { lines, memory: Set::empty(), ..self }, nothing()),
            Step::CameraMove => (self.camera_moved(), nothing()),
            Step::Tick(tick) => self.awaiting(tick).ticked(tick.sightings, tick.senses),
        }
    }

    /// The world after the first `n` steps.
    pub open spec fn after(self, steps: Seq<Step>, n: int) -> WorldState
        decreases n,
    {
        if n <= 0 {
            self
        } else {
            self.after(steps, n - 1).stepped(steps[n - 1]).0
        }
    }

    /// What step `k` brings to light.
    pub open spec fn told(self, steps: Seq<Step>, k: int) -> UpdateState {
        self.after(steps, k).stepped(steps[k]).1
    }

    /// Every step can be taken.
    pub open spec fn can_run(self, steps: Seq<Step>) -> bool {
        forall|k: int|
            0 <= k < steps.len() ==> (#[trigger] self.after(steps, k)).can_take(steps[k])
    }
}

/// The later object is the earlier one, perhaps elsewhere or asleep.
pub open spec fn is_same(earlier: WorldTrack, later: WorldTrack) -> bool {
    &&& later.id == earlier.id
    &&& later.state == earlier.state
    &&& later.last_seen_ms == earlier.last_seen_ms
}

/// One of the objects is the same as this one.
spec fn has_same(before: Seq<WorldTrack>, later: WorldTrack) -> bool {
    exists|j: int| 0 <= j < before.len() && is_same(#[trigger] before[j], later)
}

/// Every object was there before.
pub open spec fn is_rest(before: Seq<WorldTrack>, after: Seq<WorldTrack>) -> bool {
    forall|id: u32|
        (#[trigger] held(after, id)) matches Some(t) ==> (held(before, id) matches Some(u)
            && is_same(u, t))
}

proof fn lemma_rest(before: Seq<WorldTrack>, after: Seq<WorldTrack>)
    requires
        forall|i: int, j: int|
            0 <= i < j < before.len() ==> (#[trigger] before[i]).id < (#[trigger] before[j]).id,
        forall|i: int| 0 <= i < after.len() ==> has_same(before, #[trigger] after[i]),
    ensures
        is_rest(before, after),
{
    assert forall|id: u32|
        (#[trigger] held(after, id)) matches Some(t) ==> (held(before, id) matches Some(u)
            && is_same(u, t)) by {
        if has_id(after, id) {
            let i = index_of(after, id);
            assert(has_same(before, after[i]));
            let j = choose|j: int| 0 <= j < before.len() && is_same(#[trigger] before[j], after[i]);
            lemma_held(before, j);
        }
    }
}

proof fn lemma_evicted_are_members(tracks: Seq<WorldTrack>, k: nat)
    ensures
        forall|i: int|
            0 <= i < evicted(tracks, k).len() ==> tracks.contains(#[trigger] evicted(tracks, k)[i]),
    decreases k,
{
    let left = evicted(tracks, k);
    if k > 0 {
        lemma_oldest(tracks, tracks.len() as int);
        match oldest_dormant(tracks, tracks.len() as int) {
            Some(at) => {
                let rest = tracks.remove(at);
                lemma_evicted_are_members(rest, (k - 1) as nat);
                assert(left == evicted(rest, (k - 1) as nat));
                assert forall|i: int| 0 <= i < left.len() implies tracks.contains(
                    #[trigger] left[i],
                ) by {
                    assert(rest.contains(evicted(rest, (k - 1) as nat)[i]));
                    let b = choose|b: int| 0 <= b < rest.len() && rest[b] == left[i];
                    if b < at {
                        assert(tracks[b] == left[i]);
                    } else {
                        assert(tracks[b + 1] == left[i]);
                    }
                }
            },
            None => {
                assert forall|i: int| 0 <= i < left.len() implies tracks.contains(
                    #[trigger] left[i],
                ) by {
                    assert(tracks[i] == left[i]);
                }
            },
        }
    } else {
        assert forall|i: int| 0 <= i < left.len() implies tracks.contains(#[trigger] left[i]) by {
            assert(tracks[i] == left[i]);
        }
    }
}

proof fn lemma_awaiting(world: WorldState, tick: TickInput)
    requires
        world.ok(),
        distinct_texts(tick.labels),
    ensures
        ({
            let begun = world.awaiting(tick);
            &&& begun.ok()
            &&& begun.next_id == world.next_id
            &&& begun.last_t_ms == tick.t_ms
            &&& begun.memory == world.memory
            &&& begun.lines == world.lines
            &&& begun.config == world.config
            &&& is_rest(world.tracks, begun.tracks)
        }),
{
    let begun = world.awaiting(tick);
    law_a_tick_begins_in_order(world, tick.t_ms, tick.since_last, tick.motion, tick.shift);
    let rested = if world.is_gap(tick.since_last) {
        world.gap_passed()
    } else {
        world
    };
    assert forall|i: int| 0 <= i < rested.tracks.len() implies has_same(
        world.tracks,
        #[trigger] rested.tracks[i],
    ) by {
        if world.is_gap(tick.since_last) {
            let keep = |t: WorldTrack| is_confirmed(t);
            let kept = world.tracks.filter(keep);
            let sleepers = kept.map_values(|t: WorldTrack| asleep(t));
            lemma_filter_in_order(world.tracks, keep);
            lemma_evicted_are_members(sleepers, excess(sleepers, world.config.max_dormant));
            assert(sleepers.contains(rested.tracks[i]));
            let k = choose|k: int| 0 <= k < sleepers.len() && sleepers[k] == rested.tracks[i];
            assert(world.tracks.contains(kept[k]));
            let j = choose|j: int| 0 <= j < world.tracks.len() && world.tracks[j] == kept[k];
            assert(is_same(world.tracks[j], rested.tracks[i]));
        } else {
            assert(is_same(world.tracks[i], rested.tracks[i]));
        }
    }
    assert(begun.tracks.len() == rested.tracks.len());
    assert forall|i: int| 0 <= i < begun.tracks.len() implies has_same(
        world.tracks,
        #[trigger] begun.tracks[i],
    ) by {
        assert(is_same(rested.tracks[i], begun.tracks[i]));
        assert(has_same(world.tracks, rested.tracks[i]));
        let j = choose|j: int|
            0 <= j < world.tracks.len() && is_same(#[trigger] world.tracks[j], rested.tracks[i]);
        assert(is_same(world.tracks[j], begun.tracks[i]));
    }
    lemma_rest(world.tracks, begun.tracks);
}

proof fn lemma_camera_moved(world: WorldState)
    requires
        world.ok(),
    ensures
        world.camera_moved().ok(),
        is_rest(world.tracks, world.camera_moved().tracks),
{
    let after = world.camera_moved();
    let keep = |t: WorldTrack| is_roaming(t);
    lemma_filter_in_order(world.tracks, keep);
    assert forall|i: int| 0 <= i < after.tracks.len() implies has_same(
        world.tracks,
        #[trigger] after.tracks[i],
    ) by {
        assert(world.tracks.contains(after.tracks[i]));
        let j = choose|j: int| 0 <= j < world.tracks.len() && world.tracks[j] == after.tracks[i];
        assert(is_same(world.tracks[j], after.tracks[i]));
    }
    assert forall|i: int| 0 <= i < after.tracks.len() implies 1 <= (#[trigger] after.tracks[i]).id
        < after.next_id && after.tracks[i].ok(after.config) by {
        assert(world.tracks.contains(after.tracks[i]));
    }
    lemma_rest(world.tracks, after.tracks);
}

/// The id was handed out, and no object has it any more.
pub open spec fn is_gone(world: WorldState, id: u32) -> bool {
    id < world.next_id && !has_id(world.tracks, id)
}

/// No object can enter with this id any more: it was handed out, and whoever has it is
/// confirmed.
pub open spec fn is_spent(world: WorldState, id: u32) -> bool {
    id < world.next_id && (has_id(world.tracks, id) ==> holds_confirmed(world.tracks, id))
}

/// What a step does to the objects of a world.
#[verifier::opaque]
pub open spec fn is_step(world: WorldState, after: WorldState, update: UpdateState) -> bool {
    &&& after.ok()
    &&& world.next_id <= after.next_id
    &&& after.config == world.config
    &&& forall|id: u32| #[trigger] is_gone(world, id) ==> is_gone(after, id)
    &&& forall|id: u32| #[trigger] is_spent(world, id) ==> is_spent(after, id)
    &&& forall|id: u32| #[trigger]
        holds_confirmed(after.tracks, id) ==> holds_confirmed(world.tracks, id)
            || update.created.contains(id)
    &&& forall|id: u32| #[trigger]
        update.created.contains(id) ==> !is_spent(world, id) && is_spent(after, id)
    &&& forall|id: u32| #[trigger]
        update.removed.contains(id) ==> holds_confirmed(world.tracks, id) && is_gone(after, id)
    &&& forall|id: u32| #[trigger] update.mentions(id) ==> id >= 1 && !is_gone(world, id)
    &&& forall|id: u32| #[trigger]
        holds_confirmed(after.tracks, id) && !update.shows(id) ==> {
            &&& holds_confirmed(world.tracks, id)
            &&& held(after.tracks, id)->0.last_seen_ms == held(world.tracks, id)->0.last_seen_ms
        }
    &&& update.created.no_duplicates()
    &&& update.removed.no_duplicates()
}

proof fn lemma_nothing(id: u32)
    ensures
        !nothing().mentions(id),
{
}

proof fn lemma_step(world: WorldState, step: Step)
    requires
        world.ok(),
        world.can_take(step),
    ensures
        is_step(world, world.stepped(step).0, world.stepped(step).1),
{
    reveal(is_step);
    let (after, update) = world.stepped(step);
    match step {
        Step::Tick(tick) => {
            let begun = world.awaiting(tick);
            lemma_awaiting(world, tick);
            lemma_tick_is_sound(begun, tick.sightings, tick.senses);
            reveal(is_sound);
            assert forall|id: u32| #[trigger] has_id(begun.tracks, id) implies has_id(
                world.tracks,
                id,
            ) by {
                assert(held(begun.tracks, id) is Some);
            }
            assert forall|id: u32| #[trigger] holds_confirmed(begun.tracks, id) implies
                holds_confirmed(world.tracks, id) by {
                assert(held(begun.tracks, id) is Some);
            }
            assert forall|id: u32| #[trigger] is_spent(world, id) implies is_spent(begun, id) by {
                assert(held(begun.tracks, id) is Some <==> has_id(begun.tracks, id));
            }
            assert forall|id: u32| #[trigger] is_gone(world, id) implies is_gone(after, id) by {
                assert(!has_id(begun.tracks, id));
            }
            assert forall|id: u32| #[trigger] is_spent(world, id) implies is_spent(after, id) by {
                assert(is_spent(begun, id));
                if has_id(after.tracks, id) {
                    assert(has_id(begun.tracks, id));
                    assert(holds_confirmed(begun.tracks, id));
                }
            }
            assert forall|id: u32| #[trigger] update.created.contains(id) implies !is_spent(
                world,
                id,
            ) && is_spent(after, id) by {
                if is_spent(world, id) {
                    assert(is_spent(begun, id));
                }
                assert(holds_confirmed(after.tracks, id));
                assert(has_id(after.tracks, id));
                let i = index_of(after.tracks, id);
                assert(after.tracks[i].id < after.next_id);
            }
            assert forall|id: u32| #[trigger] update.removed.contains(id) implies holds_confirmed(
                world.tracks,
                id,
            ) && is_gone(after, id) by {
                assert(holds_confirmed(begun.tracks, id));
                let i = index_of(begun.tracks, id);
                assert(begun.tracks[i].id < begun.next_id);
            }
            assert forall|id: u32| #[trigger] update.mentions(id) implies id >= 1 && !is_gone(
                world,
                id,
            ) by {
                if has_id(begun.tracks, id) {
                    let i = index_of(begun.tracks, id);
                    assert(begun.tracks[i].id >= 1);
                    assert(has_id(world.tracks, id));
                }
            }
            assert forall|id: u32| #[trigger]
                holds_confirmed(after.tracks, id) && !update.shows(id) implies holds_confirmed(
                world.tracks,
                id,
            ) && held(after.tracks, id)->0.last_seen_ms == held(
                world.tracks,
                id,
            )->0.last_seen_ms by {
                assert(holds_confirmed(begun.tracks, id));
            }
        },
        _ => {
            if step is CameraMove {
                lemma_camera_moved(world);
            }
            assert(is_rest(world.tracks, after.tracks));
            assert(update == nothing());
            assert forall|id: u32| #[trigger] update.mentions(id) implies id >= 1 && !is_gone(
                world,
                id,
            ) by {
                lemma_nothing(id);
            }
            assert forall|id: u32| #[trigger] is_gone(world, id) implies is_gone(after, id) by {
                assert(held(after.tracks, id) is Some <==> has_id(after.tracks, id));
            }
            assert forall|id: u32| #[trigger] is_spent(world, id) implies is_spent(after, id) by {
                assert(held(after.tracks, id) is Some <==> has_id(after.tracks, id));
            }
            assert forall|id: u32| #[trigger] holds_confirmed(after.tracks, id) implies
                holds_confirmed(world.tracks, id) && held(after.tracks, id)->0.last_seen_ms
                == held(world.tracks, id)->0.last_seen_ms by {}
        },
    }
}

/// A world stays in order through every run.
pub proof fn law_a_run_keeps_order(world: WorldState, steps: Seq<Step>, n: int)
    requires
        world.ok(),
        world.can_run(steps),
        0 <= n <= steps.len(),
    ensures
        world.after(steps, n).ok(),
        world.next_id <= world.after(steps, n).next_id,
        world.after(steps, n).config == world.config,
    decreases n,
{
    reveal(is_step);
    if n > 0 {
        law_a_run_keeps_order(world, steps, n - 1);
        let before = world.after(steps, n - 1);
        assert(before.can_take(steps[n - 1]));
        lemma_step(before, steps[n - 1]);
    }
}

proof fn lemma_stays(world: WorldState, steps: Seq<Step>, k: int, m: int, id: u32)
    requires
        world.ok(),
        world.can_run(steps),
        0 <= k <= m <= steps.len(),
    ensures
        is_gone(world.after(steps, k), id) ==> is_gone(world.after(steps, m), id),
        is_spent(world.after(steps, k), id) ==> is_spent(world.after(steps, m), id),
    decreases m,
{
    reveal(is_step);
    if k < m {
        lemma_stays(world, steps, k, m - 1, id);
        law_a_run_keeps_order(world, steps, m - 1);
        let before = world.after(steps, m - 1);
        assert(before.can_take(steps[m - 1]));
        lemma_step(before, steps[m - 1]);
        assert(is_gone(before, id) ==> is_gone(world.after(steps, m), id));
        assert(is_spent(before, id) ==> is_spent(world.after(steps, m), id));
    }
}

proof fn lemma_step_of_run(world: WorldState, steps: Seq<Step>, k: int)
    requires
        world.ok(),
        world.can_run(steps),
        0 <= k < steps.len(),
    ensures
        is_step(world.after(steps, k), world.after(steps, k + 1), world.told(steps, k)),
{
    law_a_run_keeps_order(world, steps, k);
    assert(world.after(steps, k).can_take(steps[k]));
    lemma_step(world.after(steps, k), steps[k]);
}

/// An id has one life. Over a whole run, whatever is set in between, no id is 0; an object
/// enters at most once and departs at most once; and once it has departed, its id occurs
/// nowhere again: not among the reported objects, not as created or removed, and in no event
/// and no crossing.
pub proof fn law_an_id_has_one_life(world: WorldState, steps: Seq<Step>, k: int, m: int, id: u32)
    requires
        world.ok(),
        world.can_run(steps),
        0 <= k < m < steps.len(),
    ensures
        world.told(steps, k).mentions(id) ==> id >= 1,
        world.told(steps, k).created.no_duplicates(),
        world.told(steps, k).removed.no_duplicates(),
        world.told(steps, k).created.contains(id) ==> !world.told(steps, m).created.contains(id),
        world.told(steps, k).removed.contains(id) ==> !world.told(steps, m).mentions(id),
        world.told(steps, k).removed.contains(id) ==> !world.told(steps, m).removed.contains(id),
{
    reveal(is_step);
    lemma_step_of_run(world, steps, k);
    lemma_step_of_run(world, steps, m);
    lemma_stays(world, steps, k + 1, m, id);
    assert(world.told(steps, m).removed.contains(id) ==> world.told(steps, m).mentions(id));
}

/// The object with this id has entered in one of the first `n` steps.
pub open spec fn has_entered(world: WorldState, steps: Seq<Step>, n: int, id: u32) -> bool {
    exists|k: int| 0 <= k < n && (#[trigger] world.told(steps, k)).created.contains(id)
}

proof fn lemma_confirmed_have_entered(world: WorldState, steps: Seq<Step>, n: int, id: u32)
    requires
        world.ok(),
        world.tracks.len() == 0,
        world.can_run(steps),
        0 <= n <= steps.len(),
        holds_confirmed(world.after(steps, n).tracks, id),
    ensures
        has_entered(world, steps, n, id),
    decreases n,
{
    reveal(is_step);
    if n > 0 {
        lemma_step_of_run(world, steps, n - 1);
        if world.told(steps, n - 1).created.contains(id) {
            assert(has_entered(world, steps, n, id));
        } else {
            lemma_confirmed_have_entered(world, steps, n - 1, id);
            let k = choose|k: int|
                0 <= k < n - 1 && (#[trigger] world.told(steps, k)).created.contains(id);
            assert(world.told(steps, k).created.contains(id));
        }
    }
}

/// Whoever departs has entered: in a run that starts with no objects, an object that is
/// removed was created in an earlier step.
pub proof fn law_whoever_departs_has_entered(
    world: WorldState,
    steps: Seq<Step>,
    k: int,
    id: u32,
)
    requires
        world.ok(),
        world.tracks.len() == 0,
        world.can_run(steps),
        0 <= k < steps.len(),
        world.told(steps, k).removed.contains(id),
    ensures
        has_entered(world, steps, k, id),
{
    reveal(is_step);
    lemma_step_of_run(world, steps, k);
    lemma_confirmed_have_entered(world, steps, k, id);
}

/// Step `k` is the last of the first `n` to report the object with this id.
pub open spec fn last_shown(
    world: WorldState,
    steps: Seq<Step>,
    n: int,
    id: u32,
    k: int,
) -> bool {
    &&& 0 <= k < n
    &&& steps[k] is Tick
    &&& world.told(steps, k).shows(id)
    &&& forall|i: int| k < i < n ==> !(#[trigger] world.told(steps, i)).shows(id)
}

proof fn lemma_shown_are_seen(world: WorldState, step: Step, id: u32)
    requires
        world.ok(),
        world.can_take(step),
        world.stepped(step).1.shows(id),
    ensures
        step is Tick,
        held(world.stepped(step).0.tracks, id) is Some,
        held(world.stepped(step).0.tracks, id)->0.last_seen_ms == step->Tick_0.t_ms,
{
    match step {
        Step::Tick(tick) => {
            lemma_awaiting(world, tick);
            lemma_tick_is_sound(world.awaiting(tick), tick.sightings, tick.senses);
            reveal(is_sound);
        },
        _ => {
            assert(nothing().mentions(id));
            lemma_nothing(id);
        },
    }
}

proof fn lemma_unshown(world: WorldState, after: WorldState, update: UpdateState, id: u32)
    requires
        is_step(world, after, update),
        holds_confirmed(after.tracks, id),
        !update.shows(id),
    ensures
        holds_confirmed(world.tracks, id),
        held(after.tracks, id)->0.last_seen_ms == held(world.tracks, id)->0.last_seen_ms,
{
    reveal(is_step);
}

proof fn lemma_last_seen(world: WorldState, steps: Seq<Step>, n: int, id: u32) -> (k: int)
    requires
        world.ok(),
        world.tracks.len() == 0,
        world.can_run(steps),
        0 <= n <= steps.len(),
        holds_confirmed(world.after(steps, n).tracks, id),
    ensures
        last_shown(world, steps, n, id, k),
        held(world.after(steps, n).tracks, id)->0.last_seen_ms == steps[k]->Tick_0.t_ms,
    decreases n,
{
    if n <= 0 {
        0
    } else {
        lemma_step_of_run(world, steps, n - 1);
        let before = world.after(steps, n - 1);
        if world.told(steps, n - 1).shows(id) {
            law_a_run_keeps_order(world, steps, n - 1);
            assert(before.can_take(steps[n - 1]));
            lemma_shown_are_seen(before, steps[n - 1], id);
            n - 1
        } else {
            lemma_unshown(before, world.after(steps, n), world.told(steps, n - 1), id);
            let k = lemma_last_seen(world, steps, n - 1, id);
            assert forall|i: int| k < i < n implies !(#[trigger] world.told(steps, i)).shows(
                id,
            ) by {
                if i < n - 1 {
                    assert(last_shown(world, steps, n - 1, id, k));
                }
            }
            k
        }
    }
}

/// `since` gives the time out of sight, as the tick measures it.
pub open spec fn is_timed(tick: TickInput, since: spec_fn(Stamp, Stamp) -> Stamp) -> bool {
    forall|t: WorldTrack|
        (#[trigger] (tick.senses.lapse)(t)).since_seen == since(tick.t_ms, t.last_seen_ms)
}

/// Nobody is given up before the grace is over: an object that departs or is lost in a tick
/// is not reported in it, was reported before, and from the last tick that reported it until
/// now more time has passed than the grace.
pub proof fn law_the_grace_is_kept(
    world: WorldState,
    steps: Seq<Step>,
    n: int,
    id: u32,
    since: spec_fn(Stamp, Stamp) -> Stamp,
) -> (k: int)
    requires
        world.ok(),
        world.tracks.len() == 0,
        world.can_run(steps),
        0 <= n < steps.len(),
        steps[n] matches Step::Tick(tick) && is_timed(tick, since),
        world.told(steps, n).removed.contains(id) || lost(world.told(steps, n).events, id),
    ensures
        !world.told(steps, n).shows(id),
        last_shown(world, steps, n, id, k),
        since(steps[n]->Tick_0.t_ms, steps[k]->Tick_0.t_ms) > world.config.depart_grace_ms,
{
    law_a_run_keeps_order(world, steps, n);
    let before = world.after(steps, n);
    let tick = steps[n]->Tick_0;
    assert(before.can_take(steps[n]));
    lemma_awaiting(before, tick);
    let begun = before.awaiting(tick);
    lemma_tick_is_sound(begun, tick.sightings, tick.senses);
    reveal(is_sound);
    let update = world.told(steps, n);
    assert(update.removed.contains(id) || lost(update.events, id));
    let track = held(begun.tracks, id)->0;
    assert((tick.senses.lapse)(track).since_seen > world.config.depart_grace_ms);
    assert(held(begun.tracks, id) is Some);
    let k = lemma_last_seen(world, steps, n, id);
    k
}

/// Every sighting of every tick is below the score that is asked for at the time.
pub open spec fn all_are_faint(world: WorldState, steps: Seq<Step>) -> bool {
    forall|k: int, i: int|
        #![trigger steps[k], steps[k]->Tick_0.sightings[i]]
        0 <= k < steps.len() && steps[k] is Tick && 0 <= i < steps[k]->Tick_0.sightings.len()
            ==> steps[k]->Tick_0.sightings[i].score < world.after(steps, k).min_confidence
}

proof fn lemma_faint_sightings(
    world: WorldState,
    sightings: Seq<Sighting>,
    t_ms: Stamp,
    g: Senses,
    n: int,
)
    requires
        world.tracks.len() == 0,
        0 <= n <= sightings.len(),
        forall|i: int|
            0 <= i < sightings.len() ==> (#[trigger] sightings[i]).score < world.min_confidence,
    ensures
        ({
            let (after, log) = world.sighted_all(sightings, t_ms, g.rate, g.assess, n);
            &&& after == world
            &&& log.seen.len() == 0
            &&& log.segments.len() == 0
            &&& log.created.len() == 0
            &&& log.events.len() == 0
        }),
    decreases n,
{
    if n > 0 {
        lemma_faint_sightings(world, sightings, t_ms, g, n - 1);
    }
}

proof fn lemma_faint_step(world: WorldState, step: Step)
    requires
        world.tracks.len() == 0,
        step matches Step::Tick(tick) ==> forall|i: int|
            0 <= i < tick.sightings.len() ==> (#[trigger] tick.sightings[i]).score
                < world.min_confidence,
    ensures
        world.stepped(step).0.tracks.len() == 0,
        world.stepped(step).1 == nothing(),
{
    let (after, update) = world.stepped(step);
    match step {
        Step::Tick(tick) => {
            let begun = world.awaiting(tick);
            let keep = |t: WorldTrack| is_confirmed(t);
            reveal(Seq::filter);
            assert(world.tracks.filter(keep).len() == 0);
            let sleepers = world.tracks.filter(keep).map_values(|t: WorldTrack| asleep(t));
            lemma_evicted_are_members(sleepers, excess(sleepers, world.config.max_dormant));
            assert(begun.tracks.len() == 0) by {
                if begun.tracks.len() > 0 {
                    let left = evicted(sleepers, excess(sleepers, world.config.max_dormant));
                    assert(sleepers.contains(left[0]));
                }
            }
            lemma_faint_sightings(
                begun,
                tick.sightings,
                tick.t_ms,
                tick.senses,
                tick.sightings.len() as int,
            );
            assert(update =~= nothing());
        },
        Step::CameraMove => {
            reveal(Seq::filter);
            assert(world.tracks.filter(|t: WorldTrack| is_roaming(t)).len() == 0);
        },
        _ => {},
    }
}

/// Below the asked score nothing ever comes to light: in a run that starts with no objects
/// and whose sightings are all below the score that is asked for, no step reports anything,
/// however long the run and whatever is set in between.
pub proof fn law_faint_sightings_never_show(world: WorldState, steps: Seq<Step>, n: int)
    requires
        world.tracks.len() == 0,
        all_are_faint(world, steps),
        0 <= n <= steps.len(),
    ensures
        world.after(steps, n).tracks.len() == 0,
        forall|k: int| 0 <= k < n ==> #[trigger] world.told(steps, k) == nothing(),
    decreases n,
{
    if n > 0 {
        law_faint_sightings_never_show(world, steps, n - 1);
        let before = world.after(steps, n - 1);
        if steps[n - 1] is Tick {
            let tick = steps[n - 1]->Tick_0;
            assert forall|i: int| 0 <= i < tick.sightings.len() implies (
            #[trigger] tick.sightings[i]).score < before.min_confidence by {
                assert(steps[n - 1]->Tick_0.sightings[i].score < before.min_confidence);
            }
        }
        lemma_faint_step(before, steps[n - 1]);
        assert forall|k: int| 0 <= k < n implies #[trigger] world.told(steps, k) == nothing() by {
            if k == n - 1 {
                assert(world.told(steps, k) == before.stepped(steps[n - 1]).1);
            }
        }
    }
}

/// No two lines have the same name.
pub open spec fn names_differ(lines: Seq<PreparedLine>) -> bool {
    forall|i: int, j: int|
        0 <= i < j < lines.len() ==> (#[trigger] lines[i]).name@ != (#[trigger] lines[j]).name@
}

/// The number of the line with this name.
spec fn line_number(lines: Seq<PreparedLine>, name: Seq<char>) -> u32 {
    choose|k: u32| k < lines.len() && (#[trigger] lines[k as int]).name@ == name
}

/// What a crossing is remembered by.
spec fn key_of(lines: Seq<PreparedLine>, event: LineCrossingEvent) -> (u32, u32) {
    (event.track_id, line_number(lines, event.line_name@))
}

/// The crossing is remembered, or its object is gone.
spec fn is_settled(world: WorldState, key: (u32, u32)) -> bool {
    world.memory.contains(key) || is_gone(world, key.0)
}

proof fn lemma_step_crossings(world: WorldState, step: Step)
    requires
        world.ok(),
        world.can_take(step),
        names_differ(world.lines),
        !(step is Lines),
        !(step is CameraMove),
    ensures
        ({
            let (after, update) = world.stepped(step);
            let lines = world.lines;
            &&& after.lines == lines
            &&& forall|key: (u32, u32)| #[trigger] is_settled(world, key) ==> is_settled(after, key)
            &&& forall|i: int|
                0 <= i < update.crossings.len() ==> {
                    &&& !is_settled(world, key_of(lines, #[trigger] update.crossings[i]))
                    &&& is_settled(after, key_of(lines, update.crossings[i]))
                }
            &&& forall|i: int, j: int|
                0 <= i < j < update.crossings.len() ==> key_of(
                    lines,
                    #[trigger] update.crossings[i],
                ) != key_of(lines, #[trigger] update.crossings[j])
        }),
{
    reveal(is_step);
    lemma_step(world, step);
    let (after, update) = world.stepped(step);
    let lines = world.lines;
    match step {
        Step::Tick(tick) => {
            lemma_awaiting(world, tick);
            let begun = world.awaiting(tick);
            lemma_sighted_frame(
                begun,
                tick.sightings,
                tick.t_ms,
                tick.senses.rate,
                tick.senses.assess,
                tick.sightings.len() as int,
            );
            let keys = law_each_crossing_is_reported_once(begun, tick.sightings, tick.senses);
            assert forall|key: (u32, u32)| #[trigger] is_settled(world, key) implies is_settled(
                after,
                key,
            ) by {
                if is_gone(world, key.0) {
                    assert(is_gone(after, key.0));
                } else {
                    assert(begun.memory.contains(key));
                    if update.removed.contains(key.0) {
                        assert(is_gone(after, key.0));
                    }
                }
            }
            assert forall|i: int| 0 <= i < update.crossings.len() implies key_of(
                lines,
                #[trigger] update.crossings[i],
            ) == keys[i] && !is_settled(world, keys[i]) && is_settled(after, keys[i]) by {
                let event = update.crossings[i];
                assert(event.track_id == keys[i].0);
                assert(lines[keys[i].1 as int].name@ == event.line_name@);
                let k = line_number(lines, event.line_name@);
                assert(k < lines.len() && lines[k as int].name@ == event.line_name@);
                assert(k == keys[i].1);
                assert(!begun.memory.contains(keys[i]));
                assert(update.crosses(event.track_id));
                assert(update.mentions(event.track_id));
                if update.removed.contains(keys[i].0) {
                    assert(is_gone(after, keys[i].0));
                }
            }
            assert forall|i: int, j: int| 0 <= i < j < update.crossings.len() implies key_of(
                lines,
                #[trigger] update.crossings[i],
            ) != key_of(lines, #[trigger] update.crossings[j]) by {
                assert(keys[i] != keys[j]);
            }
        },
        _ => {},
    }
}

/// No step changes the lines or clears what is remembered of them.
pub open spec fn lines_are_left_alone(steps: Seq<Step>) -> bool {
    forall|k: int|
        0 <= k < steps.len() ==> !((#[trigger] steps[k]) is Lines) && !(steps[k] is CameraMove)
}

proof fn lemma_lines_stay(world: WorldState, steps: Seq<Step>, k: int, m: int, key: (u32, u32))
    requires
        world.ok(),
        world.can_run(steps),
        names_differ(world.lines),
        lines_are_left_alone(steps),
        0 <= k <= m <= steps.len(),
    ensures
        world.after(steps, m).lines == world.lines,
        is_settled(world.after(steps, k), key) ==> is_settled(world.after(steps, m), key),
    decreases m,
{
    if m > 0 {
        let before = world.after(steps, m - 1);
        law_a_run_keeps_order(world, steps, m - 1);
        assert(before.can_take(steps[m - 1]));
        lemma_lines_stay(
            world,
            steps,
            if k < m {
                k
            } else {
                m - 1
            },
            m - 1,
            key,
        );
        lemma_step_crossings(before, steps[m - 1]);
        assert(is_settled(before, key) ==> is_settled(world.after(steps, m), key));
    }
}

/// A line fires once for an object, over a whole run: as long as neither the lines are set
/// anew nor the camera is moved, no two crossings, of the same tick or of different ones,
/// are of the same object and of lines with the same name.
pub proof fn law_a_line_fires_once_for_an_object(
    world: WorldState,
    steps: Seq<Step>,
    k: int,
    i: int,
    m: int,
    j: int,
)
    requires
        world.ok(),
        world.can_run(steps),
        names_differ(world.lines),
        lines_are_left_alone(steps),
        0 <= k <= m < steps.len(),
        0 <= i < world.told(steps, k).crossings.len(),
        0 <= j < world.told(steps, m).crossings.len(),
        k < m || i < j,
    ensures
        ({
            let a = world.told(steps, k).crossings[i];
            let b = world.told(steps, m).crossings[j];
            a.track_id != b.track_id || a.line_name@ != b.line_name@
        }),
{
    let lines = world.lines;
    let a = world.told(steps, k).crossings[i];
    let b = world.told(steps, m).crossings[j];
    let key = key_of(lines, a);
    lemma_lines_stay(world, steps, k, k, key);
    lemma_lines_stay(world, steps, m, m, key);
    law_a_run_keeps_order(world, steps, k);
    law_a_run_keeps_order(world, steps, m);
    assert(world.after(steps, k).can_take(steps[k]));
    assert(world.after(steps, m).can_take(steps[m]));
    lemma_step_crossings(world.after(steps, k), steps[k]);
    lemma_step_crossings(world.after(steps, m), steps[m]);
    if k < m {
        assert(is_settled(world.after(steps, k + 1), key_of(lines, a)));
        lemma_lines_stay(world, steps, k + 1, m, key);
        assert(!is_settled(world.after(steps, m), key_of(lines, b)));
    } else {
        assert(key_of(lines, a) != key_of(lines, b));
    }
}

} // verus!
