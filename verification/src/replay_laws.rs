//! What holds of every session that is played back.
use vstd::prelude::*;
use crate::reading::{Level, Stamp};
use crate::replay::{EngineTick, ReplayState, Sight};
use crate::semantic::SemanticEvent;
use crate::types::Rect;

verus! {

/// One tick of a session: its time, how many detections went in, how long it took, and what
/// came out.
pub struct PlayedTick {
    pub t_ms: Stamp,
    pub detections: u64,
    pub micros: u64,
    pub tick: EngineTick,
    pub age: spec_fn(Stamp) -> Stamp,
    pub rate: spec_fn(Rect, Rect) -> Level,
}

/// The two ticks differ at most in how long they took.
pub open spec fn same_but_for_time(a: PlayedTick, b: PlayedTick) -> bool {
    a == (PlayedTick { micros: a.micros, ..b })
}

impl ReplayState {
    /// The replay after the first `n` ticks of a session.
    pub open spec fn played(self, ticks: Seq<PlayedTick>, n: int) -> ReplayState
        decreases n,
    {
        if n <= 0 {
            self
        } else {
            let p = ticks[n - 1];
            self.played(ticks, n - 1).ticked(
                p.t_ms,
                p.detections,
                p.micros,
                p.tick,
                p.age,
                p.rate,
            )
        }
    }

    /// The replay with these durations.
    pub open spec fn lasting(self, latencies_us: Seq<u64>) -> ReplayState {
        ReplayState { latencies_us, ..self }
    }
}

proof fn lemma_events_take_no_time(
    state: ReplayState,
    l: Seq<u64>,
    t_ms: Stamp,
    events: Seq<SemanticEvent>,
    n: int,
)
    ensures
        state.lasting(l).with_events(t_ms, events, n) == state.with_events(
            t_ms,
            events,
            n,
        ).lasting(l),
        state.with_events(t_ms, events, n).latencies_us == state.latencies_us,
    decreases n,
{
    if n > 0 {
        lemma_events_take_no_time(state, l, t_ms, events, n - 1);
    }
}

proof fn lemma_sights_take_no_time(
    state: ReplayState,
    l: Seq<u64>,
    t_ms: Stamp,
    sights: Seq<Sight>,
    n: int,
)
    ensures
        state.lasting(l).with_sights(t_ms, sights, n) == state.with_sights(
            t_ms,
            sights,
            n,
        ).lasting(l),
        state.with_sights(t_ms, sights, n).latencies_us == state.latencies_us,
    decreases n,
{
    if n > 0 {
        lemma_sights_take_no_time(state, l, t_ms, sights, n - 1);
    }
}

proof fn lemma_creations_take_no_time(
    state: ReplayState,
    l: Seq<u64>,
    t_ms: Stamp,
    ids: Seq<u32>,
    age: spec_fn(Stamp) -> Stamp,
    rate: spec_fn(Rect, Rect) -> Level,
    n: int,
)
    ensures
        state.lasting(l).with_all_created(t_ms, ids, age, rate, n) == state.with_all_created(
            t_ms,
            ids,
            age,
            rate,
            n,
        ).lasting(l),
        state.with_all_created(t_ms, ids, age, rate, n).latencies_us == state.latencies_us,
    decreases n,
{
    if n > 0 {
        lemma_creations_take_no_time(state, l, t_ms, ids, age, rate, n - 1);
    }
}

proof fn lemma_removals_take_no_time(
    state: ReplayState,
    l: Seq<u64>,
    t_ms: Stamp,
    ids: Seq<u32>,
    n: int,
)
    ensures
        state.lasting(l).with_all_removed(t_ms, ids, n) == state.with_all_removed(
            t_ms,
            ids,
            n,
        ).lasting(l),
        state.with_all_removed(t_ms, ids, n).latencies_us == state.latencies_us,
    decreases n,
{
    if n > 0 {
        lemma_removals_take_no_time(state, l, t_ms, ids, n - 1);
    }
}

proof fn lemma_a_tick_takes_its_time(state: ReplayState, l: Seq<u64>, a: PlayedTick, b: PlayedTick)
    requires
        same_but_for_time(a, b),
    ensures
        state.lasting(l).ticked(a.t_ms, a.detections, a.micros, a.tick, a.age, a.rate)
            == state.ticked(b.t_ms, b.detections, b.micros, b.tick, b.age, b.rate).lasting(
            l.push(a.micros),
        ),
        state.ticked(b.t_ms, b.detections, b.micros, b.tick, b.age, b.rate).latencies_us
            == state.latencies_us.push(b.micros),
{
    let l2 = l.push(a.micros);
    let s0 = ReplayState {
        ticks: (state.ticks + 1) as u64,
        detections_in: (state.detections_in + b.detections) as u64,
        latencies_us: state.latencies_us.push(b.micros),
        ..state
    };
    let extra = b.tick.extra_events@;
    lemma_events_take_no_time(s0, l2, b.t_ms, extra, extra.len() as int);
    let s1 = s0.with_events(b.t_ms, extra, extra.len() as int);
    let tracks = b.tick.tracks@;
    lemma_sights_take_no_time(s1, l2, b.t_ms, tracks, tracks.len() as int);
    let s2 = s1.with_sights(b.t_ms, tracks, tracks.len() as int);
    let created = b.tick.created@;
    lemma_creations_take_no_time(s2, l2, b.t_ms, created, b.age, b.rate, created.len() as int);
    let s3 = s2.with_all_created(b.t_ms, created, b.age, b.rate, created.len() as int);
    let removed = b.tick.removed@;
    lemma_removals_take_no_time(s3, l2, b.t_ms, removed, removed.len() as int);
}

/// Playing a session again gives the same: two replays of the same ticks end with the same
/// counts, the same events in the same order and the same known objects. Only the durations
/// are each replay's own.
pub proof fn law_playing_again_gives_the_same(
    state: ReplayState,
    a: Seq<PlayedTick>,
    b: Seq<PlayedTick>,
    n: int,
)
    requires
        0 <= n <= a.len(),
        a.len() == b.len(),
        forall|k: int| 0 <= k < a.len() ==> same_but_for_time(#[trigger] a[k], b[k]),
    ensures
        state.played(a, n) == state.played(b, n).lasting(state.played(a, n).latencies_us),
        state.played(a, n).latencies_us == state.latencies_us + Seq::new(
            n as nat,
            |k: int| a[k].micros,
        ),
    decreases n,
{
    if n > 0 {
        law_playing_again_gives_the_same(state, a, b, n - 1);
        let l = state.played(a, n - 1).latencies_us;
        assert(same_but_for_time(a[n - 1], b[n - 1]));
        lemma_a_tick_takes_its_time(state.played(b, n - 1), l, a[n - 1], b[n - 1]);
        assert(state.played(a, n).latencies_us =~= state.latencies_us + Seq::new(
            n as nat,
            |k: int| a[k].micros,
        ));
    } else {
        assert(state.latencies_us =~= state.latencies_us + Seq::new(0, |k: int| a[k].micros));
    }
}

} // verus!
