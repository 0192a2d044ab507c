//! The types callers see, and what they stand for inside.
use vstd::prelude::*;
use crate::labels::copy_labels;
use crate::line_crossing::{
    CrossingDirection, DetectionLineInput, LineCrossingEvent as Crossing, LineDirectionFilter,
};
use crate::reading::{Level, Stamp};
use crate::semantic::{SemanticEvent, TrackSnapshot, TrackState};
use crate::types::UiPoint;
use crate::world::WorldUpdate;
use crate::zone_filter::{
    ZoneFilterMode as InnerZoneFilterMode, ZoneInput, ZoneMatchType as InnerZoneMatchType,
};

verus! {

/// Whether a zone keeps or drops what is in it.
#[derive(Debug, Clone, Copy, PartialEq, Eq, Structural)]
pub enum ZoneFilterMode {
    Include,
    Exclude,
}

/// How a box has to lie to a zone.
#[derive(Debug, Clone, Copy, PartialEq, Eq, Structural)]
pub enum ZoneMatchType {
    Intersect,
    Contain,
}

/// A way to cross a line.
#[derive(Debug, Clone, Copy, PartialEq, Eq, Structural)]
pub enum LineDirection {
    Both,
    AToB,
    BToA,
}

/// A zone as a caller gives it; its points are lists of coordinates.
#[derive(Debug)]
pub struct DetectionZone {
    pub labels: Vec<String>,
    pub filter: ZoneFilterMode,
    pub match_type: ZoneMatchType,
    pub is_privacy_mask: bool,
    pub points: Vec<Vec<Stamp>>,
}

/// A line as a caller gives it; its points are lists of coordinates.
#[derive(Debug)]
pub struct DetectionLine {
    pub name: String,
    pub direction: LineDirection,
    pub labels: Vec<String>,
    pub points: Vec<Vec<Stamp>>,
}

/// A crossing as a caller gets it.
#[derive(Debug)]
pub struct LineCrossingEvent {
    pub line_name: String,
    pub direction: LineDirection,
    pub track_id: u32,
    pub label: String,
    pub confidence: Level,
    pub timestamp_ms: Stamp,
    pub prev_x: Level,
    pub prev_y: Level,
    pub curr_x: Level,
    pub curr_y: Level,
}

/// An object as a caller gets it.
#[derive(Debug)]
pub struct WorldObject {
    pub track_id: u32,
    pub label: String,
    pub x: Level,
    pub y: Level,
    pub width: Level,
    pub height: Level,
    pub confidence: Level,
    pub speed: Level,
    pub velocity_x: Level,
    pub velocity_y: Level,
    /// One of: tentative, active, stationary, lost, departed.
    pub state: String,
}

/// An event as a caller gets it.
#[derive(Debug)]
pub struct WorldEvent {
    /// One of: objectEntered, objectLost, objectRecovered, objectSettled, objectWoke,
    /// objectDeparted, bestShotUpdated.
    pub event_type: String,
    pub object: WorldObject,
}

/// What a tick brings to light, as a caller gets it.
#[derive(Debug)]
pub struct WorldIngestResult {
    pub tracks: Vec<WorldObject>,
    pub created: Vec<u32>,
    pub removed: Vec<u32>,
    pub events: Vec<WorldEvent>,
    pub crossings: Vec<LineCrossingEvent>,
}

/// The filter mode a caller's mode stands for.
pub fn zone_filter_to_internal(m: ZoneFilterMode) -> (mode: InnerZoneFilterMode)
    ensures
        mode == inner_filter(m),
{
    match m {
        ZoneFilterMode::Include => InnerZoneFilterMode::Include,
        ZoneFilterMode::Exclude => InnerZoneFilterMode::Exclude,
    }
}

/// The filter mode a caller's mode stands for.
pub open spec fn inner_filter(m: ZoneFilterMode) -> InnerZoneFilterMode {
    match m {
        ZoneFilterMode::Include => InnerZoneFilterMode::Include,
        ZoneFilterMode::Exclude => InnerZoneFilterMode::Exclude,
    }
}

/// The match type a caller's type stands for.
pub fn zone_match_to_internal(m: ZoneMatchType) -> (kind: InnerZoneMatchType)
    ensures
        kind == inner_match(m),
{
    match m {
        ZoneMatchType::Intersect => InnerZoneMatchType::Intersect,
        ZoneMatchType::Contain => InnerZoneMatchType::Contain,
    }
}

/// The match type a caller's type stands for.
pub open spec fn inner_match(m: ZoneMatchType) -> InnerZoneMatchType {
    match m {
        ZoneMatchType::Intersect => InnerZoneMatchType::Intersect,
        ZoneMatchType::Contain => InnerZoneMatchType::Contain,
    }
}

/// The crossings a caller's direction lets through.
pub fn line_direction_to_internal(d: LineDirection) -> (filter: LineDirectionFilter)
    ensures
        filter == inner_direction(d),
{
    match d {
        LineDirection::Both => LineDirectionFilter::Both,
        LineDirection::AToB => LineDirectionFilter::AToB,
        LineDirection::BToA => LineDirectionFilter::BToA,
    }
}

/// The crossings a caller's direction lets through.
pub open spec fn inner_direction(d: LineDirection) -> LineDirectionFilter {
    match d {
        LineDirection::Both => LineDirectionFilter::Both,
        LineDirection::AToB => LineDirectionFilter::AToB,
        LineDirection::BToA => LineDirectionFilter::BToA,
    }
}

/// The direction of a crossing as a caller gets it.
pub fn line_direction_from_internal(d: CrossingDirection) -> (direction: LineDirection)
    ensures
        direction == outer_direction(d),
{
    match d {
        CrossingDirection::AToB => LineDirection::AToB,
        CrossingDirection::BToA => LineDirection::BToA,
    }
}

/// The direction of a crossing as a caller gets it.
pub open spec fn outer_direction(d: CrossingDirection) -> LineDirection {
    match d {
        CrossingDirection::AToB => LineDirection::AToB,
        CrossingDirection::BToA => LineDirection::BToA,
    }
}

/// A line that lets only one direction through lets exactly the crossings through that are
/// reported with that direction.
pub proof fn law_a_direction_lets_itself_through(line: LineDirection, crossing: CrossingDirection)
    ensures
        inner_direction(line).allows(crossing) <==> line == LineDirection::Both || line
            == outer_direction(crossing),
{
}

/// All points have two coordinates.
pub open spec fn are_pairs(points: Seq<Vec<Stamp>>) -> bool {
    forall|i: int| 0 <= i < points.len() ==> (#[trigger] points[i])@.len() == 2
}

/// The point with these two coordinates.
pub open spec fn drawn_point(pair: Seq<Stamp>) -> UiPoint {
    UiPoint { x: pair[0], y: pair[1] }
}

/// The zone is the one the caller gave.
pub open spec fn is_drawn_zone(drawn: ZoneInput, zone: DetectionZone) -> bool {
    &&& drawn.labels@ == zone.labels@
    &&& drawn.filter == inner_filter(zone.filter)
    &&& drawn.match_type == inner_match(zone.match_type)
    &&& drawn.is_privacy_mask == zone.is_privacy_mask
    &&& drawn.points@.len() == zone.points@.len()
    &&& forall|i: int|
        0 <= i < drawn.points@.len() ==> #[trigger] drawn.points@[i] == drawn_point(
            zone.points@[i]@,
        )
}

/// The zone a caller gave, if all its points have two coordinates.
pub fn detection_zone_to_internal(zone: &DetectionZone) -> (drawn: Option<ZoneInput>)
    ensures
        drawn is Some <==> are_pairs(zone.points@),
        drawn matches Some(z) ==> is_drawn_zone(z, *zone),
{
    let mut points: Vec<UiPoint> = Vec::new();
    let mut i: usize = 0;
    while i < zone.points.len()
        invariant
            i <= zone.points@.len(),
            points@.len() == i,
            forall|k: int|
                0 <= k < i ==> (#[trigger] zone.points@[k])@.len() == 2 && points@[k]
                    == drawn_point(zone.points@[k]@),
        decreases zone.points@.len() - i,
    {
        let pair = &zone.points[i];
        if pair.len() != 2 {
            assert(zone.points@[i as int]@.len() != 2);
            return None;
        }
        points.push(UiPoint { x: pair[0], y: pair[1] });
        i += 1;
    }
    Some(
        ZoneInput {
            labels: copy_labels(&zone.labels),
            filter: zone_filter_to_internal(zone.filter),
            match_type: zone_match_to_internal(zone.match_type),
            is_privacy_mask: zone.is_privacy_mask,
            points,
        },
    )
}

/// The line has two points with two coordinates each.
pub open spec fn is_line(line: DetectionLine) -> bool {
    &&& line.points@.len() == 2
    &&& line.points@[0]@.len() == 2
    &&& line.points@[1]@.len() == 2
}

/// The line is the one the caller gave.
pub open spec fn is_drawn_line(drawn: DetectionLineInput, line: DetectionLine) -> bool {
    &&& drawn.name@ == line.name@
    &&& drawn.direction == inner_direction(line.direction)
    &&& drawn.labels@ == line.labels@
    &&& drawn.points[0] == drawn_point(line.points@[0]@)
    &&& drawn.points[1] == drawn_point(line.points@[1]@)
}

/// The line a caller gave, if it has two points with two coordinates each.
pub fn detection_line_to_internal(line: &DetectionLine) -> (drawn: Option<DetectionLineInput>)
    ensures
        drawn is Some <==> is_line(*line),
        drawn matches Some(l) ==> is_drawn_line(l, *line),
{
    if line.points.len() != 2 {
        return None;
    }
    let p1 = &line.points[0];
    let p2 = &line.points[1];
    if p1.len() != 2 || p2.len() != 2 {
        return None;
    }
    Some(
        DetectionLineInput {
            name: line.name.clone(),
            direction: line_direction_to_internal(line.direction),
            labels: copy_labels(&line.labels),
            points: [UiPoint { x: p1[0], y: p1[1] }, UiPoint { x: p2[0], y: p2[1] }],
        },
    )
}

/// The numbers of the zones, up to `n`, whose points all have two coordinates.
pub open spec fn drawn_zones(zones: Seq<DetectionZone>, n: int) -> Seq<int>
    decreases n,
{
    if n <= 0 {
        Seq::empty()
    } else if are_pairs(zones[n - 1].points@) {
        drawn_zones(zones, n - 1).push(n - 1)
    } else {
        drawn_zones(zones, n - 1)
    }
}

/// The zones a caller gave, without those that are not drawn properly.
pub fn zones_to_internal(zones: &Vec<DetectionZone>) -> (drawn: Vec<ZoneInput>)
    ensures
        drawn@.len() == drawn_zones(zones@, zones@.len() as int).len(),
        forall|k: int|
            0 <= k < drawn@.len() ==> is_drawn_zone(
                #[trigger] drawn@[k],
                zones@[drawn_zones(zones@, zones@.len() as int)[k]],
            ),
{
    let mut drawn: Vec<ZoneInput> = Vec::new();
    let mut i: usize = 0;
    while i < zones.len()
        invariant
            i <= zones@.len(),
            drawn@.len() == drawn_zones(zones@, i as int).len(),
            forall|k: int|
                0 <= k < drawn@.len() ==> is_drawn_zone(
                    #[trigger] drawn@[k],
                    zones@[drawn_zones(zones@, i as int)[k]],
                ),
        decreases zones@.len() - i,
    {
        if let Some(zone) = detection_zone_to_internal(&zones[i]) {
            drawn.push(zone);
        }
        i += 1;
    }
    drawn
}

/// The numbers of the lines, up to `n`, that have two points with two coordinates each.
pub open spec fn drawn_lines(lines: Seq<DetectionLine>, n: int) -> Seq<int>
    decreases n,
{
    if n <= 0 {
        Seq::empty()
    } else if is_line(lines[n - 1]) {
        drawn_lines(lines, n - 1).push(n - 1)
    } else {
        drawn_lines(lines, n - 1)
    }
}

/// The lines a caller gave, without those that are not drawn properly.
pub fn lines_to_internal(lines: &Vec<DetectionLine>) -> (drawn: Vec<DetectionLineInput>)
    ensures
        drawn@.len() == drawn_lines(lines@, lines@.len() as int).len(),
        forall|k: int|
            0 <= k < drawn@.len() ==> is_drawn_line(
                #[trigger] drawn@[k],
                lines@[drawn_lines(lines@, lines@.len() as int)[k]],
            ),
{
    let mut drawn: Vec<DetectionLineInput> = Vec::new();
    let mut i: usize = 0;
    while i < lines.len()
        invariant
            i <= lines@.len(),
            drawn@.len() == drawn_lines(lines@, i as int).len(),
            forall|k: int|
                0 <= k < drawn@.len() ==> is_drawn_line(
                    #[trigger] drawn@[k],
                    lines@[drawn_lines(lines@, i as int)[k]],
                ),
        decreases lines@.len() - i,
    {
        if let Some(line) = detection_line_to_internal(&lines[i]) {
            drawn.push(line);
        }
        i += 1;
    }
    drawn
}

/// The event is this crossing.
pub open spec fn is_crossing(event: LineCrossingEvent, c: Crossing) -> bool {
    &&& event.line_name@ == c.line_name@
    &&& event.direction == outer_direction(c.direction)
    &&& event.track_id == c.track_id
    &&& event.label@ == c.label@
    &&& event.confidence == c.confidence
    &&& event.timestamp_ms == c.timestamp_ms
    &&& event.prev_x == c.prev_pos.x
    &&& event.prev_y == c.prev_pos.y
    &&& event.curr_x == c.curr_pos.x
    &&& event.curr_y == c.curr_pos.y
}

/// A crossing as a caller gets it.
pub fn crossing_from_internal(c: &Crossing) -> (event: LineCrossingEvent)
    ensures
        is_crossing(event, *c),
{
    LineCrossingEvent {
        line_name: c.line_name.clone(),
        direction: line_direction_from_internal(c.direction),
        track_id: c.track_id,
        label: c.label.clone(),
        confidence: c.confidence,
        timestamp_ms: c.timestamp_ms,
        prev_x: c.prev_pos.x,
        prev_y: c.prev_pos.y,
        curr_x: c.curr_pos.x,
        curr_y: c.curr_pos.y,
    }
}

/// The name of a state.
pub open spec fn state_text(state: TrackState) -> Seq<char> {
    match state {
        TrackState::Tentative => "tentative"@,
        TrackState::Active => "active"@,
        TrackState::Stationary => "stationary"@,
        TrackState::Lost => "lost"@,
        TrackState::Departed => "departed"@,
    }
}

/// The object is the one in the snapshot.
pub open spec fn is_object(object: WorldObject, s: TrackSnapshot) -> bool {
    &&& object.track_id == s.track_id
    &&& object.label@ == s.label@
    &&& object.x == s.x
    &&& object.y == s.y
    &&& object.width == s.width
    &&& object.height == s.height
    &&& object.confidence == s.confidence
    &&& object.speed == s.speed
    &&& object.velocity_x == s.velocity_x
    &&& object.velocity_y == s.velocity_y
    &&& object.state@ == state_text(s.state)
}

/// An object as a caller gets it.
pub fn world_object(s: &TrackSnapshot) -> (object: WorldObject)
    ensures
        is_object(object, *s),
{
    let state = match s.state {
        TrackState::Tentative => "tentative",
        TrackState::Active => "active",
        TrackState::Stationary => "stationary",
        TrackState::Lost => "lost",
        TrackState::Departed => "departed",
    };
    WorldObject {
        track_id: s.track_id,
        label: s.label.clone(),
        x: s.x,
        y: s.y,
        width: s.width,
        height: s.height,
        confidence: s.confidence,
        speed: s.speed,
        velocity_x: s.velocity_x,
        velocity_y: s.velocity_y,
        state: state.to_owned(),
    }
}

/// The event is this one.
pub open spec fn is_event(event: WorldEvent, e: SemanticEvent) -> bool {
    &&& event.event_type@ == e.kind_text()
    &&& is_object(event.object, e.subject())
}

/// An event as a caller gets it.
pub fn world_event(e: &SemanticEvent) -> (event: WorldEvent)
    ensures
        is_event(event, *e),
{
    let snapshot = match e {
        SemanticEvent::ObjectEntered(s) => s,
        SemanticEvent::ObjectLost(s) => s,
        SemanticEvent::ObjectRecovered(s) => s,
        SemanticEvent::ObjectSettled(s) => s,
        SemanticEvent::ObjectWoke(s) => s,
        SemanticEvent::ObjectDeparted(s) => s,
        SemanticEvent::BestShotUpdated(s) => s,
    };
    WorldEvent { event_type: e.kind().to_owned(), object: world_object(snapshot) }
}

/// What a tick brings to light, as a caller gets it.
pub fn ingest_result(update: WorldUpdate) -> (result: WorldIngestResult)
    ensures
        result.created@ == update.created@,
        result.removed@ == update.removed@,
        result.tracks@.len() == update.tracks@.len(),
        forall|i: int|
            0 <= i < result.tracks@.len() ==> is_object(
                #[trigger] result.tracks@[i],
                update.tracks@[i],
            ),
        result.events@.len() == update.events@.len(),
        forall|i: int|
            0 <= i < result.events@.len() ==> is_event(
                #[trigger] result.events@[i],
                update.events@[i],
            ),
        result.crossings@.len() == update.crossings@.len(),
        forall|i: int|
            0 <= i < result.crossings@.len() ==> is_crossing(
                #[trigger] result.crossings@[i],
                update.crossings@[i],
            ),
{
    let mut tracks: Vec<WorldObject> = Vec::new();
    let mut i: usize = 0;
    while i < update.tracks.len()
        invariant
            i <= update.tracks@.len(),
            tracks@.len() == i,
            forall|k: int|
                0 <= k < i ==> is_object(#[trigger] tracks@[k], update.tracks@[k]),
        decreases update.tracks@.len() - i,
    {
        tracks.push(world_object(&update.tracks[i]));
        i += 1;
    }
    let mut events: Vec<WorldEvent> = Vec::new();
    let mut i: usize = 0;
    while i < update.events.len()
        invariant
            i <= update.events@.len(),
            events@.len() == i,
            forall|k: int|
                0 <= k < i ==> is_event(#[trigger] events@[k], update.events@[k]),
        decreases update.events@.len() - i,
    {
        events.push(world_event(&update.events[i]));
        i += 1;
    }
    let mut crossings: Vec<LineCrossingEvent> = Vec::new();
    let mut i: usize = 0;
    while i < update.crossings.len()
        invariant
            i <= update.crossings@.len(),
            crossings@.len() == i,
            forall|k: int|
                0 <= k < i ==> is_crossing(#[trigger] crossings@[k], update.crossings@[k]),
        decreases update.crossings@.len() - i,
    {
        crossings.push(crossing_from_internal(&update.crossings[i]));
        i += 1;
    }
    WorldIngestResult {
        tracks,
        created: update.created,
        removed: update.removed,
        events,
        crossings,
    }
}

/// The words of a caller mean what they say: including and excluding, touching and lying in,
/// and the two directions and both.
pub proof fn law_words_mean_what_they_say()
    ensures
        inner_filter(ZoneFilterMode::Include) == InnerZoneFilterMode::Include,
        inner_filter(ZoneFilterMode::Exclude) == InnerZoneFilterMode::Exclude,
        inner_match(ZoneMatchType::Intersect) == InnerZoneMatchType::Intersect,
        inner_match(ZoneMatchType::Contain) == InnerZoneMatchType::Contain,
        inner_direction(LineDirection::Both) == LineDirectionFilter::Both,
        inner_direction(LineDirection::AToB) == LineDirectionFilter::AToB,
        inner_direction(LineDirection::BToA) == LineDirectionFilter::BToA,
        outer_direction(CrossingDirection::AToB) == LineDirection::AToB,
        outer_direction(CrossingDirection::BToA) == LineDirection::BToA,
        state_text(TrackState::Tentative) == "tentative"@,
        state_text(TrackState::Active) == "active"@,
        state_text(TrackState::Stationary) == "stationary"@,
        state_text(TrackState::Lost) == "lost"@,
        state_text(TrackState::Departed) == "departed"@,
{
}

/// A zone is taken over with its labels, its filter, its way of lying in it, whether it is a
/// mask, and its points, one for one.
pub proof fn law_a_zone_is_taken_over(drawn: ZoneInput, zone: DetectionZone, i: int)
    requires
        is_drawn_zone(drawn, zone),
    ensures
        drawn.labels@ == zone.labels@,
        drawn.is_privacy_mask == zone.is_privacy_mask,
        drawn.filter == InnerZoneFilterMode::Include <==> zone.filter == ZoneFilterMode::Include,
        drawn.match_type == InnerZoneMatchType::Contain <==> zone.match_type
            == ZoneMatchType::Contain,
        drawn.points@.len() == zone.points@.len(),
        0 <= i < zone.points@.len() ==> drawn.points@[i].x == zone.points@[i]@[0]
            && drawn.points@[i].y == zone.points@[i]@[1],
{
}

/// A line is taken over with its name, its labels, its direction and its two points.
pub proof fn law_a_line_is_taken_over(drawn: DetectionLineInput, line: DetectionLine)
    requires
        is_drawn_line(drawn, line),
    ensures
        drawn.name@ == line.name@,
        drawn.labels@ == line.labels@,
        drawn.direction == LineDirectionFilter::Both <==> line.direction == LineDirection::Both,
        drawn.direction == LineDirectionFilter::AToB <==> line.direction == LineDirection::AToB,
        drawn.points[0].x == line.points@[0]@[0] && drawn.points[0].y == line.points@[0]@[1],
        drawn.points[1].x == line.points@[1]@[0] && drawn.points[1].y == line.points@[1]@[1],
{
}

/// Of the zones and the lines of a caller exactly those are taken over that are drawn
/// properly, in their order: zones whose points all have two coordinates, and lines with two
/// points of two coordinates.
pub proof fn law_only_proper_drawings_are_taken_over(
    zones: Seq<DetectionZone>,
    lines: Seq<DetectionLine>,
    n: int,
    m: int,
)
    requires
        0 <= n <= zones.len(),
        0 <= m <= lines.len(),
    ensures
        ({
            let numbers = drawn_zones(zones, n);
            &&& forall|k: int, l: int|
                0 <= k < l < numbers.len() ==> #[trigger] numbers[k] < #[trigger] numbers[l]
            &&& forall|k: int| 0 <= k < numbers.len() ==> 0 <= #[trigger] numbers[k] < n
            &&& forall|i: int|
                0 <= i < n ==> (numbers.contains(i) <==> forall|j: int|
                    0 <= j < (#[trigger] zones[i]).points@.len() ==> (
                    #[trigger] zones[i].points@[j])@.len() == 2)
        }),
        ({
            let numbers = drawn_lines(lines, m);
            &&& forall|k: int, l: int|
                0 <= k < l < numbers.len() ==> #[trigger] numbers[k] < #[trigger] numbers[l]
            &&& forall|k: int| 0 <= k < numbers.len() ==> 0 <= #[trigger] numbers[k] < m
            &&& forall|i: int|
                0 <= i < m ==> (numbers.contains(i) <==> (#[trigger] lines[i]).points@.len() == 2
                    && lines[i].points@[0]@.len() == 2 && lines[i].points@[1]@.len() == 2)
        }),
{
    lemma_drawn_zones(zones, n);
    lemma_drawn_lines(lines, m);
}

proof fn lemma_drawn_zones(zones: Seq<DetectionZone>, n: int)
    requires
        0 <= n <= zones.len(),
    ensures
        ({
            let numbers = drawn_zones(zones, n);
            &&& forall|k: int, l: int|
                0 <= k < l < numbers.len() ==> #[trigger] numbers[k] < #[trigger] numbers[l]
            &&& forall|k: int| 0 <= k < numbers.len() ==> 0 <= #[trigger] numbers[k] < n
            &&& forall|i: int|
                0 <= i < n ==> (numbers.contains(i) <==> are_pairs((#[trigger] zones[i]).points@))
        }),
    decreases n,
{
    if n > 0 {
        lemma_drawn_zones(zones, n - 1);
        let before = drawn_zones(zones, n - 1);
        let numbers = drawn_zones(zones, n);
        assert forall|i: int| 0 <= i < n implies (numbers.contains(i) <==> are_pairs(
            (#[trigger] zones[i]).points@,
        )) by {
            if before.contains(i) {
                let k = choose|k: int| 0 <= k < before.len() && before[k] == i;
                assert(numbers[k] == i);
            }
            if numbers.contains(i) {
                let k = choose|k: int| 0 <= k < numbers.len() && numbers[k] == i;
                if k < before.len() {
                    assert(before[k] == i);
                }
            }
            if i == n - 1 && are_pairs(zones[i].points@) {
                assert(numbers[before.len() as int] == i);
            }
        }
    }
}

proof fn lemma_drawn_lines(lines: Seq<DetectionLine>, n: int)
    requires
        0 <= n <= lines.len(),
    ensures
        ({
            let numbers = drawn_lines(lines, n);
            &&& forall|k: int, l: int|
                0 <= k < l < numbers.len() ==> #[trigger] numbers[k] < #[trigger] numbers[l]
            &&& forall|k: int| 0 <= k < numbers.len() ==> 0 <= #[trigger] numbers[k] < n
            &&& forall|i: int|
                0 <= i < n ==> (numbers.contains(i) <==> is_line(#[trigger] lines[i]))
        }),
    decreases n,
{
    if n > 0 {
        lemma_drawn_lines(lines, n - 1);
        let before = drawn_lines(lines, n - 1);
        let numbers = drawn_lines(lines, n);
        assert forall|i: int| 0 <= i < n implies (numbers.contains(i) <==> is_line(
            #[trigger] lines[i],
        )) by {
            if before.contains(i) {
                let k = choose|k: int| 0 <= k < before.len() && before[k] == i;
                assert(numbers[k] == i);
            }
            if numbers.contains(i) {
                let k = choose|k: int| 0 <= k < numbers.len() && numbers[k] == i;
                if k < before.len() {
                    assert(before[k] == i);
                }
            }
            if i == n - 1 && is_line(lines[i]) {
                assert(numbers[before.len() as int] == i);
            }
        }
    }
}

/// A caller gets an object as it is, under the name of its state.
pub proof fn law_a_caller_gets_the_object(object: WorldObject, s: TrackSnapshot)
    requires
        is_object(object, s),
    ensures
        object.track_id == s.track_id && object.label@ == s.label@,
        object.x == s.x && object.y == s.y,
        object.width == s.width && object.height == s.height,
        object.confidence == s.confidence,
        object.speed == s.speed,
        object.velocity_x == s.velocity_x && object.velocity_y == s.velocity_y,
        s.state == TrackState::Active ==> object.state@ == "active"@,
        s.state == TrackState::Stationary ==> object.state@ == "stationary"@,
        s.state == TrackState::Departed ==> object.state@ == "departed"@,
        s.state == TrackState::Tentative ==> object.state@ == "tentative"@,
        s.state == TrackState::Lost ==> object.state@ == "lost"@,
{
}

/// A caller gets an event under the name of its kind, with the object it is about, and a
/// crossing with all that is known of it.
pub proof fn law_a_caller_gets_the_event(
    event: WorldEvent,
    e: SemanticEvent,
    crossing: LineCrossingEvent,
    c: Crossing,
)
    requires
        is_event(event, e),
        is_crossing(crossing, c),
    ensures
        event.event_type@ == e.kind_text(),
        is_object(event.object, e.subject()),
        crossing.line_name@ == c.line_name@ && crossing.label@ == c.label@,
        crossing.track_id == c.track_id,
        crossing.direction == LineDirection::AToB <==> c.direction == CrossingDirection::AToB,
        crossing.direction == LineDirection::BToA <==> c.direction == CrossingDirection::BToA,
        crossing.confidence == c.confidence && crossing.timestamp_ms == c.timestamp_ms,
        crossing.prev_x == c.prev_pos.x && crossing.prev_y == c.prev_pos.y,
        crossing.curr_x == c.curr_pos.x && crossing.curr_y == c.curr_pos.y,
{
}

} // verus!
