//! What callers hand over and get back.
use postprocessor::zone_filter;
use postprocessor::api::{
    crossing_from_internal, detection_line_to_internal, detection_zone_to_internal, ingest_result,
    line_direction_from_internal, line_direction_to_internal, lines_to_internal, world_event,
    world_object, zone_filter_to_internal, zone_match_to_internal, zones_to_internal,
    DetectionLine, DetectionZone, LineDirection, ZoneFilterMode, ZoneMatchType,
};
use postprocessor::line_crossing::{CrossingDirection, LineCrossingEvent, LineDirectionFilter};
use postprocessor::reading::{
    bits_of_level, bits_of_stamp, level_of_bits, stamp_of_bits, Level, Stamp, LEVEL_LIMIT,
    STAMP_LIMIT,
};
use postprocessor::semantic::{SemanticEvent, TrackSnapshot, TrackState};
use postprocessor::types::Point;
use postprocessor::world::WorldUpdate;

/// The reading of a real. What is not a number reads lower than everything.
fn level(value: f32) -> Level {
    level_or(value, Level::MIN)
}

/// The reading of a real, and of what is not a number.
fn level_or(value: f32, not_a_number: Level) -> Level {
    level_of_bits(value.to_bits()).unwrap_or(not_a_number)
}

/// The real behind a reading.
fn number(level: Level) -> f32 {
    if level.unsigned_abs() > LEVEL_LIMIT {
        return f32::NAN;
    }
    f32::from_bits(bits_of_level(level))
}

/// The reading of a 64-bit real. What is not a number reads lower than everything.
fn stamp(value: f64) -> Stamp {
    stamp_of_bits(value.to_bits()).unwrap_or(Stamp::MIN)
}

/// The real behind a 64-bit reading.
fn time(stamp: Stamp) -> f64 {
    if stamp.unsigned_abs() > STAMP_LIMIT {
        return f64::NAN;
    }
    f64::from_bits(bits_of_stamp(stamp))
}

fn zone(points: Vec<Vec<f64>>) -> DetectionZone {
    DetectionZone {
        labels: vec!["Car".to_string()],
        filter: ZoneFilterMode::Exclude,
        match_type: ZoneMatchType::Contain,
        is_privacy_mask: true,
        points: readings(points),
    }
}

fn line(points: Vec<Vec<f64>>) -> DetectionLine {
    DetectionLine {
        name: "gate".to_string(),
        direction: LineDirection::BToA,
        labels: vec!["Car".to_string()],
        points: readings(points),
    }
}

fn readings(points: Vec<Vec<f64>>) -> Vec<Vec<i64>> {
    points
        .into_iter()
        .map(|p| p.into_iter().map(stamp).collect())
        .collect()
}

fn snapshot(state: TrackState) -> TrackSnapshot {
    TrackSnapshot {
        track_id: 7,
        label: "person".to_string(),
        x: 1,
        y: 2,
        width: 3,
        height: 4,
        confidence: 5,
        speed: 6,
        velocity_x: 8,
        velocity_y: 9,
        state,
    }
}

fn crossing() -> LineCrossingEvent {
    LineCrossingEvent {
        line_name: "gate".to_string(),
        direction: CrossingDirection::BToA,
        track_id: 7,
        label: "person".to_string(),
        confidence: 5,
        timestamp_ms: 6,
        prev_pos: Point { x: 1, y: 2 },
        curr_pos: Point { x: 3, y: 4 },
    }
}

#[test]
fn modes_and_directions_keep_their_meaning() {
    assert_eq!(
        zone_filter_to_internal(ZoneFilterMode::Include),
        zone_filter::ZoneFilterMode::Include
    );
    assert_eq!(
        zone_filter_to_internal(ZoneFilterMode::Exclude),
        zone_filter::ZoneFilterMode::Exclude
    );
    assert_eq!(
        zone_match_to_internal(ZoneMatchType::Intersect),
        zone_filter::ZoneMatchType::Intersect
    );
    assert_eq!(
        zone_match_to_internal(ZoneMatchType::Contain),
        zone_filter::ZoneMatchType::Contain
    );
    assert_eq!(
        line_direction_to_internal(LineDirection::Both),
        LineDirectionFilter::Both
    );
    assert_eq!(
        line_direction_to_internal(LineDirection::AToB),
        LineDirectionFilter::AToB
    );
    assert_eq!(
        line_direction_to_internal(LineDirection::BToA),
        LineDirectionFilter::BToA
    );
    assert_eq!(
        line_direction_from_internal(CrossingDirection::AToB),
        LineDirection::AToB
    );
    assert_eq!(
        line_direction_from_internal(CrossingDirection::BToA),
        LineDirection::BToA
    );
}

#[test]
fn a_zone_is_drawn_with_pairs() {
    let drawn = detection_zone_to_internal(&zone(vec![vec![1.0, 2.0], vec![3.0, 4.0]])).unwrap();
    assert_eq!(drawn.labels, vec!["Car".to_string()]);
    assert_eq!(drawn.filter, zone_filter::ZoneFilterMode::Exclude);
    assert_eq!(drawn.match_type, zone_filter::ZoneMatchType::Contain);
    assert!(drawn.is_privacy_mask);
    assert_eq!((time(drawn.points[1].x), time(drawn.points[1].y)), (3.0, 4.0));
    assert!(detection_zone_to_internal(&zone(vec![vec![1.0, 2.0], vec![3.0]])).is_none());
    assert!(detection_zone_to_internal(&zone(vec![vec![1.0, 2.0, 3.0]])).is_none());
    let drawn = zones_to_internal(&vec![
        zone(vec![vec![1.0]]),
        zone(vec![]),
        zone(vec![vec![5.0, 6.0]]),
    ]);
    let counts: Vec<usize> = drawn.iter().map(|z| z.points.len()).collect();
    assert_eq!(counts, vec![0, 1]);
}

#[test]
fn a_line_is_drawn_with_two_pairs() {
    let drawn = detection_line_to_internal(&line(vec![vec![1.0, 2.0], vec![3.0, 4.0]])).unwrap();
    assert_eq!(drawn.name, "gate");
    assert_eq!(drawn.direction, LineDirectionFilter::BToA);
    assert_eq!(drawn.labels, vec!["Car".to_string()]);
    assert_eq!((time(drawn.points[0].x), time(drawn.points[0].y)), (1.0, 2.0));
    assert_eq!((time(drawn.points[1].x), time(drawn.points[1].y)), (3.0, 4.0));
    assert!(detection_line_to_internal(&line(vec![vec![1.0, 2.0]])).is_none());
    assert!(detection_line_to_internal(&line(vec![vec![1.0, 2.0], vec![3.0]])).is_none());
    assert!(detection_line_to_internal(&line(vec![vec![1.0, 2.0]; 3])).is_none());
    let drawn = lines_to_internal(&vec![
        line(vec![vec![1.0, 2.0]; 3]),
        line(vec![vec![1.0, 2.0]; 2]),
    ]);
    assert_eq!(drawn.len(), 1);
}

#[test]
fn objects_and_events_are_named() {
    for (state, name) in [
        (TrackState::Tentative, "tentative"),
        (TrackState::Active, "active"),
        (TrackState::Stationary, "stationary"),
        (TrackState::Lost, "lost"),
        (TrackState::Departed, "departed"),
    ] {
        let object = world_object(&snapshot(state));
        assert_eq!(object.state, name);
        assert_eq!(object.track_id, 7);
        assert_eq!((object.x, object.y), (1, 2));
        assert_eq!((object.width, object.height), (3, 4));
        assert_eq!((object.confidence, object.speed), (5, 6));
        assert_eq!((object.velocity_x, object.velocity_y), (8, 9));
    }
    let of = |s| snapshot(s);
    for (event, name) in [
        (SemanticEvent::ObjectEntered(of(TrackState::Active)), "objectEntered"),
        (SemanticEvent::ObjectLost(of(TrackState::Lost)), "objectLost"),
        (SemanticEvent::ObjectRecovered(of(TrackState::Active)), "objectRecovered"),
        (SemanticEvent::ObjectSettled(of(TrackState::Stationary)), "objectSettled"),
        (SemanticEvent::ObjectWoke(of(TrackState::Active)), "objectWoke"),
        (SemanticEvent::ObjectDeparted(of(TrackState::Departed)), "objectDeparted"),
        (SemanticEvent::BestShotUpdated(of(TrackState::Active)), "bestShotUpdated"),
    ] {
        assert_eq!(event.kind(), name);
        let shown = world_event(&event);
        assert_eq!(shown.event_type, name);
        assert_eq!(shown.object.track_id, 7);
    }
}

#[test]
fn a_crossing_is_handed_back_with_its_places() {
    let event = crossing_from_internal(&crossing());
    assert_eq!(event.line_name, "gate");
    assert_eq!(event.direction, LineDirection::BToA);
    assert_eq!((event.track_id, event.confidence, event.timestamp_ms), (7, 5, 6));
    assert_eq!(event.label, "person");
    assert_eq!((event.prev_x, event.prev_y), (1, 2));
    assert_eq!((event.curr_x, event.curr_y), (3, 4));
}

#[test]
fn a_result_holds_the_whole_update() {
    let result = ingest_result(WorldUpdate {
        tracks: vec![snapshot(TrackState::Active)],
        created: vec![7],
        removed: vec![3, 4],
        events: vec![SemanticEvent::ObjectEntered(snapshot(TrackState::Active))],
        crossings: vec![crossing()],
    });
    assert_eq!(result.tracks.len(), 1);
    assert_eq!(result.tracks[0].state, "active");
    assert_eq!(result.created, vec![7]);
    assert_eq!(result.removed, vec![3, 4]);
    assert_eq!(result.events[0].event_type, "objectEntered");
    assert_eq!(result.crossings[0].line_name, "gate");
}
