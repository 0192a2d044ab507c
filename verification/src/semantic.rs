//! What a world reports about its objects.
use vstd::prelude::*;
use crate::reading::Level;

verus! {

/// Where an object is in its life.
#[derive(Debug, Clone, Copy, PartialEq, Eq, Structural)]
pub enum TrackState {
    Tentative,
    Active,
    Stationary,
    Lost,
    Departed,
}

/// An object at one moment.
#[derive(Debug, Clone)]
pub struct TrackSnapshot {
    pub track_id: u32,
    pub label: String,
    pub x: Level,
    pub y: Level,
    pub width: Level,
    pub height: Level,
    pub confidence: Level,
    pub speed: Level,
    pub velocity_x: Level,
    pub velocity_y: Level,
    pub state: TrackState,
}

/// Something that happened to an object.
#[derive(Debug, Clone)]
pub enum SemanticEvent {
    ObjectEntered(TrackSnapshot),
    ObjectLost(TrackSnapshot),
    ObjectRecovered(TrackSnapshot),
    ObjectSettled(TrackSnapshot),
    ObjectWoke(TrackSnapshot),
    ObjectDeparted(TrackSnapshot),
    BestShotUpdated(TrackSnapshot),
}

impl TrackSnapshot {
    /// A copy of the snapshot.
    pub fn copy(&self) -> (copy: TrackSnapshot)
        ensures
            copy == *self,
    {
        TrackSnapshot {
            track_id: self.track_id,
            label: self.label.clone(),
            x: self.x,
            y: self.y,
            width: self.width,
            height: self.height,
            confidence: self.confidence,
            speed: self.speed,
            velocity_x: self.velocity_x,
            velocity_y: self.velocity_y,
            state: self.state,
        }
    }

    /// The same object, marked as gone.
    pub open spec fn departed(self) -> TrackSnapshot {
        TrackSnapshot { state: TrackState::Departed, ..self }
    }
}

impl SemanticEvent {
    /// The name of the kind of event.
    pub open spec fn kind_text(self) -> Seq<char> {
        match self {
            SemanticEvent::ObjectEntered(_) => "objectEntered"@,
            SemanticEvent::ObjectLost(_) => "objectLost"@,
            SemanticEvent::ObjectRecovered(_) => "objectRecovered"@,
            SemanticEvent::ObjectSettled(_) => "objectSettled"@,
            SemanticEvent::ObjectWoke(_) => "objectWoke"@,
            SemanticEvent::ObjectDeparted(_) => "objectDeparted"@,
            SemanticEvent::BestShotUpdated(_) => "bestShotUpdated"@,
        }
    }

    /// The object the event is about.
    pub open spec fn subject(self) -> TrackSnapshot {
        match self {
            SemanticEvent::ObjectEntered(s) => s,
            SemanticEvent::ObjectLost(s) => s,
            SemanticEvent::ObjectRecovered(s) => s,
            SemanticEvent::ObjectSettled(s) => s,
            SemanticEvent::ObjectWoke(s) => s,
            SemanticEvent::ObjectDeparted(s) => s,
            SemanticEvent::BestShotUpdated(s) => s,
        }
    }

    /// A copy of the event.
    pub fn copy(&self) -> (copy: SemanticEvent)
        ensures
            copy == *self,
    {
        match self {
            SemanticEvent::ObjectEntered(s) => SemanticEvent::ObjectEntered(s.copy()),
            SemanticEvent::ObjectLost(s) => SemanticEvent::ObjectLost(s.copy()),
            SemanticEvent::ObjectRecovered(s) => SemanticEvent::ObjectRecovered(s.copy()),
            SemanticEvent::ObjectSettled(s) => SemanticEvent::ObjectSettled(s.copy()),
            SemanticEvent::ObjectWoke(s) => SemanticEvent::ObjectWoke(s.copy()),
            SemanticEvent::ObjectDeparted(s) => SemanticEvent::ObjectDeparted(s.copy()),
            SemanticEvent::BestShotUpdated(s) => SemanticEvent::BestShotUpdated(s.copy()),
        }
    }

    /// The name of the kind of event.
    pub fn kind(&self) -> (name: &'static str)
        ensures
            name@ == self.kind_text(),
    {
        match self {
            SemanticEvent::ObjectEntered(_) => "objectEntered",
            SemanticEvent::ObjectLost(_) => "objectLost",
            SemanticEvent::ObjectRecovered(_) => "objectRecovered",
            SemanticEvent::ObjectSettled(_) => "objectSettled",
            SemanticEvent::ObjectWoke(_) => "objectWoke",
            SemanticEvent::ObjectDeparted(_) => "objectDeparted",
            SemanticEvent::BestShotUpdated(_) => "bestShotUpdated",
        }
    }
}

/// The name of its kind tells an event apart from those of other kinds.
pub proof fn law_kinds_are_told_apart(a: SemanticEvent, b: SemanticEvent)
    requires
        a.kind_text() == b.kind_text(),
    ensures
        a is ObjectEntered <==> b is ObjectEntered,
        a is ObjectLost <==> b is ObjectLost,
        a is ObjectRecovered <==> b is ObjectRecovered,
        a is ObjectSettled <==> b is ObjectSettled,
        a is ObjectWoke <==> b is ObjectWoke,
        a is ObjectDeparted <==> b is ObjectDeparted,
        a is BestShotUpdated <==> b is BestShotUpdated,
{
    reveal_strlit("objectEntered");
    reveal_strlit("objectLost");
    reveal_strlit("objectRecovered");
    reveal_strlit("objectSettled");
    reveal_strlit("objectWoke");
    reveal_strlit("objectDeparted");
    reveal_strlit("bestShotUpdated");
    assert("objectEntered"@[6] == 'E');
    assert("objectLost"@[6] == 'L');
    assert("objectRecovered"@[6] == 'R');
    assert("objectSettled"@[6] == 'S');
    assert("objectWoke"@[6] == 'W');
    assert("objectDeparted"@[6] == 'D');
    assert("bestShotUpdated"@[6] == 'o');
}

/// Each kind of event has its own name, and each event is about the object it carries.
pub proof fn law_an_event_is_named_after_its_kind(s: TrackSnapshot)
    ensures
        SemanticEvent::ObjectEntered(s).kind_text() == "objectEntered"@,
        SemanticEvent::ObjectLost(s).kind_text() == "objectLost"@,
        SemanticEvent::ObjectRecovered(s).kind_text() == "objectRecovered"@,
        SemanticEvent::ObjectSettled(s).kind_text() == "objectSettled"@,
        SemanticEvent::ObjectWoke(s).kind_text() == "objectWoke"@,
        SemanticEvent::ObjectDeparted(s).kind_text() == "objectDeparted"@,
        SemanticEvent::BestShotUpdated(s).kind_text() == "bestShotUpdated"@,
        SemanticEvent::ObjectEntered(s).subject() == s,
        SemanticEvent::ObjectLost(s).subject() == s,
        SemanticEvent::ObjectRecovered(s).subject() == s,
        SemanticEvent::ObjectSettled(s).subject() == s,
        SemanticEvent::ObjectWoke(s).subject() == s,
        SemanticEvent::ObjectDeparted(s).subject() == s,
        SemanticEvent::BestShotUpdated(s).subject() == s,
{
}

/// A departed object is shown as it was last, but as departed.
pub proof fn law_a_departed_object_is_shown_as_it_was(s: TrackSnapshot)
    ensures
        s.departed().state == TrackState::Departed,
        s.departed().track_id == s.track_id,
        s.departed().label@ == s.label@,
        s.departed().x == s.x && s.departed().y == s.y,
        s.departed().width == s.width && s.departed().height == s.height,
        s.departed().confidence == s.confidence,
        s.departed().speed == s.speed,
        s.departed().velocity_x == s.velocity_x && s.departed().velocity_y == s.velocity_y,
{
}

} // verus!
