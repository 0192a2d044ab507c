//! Lines drawn into the image and the objects that cross them.
use vstd::arithmetic::power2::lemma2_to64_rest;
use vstd::prelude::*;
use crate::labels::{
    contains_label, has_lowercase, has_text, is_lowercase_set, lowercase_set, lowercase_text,
};
use crate::reading::{lemma_is_nearest, level_is, Level, Stamp, ONE};
use crate::types::{Point, UiPoint};

verus! {

/// Which crossings of a line are reported.
#[derive(Debug, Clone, Copy, PartialEq, Eq, Structural)]
pub enum LineDirectionFilter {
    Both,
    AToB,
    BToA,
}

/// The way a line was crossed.
#[derive(Debug, Clone, Copy, PartialEq, Eq, Structural)]
pub enum CrossingDirection {
    AToB,
    BToA,
}

/// A line as a user drew it.
#[derive(Debug, Clone)]
pub struct DetectionLineInput {
    pub name: String,
    pub direction: LineDirectionFilter,
    /// Allowed labels, in any case. Empty means all labels.
    pub labels: Vec<String>,
    /// The ends of the drawn line, on a scale from 0 to 100.
    pub points: [UiPoint; 2],
}

/// The two ends of a line in normalized coordinates.
#[derive(Debug, Clone, Copy, PartialEq, Eq, Structural)]
pub struct LineEnds {
    pub p1: Point,
    pub p2: Point,
}

/// A line ready to be tested against movements.
#[derive(Debug, Clone)]
pub struct PreparedLine {
    pub name: String,
    pub direction: LineDirectionFilter,
    /// The allowed labels in lower case, each once. Empty means all labels.
    pub labels: Vec<String>,
    pub p1: Point,
    pub p2: Point,
}

/// An object went over a line.
#[derive(Debug, Clone)]
pub struct LineCrossingEvent {
    pub line_name: String,
    pub direction: CrossingDirection,
    pub track_id: u32,
    pub label: String,
    pub confidence: Level,
    pub timestamp_ms: Stamp,
    pub prev_pos: Point,
    pub curr_pos: Point,
}

/// How a movement and a line lie to each other.
#[derive(Debug, Clone, Copy, PartialEq, Eq, Structural)]
pub struct SegmentMeasure {
    /// The magnitude of the determinant of the two directions.
    pub denom: Level,
    /// Where on the movement the lines meet: 0 at its start, 1 at its end.
    pub along_track: Level,
    /// Where on the line they meet: 0 at its first end, 1 at its second.
    pub along_line: Level,
    /// The cross product of the movement and the line.
    pub cross: Level,
}

/// Two directions whose determinant is smaller than this count as parallel (1e-12).
pub const PARALLEL_LIMIT: Level = 730_643_660;

/// Two positions closer than this on both axes count as the same (1e-9).
pub const SAME_PLACE_LIMIT: Level = 814_313_567;

/// The cross product of a movement and a line that meet within both, else 0.
pub open spec fn crossing_value(m: SegmentMeasure) -> Level {
    if m.denom < PARALLEL_LIMIT {
        0
    } else if 0 <= m.along_track <= ONE && 0 <= m.along_line <= ONE {
        m.cross
    } else {
        0
    }
}

/// The way a line is crossed by a movement with this cross product.
pub open spec fn direction_of(cross: Level) -> Option<CrossingDirection> {
    if cross == 0 {
        None
    } else if cross > 0 {
        Some(CrossingDirection::AToB)
    } else {
        Some(CrossingDirection::BToA)
    }
}

impl LineDirectionFilter {
    /// Crossings this way are reported.
    pub open spec fn allows(self, direction: CrossingDirection) -> bool {
        match self {
            LineDirectionFilter::Both => true,
            LineDirectionFilter::AToB => direction == CrossingDirection::AToB,
            LineDirectionFilter::BToA => direction == CrossingDirection::BToA,
        }
    }
}

impl PreparedLine {
    /// The line watches objects whose lowercased label has this text.
    pub open spec fn watches(self, lower: Seq<char>) -> bool {
        self.labels@.len() == 0 || has_text(self.labels@, lower)
    }

    /// The reportable crossing of this line by an object, if there is one.
    pub open spec fn crossed(self, lower: Seq<char>, m: SegmentMeasure) -> Option<
        CrossingDirection,
    > {
        if !self.watches(lower) {
            None
        } else {
            match direction_of(crossing_value(m)) {
                Some(d) => if self.direction.allows(d) {
                    Some(d)
                } else {
                    None
                },
                None => None,
            }
        }
    }

    /// The line is what `line` asks for, wherever its ends are.
    pub open spec fn follows(self, line: DetectionLineInput) -> bool {
        &&& self.name == line.name
        &&& self.direction == line.direction
        &&& is_lowercase_set(self.labels@, line.labels@)
        &&& self.labels@.len() == 0 <==> line.labels@.len() == 0
    }

    /// The line is what `line` asks for, with its ends at `ends`.
    pub open spec fn is_prepared_from(self, line: DetectionLineInput, ends: LineEnds) -> bool {
        self.follows(line) && self.p1 == ends.p1 && self.p2 == ends.p2
    }

    /// The reportable crossing of this line by an object whose lowercased label is
    /// `lower`, if there is one.
    pub fn crossing(&self, lower: &String, m: &SegmentMeasure) -> (direction: Option<
        CrossingDirection,
    >)
        ensures
            direction == self.crossed(lower@, *m),
    {
        if self.labels.len() != 0 && !contains_label(&self.labels, lower) {
            return None;
        }
        let cross: Level = segment_intersection(m);
        if cross == 0 {
            return None;
        }
        let direction = if cross > 0 {
            CrossingDirection::AToB
        } else {
            CrossingDirection::BToA
        };
        let allowed = match self.direction {
            LineDirectionFilter::Both => true,
            LineDirectionFilter::AToB => direction == CrossingDirection::AToB,
            LineDirectionFilter::BToA => direction == CrossingDirection::BToA,
        };
        if allowed {
            Some(direction)
        } else {
            None
        }
    }
}

/// The cross product of a movement and a line that meet within both, else 0.
pub fn segment_intersection(m: &SegmentMeasure) -> (cross: Level)
    ensures
        cross == crossing_value(*m),
{
    if m.denom < PARALLEL_LIMIT {
        return 0;
    }
    if 0 <= m.along_track && m.along_track <= ONE && 0 <= m.along_line && m.along_line <= ONE {
        m.cross
    } else {
        0
    }
}

/// `g` gives what `f` returns.
pub open spec fn ends_as<F: Fn(&UiPoint, &UiPoint, Level) -> LineEnds>(
    f: F,
    g: spec_fn(UiPoint, UiPoint, Level) -> LineEnds,
) -> bool {
    forall|a: UiPoint, b: UiPoint, ratio: Level, r: LineEnds| #[trigger]
        call_ensures(f, (&a, &b, ratio), r) ==> r == g(a, b, ratio)
}

/// `f` can be called with any two points and aspect ratio.
pub open spec fn can_end<F: Fn(&UiPoint, &UiPoint, Level) -> LineEnds>(f: F) -> bool {
    forall|a: UiPoint, b: UiPoint, ratio: Level| #[trigger] call_requires(f, (&a, &b, ratio))
}

/// The lines are what was drawn, one for one.
pub open spec fn all_follow(prepared: Seq<PreparedLine>, lines: Seq<DetectionLineInput>) -> bool {
    &&& prepared.len() == lines.len()
    &&& forall|i: int| 0 <= i < lines.len() ==> (#[trigger] prepared[i]).follows(lines[i])
}

/// The lines are what was drawn, one for one, with their ends where `ends` puts those of
/// the drawn line in an image of this aspect ratio.
pub open spec fn all_prepared(
    prepared: Seq<PreparedLine>,
    lines: Seq<DetectionLineInput>,
    aspect_ratio: Level,
    ends: spec_fn(UiPoint, UiPoint, Level) -> LineEnds,
) -> bool {
    &&& prepared.len() == lines.len()
    &&& forall|i: int|
        0 <= i < lines.len() ==> (#[trigger] prepared[i]).is_prepared_from(
            lines[i],
            ends(lines[i].points[0], lines[i].points[1], aspect_ratio),
        )
}

/// Makes drawn lines ready. `ends` gives the ends of a line from the ends of the drawn one, in
/// an image of the given aspect ratio.
pub fn prepare_lines<E: Fn(&UiPoint, &UiPoint, Level) -> LineEnds>(
    lines: &Vec<DetectionLineInput>,
    aspect_ratio: Level,
    ends: &E,
) -> (prepared: Vec<PreparedLine>)
    requires
        can_end(*ends),
    ensures
        all_follow(prepared@, lines@),
        forall|g: spec_fn(UiPoint, UiPoint, Level) -> LineEnds| #[trigger]
            ends_as(*ends, g) ==> all_prepared(prepared@, lines@, aspect_ratio, g),
{
    let mut prepared: Vec<PreparedLine> = Vec::new();
    let mut i: usize = 0;
    while i < lines.len()
        invariant
            i <= lines.len(),
            can_end(*ends),
            prepared@.len() == i,
            forall|j: int| 0 <= j < i ==> (#[trigger] prepared@[j]).follows(lines@[j]),
            forall|g: spec_fn(UiPoint, UiPoint, Level) -> LineEnds, j: int|
                #![trigger ends_as(*ends, g), prepared@[j]]
                ends_as(*ends, g) && 0 <= j < i ==> prepared@[j].is_prepared_from(
                    lines@[j],
                    g(lines@[j].points[0], lines@[j].points[1], aspect_ratio),
                ),
        decreases lines.len() - i,
    {
        let line = &lines[i];
        let labels = lowercase_set(&line.labels);
        let at = ends(&line.points[0], &line.points[1], aspect_ratio);
        prepared.push(
            PreparedLine {
                name: line.name.clone(),
                direction: line.direction,
                labels,
                p1: at.p1,
                p2: at.p2,
            },
        );
        i += 1;
    }
    prepared
}

/// A movement that runs along a line, or misses either of the two, is no crossing.
pub proof fn law_crossing_needs_a_meeting_point(
    line: PreparedLine,
    lower: Seq<char>,
    m: SegmentMeasure,
)
    requires
        line.crossed(lower, m) is Some,
    ensures
        m.denom >= PARALLEL_LIMIT,
        0 <= m.along_track <= ONE,
        0 <= m.along_line <= ONE,
        m.cross != 0,
{
}

/// A line watches a label exactly if it names none or names it, whatever the case of either.
pub proof fn law_lines_watch_their_labels(
    prepared: PreparedLine,
    line: DetectionLineInput,
    label: Seq<char>,
)
    requires
        prepared.follows(line),
    ensures
        prepared.watches(lowercase_text(label)) <==> line.labels@.len() == 0 || has_lowercase(
            line.labels@,
            lowercase_text(label),
        ),
{
    assert(has_text(prepared.labels@, lowercase_text(label)) <==> has_lowercase(
        line.labels@,
        lowercase_text(label),
    ));
}

/// Directions count as parallel below 1e-12, and places as the same below 1e-9.
pub proof fn law_the_limits_are_small()
    ensures
        level_is(PARALLEL_LIMIT, 1, 1_000_000_000_000),
        level_is(SAME_PLACE_LIMIT, 1, 1_000_000_000),
{
    lemma2_to64_rest();
    lemma_is_nearest(730643660, 0x80_0000, 150, 1, 1000000000000, 87, 834764, 9223372036854775808);
    lemma_is_nearest(814313567, 0x80_0000, 150, 1, 1000000000, 97, 618591, 9007199254740992);
}

/// A movement and a line that are not parallel and meet within both have the cross product
/// they have, wherever on the two they meet, and all others have none.
pub proof fn law_a_meeting_point_is_found(m: SegmentMeasure)
    ensures
        m.denom >= PARALLEL_LIMIT && 0 <= m.along_track && m.along_track <= ONE && 0
            <= m.along_line && m.along_line <= ONE ==> crossing_value(m) == m.cross,
        m.denom < PARALLEL_LIMIT || m.along_track < 0 || m.along_track > ONE || m.along_line < 0
            || m.along_line > ONE ==> crossing_value(m) == 0,
{
}

/// A movement that is not parallel to a line, meets it within both and is not along it
/// crosses every line that watches the label and lets the direction through: from A to B if
/// the cross product is positive, from B to A if it is negative.
pub proof fn law_a_meeting_point_is_a_crossing(
    line: PreparedLine,
    lower: Seq<char>,
    m: SegmentMeasure,
)
    requires
        line.labels@.len() == 0 || exists|i: int|
            0 <= i < line.labels@.len() && #[trigger] line.labels@[i]@ == lower,
        m.denom >= PARALLEL_LIMIT,
        0 <= m.along_track && m.along_track <= ONE,
        0 <= m.along_line && m.along_line <= ONE,
    ensures
        m.cross > 0 && line.direction != LineDirectionFilter::BToA ==> line.crossed(lower, m)
            == Some(CrossingDirection::AToB),
        m.cross < 0 && line.direction != LineDirectionFilter::AToB ==> line.crossed(lower, m)
            == Some(CrossingDirection::BToA),
        m.cross > 0 && line.direction == LineDirectionFilter::BToA ==> line.crossed(lower, m)
            is None,
        m.cross < 0 && line.direction == LineDirectionFilter::AToB ==> line.crossed(lower, m)
            is None,
        m.cross == 0 ==> line.crossed(lower, m) is None,
{
}

/// A crossing takes a label the line watches, a meeting point, and a direction the line lets
/// through; it goes from A to B exactly if the cross product is positive.
pub proof fn law_a_crossing_is_a_meeting_point(
    line: PreparedLine,
    lower: Seq<char>,
    m: SegmentMeasure,
)
    requires
        line.crossed(lower, m) is Some,
    ensures
        line.labels@.len() == 0 || exists|i: int|
            0 <= i < line.labels@.len() && #[trigger] line.labels@[i]@ == lower,
        m.denom >= PARALLEL_LIMIT,
        0 <= m.along_track && m.along_track <= ONE,
        0 <= m.along_line && m.along_line <= ONE,
        line.crossed(lower, m) == Some(CrossingDirection::AToB) ==> m.cross > 0 && line.direction
            != LineDirectionFilter::BToA,
        line.crossed(lower, m) == Some(CrossingDirection::BToA) ==> m.cross < 0 && line.direction
            != LineDirectionFilter::AToB,
{
}

/// Going back over a line is a crossing the other way round.
pub proof fn law_the_way_back_is_the_other_direction(
    line: PreparedLine,
    lower: Seq<char>,
    there: SegmentMeasure,
    back: SegmentMeasure,
)
    requires
        line.direction == LineDirectionFilter::Both,
        line.crossed(lower, there) is Some,
        back == (SegmentMeasure {
            along_track: back.along_track,
            cross: back.cross,
            ..there
        }),
        0 <= back.along_track && back.along_track <= ONE,
        back.cross == -there.cross,
    ensures
        line.crossed(lower, back) is Some,
        line.crossed(lower, back) != line.crossed(lower, there),
{
}

/// A prepared line keeps the name and the direction of the drawn one, lies at the given
/// ends, and names a label exactly if the drawn one names it in whatever case.
pub proof fn law_a_line_is_prepared_as_drawn(
    prepared: PreparedLine,
    line: DetectionLineInput,
    ends: LineEnds,
    i: int,
    k: int,
)
    requires
        prepared.is_prepared_from(line, ends),
    ensures
        prepared.name@ == line.name@,
        prepared.direction == line.direction,
        prepared.p1.x == ends.p1.x && prepared.p1.y == ends.p1.y,
        prepared.p2.x == ends.p2.x && prepared.p2.y == ends.p2.y,
        prepared.labels@.len() == 0 <==> line.labels@.len() == 0,
        0 <= i < line.labels@.len() ==> exists|j: int|
            0 <= j < prepared.labels@.len() && #[trigger] prepared.labels@[j]@ == lowercase_text(
                line.labels@[i]@,
            ),
        0 <= k < prepared.labels@.len() ==> exists|j: int|
            0 <= j < line.labels@.len() && lowercase_text(#[trigger] line.labels@[j]@)
                == prepared.labels@[k]@,
{
    if 0 <= i < line.labels@.len() {
        assert(has_lowercase(line.labels@, lowercase_text(line.labels@[i]@)));
        assert(has_text(prepared.labels@, lowercase_text(line.labels@[i]@)));
    }
    if 0 <= k < prepared.labels@.len() {
        assert(has_text(prepared.labels@, prepared.labels@[k]@));
        assert(has_lowercase(line.labels@, prepared.labels@[k]@));
    }
}

/// Every drawn line is prepared, in its place, from its first point to its second in an image
/// of the given shape, under its own name and with its own direction.
pub proof fn law_every_drawn_line_is_there(
    prepared: Seq<PreparedLine>,
    lines: Seq<DetectionLineInput>,
    aspect_ratio: Level,
    ends: spec_fn(UiPoint, UiPoint, Level) -> LineEnds,
    i: int,
)
    requires
        all_prepared(prepared, lines, aspect_ratio, ends),
        0 <= i < lines.len(),
    ensures
        prepared.len() == lines.len(),
        prepared[i].name@ == lines[i].name@,
        prepared[i].direction == lines[i].direction,
        ({
            let at = ends(lines[i].points[0], lines[i].points[1], aspect_ratio);
            prepared[i].p1 == at.p1 && prepared[i].p2 == at.p2
        }),
{
    assert(prepared[i].is_prepared_from(
        lines[i],
        ends(lines[i].points[0], lines[i].points[1], aspect_ratio),
    ));
}

/// However the ends are computed, every drawn line is there, in its place, under its own name
/// and with its own direction.
pub proof fn law_no_drawn_line_is_left_out(
    prepared: Seq<PreparedLine>,
    lines: Seq<DetectionLineInput>,
    i: int,
)
    requires
        all_follow(prepared, lines),
        0 <= i < lines.len(),
    ensures
        prepared.len() == lines.len(),
        prepared[i].name@ == lines[i].name@,
        prepared[i].direction == lines[i].direction,
        prepared[i].labels@.len() == 0 <==> lines[i].labels@.len() == 0,
{
    assert(prepared[i].follows(lines[i]));
}

} // verus!
