//! How the tracking engine of a class is set up, and what it compares dead tracks by.
use vstd::prelude::*;
use crate::reading::{Level, Stamp};
use crate::tracker_model::ObjectTrackerConfig;

verus! {

/// How many past detections an engine keeps where dead tracks are matched by their looks.
pub const KEPT_LOOKS: usize = 3;

/// The settings of an engine.
#[derive(Debug, Clone, Copy, PartialEq, Eq, Structural)]
pub struct EngineSettings {
    /// The overlap from which on two boxes match.
    pub iou_threshold: Level,
    pub hit_counter_max: i32,
    pub initialization_delay: i32,
    /// `None` if dead tracks are never matched again.
    pub reid: Option<ReidSettings>,
}

/// How dead tracks are matched again.
#[derive(Debug, Clone, Copy, PartialEq, Eq, Structural)]
pub struct ReidSettings {
    /// For how many frames.
    pub hit_counter_max: i32,
    /// Up to which distance.
    pub distance_threshold: Stamp,
    /// How many past detections are kept for it.
    pub past_detections: usize,
}

/// What a detection is compared with a dead track by.
#[derive(Debug, Clone, Copy, PartialEq, Eq, Structural)]
pub enum ReidBasis {
    /// The distance of their looks.
    Looks,
    /// The overlap of their boxes.
    Boxes,
    /// Nothing: they never match.
    Never,
}

/// The engine settings that follow from the settings of a tracker.
pub open spec fn settings_for(config: ObjectTrackerConfig) -> EngineSettings {
    EngineSettings {
        iou_threshold: config.iou_threshold,
        hit_counter_max: config.hit_counter_max,
        initialization_delay: config.initialization_delay,
        reid: match config.reid_hit_counter_max {
            Some(max) => Some(
                ReidSettings {
                    hit_counter_max: max,
                    distance_threshold: config.reid_embedding_threshold,
                    past_detections: KEPT_LOOKS,
                },
            ),
            None => None,
        },
    }
}

/// The engine settings that follow from the settings of a tracker.
pub fn engine_settings(config: &ObjectTrackerConfig) -> (settings: EngineSettings)
    ensures
        settings == settings_for(*config),
{
    let reid = match config.reid_hit_counter_max {
        Some(max) => Some(
            ReidSettings {
                hit_counter_max: max,
                distance_threshold: config.reid_embedding_threshold,
                past_detections: KEPT_LOOKS,
            },
        ),
        None => None,
    };
    EngineSettings {
        iou_threshold: config.iou_threshold,
        hit_counter_max: config.hit_counter_max,
        initialization_delay: config.initialization_delay,
        reid,
    }
}

/// The latest of some detections that has a look, given which of them have one.
pub fn latest_look(has_look: &Vec<bool>) -> (at: Option<usize>)
    ensures
        match at {
            Some(i) => {
                &&& i < has_look@.len()
                &&& has_look@[i as int]
                &&& forall|j: int| i < j < has_look@.len() ==> !#[trigger] has_look@[j]
            },
            None => forall|j: int| 0 <= j < has_look@.len() ==> !#[trigger] has_look@[j],
        },
{
    let mut i: usize = has_look.len();
    while i > 0
        invariant
            i <= has_look@.len(),
            forall|j: int| i <= j < has_look@.len() ==> !#[trigger] has_look@[j],
        decreases i,
    {
        i -= 1;
        if has_look[i] {
            return Some(i);
        }
    }
    None
}

/// What a detection is compared with a dead track by, given whether each has a look and by
/// how many numbers each box is given.
pub open spec fn basis_for(
    detection_looks: bool,
    track_looks: bool,
    detection_numbers: usize,
    track_numbers: usize,
) -> ReidBasis {
    if detection_looks && track_looks {
        ReidBasis::Looks
    } else if detection_numbers >= 4 && track_numbers >= 4 {
        ReidBasis::Boxes
    } else {
        ReidBasis::Never
    }
}

/// Looks are compared exactly if both sides have one, boxes exactly if a look is missing and
/// neither box is short of its four numbers; it does not matter which side is which.
pub proof fn law_looks_come_before_boxes(
    detection_looks: bool,
    track_looks: bool,
    detection_numbers: usize,
    track_numbers: usize,
)
    ensures
        ({
            let basis = basis_for(detection_looks, track_looks, detection_numbers, track_numbers);
            &&& basis is Looks <==> (detection_looks && track_looks)
            &&& basis is Boxes <==> ((!detection_looks || !track_looks) && 3 < detection_numbers
                && 3 < track_numbers)
            &&& basis == basis_for(track_looks, detection_looks, track_numbers, detection_numbers)
        }),
{
}

/// What a detection is compared with a dead track by: their looks if both have one, else
/// their boxes if both are given by four numbers.
pub fn reid_basis(
    detection_looks: bool,
    track_looks: bool,
    detection_numbers: usize,
    track_numbers: usize,
) -> (basis: ReidBasis)
    ensures
        basis == basis_for(detection_looks, track_looks, detection_numbers, track_numbers),
{
    if detection_looks && track_looks {
        ReidBasis::Looks
    } else if detection_numbers >= 4 && track_numbers >= 4 {
        ReidBasis::Boxes
    } else {
        ReidBasis::Never
    }
}

/// An engine is set up by the settings of the tracker; dead tracks are matched by their looks
/// exactly if a number of frames is set for it, for that many frames, up to the distance that
/// is set, and by the last three detections.
pub proof fn law_an_engine_is_set_up_as_asked(config: ObjectTrackerConfig)
    ensures
        ({
            let s = settings_for(config);
            &&& s.iou_threshold == config.iou_threshold
            &&& s.hit_counter_max == config.hit_counter_max
            &&& s.initialization_delay == config.initialization_delay
            &&& s.reid is Some <==> config.reid_hit_counter_max is Some
            &&& s.reid matches Some(r) ==> {
                &&& Some(r.hit_counter_max) == config.reid_hit_counter_max
                &&& r.distance_threshold == config.reid_embedding_threshold
                &&& r.past_detections == 3
            }
        }),
{
}

} // verus!
