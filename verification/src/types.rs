//! Detections and the geometry they carry, as readings.
use vstd::prelude::*;
use crate::reading::{Level, Stamp};

verus! {

/// A point in the image, in normalized coordinates.
#[derive(Debug, Clone, Copy, PartialEq, Eq, Structural)]
pub struct Point {
    pub x: Level,
    pub y: Level,
}

/// A point as drawn by a user, on a scale from 0 to 100.
#[derive(Debug, Clone, Copy, PartialEq, Eq, Structural)]
pub struct UiPoint {
    pub x: Stamp,
    pub y: Stamp,
}

/// A box in the image: its upper left corner and its size, normalized.
#[derive(Debug, Clone, Copy, PartialEq, Eq, Structural)]
pub struct Rect {
    pub x: Level,
    pub y: Level,
    pub width: Level,
    pub height: Level,
}

/// The four edges of a box.
#[derive(Debug, Clone, Copy, PartialEq, Eq, Structural)]
pub struct Extent {
    pub left: Level,
    pub top: Level,
    pub right: Level,
    pub bottom: Level,
}

/// A detected object: a box, a score and a class label.
#[derive(Debug, Clone)]
pub struct Detection {
    pub x: Level,
    pub y: Level,
    pub width: Level,
    pub height: Level,
    pub confidence: Level,
    pub label: String,
}

/// How far the camera is turned away from where it was first seen, along both axes.
#[derive(Debug, Clone, Copy, PartialEq, Eq, Structural)]
pub struct CameraMotion {
    pub x: Level,
    pub y: Level,
}

/// The distance between two places, along x and along y.
#[derive(Debug, Clone, Copy, PartialEq, Eq, Structural)]
pub struct Shift {
    pub x: Level,
    pub y: Level,
}

/// `g` gives what `f` returns.
pub open spec fn spans_as<F: Fn(&Point, &Point) -> Shift>(
    f: F,
    g: spec_fn(Point, Point) -> Shift,
) -> bool {
    forall|a: Point, b: Point, r: Shift| #[trigger]
        call_ensures(f, (&a, &b), r) ==> r == g(a, b)
}

/// `f` can be called with any two places.
pub open spec fn can_span<F: Fn(&Point, &Point) -> Shift>(f: F) -> bool {
    forall|a: Point, b: Point| #[trigger] call_requires(f, (&a, &b))
}

impl Detection {
    /// A copy of the detection.
    pub fn copy(&self) -> (copy: Detection)
        ensures
            copy == *self,
    {
        Detection {
            x: self.x,
            y: self.y,
            width: self.width,
            height: self.height,
            confidence: self.confidence,
            label: self.label.clone(),
        }
    }
}

/// A track as a frame reports it.
#[derive(Debug, Clone)]
pub struct TrackedDetection {
    pub x: Level,
    pub y: Level,
    pub width: Level,
    pub height: Level,
    pub confidence: Level,
    pub label: String,
    pub track_id: u32,
    /// For how many frames the track has been around.
    pub track_age: u32,
    /// No detection of this frame belongs to the track.
    pub track_lost: bool,
    pub track_speed: Level,
    pub track_velocity_x: Level,
    pub track_velocity_y: Level,
}

} // verus!
