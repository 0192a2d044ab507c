//! Detection zones: which detections are kept, by score, label and place.
use vstd::prelude::*;
use crate::labels::{
    contains_label, distinct_texts, has_lowercase, has_text, insert_label, is_lowercase_set,
    lowercase, lowercase_set, lowercase_text,
};
use crate::line_crossing::SAME_PLACE_LIMIT;
use crate::polygon::{
    box_contained, box_contained_in_polygon, box_intersects, box_intersects_polygon,
    law_contained_box_intersects, measures, PolygonMeasure,
};
use crate::reading::Level;
use crate::types::{can_span, spans_as, Detection, Extent, Point, Shift, UiPoint};

verus! {

/// When a box counts as being in a zone.
#[derive(Debug, Clone, Copy, PartialEq, Eq, Structural)]
pub enum ZoneMatchType {
    Intersect,
    /// All four corners of the box must be inside the zone.
    Contain,
}

/// Whether a zone keeps or drops what is in it.
#[derive(Debug, Clone, Copy, PartialEq, Eq, Structural)]
pub enum ZoneFilterMode {
    Include,
    Exclude,
}

/// A zone as a user drew it.
#[derive(Debug, Clone)]
pub struct ZoneInput {
    /// Empty means all labels.
    pub labels: Vec<String>,
    pub filter: ZoneFilterMode,
    pub match_type: ZoneMatchType,
    pub is_privacy_mask: bool,
    /// The vertices, on a scale from 0 to 100, not necessarily closed.
    pub points: Vec<UiPoint>,
}

/// A zone ready to be tested against detections.
#[derive(Debug, Clone)]
pub struct PreparedZone {
    /// The labels in lower case, each once. Empty means all labels.
    pub labels: Vec<String>,
    pub filter: ZoneFilterMode,
    pub match_type: ZoneMatchType,
    /// A closed polygon in normalized coordinates.
    pub points: Vec<Point>,
}

/// All zones of a camera.
#[derive(Debug, Clone)]
pub struct PreparedZones {
    pub privacy_masks: Vec<PreparedZone>,
    pub active_zones: Vec<PreparedZone>,
    /// The labels of all active zones in lower case, each once. Empty means that no zone
    /// restricts the labels.
    pub all_labels: Vec<String>,
}

/// Where a detection lies in the image and to each zone.
#[derive(Debug, Clone)]
pub struct Placement {
    pub extent: Extent,
    /// Its relation to each privacy mask.
    pub masks: Vec<PolygonMeasure>,
    /// Its relation to each active zone.
    pub zones: Vec<PolygonMeasure>,
}

/// `g` gives what `f` returns.
pub open spec fn scales_as<F: Fn(&UiPoint) -> Point>(f: F, g: spec_fn(UiPoint) -> Point) -> bool {
    forall|a: UiPoint, r: Point| #[trigger] call_ensures(f, (&a,), r) ==> r == g(a)
}

/// `f` can be called with any point.
pub open spec fn can_scale<F: Fn(&UiPoint) -> Point>(f: F) -> bool {
    forall|a: UiPoint| #[trigger] call_requires(f, (&a,))
}

/// The drawn vertices where `scale` puts them, with the first repeated at the end unless the
/// last is there already.
pub open spec fn closed_outline(
    drawn: Seq<UiPoint>,
    scale: spec_fn(UiPoint) -> Point,
    span: spec_fn(Point, Point) -> Shift,
) -> Seq<Point> {
    let points = Seq::new(drawn.len(), |i: int| scale(drawn[i]));
    if points.len() > 1 && is_apart(span(points[0], points.last())) {
        points.push(points[0])
    } else {
        points
    }
}

/// The places are too far from each other to count as the same.
pub open spec fn is_apart(shift: Shift) -> bool {
    shift.x > SAME_PLACE_LIMIT || shift.y > SAME_PLACE_LIMIT
}

/// The numbers, in order, of the zones that are (or are not) privacy masks.
pub open spec fn numbers_of(zones: Seq<ZoneInput>, masks: bool) -> Seq<int>
    decreases zones.len(),
{
    if zones.len() == 0 {
        Seq::empty()
    } else {
        let before = numbers_of(zones.drop_last(), masks);
        if zones.last().is_privacy_mask == masks {
            before.push(zones.len() - 1)
        } else {
            before
        }
    }
}

/// Some zone that is no privacy mask names this label, up to case.
pub open spec fn some_zone_names(zones: Seq<ZoneInput>, lower: Seq<char>) -> bool {
    exists|i: int|
        0 <= i < zones.len() && !(#[trigger] zones[i]).is_privacy_mask && has_lowercase(
            zones[i].labels@,
            lower,
        )
}

impl PreparedZone {
    /// The zone is what `zone` asks for, wherever its vertices are.
    pub open spec fn is_prepared_from(self, zone: ZoneInput) -> bool {
        &&& is_lowercase_set(self.labels@, zone.labels@)
        &&& self.labels@.len() == 0 <==> zone.labels@.len() == 0
        &&& self.filter == zone.filter
        &&& self.match_type == zone.match_type
        &&& zone.points@.len() <= self.points@.len() <= zone.points@.len() + 1
    }

    /// The vertices are those of `zone`, closed to a polygon.
    pub open spec fn is_drawn_from(
        self,
        zone: ZoneInput,
        scale: spec_fn(UiPoint) -> Point,
        span: spec_fn(Point, Point) -> Shift,
    ) -> bool {
        self.points@ == closed_outline(zone.points@, scale, span)
    }

    /// The zone is about detections whose lowercased label has this text.
    pub open spec fn accepts(self, lower: Seq<char>) -> bool {
        self.labels@.len() == 0 || has_text(self.labels@, lower)
    }

    /// The box is in the zone the way the zone asks for: with all four corners inside it, or
    /// touching it.
    pub open spec fn meets(self, e: Extent, m: PolygonMeasure) -> bool {
        &&& box_intersects(e, self.points@, m)
        &&& self.match_type == ZoneMatchType::Contain ==> box_contained(e, self.points@, m)
    }

    /// The detection drops out because it is in this zone.
    pub open spec fn rejects(self, lower: Seq<char>, e: Extent, m: PolygonMeasure) -> bool {
        &&& self.accepts(lower)
        &&& self.filter == ZoneFilterMode::Exclude
        &&& self.meets(e, m)
    }

    /// The zone asks detections with this label to be in some such zone.
    pub open spec fn demands(self, lower: Seq<char>) -> bool {
        self.accepts(lower) && self.filter == ZoneFilterMode::Include
    }

    /// The detection is in this zone the way the zone asks for.
    pub open spec fn satisfied(self, lower: Seq<char>, e: Extent, m: PolygonMeasure) -> bool {
        self.demands(lower) && self.meets(e, m)
    }
}

impl PreparedZones {
    /// There is neither a zone nor a mask.
    pub open spec fn is_open(self) -> bool {
        self.active_zones@.len() == 0 && self.privacy_masks@.len() == 0
    }

    /// The zones and masks are what was drawn, in the order they were drawn.
    pub open spec fn is_prepared_from(self, zones: Seq<ZoneInput>) -> bool {
        let masks = numbers_of(zones, true);
        let others = numbers_of(zones, false);
        &&& self.privacy_masks@.len() == masks.len()
        &&& forall|k: int|
            0 <= k < self.privacy_masks@.len() ==> (
            #[trigger] self.privacy_masks@[k]).is_prepared_from(zones[masks[k]])
        &&& self.active_zones@.len() == others.len()
        &&& forall|k: int|
            0 <= k < self.active_zones@.len() ==> (
            #[trigger] self.active_zones@[k]).is_prepared_from(zones[others[k]])
        &&& distinct_texts(self.all_labels@)
        &&& forall|lower: Seq<char>| #[trigger]
            has_text(self.all_labels@, lower) <==> some_zone_names(zones, lower)
    }

    /// The zones and masks lie where they were drawn: their vertices are where `scale` puts
    /// the drawn ones.
    pub open spec fn is_drawn_from(
        self,
        zones: Seq<ZoneInput>,
        scale: spec_fn(UiPoint) -> Point,
        span: spec_fn(Point, Point) -> Shift,
    ) -> bool {
        &&& forall|k: int|
            0 <= k < self.privacy_masks@.len() ==> {
                let zone = zones[numbers_of(zones, true)[k]];
                (#[trigger] self.privacy_masks@[k]).is_drawn_from(zone, scale, span)
            }
        &&& forall|k: int|
            0 <= k < self.active_zones@.len() ==> {
                let zone = zones[numbers_of(zones, false)[k]];
                (#[trigger] self.active_zones@[k]).is_drawn_from(zone, scale, span)
            }
    }

    /// The placement relates the detection to each mask and each zone.
    pub open spec fn placed(self, p: Placement) -> bool {
        &&& p.masks@.len() == self.privacy_masks@.len()
        &&& p.zones@.len() == self.active_zones@.len()
        &&& forall|i: int|
            0 <= i < p.masks@.len() ==> measures(
                #[trigger] p.masks@[i],
                self.privacy_masks@[i].points@,
            )
        &&& forall|i: int|
            0 <= i < p.zones@.len() ==> measures(
                #[trigger] p.zones@[i],
                self.active_zones@[i].points@,
            )
    }

    /// The detection lies in a privacy mask.
    pub open spec fn masked(self, p: Placement) -> bool {
        exists|i: int|
            0 <= i < self.privacy_masks@.len() && box_contained(
                p.extent,
                self.privacy_masks@[i].points@,
                #[trigger] p.masks@[i],
            )
    }

    /// An excluding zone drops the detection.
    pub open spec fn excluded(self, lower: Seq<char>, p: Placement) -> bool {
        exists|i: int|
            0 <= i < self.active_zones@.len() && self.active_zones@[i].rejects(
                lower,
                p.extent,
                #[trigger] p.zones@[i],
            )
    }

    /// Some including zone is about this label.
    pub open spec fn inclusion_demanded(self, lower: Seq<char>) -> bool {
        exists|i: int|
            0 <= i < self.active_zones@.len() && (#[trigger] self.active_zones@[i]).demands(lower)
    }

    /// Some including zone takes the detection.
    pub open spec fn included(self, lower: Seq<char>, p: Placement) -> bool {
        exists|i: int|
            0 <= i < self.active_zones@.len() && self.active_zones@[i].satisfied(
                lower,
                p.extent,
                #[trigger] p.zones@[i],
            )
    }

    /// The label may appear at all.
    pub open spec fn names(self, lower: Seq<char>) -> bool {
        self.all_labels@.len() == 0 || has_text(self.all_labels@, lower)
    }

    /// The zones keep a detection with this lowercased label at this place.
    pub open spec fn admits(self, lower: Seq<char>, p: Placement) -> bool {
        self.is_open() || {
            &&& self.names(lower)
            &&& !self.masked(p)
            &&& !self.excluded(lower, p)
            &&& self.inclusion_demanded(lower) ==> self.included(lower, p)
        }
    }

    /// The detection passes the score threshold and the zones.
    pub open spec fn keeps(self, d: Detection, p: Placement, min_confidence: Level) -> bool {
        d.confidence >= min_confidence && self.admits(lowercase_text(d.label@), p)
    }

    /// No zones.
    pub fn none() -> (zones: PreparedZones)
        ensures
            zones.is_open(),
            zones.all_labels@.len() == 0,
    {
        PreparedZones {
            privacy_masks: Vec::new(),
            active_zones: Vec::new(),
            all_labels: Vec::new(),
        }
    }

    /// Whether the zones keep a detection with this lowercased label at this place.
    pub fn lets_in(&self, lower: &String, p: &Placement) -> (kept: bool)
        requires
            self.placed(*p),
        ensures
            kept == self.admits(lower@, *p),
    {
        if self.active_zones.len() == 0 && self.privacy_masks.len() == 0 {
            return true;
        }
        if self.all_labels.len() != 0 && !contains_label(&self.all_labels, lower) {
            return false;
        }
        let mut i: usize = 0;
        while i < self.privacy_masks.len()
            invariant
                i <= self.privacy_masks@.len(),
                self.placed(*p),
                forall|k: int|
                    0 <= k < i ==> !box_contained(
                        p.extent,
                        self.privacy_masks@[k].points@,
                        #[trigger] p.masks@[k],
                    ),
            decreases self.privacy_masks@.len() - i,
        {
            assert(measures(p.masks@[i as int], self.privacy_masks@[i as int].points@));
            if box_contained_in_polygon(&p.extent, &self.privacy_masks[i].points, &p.masks[i]) {
                return false;
            }
            i += 1;
        }
        let mut has_include_zone = false;
        let mut satisfies_include = false;
        let mut i: usize = 0;
        while i < self.active_zones.len()
            invariant
                i <= self.active_zones@.len(),
                self.placed(*p),
                !self.is_open(),
                forall|k: int|
                    0 <= k < i ==> !self.active_zones@[k].rejects(
                        lower@,
                        p.extent,
                        #[trigger] p.zones@[k],
                    ),
                has_include_zone == exists|k: int|
                    0 <= k < i && (#[trigger] self.active_zones@[k]).demands(lower@),
                satisfies_include == exists|k: int|
                    0 <= k < i && self.active_zones@[k].satisfied(
                        lower@,
                        p.extent,
                        #[trigger] p.zones@[k],
                    ),
            decreases self.active_zones@.len() - i,
        {
            let zone = &self.active_zones[i];
            let ghost m = p.zones@[i as int];
            assert(measures(m, zone.points@));
            if zone_accepts_label(zone, lower) {
                let intersects = box_intersects_polygon(&p.extent, &zone.points, &p.zones[i]);
                let contained = intersects && box_contained_in_polygon(
                    &p.extent,
                    &zone.points,
                    &p.zones[i],
                );
                let met = match zone.match_type {
                    ZoneMatchType::Contain => contained,
                    ZoneMatchType::Intersect => intersects,
                };
                assert(met == zone.meets(p.extent, m));
                match zone.filter {
                    ZoneFilterMode::Exclude => {
                        if met {
                            assert(self.active_zones@[i as int].rejects(
                                lower@,
                                p.extent,
                                p.zones@[i as int],
                            ));
                            return false;
                        }
                    },
                    ZoneFilterMode::Include => {
                        has_include_zone = true;
                        assert(self.active_zones@[i as int].demands(lower@));
                        if met {
                            satisfies_include = true;
                        }
                    },
                }
            }
            i += 1;
        }
        !has_include_zone || satisfies_include
    }
}

/// Whether the zone is about detections with this lowercased label.
pub fn zone_accepts_label(zone: &PreparedZone, lower: &String) -> (accepts: bool)
    ensures
        accepts == zone.accepts(lower@),
{
    zone.labels.len() == 0 || contains_label(&zone.labels, lower)
}

/// The drawn vertices where `scale` puts them, closed to a polygon.
fn close_outline<S: Fn(&UiPoint) -> Point, D: Fn(&Point, &Point) -> Shift>(
    drawn: &Vec<UiPoint>,
    scale: &S,
    span: &D,
) -> (points: Vec<Point>)
    requires
        can_scale(*scale),
        can_span(*span),
    ensures
        drawn@.len() <= points@.len() <= drawn@.len() + 1,
        forall|g: spec_fn(UiPoint) -> Point, h: spec_fn(Point, Point) -> Shift|
            #![trigger scales_as(*scale, g), spans_as(*span, h)]
            scales_as(*scale, g) && spans_as(*span, h) ==> points@ == closed_outline(
                drawn@,
                g,
                h,
            ),
{
    let mut points: Vec<Point> = Vec::new();
    let mut i: usize = 0;
    while i < drawn.len()
        invariant
            i <= drawn@.len(),
            can_scale(*scale),
            points@.len() == i,
            forall|g: spec_fn(UiPoint) -> Point, j: int|
                #![trigger scales_as(*scale, g), points@[j]]
                scales_as(*scale, g) && 0 <= j < i ==> points@[j] == g(drawn@[j]),
        decreases drawn@.len() - i,
    {
        points.push(scale(&drawn[i]));
        i += 1;
    }
    let ghost open = points@;
    proof {
        assert forall|g: spec_fn(UiPoint) -> Point| #[trigger] scales_as(*scale, g) implies open
            =~= Seq::new(drawn@.len(), |i: int| g(drawn@[i])) by {}
    }
    if points.len() > 1 {
        let first = points[0];
        let gap = span(&first, &points[points.len() - 1]);
        if gap.x > SAME_PLACE_LIMIT || gap.y > SAME_PLACE_LIMIT {
            points.push(first);
        }
    }
    points
}

/// Makes drawn zones ready. `scale` gives the place of a drawn point in the image, and `span`
/// the distance of two places.
pub fn prepare_zones<S: Fn(&UiPoint) -> Point, D: Fn(&Point, &Point) -> Shift>(
    zones: &Vec<ZoneInput>,
    scale: &S,
    span: &D,
) -> (prepared: PreparedZones)
    requires
        can_scale(*scale),
        can_span(*span),
    ensures
        prepared.is_prepared_from(zones@),
        forall|g: spec_fn(UiPoint) -> Point, h: spec_fn(Point, Point) -> Shift|
            #![trigger scales_as(*scale, g), spans_as(*span, h)]
            scales_as(*scale, g) && spans_as(*span, h) ==> prepared.is_drawn_from(zones@, g, h),
{
    let mut privacy_masks: Vec<PreparedZone> = Vec::new();
    let mut active_zones: Vec<PreparedZone> = Vec::new();
    let mut all_labels: Vec<String> = Vec::new();
    let mut i: usize = 0;
    while i < zones.len()
        invariant
            i <= zones@.len(),
            can_scale(*scale),
            can_span(*span),
            privacy_masks@.len() == numbers_of(zones@.take(i as int), true).len(),
            forall|k: int|
                0 <= k < privacy_masks@.len() ==> (#[trigger] privacy_masks@[k]).is_prepared_from(
                    zones@[numbers_of(zones@.take(i as int), true)[k]],
                ),
            active_zones@.len() == numbers_of(zones@.take(i as int), false).len(),
            forall|k: int|
                0 <= k < active_zones@.len() ==> (#[trigger] active_zones@[k]).is_prepared_from(
                    zones@[numbers_of(zones@.take(i as int), false)[k]],
                ),
            forall|g: spec_fn(UiPoint) -> Point, h: spec_fn(Point, Point) -> Shift, k: int|
                #![trigger scales_as(*scale, g), spans_as(*span, h), privacy_masks@[k]]
                scales_as(*scale, g) && spans_as(*span, h) && 0 <= k < privacy_masks@.len()
                    ==> privacy_masks@[k].is_drawn_from(
                    zones@[numbers_of(zones@.take(i as int), true)[k]],
                    g,
                    h,
                ),
            forall|g: spec_fn(UiPoint) -> Point, h: spec_fn(Point, Point) -> Shift, k: int|
                #![trigger scales_as(*scale, g), spans_as(*span, h), active_zones@[k]]
                scales_as(*scale, g) && spans_as(*span, h) && 0 <= k < active_zones@.len()
                    ==> active_zones@[k].is_drawn_from(
                    zones@[numbers_of(zones@.take(i as int), false)[k]],
                    g,
                    h,
                ),
            distinct_texts(all_labels@),
            forall|lower: Seq<char>| #[trigger]
                has_text(all_labels@, lower) <==> some_zone_names(zones@.take(i as int), lower),
        decreases zones@.len() - i,
    {
        let zone = &zones[i];
        let ghost done = zones@.take(i as int);
        let ghost next = zones@.take(i + 1);
        proof {
            assert(next.drop_last() == done);
            assert(next.last() == zones@[i as int]);
        }
        let points = close_outline(&zone.points, scale, span);
        let labels = lowercase_set(&zone.labels);
        if !zone.is_privacy_mask {
            let ghost before = all_labels@;
            let mut k: usize = 0;
            while k < labels.len()
                invariant
                    k <= labels@.len(),
                    distinct_texts(all_labels@),
                    forall|lower: Seq<char>| #[trigger]
                        has_text(all_labels@, lower) <==> has_text(before, lower) || has_text(
                            labels@.take(k as int),
                            lower,
                        ),
                decreases labels@.len() - k,
            {
                let ghost so_far = all_labels@;
                insert_label(&mut all_labels, labels[k].clone());
                proof {
                    assert forall|lower: Seq<char>| #[trigger]
                        has_text(all_labels@, lower) <==> has_text(before, lower) || has_text(
                            labels@.take(k + 1),
                            lower,
                        ) by {
                        lemma_has_text_take(labels@, k as int, lower);
                        assert(has_text(so_far, lower) <==> has_text(before, lower) || has_text(
                            labels@.take(k as int),
                            lower,
                        ));
                    }
                }
                k += 1;
            }
            proof {
                assert(labels@.take(k as int) == labels@);
                assert forall|lower: Seq<char>| #[trigger]
                    has_text(all_labels@, lower) <==> some_zone_names(next, lower) by {
                    lemma_some_zone_names_take(zones@, i as int, lower);
                    assert(has_text(before, lower) <==> some_zone_names(done, lower));
                    assert(has_text(labels@, lower) <==> has_lowercase(zone.labels@, lower));
                }
            }
        } else {
            proof {
                assert forall|lower: Seq<char>| #[trigger]
                    has_text(all_labels@, lower) <==> some_zone_names(next, lower) by {
                    lemma_some_zone_names_take(zones@, i as int, lower);
                }
            }
        }
        let prepared = PreparedZone {
            labels,
            filter: zone.filter,
            match_type: zone.match_type,
            points,
        };
        if zone.is_privacy_mask {
            privacy_masks.push(prepared);
        } else {
            active_zones.push(prepared);
        }
        i += 1;
    }
    assert(zones@.take(i as int) == zones@);
    PreparedZones { privacy_masks, active_zones, all_labels }
}

proof fn lemma_has_text_take(labels: Seq<String>, k: int, text: Seq<char>)
    requires
        0 <= k < labels.len(),
    ensures
        has_text(labels.take(k + 1), text) <==> has_text(labels.take(k), text) || labels[k]@
            == text,
{
    let a = labels.take(k);
    let b = labels.take(k + 1);
    if has_text(a, text) {
        let i = choose|i: int| 0 <= i < a.len() && #[trigger] a[i]@ == text;
        assert(b[i]@ == text);
    }
    if labels[k]@ == text {
        assert(b[k]@ == text);
    }
    if has_text(b, text) && labels[k]@ != text {
        let i = choose|i: int| 0 <= i < b.len() && #[trigger] b[i]@ == text;
        assert(a[i]@ == text);
    }
}

proof fn lemma_some_zone_names_take(zones: Seq<ZoneInput>, i: int, lower: Seq<char>)
    requires
        0 <= i < zones.len(),
    ensures
        some_zone_names(zones.take(i + 1), lower) <==> some_zone_names(zones.take(i), lower) || (
        !zones[i].is_privacy_mask && has_lowercase(zones[i].labels@, lower)),
{
    let a = zones.take(i);
    let b = zones.take(i + 1);
    if some_zone_names(a, lower) {
        let k = choose|k: int|
            0 <= k < a.len() && !(#[trigger] a[k]).is_privacy_mask && has_lowercase(
                a[k].labels@,
                lower,
            );
        assert(b[k] == a[k]);
    }
    if !zones[i].is_privacy_mask && has_lowercase(zones[i].labels@, lower) {
        assert(b[i] == zones[i]);
    }
    if some_zone_names(b, lower) {
        let k = choose|k: int|
            0 <= k < b.len() && !(#[trigger] b[k]).is_privacy_mask && has_lowercase(
                b[k].labels@,
                lower,
            );
        if k < i {
            assert(a[k] == b[k]);
        }
    }
}

/// The numbers, in order, of those among the first `n` detections that are kept.
pub open spec fn kept_numbers(
    detections: Seq<Detection>,
    placements: Seq<Placement>,
    zones: PreparedZones,
    min_confidence: Level,
    n: int,
) -> Seq<u32>
    decreases n,
{
    if n <= 0 {
        Seq::empty()
    } else {
        let before = kept_numbers(detections, placements, zones, min_confidence, n - 1);
        if zones.keeps(detections[n - 1], placements[n - 1], min_confidence) {
            before.push((n - 1) as u32)
        } else {
            before
        }
    }
}

/// Each detection has its placement.
pub open spec fn all_placed(
    detections: Seq<Detection>,
    placements: Seq<Placement>,
    zones: PreparedZones,
) -> bool {
    &&& placements.len() == detections.len()
    &&& forall|i: int| 0 <= i < placements.len() ==> zones.placed(#[trigger] placements[i])
}

/// The numbers of the detections that pass the score threshold and the zones, in order.
pub fn filter_indices(
    detections: &Vec<Detection>,
    placements: &Vec<Placement>,
    zones: &PreparedZones,
    min_confidence: Level,
) -> (kept: Vec<u32>)
    requires
        all_placed(detections@, placements@, *zones),
        detections@.len() <= u32::MAX,
    ensures
        kept@ == kept_numbers(
            detections@,
            placements@,
            *zones,
            min_confidence,
            detections@.len() as int,
        ),
{
    let mut kept: Vec<u32> = Vec::new();
    let mut i: usize = 0;
    while i < detections.len()
        invariant
            i <= detections@.len(),
            detections@.len() <= u32::MAX,
            all_placed(detections@, placements@, *zones),
            kept@ == kept_numbers(detections@, placements@, *zones, min_confidence, i as int),
        decreases detections@.len() - i,
    {
        assert(zones.placed(placements@[i as int]));
        if detections[i].confidence >= min_confidence && zones.lets_in(
            &lowercase(&detections[i].label),
            &placements[i],
        ) {
            kept.push(i as u32);
        }
        i += 1;
    }
    kept
}

/// The kept numbers go up, stay below `n`, and are exactly those of kept detections.
pub proof fn law_kept_numbers_are_the_kept_ones_in_order(
    detections: Seq<Detection>,
    placements: Seq<Placement>,
    zones: PreparedZones,
    min_confidence: Level,
    n: int,
)
    requires
        0 <= n <= u32::MAX,
    ensures
        ({
            let kept = kept_numbers(detections, placements, zones, min_confidence, n);
            &&& kept.len() <= n
            &&& forall|a: int, b: int| 0 <= a < b < kept.len() ==> kept[a] < kept[b]
            &&& forall|a: int|
                0 <= a < kept.len() ==> (#[trigger] kept[a]) < n && zones.keeps(
                    detections[kept[a] as int],
                    placements[kept[a] as int],
                    min_confidence,
                )
            &&& forall|i: int|
                0 <= i < n && zones.keeps(#[trigger] detections[i], placements[i], min_confidence)
                    ==> kept.contains(i as u32)
        }),
    decreases n,
{
    if n > 0 {
        law_kept_numbers_are_the_kept_ones_in_order(
            detections,
            placements,
            zones,
            min_confidence,
            n - 1,
        );
        let before = kept_numbers(detections, placements, zones, min_confidence, n - 1);
        let kept = kept_numbers(detections, placements, zones, min_confidence, n);
        assert forall|i: int|
            0 <= i < n && zones.keeps(
                #[trigger] detections[i],
                placements[i],
                min_confidence,
            ) implies kept.contains(i as u32) by {
            if i < n - 1 {
                let a = choose|a: int| 0 <= a < before.len() && before[a] == i as u32;
                assert(kept[a] == i as u32);
            } else {
                assert(kept[kept.len() - 1] == i as u32);
            }
        }
    }
}

/// The detections with the given numbers, in order.
pub fn extract_by_indices(detections: Vec<Detection>, indices: &Vec<u32>) -> (out: Vec<Detection>)
    requires
        forall|a: int| 0 <= a < indices@.len() ==> (#[trigger] indices@[a]) < detections@.len(),
        forall|a: int, b: int| 0 <= a < b < indices@.len() ==> indices@[a] < indices@[b],
    ensures
        out@ == Seq::new(indices@.len(), |a: int| detections@[indices@[a] as int]),
{
    if indices.len() == detections.len() {
        proof {
            lemma_full_ascent_is_identity(indices@, detections@.len() as int);
            assert(detections@ =~= Seq::new(
                indices@.len(),
                |a: int| detections@[indices@[a] as int],
            ));
        }
        return detections;
    }
    let mut out: Vec<Detection> = Vec::new();
    let mut a: usize = 0;
    while a < indices.len()
        invariant
            a <= indices@.len(),
            forall|k: int| 0 <= k < indices@.len() ==> (#[trigger] indices@[k]) < detections@.len(),
            out@ == Seq::new(a as nat, |k: int| detections@[indices@[k] as int]),
        decreases indices@.len() - a,
    {
        let at: usize = indices[a] as usize;
        out.push(detections[at].copy());
        a += 1;
        assert(out@ =~= Seq::new(a as nat, |k: int| detections@[indices@[k] as int]));
    }
    out
}

proof fn lemma_full_ascent_is_identity(indices: Seq<u32>, n: int)
    requires
        indices.len() == n,
        forall|a: int| 0 <= a < n ==> (#[trigger] indices[a]) < n,
        forall|a: int, b: int| 0 <= a < b < n ==> indices[a] < indices[b],
    ensures
        forall|a: int| 0 <= a < n ==> (#[trigger] indices[a]) == a,
{
    assert forall|a: int| 0 <= a < n implies (#[trigger] indices[a]) == a by {
        lemma_ascent_from_below(indices, n, a);
        lemma_ascent_from_above(indices, n, a);
    }
}

proof fn lemma_ascent_from_below(indices: Seq<u32>, n: int, a: int)
    requires
        0 <= a < n,
        indices.len() == n,
        forall|a: int, b: int| 0 <= a < b < n ==> indices[a] < indices[b],
    ensures
        indices[a] >= a,
    decreases a,
{
    if a > 0 {
        lemma_ascent_from_below(indices, n, a - 1);
    }
}

proof fn lemma_ascent_from_above(indices: Seq<u32>, n: int, a: int)
    requires
        0 <= a < n,
        indices.len() == n,
        forall|a: int| 0 <= a < n ==> (#[trigger] indices[a]) < n,
        forall|a: int, b: int| 0 <= a < b < n ==> indices[a] < indices[b],
    ensures
        indices[a] <= a,
    decreases n - a,
{
    if a + 1 < n {
        lemma_ascent_from_above(indices, n, a + 1);
    }
}

/// The detections that pass the score threshold and the zones, in order.
pub fn filter_detections(
    detections: Vec<Detection>,
    placements: &Vec<Placement>,
    zones: &PreparedZones,
    min_confidence: Level,
) -> (out: Vec<Detection>)
    requires
        all_placed(detections@, placements@, *zones),
        detections@.len() <= u32::MAX,
    ensures
        ({
            let kept = kept_numbers(
                detections@,
                placements@,
                *zones,
                min_confidence,
                detections@.len() as int,
            );
            out@ == Seq::new(kept.len(), |a: int| detections@[kept[a] as int])
        }),
{
    let indices = filter_indices(&detections, placements, zones, min_confidence);
    proof {
        law_kept_numbers_are_the_kept_ones_in_order(
            detections@,
            placements@,
            *zones,
            min_confidence,
            detections@.len() as int,
        );
    }
    extract_by_indices(detections, &indices)
}

/// Without zones and masks only the score decides.
pub proof fn law_no_zones_filter_by_score_alone(
    zones: PreparedZones,
    d: Detection,
    p: Placement,
    min_confidence: Level,
)
    requires
        zones.is_open(),
    ensures
        zones.keeps(d, p, min_confidence) <==> d.confidence >= min_confidence,
{
}

/// A detection inside a privacy mask is never kept, whatever the zones say of it.
pub proof fn law_privacy_mask_always_drops(
    zones: PreparedZones,
    d: Detection,
    p: Placement,
    min_confidence: Level,
)
    requires
        zones.placed(p),
        zones.masked(p),
    ensures
        !zones.keeps(d, p, min_confidence),
{
}

/// An excluding zone wins over every including one.
pub proof fn law_exclusion_wins(
    zones: PreparedZones,
    d: Detection,
    p: Placement,
    min_confidence: Level,
)
    requires
        zones.placed(p),
        zones.excluded(lowercase_text(d.label@), p),
    ensures
        !zones.keeps(d, p, min_confidence),
{
}

/// The labels named by the zones are a list of allowed labels for the whole image: a
/// detection with another label is dropped wherever it is.
pub proof fn law_zone_labels_restrict_globally(
    zones: PreparedZones,
    d: Detection,
    p: Placement,
    min_confidence: Level,
)
    requires
        !zones.is_open(),
        zones.all_labels@.len() > 0,
        !has_text(zones.all_labels@, lowercase_text(d.label@)),
    ensures
        !zones.keeps(d, p, min_confidence),
{
}

/// A zone is about a label exactly if it names none or names it, whatever the case of
/// either.
pub proof fn law_zones_accept_their_labels(
    prepared: PreparedZone,
    zone: ZoneInput,
    label: Seq<char>,
)
    requires
        prepared.is_prepared_from(zone),
    ensures
        prepared.accepts(lowercase_text(label)) <==> zone.labels@.len() == 0 || has_lowercase(
            zone.labels@,
            lowercase_text(label),
        ),
{
    assert(has_text(prepared.labels@, lowercase_text(label)) <==> has_lowercase(
        zone.labels@,
        lowercase_text(label),
    ));
}

/// The case of a label does not matter to the zones.
pub proof fn law_case_does_not_matter(
    zones: PreparedZones,
    d: Detection,
    e: Detection,
    p: Placement,
    min_confidence: Level,
)
    requires
        lowercase_text(d.label@) == lowercase_text(e.label@),
        d.confidence == e.confidence,
    ensures
        zones.keeps(d, p, min_confidence) == zones.keeps(e, p, min_confidence),
{
}

/// The zone names this lowercased label, or none.
pub open spec fn is_about(zone: PreparedZone, lower: Seq<char>) -> bool {
    zone.labels@.len() == 0 || exists|i: int|
        0 <= i < zone.labels@.len() && #[trigger] zone.labels@[i]@ == lower
}

/// The box is in the zone the way the zone asks for.
pub open spec fn is_in(zone: PreparedZone, e: Extent, m: PolygonMeasure) -> bool {
    match zone.match_type {
        ZoneMatchType::Contain => box_contained(e, zone.points@, m),
        ZoneMatchType::Intersect => box_intersects(e, zone.points@, m),
    }
}

/// A detection below the score is dropped, wherever it is.
pub proof fn law_a_low_score_drops(
    zones: PreparedZones,
    d: Detection,
    p: Placement,
    min_confidence: Level,
)
    requires
        d.confidence < min_confidence,
    ensures
        !zones.keeps(d, p, min_confidence),
{
}

/// A detection with all corners in a privacy mask is dropped, whatever its class and whatever
/// the zones say of it.
pub proof fn law_a_box_in_a_mask_drops(
    zones: PreparedZones,
    d: Detection,
    p: Placement,
    min_confidence: Level,
    i: int,
)
    requires
        0 <= i < zones.privacy_masks@.len(),
        box_contained(p.extent, zones.privacy_masks@[i].points@, p.masks@[i]),
    ensures
        !zones.keeps(d, p, min_confidence),
{
    assert(zones.masked(p));
}

/// A detection that is in an excluding zone about its label, with all corners or with any
/// point as the zone asks for, is dropped, whatever the other zones say of it.
pub proof fn law_a_box_in_an_excluding_zone_drops(
    zones: PreparedZones,
    d: Detection,
    p: Placement,
    min_confidence: Level,
    i: int,
)
    requires
        0 <= i < zones.active_zones@.len(),
        zones.active_zones@[i].filter == ZoneFilterMode::Exclude,
        is_about(zones.active_zones@[i], lowercase_text(d.label@)),
        is_in(zones.active_zones@[i], p.extent, p.zones@[i]),
    ensures
        !zones.keeps(d, p, min_confidence),
{
    let zone = zones.active_zones@[i];
    if zone.match_type == ZoneMatchType::Contain {
        law_contained_box_intersects(p.extent, zone.points@, p.zones@[i]);
    }
    assert(zone.rejects(lowercase_text(d.label@), p.extent, p.zones@[i]));
    assert(zones.excluded(lowercase_text(d.label@), p));
}

/// A detection whose label some including zone is about, but that is in none of the including
/// zones about it, is dropped.
pub proof fn law_a_box_in_no_including_zone_drops(
    zones: PreparedZones,
    d: Detection,
    p: Placement,
    min_confidence: Level,
    i: int,
)
    requires
        0 <= i < zones.active_zones@.len(),
        zones.active_zones@[i].filter == ZoneFilterMode::Include,
        is_about(zones.active_zones@[i], lowercase_text(d.label@)),
        forall|k: int|
            #![trigger zones.active_zones@[k]]
            0 <= k < zones.active_zones@.len() && zones.active_zones@[k].filter
                == ZoneFilterMode::Include && is_about(
                zones.active_zones@[k],
                lowercase_text(d.label@),
            ) ==> !is_in(zones.active_zones@[k], p.extent, p.zones@[k]),
    ensures
        !zones.keeps(d, p, min_confidence),
{
    let lower = lowercase_text(d.label@);
    assert(zones.active_zones@[i].demands(lower));
    assert(zones.inclusion_demanded(lower));
    if zones.included(lower, p) {
        let k = choose|k: int|
            0 <= k < zones.active_zones@.len() && zones.active_zones@[k].satisfied(
                lower,
                p.extent,
                #[trigger] p.zones@[k],
            );
        let zone = zones.active_zones@[k];
        assert(is_about(zone, lower));
        assert(!is_in(zone, p.extent, p.zones@[k]));
    }
}

/// Everything else is kept: a detection that reaches the score, whose label the zones do not
/// leave out, that is in no mask and in no excluding zone about it, and for which there is no
/// including zone, or one it is in.
pub proof fn law_everything_else_is_kept(
    zones: PreparedZones,
    d: Detection,
    p: Placement,
    min_confidence: Level,
)
    requires
        d.confidence >= min_confidence,
        zones.all_labels@.len() == 0 || exists|i: int|
            0 <= i < zones.all_labels@.len() && #[trigger] zones.all_labels@[i]@
                == lowercase_text(d.label@),
        forall|i: int|
            #![trigger zones.privacy_masks@[i]]
            0 <= i < zones.privacy_masks@.len() ==> !box_contained(
                p.extent,
                zones.privacy_masks@[i].points@,
                p.masks@[i],
            ),
        forall|i: int|
            #![trigger zones.active_zones@[i]]
            0 <= i < zones.active_zones@.len() && zones.active_zones@[i].filter
                == ZoneFilterMode::Exclude && is_about(
                zones.active_zones@[i],
                lowercase_text(d.label@),
            ) ==> !is_in(zones.active_zones@[i], p.extent, p.zones@[i]),
        (forall|i: int|
            #![trigger zones.active_zones@[i]]
            0 <= i < zones.active_zones@.len() && is_about(
                zones.active_zones@[i],
                lowercase_text(d.label@),
            ) ==> zones.active_zones@[i].filter != ZoneFilterMode::Include) || (exists|i: int|
            {
                &&& 0 <= i < zones.active_zones@.len()
                &&& (#[trigger] zones.active_zones@[i]).filter == ZoneFilterMode::Include
                &&& is_about(zones.active_zones@[i], lowercase_text(d.label@))
                &&& is_in(zones.active_zones@[i], p.extent, p.zones@[i])
            }),
    ensures
        zones.keeps(d, p, min_confidence),
{
    let lower = lowercase_text(d.label@);
    if zones.masked(p) {
        let i = choose|i: int|
            0 <= i < zones.privacy_masks@.len() && box_contained(
                p.extent,
                zones.privacy_masks@[i].points@,
                #[trigger] p.masks@[i],
            );
        assert(!box_contained(p.extent, zones.privacy_masks@[i].points@, p.masks@[i]));
    }
    if zones.excluded(lower, p) {
        let i = choose|i: int|
            0 <= i < zones.active_zones@.len() && zones.active_zones@[i].rejects(
                lower,
                p.extent,
                #[trigger] p.zones@[i],
            );
        let zone = zones.active_zones@[i];
        assert(is_about(zone, lower));
        assert(!is_in(zone, p.extent, p.zones@[i]));
    }
    if zones.inclusion_demanded(lower) {
        let k = choose|k: int|
            0 <= k < zones.active_zones@.len() && (#[trigger] zones.active_zones@[k]).demands(
                lower,
            );
        assert(is_about(zones.active_zones@[k], lower));
        let i = choose|i: int|
            {
                &&& 0 <= i < zones.active_zones@.len()
                &&& (#[trigger] zones.active_zones@[i]).filter == ZoneFilterMode::Include
                &&& is_about(zones.active_zones@[i], lower)
                &&& is_in(zones.active_zones@[i], p.extent, p.zones@[i])
            };
        let zone = zones.active_zones@[i];
        if zone.match_type == ZoneMatchType::Contain {
            law_contained_box_intersects(p.extent, zone.points@, p.zones@[i]);
        }
        assert(zone.satisfied(lower, p.extent, p.zones@[i]));
        assert(zones.included(lower, p));
    }
}

/// An outline has the drawn vertices in their order, each where it belongs, and is closed: its
/// first vertex is repeated at the end exactly if there are several and the last is farther
/// from it than counts as the same place, along either axis.
pub proof fn law_an_outline_is_closed(
    drawn: Seq<UiPoint>,
    scale: spec_fn(UiPoint) -> Point,
    span: spec_fn(Point, Point) -> Shift,
)
    ensures
        ({
            let points = closed_outline(drawn, scale, span);
            let n = drawn.len() as int;
            let gap = span(scale(drawn[0]), scale(drawn[n - 1]));
            &&& forall|i: int| 0 <= i < n ==> #[trigger] points[i] == scale(drawn[i])
            &&& n > 1 && (gap.x > SAME_PLACE_LIMIT || gap.y > SAME_PLACE_LIMIT) ==> points.len()
                == n + 1 && points[n] == points[0]
            &&& n <= 1 || gap.x <= SAME_PLACE_LIMIT && gap.y <= SAME_PLACE_LIMIT ==> points.len()
                == n
        }),
{
}

proof fn lemma_numbers_of(zones: Seq<ZoneInput>, masks: bool)
    ensures
        ({
            let numbers = numbers_of(zones, masks);
            &&& forall|k: int|
                0 <= k < numbers.len() ==> 0 <= #[trigger] numbers[k] < zones.len()
                    && zones[numbers[k]].is_privacy_mask == masks
            &&& forall|k: int, l: int|
                0 <= k < l < numbers.len() ==> #[trigger] numbers[k] < #[trigger] numbers[l]
            &&& forall|i: int|
                0 <= i < zones.len() && (#[trigger] zones[i]).is_privacy_mask == masks
                    ==> numbers.contains(i)
        }),
    decreases zones.len(),
{
    if zones.len() > 0 {
        let rest = zones.drop_last();
        lemma_numbers_of(rest, masks);
        let before = numbers_of(rest, masks);
        let numbers = numbers_of(zones, masks);
        assert forall|i: int|
            0 <= i < zones.len() && (#[trigger] zones[i]).is_privacy_mask == masks implies
            numbers.contains(i) by {
            if i < rest.len() {
                assert(rest[i].is_privacy_mask == masks);
                let k = choose|k: int| 0 <= k < before.len() && before[k] == i;
                assert(numbers[k] == i);
            } else {
                assert(numbers[before.len() as int] == i);
            }
        }
        assert forall|k: int| 0 <= k < numbers.len() implies 0 <= #[trigger] numbers[k]
            < zones.len() && zones[numbers[k]].is_privacy_mask == masks by {
            if k < before.len() {
                assert(numbers[k] == before[k]);
                assert(rest[before[k]] == zones[before[k]]);
            }
        }
    }
}

/// The prepared zone asks for what was drawn.
pub open spec fn asks_for(prepared: PreparedZone, zone: ZoneInput) -> bool {
    &&& prepared.filter == zone.filter
    &&& prepared.match_type == zone.match_type
    &&& prepared.labels@.len() == 0 <==> zone.labels@.len() == 0
    &&& forall|lower: Seq<char>|
        #![trigger is_about(prepared, lower)]
        is_about(prepared, lower) <==> zone.labels@.len() == 0 || exists|i: int|
            0 <= i < zone.labels@.len() && lowercase_text(#[trigger] zone.labels@[i]@) == lower
}

/// Every drawn zone is there, as a mask if it was drawn as one, and nothing else: with the
/// filter, the way of lying in it and the labels it was drawn with, and where it was drawn.
pub proof fn law_every_drawn_zone_is_there(
    prepared: PreparedZones,
    zones: Seq<ZoneInput>,
    scale: spec_fn(UiPoint) -> Point,
    span: spec_fn(Point, Point) -> Shift,
    i: int,
)
    requires
        prepared.is_prepared_from(zones),
        prepared.is_drawn_from(zones, scale, span),
        0 <= i < zones.len(),
    ensures
        prepared.privacy_masks@.len() + prepared.active_zones@.len() == zones.len(),
        zones[i].is_privacy_mask ==> exists|k: int|
            0 <= k < prepared.privacy_masks@.len() && asks_for(
                #[trigger] prepared.privacy_masks@[k],
                zones[i],
            ) && prepared.privacy_masks@[k].points@ == closed_outline(
                zones[i].points@,
                scale,
                span,
            ),
        !zones[i].is_privacy_mask ==> exists|k: int|
            0 <= k < prepared.active_zones@.len() && asks_for(
                #[trigger] prepared.active_zones@[k],
                zones[i],
            ) && prepared.active_zones@[k].points@ == closed_outline(
                zones[i].points@,
                scale,
                span,
            ),
{
    lemma_numbers_of(zones, true);
    lemma_numbers_of(zones, false);
    lemma_numbers_share_out(zones);
    let masks = zones[i].is_privacy_mask;
    let numbers = numbers_of(zones, masks);
    assert(numbers.contains(i));
    let k = choose|k: int| 0 <= k < numbers.len() && numbers[k] == i;
    let zone = if masks {
        prepared.privacy_masks@[k]
    } else {
        prepared.active_zones@[k]
    };
    assert(zone.is_prepared_from(zones[i]));
    assert(zone.is_drawn_from(zones[i], scale, span));
    assert(asks_for(zone, zones[i])) by {
        assert forall|lower: Seq<char>|
            #![trigger is_about(zone, lower)]
            is_about(zone, lower) <==> zones[i].labels@.len() == 0 || exists|j: int|
                0 <= j < zones[i].labels@.len() && lowercase_text(#[trigger] zones[i].labels@[j]@)
                    == lower by {
            assert(has_text(zone.labels@, lower) <==> has_lowercase(zones[i].labels@, lower));
        }
    }
}

proof fn lemma_numbers_share_out(zones: Seq<ZoneInput>)
    ensures
        numbers_of(zones, true).len() + numbers_of(zones, false).len() == zones.len(),
    decreases zones.len(),
{
    if zones.len() > 0 {
        lemma_numbers_share_out(zones.drop_last());
    }
}

/// The labels that may appear at all are, in lower case, those that some zone names that is no
/// mask.
pub proof fn law_the_allowed_labels_are_those_of_the_zones(
    prepared: PreparedZones,
    zones: Seq<ZoneInput>,
    lower: Seq<char>,
)
    requires
        prepared.is_prepared_from(zones),
    ensures
        (exists|k: int|
            0 <= k < prepared.all_labels@.len() && #[trigger] prepared.all_labels@[k]@ == lower)
            <==> exists|i: int, j: int|
            0 <= i < zones.len() && !zones[i].is_privacy_mask && 0 <= j < zones[i].labels@.len()
                && lowercase_text(#[trigger] zones[i].labels@[j]@) == lower,
{
    assert(has_text(prepared.all_labels@, lower) <==> some_zone_names(zones, lower));
    if some_zone_names(zones, lower) {
        let i = choose|i: int|
            0 <= i < zones.len() && !(#[trigger] zones[i]).is_privacy_mask && has_lowercase(
                zones[i].labels@,
                lower,
            );
        let j = choose|j: int|
            0 <= j < zones[i].labels@.len() && lowercase_text(#[trigger] zones[i].labels@[j]@)
                == lower;
        assert(lowercase_text(zones[i].labels@[j]@) == lower);
    }
    if exists|i: int, j: int|
        0 <= i < zones.len() && !zones[i].is_privacy_mask && 0 <= j < zones[i].labels@.len()
            && lowercase_text(#[trigger] zones[i].labels@[j]@) == lower {
        let (i, j) = choose|i: int, j: int|
            0 <= i < zones.len() && !zones[i].is_privacy_mask && 0 <= j < zones[i].labels@.len()
                && lowercase_text(#[trigger] zones[i].labels@[j]@) == lower;
        assert(has_lowercase(zones[i].labels@, lower));
        assert(some_zone_names(zones, lower));
    }
}

} // verus!
