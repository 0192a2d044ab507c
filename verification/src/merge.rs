//! Boxes of the same class that belong together, made into one.
use vstd::prelude::*;
use crate::cluster::{all_joined, row_joined, Forest};
use crate::grouping::{distinct_labels, find_with_label, labels_of, numbers_with};
use crate::iou::{boxes_overlap, overlapping};
use crate::labels::{contains_label, has_text};
use crate::reading::{higher_of, larger, lower_of, smaller, Level, ONE};
use crate::types::{Detection, Extent};

verus! {

/// The share of a box inside another from which on it can be a fragment of it (0.9).
pub const FRAGMENT_SHARE: Level = 1_063_675_494;

/// A box: its edges, its area, and how far an edge of a fragment may be from an edge of it
/// (0.05 of its height).
#[derive(Debug, Clone, Copy, PartialEq, Eq, Structural)]
pub struct BoxMeasure {
    pub extent: Extent,
    pub area: Level,
    pub tolerance: Level,
}

/// How two boxes lie to each other.
#[derive(Debug, Clone, Copy, PartialEq, Eq, Structural)]
pub struct PairMeasure {
    /// The distances of the left, the upper and the lower edges.
    pub left_gap: Level,
    pub top_gap: Level,
    pub bottom_gap: Level,
    /// The area they have in common, where they overlap.
    pub inter: Level,
    /// That area as a share of the smaller box, where it has an area.
    pub share: Level,
    /// The area of their union, and the common area as a share of it.
    pub union: Level,
    pub ratio: Level,
}

/// When boxes belong together.
#[derive(Debug, Clone, Copy, PartialEq, Eq, Structural)]
pub struct MergeRule {
    pub iou_threshold: Level,
    pub close_threshold: Level,
    /// How much of the smaller box has to be inside the other; 0 for no such demand.
    pub min_share: Level,
}

/// The area two boxes have in common.
pub open spec fn common_area(a: BoxMeasure, b: BoxMeasure, m: PairMeasure) -> Level {
    if boxes_overlap(a.extent, b.extent) {
        m.inter
    } else {
        0
    }
}

/// The share of the smaller box that is inside the other.
pub open spec fn inner_share(a: BoxMeasure, b: BoxMeasure, m: PairMeasure) -> Level {
    if boxes_overlap(a.extent, b.extent) && smaller(a.area, b.area) > 0 {
        m.share
    } else {
        0
    }
}

/// The smaller box ends where the larger one does, above or below.
pub open spec fn ends_alike(a: BoxMeasure, b: BoxMeasure, m: PairMeasure) -> bool {
    let tolerance = if a.area <= b.area {
        b.tolerance
    } else {
        a.tolerance
    };
    m.top_gap <= tolerance || m.bottom_gap <= tolerance
}

/// Two boxes belong together: their upper left corners are close, or one is a fragment of
/// the other, or they overlap enough. Where a share is demanded, enough of the smaller box
/// has to be inside the other, unless it is a fragment.
pub open spec fn belong_together(
    a: BoxMeasure,
    b: BoxMeasure,
    m: PairMeasure,
    rule: MergeRule,
) -> bool {
    let share = inner_share(a, b, m);
    let contained = rule.min_share <= 0 || share >= rule.min_share;
    if m.left_gap <= rule.close_threshold && m.top_gap <= rule.close_threshold {
        contained
    } else if common_area(a, b, m) <= 0 {
        false
    } else if rule.min_share > 0 && share >= FRAGMENT_SHARE && ends_alike(a, b, m) {
        true
    } else {
        m.union > 0 && m.ratio > rule.iou_threshold && contained
    }
}

/// Whether two boxes belong together.
pub fn together(a: &BoxMeasure, b: &BoxMeasure, m: &PairMeasure, rule: &MergeRule) -> (merge: bool)
    ensures
        merge == belong_together(*a, *b, *m, *rule),
{
    let overlap = overlapping(&a.extent, &b.extent);
    let inter: Level = if overlap {
        m.inter
    } else {
        0
    };
    let share: Level = if overlap && lower_of(a.area, b.area) > 0 {
        m.share
    } else {
        0
    };
    let contained = rule.min_share <= 0 || share >= rule.min_share;
    if m.left_gap <= rule.close_threshold && m.top_gap <= rule.close_threshold {
        return contained;
    }
    if inter <= 0 {
        return false;
    }
    if rule.min_share > 0 && share >= FRAGMENT_SHARE {
        let tolerance: Level = if a.area <= b.area {
            b.tolerance
        } else {
            a.tolerance
        };
        if m.top_gap <= tolerance || m.bottom_gap <= tolerance {
            return true;
        }
    }
    m.union > 0 && m.ratio > rule.iou_threshold && contained
}

/// `g` gives what `f` returns.
pub open spec fn relates_as<F: Fn(usize, usize) -> PairMeasure>(
    f: F,
    g: spec_fn(usize, usize) -> PairMeasure,
) -> bool {
    forall|a: usize, b: usize, r: PairMeasure| #[trigger]
        call_ensures(f, (a, b), r) ==> r == g(a, b)
}

/// `f` can be called with the numbers of any two of `n` boxes.
pub open spec fn can_relate<F: Fn(usize, usize) -> PairMeasure>(f: F, n: nat) -> bool {
    forall|a: usize, b: usize| a < n && b < n ==> #[trigger] call_requires(f, (a, b))
}

/// `g` gives what `f` returns.
pub open spec fn differs_as<F: Fn(Level, Level) -> Level>(
    f: F,
    g: spec_fn(Level, Level) -> Level,
) -> bool {
    forall|a: Level, b: Level, r: Level| #[trigger] call_ensures(f, (a, b), r) ==> r == g(a, b)
}

/// `f` can be called with any two readings.
pub open spec fn can_differ<F: Fn(Level, Level) -> Level>(f: F) -> bool {
    forall|a: Level, b: Level| #[trigger] call_requires(f, (a, b))
}

/// The boxes with these numbers belong together.
pub open spec fn related(
    boxes: Seq<BoxMeasure>,
    numbers: Seq<usize>,
    relate: spec_fn(usize, usize) -> PairMeasure,
    rule: MergeRule,
) -> spec_fn(int, int) -> bool {
    |i: int, j: int|
        belong_together(
            boxes[numbers[i] as int],
            boxes[numbers[j] as int],
            relate(numbers[i], numbers[j]),
            rule,
        )
}

/// Those of the first `n` members that have this root.
pub open spec fn cluster_of(roots: Seq<int>, root: int, n: int) -> Seq<int>
    decreases n,
{
    if n <= 0 {
        Seq::empty()
    } else if roots[n - 1] == root {
        cluster_of(roots, root, n - 1).push(n - 1)
    } else {
        cluster_of(roots, root, n - 1)
    }
}

/// The outermost edges and the best score of some boxes.
#[derive(Debug, Clone, Copy, PartialEq, Eq, Structural)]
pub struct Bounds {
    pub left: Level,
    pub top: Level,
    pub right: Level,
    pub bottom: Level,
    pub confidence: Level,
}

/// The bounds of no box: everything goes beyond them.
pub open spec fn no_bounds() -> Bounds {
    Bounds { left: ONE, top: ONE, right: 0, bottom: 0, confidence: 0 }
}

impl Bounds {
    /// The bounds with one more box inside.
    pub open spec fn with(self, e: Extent, confidence: Level) -> Bounds {
        Bounds {
            left: smaller(self.left, e.left),
            top: smaller(self.top, e.top),
            right: larger(self.right, e.right),
            bottom: larger(self.bottom, e.bottom),
            confidence: larger(self.confidence, confidence),
        }
    }

    /// The bounds, cut off at the edges of the image.
    pub open spec fn cut(self) -> Bounds {
        Bounds {
            left: larger(self.left, 0),
            top: larger(self.top, 0),
            right: smaller(self.right, ONE),
            bottom: smaller(self.bottom, ONE),
            ..self
        }
    }
}

/// The bounds of the first `k` members.
pub open spec fn bounds_of(
    detections: Seq<Detection>,
    boxes: Seq<BoxMeasure>,
    numbers: Seq<usize>,
    members: Seq<int>,
    k: int,
) -> Bounds
    decreases k,
{
    if k <= 0 {
        no_bounds()
    } else {
        let x = numbers[members[k - 1]] as int;
        bounds_of(detections, boxes, numbers, members, k - 1).with(
            boxes[x].extent,
            detections[x].confidence,
        )
    }
}

/// What a cluster is made into: a single box stays as it is, several become the box around
/// them with the best score, if that has an area inside the image.
pub open spec fn made_one(
    detections: Seq<Detection>,
    boxes: Seq<BoxMeasure>,
    numbers: Seq<usize>,
    members: Seq<int>,
    minus: spec_fn(Level, Level) -> Level,
) -> Seq<Detection> {
    let first = detections[numbers[members[0]] as int];
    if members.len() == 1 {
        seq![first]
    } else {
        let b = bounds_of(detections, boxes, numbers, members, members.len() as int).cut();
        if b.right <= b.left || b.bottom <= b.top {
            Seq::empty()
        } else {
            seq![
                Detection {
                    x: b.left,
                    y: b.top,
                    width: minus(b.right, b.left),
                    height: minus(b.bottom, b.top),
                    confidence: b.confidence,
                    label: first.label,
                },
            ]
        }
    }
}

/// No earlier member is in the same cluster.
pub open spec fn is_first(roots: Seq<int>, i: int) -> bool {
    forall|j: int| 0 <= j < i ==> #[trigger] roots[j] != roots[i]
}

/// What the clusters that begin among the first `n` members are made into, in that order.
pub open spec fn clusters_merged(
    detections: Seq<Detection>,
    boxes: Seq<BoxMeasure>,
    numbers: Seq<usize>,
    roots: Seq<int>,
    minus: spec_fn(Level, Level) -> Level,
    n: int,
) -> Seq<Detection>
    decreases n,
{
    if n <= 0 {
        Seq::empty()
    } else {
        let before = clusters_merged(detections, boxes, numbers, roots, minus, n - 1);
        if is_first(roots, n - 1) {
            before + made_one(
                detections,
                boxes,
                numbers,
                cluster_of(roots, roots[n - 1], roots.len() as int),
                minus,
            )
        } else {
            before
        }
    }
}

/// The rule for a class: a share is only demanded of the listed classes.
pub open spec fn rule_for(rule: MergeRule, contained: Seq<String>, label: Seq<char>) -> MergeRule {
    if has_text(contained, label) {
        rule
    } else {
        MergeRule { min_share: 0, ..rule }
    }
}

/// What the boxes of one class are made into.
pub open spec fn class_merged(
    detections: Seq<Detection>,
    boxes: Seq<BoxMeasure>,
    numbers: Seq<usize>,
    relate: spec_fn(usize, usize) -> PairMeasure,
    minus: spec_fn(Level, Level) -> Level,
    rule: MergeRule,
) -> Seq<Detection> {
    let n = numbers.len();
    let roots = all_joined(related(boxes, numbers, relate, rule), n, n as int);
    clusters_merged(detections, boxes, numbers, roots, minus, n as int)
}

/// What the boxes of the first `n` of these classes are made into.
pub open spec fn classes_merged(
    detections: Seq<Detection>,
    boxes: Seq<BoxMeasure>,
    relate: spec_fn(usize, usize) -> PairMeasure,
    minus: spec_fn(Level, Level) -> Level,
    rule: MergeRule,
    contained: Seq<String>,
    labels: Seq<Seq<char>>,
    n: int,
) -> Seq<Detection>
    decreases n,
{
    if n <= 0 {
        Seq::empty()
    } else {
        classes_merged(detections, boxes, relate, minus, rule, contained, labels, n - 1)
            + class_merged(
            detections,
            boxes,
            numbers_with(detections, labels[n - 1], detections.len() as int),
            relate,
            minus,
            rule_for(rule, contained, labels[n - 1]),
        )
    }
}

/// What all boxes are made into, class by class in the order the classes first appear.
pub open spec fn all_merged(
    detections: Seq<Detection>,
    boxes: Seq<BoxMeasure>,
    relate: spec_fn(usize, usize) -> PairMeasure,
    minus: spec_fn(Level, Level) -> Level,
    rule: MergeRule,
    contained: Seq<String>,
) -> Seq<Detection> {
    let labels = labels_of(detections, detections.len() as int);
    classes_merged(
        detections,
        boxes,
        relate,
        minus,
        rule,
        contained,
        labels,
        labels.len() as int,
    )
}

/// The root of each box of a class.
fn cluster_roots<F: Fn(usize, usize) -> PairMeasure>(
    boxes: &Vec<BoxMeasure>,
    numbers: &Vec<usize>,
    relate: &F,
    rule: &MergeRule,
) -> (roots: Vec<usize>)
    requires
        forall|k: int| 0 <= k < numbers@.len() ==> (#[trigger] numbers@[k]) < boxes@.len(),
        can_relate(*relate, boxes@.len()),
    ensures
        roots@.len() == numbers@.len(),
        forall|g: spec_fn(usize, usize) -> PairMeasure| #[trigger]
            relates_as(*relate, g) ==> roots@.map_values(|r: usize| r as int) == all_joined(
                related(boxes@, numbers@, g, *rule),
                numbers@.len(),
                numbers@.len() as int,
            ),
{
    let n: usize = numbers.len();
    let mut forest = Forest::new(n);
    let mut i: usize = 0;
    while i < n
        invariant
            i <= n,
            n == numbers@.len(),
            forest.wf(),
            forest@.len() == n,
            forall|k: int| 0 <= k < n ==> (#[trigger] numbers@[k]) < boxes@.len(),
            can_relate(*relate, boxes@.len()),
            forall|g: spec_fn(usize, usize) -> PairMeasure| #[trigger]
                relates_as(*relate, g) ==> forest@ == all_joined(
                    related(boxes@, numbers@, g, *rule),
                    n as nat,
                    i as int,
                ),
        decreases n - i,
    {
        let ghost roots = forest@;
        let mut j: usize = i + 1;
        while j < n
            invariant
                i < j <= n,
                n == numbers@.len(),
                forest.wf(),
                forest@.len() == n,
                forall|k: int| 0 <= k < n ==> (#[trigger] numbers@[k]) < boxes@.len(),
                can_relate(*relate, boxes@.len()),
                forall|g: spec_fn(usize, usize) -> PairMeasure| #[trigger]
                    relates_as(*relate, g) ==> forest@ == row_joined(
                        related(boxes@, numbers@, g, *rule),
                        roots,
                        i as int,
                        j as int,
                    ),
            decreases n - j,
        {
            let a: usize = numbers[i];
            let b: usize = numbers[j];
            let m = relate(a, b);
            let ghost before = forest@;
            let merge = together(&boxes[a], &boxes[b], &m, rule);
            if merge {
                forest.join(i, j);
            }
            proof {
                assert forall|g: spec_fn(usize, usize) -> PairMeasure| #[trigger]
                    relates_as(*relate, g) implies forest@ == row_joined(
                    related(boxes@, numbers@, g, *rule),
                    roots,
                    i as int,
                    j + 1,
                ) by {
                    assert(m == g(a, b));
                    assert(merge == related(boxes@, numbers@, g, *rule)(i as int, j as int));
                }
            }
            j += 1;
        }
        i += 1;
    }
    let mut roots: Vec<usize> = Vec::new();
    let mut i: usize = 0;
    while i < n
        invariant
            i <= n,
            forest.wf(),
            forest@.len() == n,
            roots@.len() == i,
            forall|k: int| 0 <= k < i ==> #[trigger] roots@[k] as int == forest@[k],
            n == numbers@.len(),
            forall|g: spec_fn(usize, usize) -> PairMeasure| #[trigger]
                relates_as(*relate, g) ==> forest@ == all_joined(
                    related(boxes@, numbers@, g, *rule),
                    n as nat,
                    n as int,
                ),
        decreases n - i,
    {
        let root: usize = forest.find(i);
        roots.push(root);
        i += 1;
    }
    assert(roots@.map_values(|r: usize| r as int) =~= forest@);
    roots
}

/// Adds what a cluster is made into.
fn make_one<M: Fn(Level, Level) -> Level>(
    detections: &Vec<Detection>,
    boxes: &Vec<BoxMeasure>,
    numbers: &Vec<usize>,
    roots: &Vec<usize>,
    root: usize,
    first: usize,
    minus: &M,
    out: &mut Vec<Detection>,
)
    requires
        boxes@.len() == detections@.len(),
        roots@.len() == numbers@.len(),
        first < numbers@.len(),
        roots@[first as int] == root,
        forall|k: int| 0 <= k < first ==> #[trigger] roots@[k] != root,
        forall|k: int| 0 <= k < numbers@.len() ==> (#[trigger] numbers@[k]) < boxes@.len(),
        can_differ(*minus),
    ensures
        forall|h: spec_fn(Level, Level) -> Level| #[trigger]
            differs_as(*minus, h) ==> final(out)@ == old(out)@ + made_one(
                detections@,
                boxes@,
                numbers@,
                cluster_of(
                    roots@.map_values(|r: usize| r as int),
                    root as int,
                    roots@.len() as int,
                ),
                h,
            ),
{
    let ghost texts = roots@.map_values(|r: usize| r as int);
    let n: usize = roots.len();
    let ghost members = cluster_of(texts, root as int, n as int);
    let mut count: usize = 0;
    let mut left: Level = ONE;
    let mut top: Level = ONE;
    let mut right: Level = 0;
    let mut bottom: Level = 0;
    let mut confidence: Level = 0;
    let mut k: usize = 0;
    while k < n
        invariant
            k <= n,
            n == roots@.len(),
            n == numbers@.len(),
            boxes@.len() == detections@.len(),
            texts == roots@.map_values(|r: usize| r as int),
            forall|j: int| 0 <= j < n ==> (#[trigger] numbers@[j]) < boxes@.len(),
            first < n,
            roots@[first as int] == root,
            forall|j: int| 0 <= j < first ==> #[trigger] roots@[j] != root,
            count <= k,
            count == cluster_of(texts, root as int, k as int).len(),
            k <= first ==> count == 0,
            k > first ==> count >= 1 && cluster_of(texts, root as int, k as int)[0] == first,
            (Bounds { left, top, right, bottom, confidence }) == bounds_of(
                detections@,
                boxes@,
                numbers@,
                cluster_of(texts, root as int, k as int),
                count as int,
            ),
        decreases n - k,
    {
        if roots[k] == root {
            let ghost before = cluster_of(texts, root as int, k as int);
            let ghost after = cluster_of(texts, root as int, k + 1);
            proof {
                assert(texts[k as int] == root as int);
                assert(after == before.push(k as int));
                lemma_bounds_prefix(detections@, boxes@, numbers@, before, after, count as int);
            }
            let x: usize = numbers[k];
            let e = boxes[x].extent;
            left = lower_of(left, e.left);
            top = lower_of(top, e.top);
            right = higher_of(right, e.right);
            bottom = higher_of(bottom, e.bottom);
            confidence = higher_of(confidence, detections[x].confidence);
            count += 1;
        } else {
            assert(texts[k as int] != root as int);
        }
        k += 1;
    }
    let x: usize = numbers[first];
    if count == 1 {
        out.push(detections[x].copy());
        proof {
            assert forall|h: spec_fn(Level, Level) -> Level| #[trigger]
                differs_as(*minus, h) implies out@ == old(out)@ + made_one(
                detections@,
                boxes@,
                numbers@,
                members,
                h,
            ) by {
                assert(out@ =~= old(out)@ + seq![detections@[x as int]]);
            }
        }
        return;
    }
    left = higher_of(left, 0);
    top = higher_of(top, 0);
    right = lower_of(right, ONE);
    bottom = lower_of(bottom, ONE);
    if right <= left || bottom <= top {
        assert(out@ =~= old(out)@ + Seq::<Detection>::empty());
        return;
    }
    let width: Level = minus(right, left);
    let height: Level = minus(bottom, top);
    let merged = Detection {
        x: left,
        y: top,
        width,
        height,
        confidence,
        label: detections[x].label.clone(),
    };
    let ghost made = merged;
    out.push(merged);
    proof {
        assert forall|h: spec_fn(Level, Level) -> Level| #[trigger]
            differs_as(*minus, h) implies out@ == old(out)@ + made_one(
            detections@,
            boxes@,
            numbers@,
            members,
            h,
        ) by {
            assert(width == h(right, left));
            assert(height == h(bottom, top));
            assert(out@ =~= old(out)@ + seq![made]);
        }
    }
}

proof fn lemma_bounds_prefix(
    detections: Seq<Detection>,
    boxes: Seq<BoxMeasure>,
    numbers: Seq<usize>,
    a: Seq<int>,
    b: Seq<int>,
    k: int,
)
    requires
        0 <= k <= a.len(),
        k <= b.len(),
        forall|j: int| 0 <= j < k ==> #[trigger] a[j] == b[j],
    ensures
        bounds_of(detections, boxes, numbers, a, k) == bounds_of(
            detections,
            boxes,
            numbers,
            b,
            k,
        ),
    decreases k,
{
    if k > 0 {
        lemma_bounds_prefix(detections, boxes, numbers, a, b, k - 1);
        assert(a[k - 1] == b[k - 1]);
    }
}

/// Adds what the boxes of one class are made into.
fn merge_cluster<F: Fn(usize, usize) -> PairMeasure, M: Fn(Level, Level) -> Level>(
    detections: &Vec<Detection>,
    boxes: &Vec<BoxMeasure>,
    numbers: &Vec<usize>,
    relate: &F,
    minus: &M,
    rule: &MergeRule,
    out: &mut Vec<Detection>,
)
    requires
        boxes@.len() == detections@.len(),
        forall|k: int| 0 <= k < numbers@.len() ==> (#[trigger] numbers@[k]) < boxes@.len(),
        can_relate(*relate, boxes@.len()),
        can_differ(*minus),
    ensures
        forall|
            g: spec_fn(usize, usize) -> PairMeasure,
            h: spec_fn(Level, Level) -> Level,
        |
            #![trigger relates_as(*relate, g), differs_as(*minus, h)]
            relates_as(*relate, g) && differs_as(*minus, h) ==> final(out)@ == old(out)@
                + class_merged(detections@, boxes@, numbers@, g, h, *rule),
{
    let roots = cluster_roots(boxes, numbers, relate, rule);
    let ghost texts = roots@.map_values(|r: usize| r as int);
    let ghost start = out@;
    let n: usize = numbers.len();
    let mut i: usize = 0;
    assert(start + Seq::<Detection>::empty() =~= start);
    while i < n
        invariant
            i <= n,
            n == numbers@.len(),
            n == roots@.len(),
            boxes@.len() == detections@.len(),
            texts == roots@.map_values(|r: usize| r as int),
            forall|k: int| 0 <= k < numbers@.len() ==> (#[trigger] numbers@[k]) < boxes@.len(),
            can_differ(*minus),
            forall|h: spec_fn(Level, Level) -> Level| #[trigger]
                differs_as(*minus, h) ==> out@ == start + clusters_merged(
                    detections@,
                    boxes@,
                    numbers@,
                    texts,
                    h,
                    i as int,
                ),
        decreases n - i,
    {
        let root: usize = roots[i];
        let mut first = true;
        let mut j: usize = 0;
        while j < i
            invariant
                j <= i < roots@.len(),
                root == roots@[i as int],
                first == forall|k: int| 0 <= k < j ==> #[trigger] roots@[k] != root,
            decreases i - j,
        {
            if roots[j] == root {
                first = false;
            }
            j += 1;
        }
        proof {
            assert(first == is_first(texts, i as int)) by {
                if first {
                    assert forall|k: int| 0 <= k < i implies #[trigger] texts[k]
                        != texts[i as int] by {
                        assert(roots@[k] != root);
                    }
                } else {
                    let k = choose|k: int| 0 <= k < i && roots@[k] == root;
                    assert(texts[k] == texts[i as int]);
                }
            }
        }
        let ghost before = out@;
        if first {
            make_one(detections, boxes, numbers, &roots, root, i, minus, out);
        }
        proof {
            assert forall|h: spec_fn(Level, Level) -> Level| #[trigger]
                differs_as(*minus, h) implies out@ == start + clusters_merged(
                detections@,
                boxes@,
                numbers@,
                texts,
                h,
                i + 1,
            ) by {
                let so_far = clusters_merged(
                    detections@,
                    boxes@,
                    numbers@,
                    texts,
                    h,
                    i as int,
                );
                assert(before == start + so_far);
                if first {
                    let more = made_one(
                        detections@,
                        boxes@,
                        numbers@,
                        cluster_of(texts, texts[i as int], texts.len() as int),
                        h,
                    );
                    assert((start + so_far) + more =~= start + (so_far + more));
                }
            }
        }
        i += 1;
    }
}

/// Merges the boxes of each class that belong together. `boxes` holds the measures of each
/// box, `relate` gives how two of them lie to each other, by their numbers, and `minus` the
/// difference of two values. Of the classes in `contained` a share is demanded.
pub fn merge_detections_contained<
    F: Fn(usize, usize) -> PairMeasure,
    M: Fn(Level, Level) -> Level,
>(
    detections: &Vec<Detection>,
    boxes: &Vec<BoxMeasure>,
    relate: &F,
    minus: &M,
    rule: &MergeRule,
    contained: &Vec<String>,
) -> (merged: Vec<Detection>)
    requires
        boxes@.len() == detections@.len(),
        can_relate(*relate, boxes@.len()),
        can_differ(*minus),
    ensures
        forall|
            g: spec_fn(usize, usize) -> PairMeasure,
            h: spec_fn(Level, Level) -> Level,
        |
            #![trigger relates_as(*relate, g), differs_as(*minus, h)]
            relates_as(*relate, g) && differs_as(*minus, h) ==> merged@ == all_merged(
                detections@,
                boxes@,
                g,
                h,
                *rule,
                contained@,
            ),
{
    let labels = distinct_labels(detections);
    let ghost texts = labels@.map_values(|l: String| l@);
    let mut out: Vec<Detection> = Vec::new();
    let mut i: usize = 0;
    while i < labels.len()
        invariant
            i <= labels@.len(),
            texts == labels@.map_values(|l: String| l@),
            boxes@.len() == detections@.len(),
            can_relate(*relate, boxes@.len()),
            can_differ(*minus),
            forall|
                g: spec_fn(usize, usize) -> PairMeasure,
                h: spec_fn(Level, Level) -> Level,
            |
                #![trigger relates_as(*relate, g), differs_as(*minus, h)]
                relates_as(*relate, g) && differs_as(*minus, h) ==> out@ == classes_merged(
                    detections@,
                    boxes@,
                    g,
                    h,
                    *rule,
                    contained@,
                    texts,
                    i as int,
                ),
        decreases labels@.len() - i,
    {
        assert(texts[i as int] == labels@[i as int]@);
        let numbers = find_with_label(detections, &labels[i]);
        let own = MergeRule {
            iou_threshold: rule.iou_threshold,
            close_threshold: rule.close_threshold,
            min_share: if contains_label(contained, &labels[i]) {
                rule.min_share
            } else {
                0
            },
        };
        assert(own == rule_for(*rule, contained@, texts[i as int]));
        merge_cluster(detections, boxes, &numbers, relate, minus, &own, &mut out);
        i += 1;
    }
    out
}

/// Merges the boxes of each class that belong together, with no share demanded.
pub fn merge_detections<F: Fn(usize, usize) -> PairMeasure, M: Fn(Level, Level) -> Level>(
    detections: &Vec<Detection>,
    boxes: &Vec<BoxMeasure>,
    relate: &F,
    minus: &M,
    iou_threshold: Level,
    close_threshold: Level,
) -> (merged: Vec<Detection>)
    requires
        boxes@.len() == detections@.len(),
        can_relate(*relate, boxes@.len()),
        can_differ(*minus),
    ensures
        forall|
            g: spec_fn(usize, usize) -> PairMeasure,
            h: spec_fn(Level, Level) -> Level,
        |
            #![trigger relates_as(*relate, g), differs_as(*minus, h)]
            relates_as(*relate, g) && differs_as(*minus, h) ==> merged@ == all_merged(
                detections@,
                boxes@,
                g,
                h,
                (MergeRule { iou_threshold, close_threshold, min_share: 0 }),
                Seq::empty(),
            ),
{
    let rule = MergeRule { iou_threshold, close_threshold, min_share: 0 };
    let nobody: Vec<String> = Vec::new();
    merge_detections_contained(detections, boxes, relate, minus, &rule, &nobody)
}

} // verus!
