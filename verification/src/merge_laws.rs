//! What holds of merged boxes.
use vstd::arithmetic::power2::lemma2_to64;
use vstd::prelude::*;
use crate::cluster::{
    all_joined, apart, chained, is_chain, law_clusters_are_chains, linked, row_joined,
};
use crate::grouping::{
    is_first_with_its_label, labels_of, law_labels_come_in_order, lemma_labels_are_met,
    numbers_with,
};
use crate::merge::{
    all_merged, belong_together, bounds_of, class_merged, classes_merged, cluster_of,
    clusters_merged, is_first, made_one, related, rule_for, BoxMeasure, Bounds, MergeRule,
    PairMeasure, FRAGMENT_SHARE,
};
use crate::reading::{larger, lemma_is_nearest, level_is, smaller, Level, ONE};
use crate::types::{Detection, Extent};

verus! {

/// Two boxes of a class end up in one exactly if a chain of boxes leads from one to the
/// other of which each belongs together with the next.
pub proof fn law_merged_boxes_are_chained(
    boxes: Seq<BoxMeasure>,
    numbers: Seq<usize>,
    relate: spec_fn(usize, usize) -> PairMeasure,
    rule: MergeRule,
    i: int,
    j: int,
)
    requires
        0 <= i < numbers.len(),
        0 <= j < numbers.len(),
    ensures
        ({
            let r = related(boxes, numbers, relate, rule);
            let roots = all_joined(r, numbers.len(), numbers.len() as int);
            roots[i] == roots[j] <==> chained(r, numbers.len(), i, j)
        }),
{
    law_clusters_are_chains(
        related(boxes, numbers, relate, rule),
        numbers.len(),
        i,
        j,
    );
}

/// Where there is nothing to merge, nothing comes out.
pub proof fn law_nothing_makes_nothing(
    boxes: Seq<BoxMeasure>,
    relate: spec_fn(usize, usize) -> PairMeasure,
    minus: spec_fn(Level, Level) -> Level,
    rule: MergeRule,
    contained: Seq<String>,
)
    ensures
        all_merged(Seq::empty(), boxes, relate, minus, rule, contained).len() == 0,
{
}

/// The only box of its class stays as it is.
pub proof fn law_a_single_box_stays(
    detections: Seq<Detection>,
    boxes: Seq<BoxMeasure>,
    x: usize,
    relate: spec_fn(usize, usize) -> PairMeasure,
    minus: spec_fn(Level, Level) -> Level,
    rule: MergeRule,
)
    ensures
        class_merged(detections, boxes, seq![x], relate, minus, rule) == seq![
            detections[x as int],
        ],
{
    let numbers = seq![x];
    let r = related(boxes, numbers, relate, rule);
    reveal_with_fuel(all_joined, 2);
    reveal_with_fuel(row_joined, 2);
    let roots = all_joined(r, 1, 1);
    assert(roots =~= apart(1));
    reveal_with_fuel(cluster_of, 2);
    reveal_with_fuel(clusters_merged, 2);
    let members = cluster_of(roots, roots[0], 1);
    assert(members =~= seq![0int]);
    assert(is_first(roots, 0));
    assert(class_merged(detections, boxes, numbers, relate, minus, rule) =~= seq![
        detections[x as int],
    ]);
}

proof fn lemma_clusters_keep_the_class(
    detections: Seq<Detection>,
    boxes: Seq<BoxMeasure>,
    numbers: Seq<usize>,
    roots: Seq<int>,
    minus: spec_fn(Level, Level) -> Level,
    label: Seq<char>,
    n: int,
)
    requires
        0 <= n <= roots.len(),
        roots.len() == numbers.len(),
        forall|k: int|
            0 <= k < numbers.len() ==> detections[#[trigger] numbers[k] as int].label@ == label,
    ensures
        ({
            let out = clusters_merged(detections, boxes, numbers, roots, minus, n);
            forall|k: int| 0 <= k < out.len() ==> (#[trigger] out[k]).label@ == label
        }),
    decreases n,
{
    if n > 0 {
        lemma_clusters_keep_the_class(detections, boxes, numbers, roots, minus, label, n - 1);
        let members = cluster_of(roots, roots[n - 1], roots.len() as int);
        lemma_members_are_members(roots, roots[n - 1], roots.len() as int);
        lemma_cluster_has(roots, n - 1, roots.len() as int);
        assert(0 <= members[0] < roots.len());
        assert(detections[numbers[members[0]] as int].label@ == label);
        let before = clusters_merged(detections, boxes, numbers, roots, minus, n - 1);
        let more = made_one(detections, boxes, numbers, members, minus);
        assert forall|k: int| 0 <= k < more.len() implies (#[trigger] more[k]).label@ == label by {}
        let out = clusters_merged(detections, boxes, numbers, roots, minus, n);
        assert forall|k: int| 0 <= k < out.len() implies (#[trigger] out[k]).label@ == label by {
            if k < before.len() {
                assert(out[k] == before[k]);
            } else {
                assert(out[k] == more[k - before.len()]);
            }
        }
    }
}

pub proof fn lemma_members_are_members(roots: Seq<int>, root: int, n: int)
    requires
        0 <= n <= roots.len(),
    ensures
        forall|k: int|
            0 <= k < cluster_of(roots, root, n).len() ==> 0 <= #[trigger] cluster_of(
                roots,
                root,
                n,
            )[k] < n && roots[cluster_of(roots, root, n)[k]] == root,
    decreases n,
{
    if n > 0 {
        lemma_members_are_members(roots, root, n - 1);
        let before = cluster_of(roots, root, n - 1);
        let all = cluster_of(roots, root, n);
        assert forall|k: int| 0 <= k < all.len() implies 0 <= #[trigger] all[k] < n && roots[all[k]]
            == root by {
            if k < before.len() {
                assert(all[k] == before[k]);
            }
        }
    }
}

pub proof fn lemma_cluster_has(roots: Seq<int>, i: int, n: int)
    requires
        0 <= i < n <= roots.len(),
    ensures
        cluster_of(roots, roots[i], n).contains(i),
        cluster_of(roots, roots[i], n).len() > 0,
    decreases n,
{
    let all = cluster_of(roots, roots[i], n);
    if i == n - 1 {
        assert(all[all.len() - 1] == i);
    } else {
        lemma_cluster_has(roots, i, n - 1);
        let before = cluster_of(roots, roots[i], n - 1);
        let k = choose|k: int| 0 <= k < before.len() && before[k] == i;
        assert(all[k] == i);
    }
}

/// Boxes of different classes are never merged: whatever the boxes of a class are made into
/// is of that class.
pub proof fn law_merging_keeps_the_class(
    detections: Seq<Detection>,
    boxes: Seq<BoxMeasure>,
    numbers: Seq<usize>,
    relate: spec_fn(usize, usize) -> PairMeasure,
    minus: spec_fn(Level, Level) -> Level,
    rule: MergeRule,
    label: Seq<char>,
)
    requires
        forall|k: int|
            0 <= k < numbers.len() ==> detections[#[trigger] numbers[k] as int].label@ == label,
    ensures
        ({
            let out = class_merged(detections, boxes, numbers, relate, minus, rule);
            forall|k: int| 0 <= k < out.len() ==> (#[trigger] out[k]).label@ == label
        }),
{
    let n = numbers.len();
    let r = related(boxes, numbers, relate, rule);
    lemma_joined_len(r, n, n as int);
    lemma_clusters_keep_the_class(
        detections,
        boxes,
        numbers,
        all_joined(r, n, n as int),
        minus,
        label,
        n as int,
    );
}

proof fn lemma_row_len(r: spec_fn(int, int) -> bool, roots: Seq<int>, i: int, j: int)
    ensures
        row_joined(r, roots, i, j).len() == roots.len(),
    decreases j,
{
    if j > i + 1 && j > 0 {
        lemma_row_len(r, roots, i, j - 1);
    }
}

pub proof fn lemma_joined_len(r: spec_fn(int, int) -> bool, n: nat, i: int)
    ensures
        all_joined(r, n, i).len() == n,
    decreases i,
{
    if i > 0 {
        lemma_joined_len(r, n, i - 1);
        lemma_row_len(r, all_joined(r, n, i - 1), i - 1, n as int);
    }
}

/// The box around a cluster covers every box in it, and its score is that of the best.
pub proof fn law_bounds_cover_the_members(
    detections: Seq<Detection>,
    boxes: Seq<BoxMeasure>,
    numbers: Seq<usize>,
    members: Seq<int>,
    k: int,
    i: int,
)
    requires
        0 <= i < k <= members.len(),
    ensures
        ({
            let b = bounds_of(detections, boxes, numbers, members, k);
            let x = numbers[members[i]] as int;
            &&& b.left <= boxes[x].extent.left
            &&& b.top <= boxes[x].extent.top
            &&& b.right >= boxes[x].extent.right
            &&& b.bottom >= boxes[x].extent.bottom
            &&& b.confidence >= detections[x].confidence
        }),
    decreases k,
{
    if i < k - 1 {
        law_bounds_cover_the_members(detections, boxes, numbers, members, k - 1, i);
    }
}

/// What is merged lies inside the image and has a width and a height.
pub proof fn law_merged_boxes_lie_in_the_image(b: Bounds)
    requires
        b.cut().right > b.cut().left,
        b.cut().bottom > b.cut().top,
    ensures
        0 <= b.cut().left < b.cut().right <= ONE,
        0 <= b.cut().top < b.cut().bottom <= ONE,
{
}

pub proof fn lemma_numbers(detections: Seq<Detection>, label: Seq<char>, n: int)
    requires
        0 <= n <= detections.len(),
        n <= usize::MAX,
    ensures
        ({
            let numbers = numbers_with(detections, label, n);
            &&& numbers.len() <= n
            &&& forall|k: int|
                0 <= k < numbers.len() ==> (#[trigger] numbers[k]) < n
                    && detections[numbers[k] as int].label@ == label
            &&& forall|k: int, l: int|
                0 <= k < l < numbers.len() ==> #[trigger] numbers[k] < #[trigger] numbers[l]
            &&& forall|x: usize|
                x < n && detections[x as int].label@ == label ==> #[trigger] numbers.contains(x)
        }),
    decreases n,
{
    if n > 0 {
        lemma_numbers(detections, label, n - 1);
        let before = numbers_with(detections, label, n - 1);
        let numbers = numbers_with(detections, label, n);
        assert forall|x: usize|
            x < n && detections[x as int].label@ == label implies #[trigger] numbers.contains(
            x,
        ) by {
            if x < n - 1 {
                assert(before.contains(x));
                let k = choose|k: int| 0 <= k < before.len() && before[k] == x;
                assert(numbers[k] == x);
            } else {
                assert(numbers[before.len() as int] == x);
            }
        }
    }
}

proof fn lemma_nobody_else(r: spec_fn(int, int) -> bool, n: nat, i: int, j: int)
    requires
        0 <= i < n,
        0 <= j < n,
        forall|k: int| 0 <= k < n ==> !#[trigger] linked(r, i, k),
        chained(r, n, i, j),
    ensures
        i == j,
{
    let path = choose|path: Seq<int>| #[trigger]
        is_chain(r, n, path) && path[0] == i && path.last() == j;
    if path.len() > 1 {
        assert(linked(r, path[0], path[1]));
        assert(0 <= path[1] < n);
    }
}

proof fn lemma_cluster_of_one(roots: Seq<int>, i: int, n: int)
    requires
        0 <= n <= roots.len(),
        0 <= i < roots.len(),
        forall|j: int| 0 <= j < roots.len() && j != i ==> #[trigger] roots[j] != roots[i],
    ensures
        cluster_of(roots, roots[i], n) == (if n > i {
            seq![i]
        } else {
            Seq::empty()
        }),
    decreases n,
{
    if n > 0 {
        lemma_cluster_of_one(roots, i, n - 1);
        if n - 1 == i {
            assert(cluster_of(roots, roots[i], n) =~= seq![i]);
        }
    }
}

proof fn lemma_lone_cluster_stays(
    detections: Seq<Detection>,
    boxes: Seq<BoxMeasure>,
    numbers: Seq<usize>,
    roots: Seq<int>,
    minus: spec_fn(Level, Level) -> Level,
    i: int,
    n: int,
)
    requires
        0 <= i < n <= roots.len(),
        forall|j: int| 0 <= j < roots.len() && j != i ==> #[trigger] roots[j] != roots[i],
    ensures
        clusters_merged(detections, boxes, numbers, roots, minus, n).contains(
            detections[numbers[i] as int],
        ),
    decreases n,
{
    let own = detections[numbers[i] as int];
    let before = clusters_merged(detections, boxes, numbers, roots, minus, n - 1);
    let out = clusters_merged(detections, boxes, numbers, roots, minus, n);
    if i < n - 1 {
        lemma_lone_cluster_stays(detections, boxes, numbers, roots, minus, i, n - 1);
        let k = choose|k: int| 0 <= k < before.len() && before[k] == own;
        assert(out[k] == own);
    } else {
        lemma_cluster_of_one(roots, i, roots.len() as int);
        assert(is_first(roots, i));
        assert(out[before.len() as int] == own);
    }
}

proof fn lemma_lone_box_stays_in_its_class(
    detections: Seq<Detection>,
    boxes: Seq<BoxMeasure>,
    numbers: Seq<usize>,
    relate: spec_fn(usize, usize) -> PairMeasure,
    minus: spec_fn(Level, Level) -> Level,
    rule: MergeRule,
    i: int,
)
    requires
        0 <= i < numbers.len(),
        forall|j: int|
            0 <= j < numbers.len() ==> !#[trigger] linked(
                related(boxes, numbers, relate, rule),
                i,
                j,
            ),
    ensures
        class_merged(detections, boxes, numbers, relate, minus, rule).contains(
            detections[numbers[i] as int],
        ),
{
    let n = numbers.len();
    let r = related(boxes, numbers, relate, rule);
    let roots = all_joined(r, n, n as int);
    lemma_joined_len(r, n, n as int);
    assert forall|j: int| 0 <= j < roots.len() && j != i implies #[trigger] roots[j]
        != roots[i] by {
        law_clusters_are_chains(r, n, i, j);
        if roots[i] == roots[j] {
            lemma_nobody_else(r, n, i, j);
        }
    }
    lemma_lone_cluster_stays(detections, boxes, numbers, roots, minus, i, n as int);
}

/// Two boxes of a class belong together by the rule for that class, the earlier one taken
/// first.
pub open spec fn partners(
    detections: Seq<Detection>,
    boxes: Seq<BoxMeasure>,
    relate: spec_fn(usize, usize) -> PairMeasure,
    rule: MergeRule,
    contained: Seq<String>,
    x: usize,
    y: usize,
) -> bool {
    let label = detections[x as int].label@;
    let own = rule_for(rule, contained, label);
    &&& detections[y as int].label@ == label
    &&& {
        ||| x < y && belong_together(boxes[x as int], boxes[y as int], relate(x, y), own)
        ||| y < x && belong_together(boxes[y as int], boxes[x as int], relate(y, x), own)
    }
}

proof fn lemma_class_is_merged(
    detections: Seq<Detection>,
    boxes: Seq<BoxMeasure>,
    relate: spec_fn(usize, usize) -> PairMeasure,
    minus: spec_fn(Level, Level) -> Level,
    rule: MergeRule,
    contained: Seq<String>,
    labels: Seq<Seq<char>>,
    k: int,
    n: int,
    d: Detection,
)
    requires
        0 <= k < n <= labels.len(),
        class_merged(
            detections,
            boxes,
            numbers_with(detections, labels[k], detections.len() as int),
            relate,
            minus,
            rule_for(rule, contained, labels[k]),
        ).contains(d),
    ensures
        classes_merged(detections, boxes, relate, minus, rule, contained, labels, n).contains(d),
    decreases n,
{
    let before = classes_merged(
        detections,
        boxes,
        relate,
        minus,
        rule,
        contained,
        labels,
        n - 1,
    );
    let last = class_merged(
        detections,
        boxes,
        numbers_with(detections, labels[n - 1], detections.len() as int),
        relate,
        minus,
        rule_for(rule, contained, labels[n - 1]),
    );
    let out = classes_merged(detections, boxes, relate, minus, rule, contained, labels, n);
    assert(out == before + last);
    if k < n - 1 {
        lemma_class_is_merged(
            detections,
            boxes,
            relate,
            minus,
            rule,
            contained,
            labels,
            k,
            n - 1,
            d,
        );
        let j = choose|j: int| 0 <= j < before.len() && before[j] == d;
        assert(out[j] == d);
    } else {
        let j = choose|j: int| 0 <= j < last.len() && last[j] == d;
        assert(out[before.len() + j] == d);
    }
}

/// A box that belongs together with no other box of its class comes out as it went in.
pub proof fn law_a_lone_box_stays(
    detections: Seq<Detection>,
    boxes: Seq<BoxMeasure>,
    relate: spec_fn(usize, usize) -> PairMeasure,
    minus: spec_fn(Level, Level) -> Level,
    rule: MergeRule,
    contained: Seq<String>,
    x: usize,
)
    requires
        x < detections.len() <= usize::MAX,
        forall|y: usize|
            y < detections.len() ==> !#[trigger] partners(
                detections,
                boxes,
                relate,
                rule,
                contained,
                x,
                y,
            ),
    ensures
        all_merged(detections, boxes, relate, minus, rule, contained).contains(
            detections[x as int],
        ),
{
    let n = detections.len() as int;
    let label = detections[x as int].label@;
    let own = rule_for(rule, contained, label);
    let numbers = numbers_with(detections, label, n);
    lemma_numbers(detections, label, n);
    assert(numbers.contains(x));
    let i = choose|i: int| 0 <= i < numbers.len() && numbers[i] == x;
    let r = related(boxes, numbers, relate, own);
    assert forall|j: int| 0 <= j < numbers.len() implies !#[trigger] linked(r, i, j) by {
        assert(!partners(detections, boxes, relate, rule, contained, x, numbers[j]));
    }
    lemma_lone_box_stays_in_its_class(detections, boxes, numbers, relate, minus, own, i);
    let labels = labels_of(detections, n);
    lemma_labels_are_met(detections, n);
    assert(labels.contains(label));
    let k = choose|k: int| 0 <= k < labels.len() && labels[k] == label;
    lemma_class_is_merged(
        detections,
        boxes,
        relate,
        minus,
        rule,
        contained,
        labels,
        k,
        labels.len() as int,
        detections[x as int],
    );
}

proof fn lemma_merged_labels(
    detections: Seq<Detection>,
    boxes: Seq<BoxMeasure>,
    relate: spec_fn(usize, usize) -> PairMeasure,
    minus: spec_fn(Level, Level) -> Level,
    rule: MergeRule,
    contained: Seq<String>,
    labels: Seq<Seq<char>>,
    n: int,
)
    requires
        0 <= n <= labels.len(),
        detections.len() <= usize::MAX,
    ensures
        ({
            let out = classes_merged(
                detections,
                boxes,
                relate,
                minus,
                rule,
                contained,
                labels,
                n,
            );
            forall|k: int| 0 <= k < out.len() ==> labels.contains((#[trigger] out[k]).label@)
        }),
    decreases n,
{
    if n > 0 {
        lemma_merged_labels(detections, boxes, relate, minus, rule, contained, labels, n - 1);
        let label = labels[n - 1];
        let numbers = numbers_with(detections, label, detections.len() as int);
        lemma_numbers(detections, label, detections.len() as int);
        law_merging_keeps_the_class(
            detections,
            boxes,
            numbers,
            relate,
            minus,
            rule_for(rule, contained, label),
            label,
        );
        let before = classes_merged(
            detections,
            boxes,
            relate,
            minus,
            rule,
            contained,
            labels,
            n - 1,
        );
        let last = class_merged(
            detections,
            boxes,
            numbers,
            relate,
            minus,
            rule_for(rule, contained, label),
        );
        let out = classes_merged(detections, boxes, relate, minus, rule, contained, labels, n);
        assert(out == before + last);
        assert forall|k: int| 0 <= k < out.len() implies labels.contains(
            (#[trigger] out[k]).label@,
        ) by {
            if k < before.len() {
                assert(out[k] == before[k]);
            } else {
                assert(out[k] == last[k - before.len()]);
                assert(labels[n - 1] == label);
            }
        }
    }
}

/// No class comes out that did not go in.
pub proof fn law_no_class_is_made_up(
    detections: Seq<Detection>,
    boxes: Seq<BoxMeasure>,
    relate: spec_fn(usize, usize) -> PairMeasure,
    minus: spec_fn(Level, Level) -> Level,
    rule: MergeRule,
    contained: Seq<String>,
    k: int,
)
    requires
        detections.len() <= usize::MAX,
        0 <= k < all_merged(detections, boxes, relate, minus, rule, contained).len(),
    ensures
        exists|j: int|
            0 <= j < detections.len() && (#[trigger] detections[j]).label@ == all_merged(
                detections,
                boxes,
                relate,
                minus,
                rule,
                contained,
            )[k].label@,
{
    let n = detections.len() as int;
    let labels = labels_of(detections, n);
    lemma_labels_are_met(detections, n);
    lemma_merged_labels(
        detections,
        boxes,
        relate,
        minus,
        rule,
        contained,
        labels,
        labels.len() as int,
    );
    let d = all_merged(detections, boxes, relate, minus, rule, contained)[k];
    assert(labels.contains(d.label@));
}

/// How many of the first `n` detections have one of the first `m` labels.
spec fn bearers(detections: Seq<Detection>, labels: Seq<Seq<char>>, m: int, n: int) -> nat
    decreases m,
{
    if m <= 0 {
        0
    } else {
        bearers(detections, labels, m - 1, n) + numbers_with(detections, labels[m - 1], n).len()
    }
}

proof fn lemma_one_more_bearer(
    detections: Seq<Detection>,
    labels: Seq<Seq<char>>,
    m: int,
    n: int,
)
    requires
        0 <= m <= labels.len(),
        0 < n <= detections.len(),
        forall|a: int, b: int|
            0 <= a < b < labels.len() ==> #[trigger] labels[a] != #[trigger] labels[b],
    ensures
        bearers(detections, labels, m, n) <= bearers(detections, labels, m, n - 1) + 1,
        (forall|k: int| 0 <= k < m ==> #[trigger] labels[k] != detections[n - 1].label@)
            ==> bearers(detections, labels, m, n) == bearers(detections, labels, m, n - 1),
    decreases m,
{
    if m > 0 {
        lemma_one_more_bearer(detections, labels, m - 1, n);
        if labels[m - 1] == detections[n - 1].label@ {
            assert forall|k: int| 0 <= k < m - 1 implies #[trigger] labels[k]
                != detections[n - 1].label@ by {
                assert(labels[k] != labels[m - 1]);
            }
        }
    }
}

proof fn lemma_bearers(detections: Seq<Detection>, labels: Seq<Seq<char>>, m: int, n: int)
    requires
        0 <= m <= labels.len(),
        0 <= n <= detections.len(),
        forall|a: int, b: int|
            0 <= a < b < labels.len() ==> #[trigger] labels[a] != #[trigger] labels[b],
    ensures
        bearers(detections, labels, m, n) <= n,
    decreases n, m,
{
    if n > 0 {
        lemma_bearers(detections, labels, m, n - 1);
        lemma_one_more_bearer(detections, labels, m, n);
    } else if m > 0 {
        lemma_bearers(detections, labels, m - 1, n);
    }
}

proof fn lemma_clusters_never_add(
    detections: Seq<Detection>,
    boxes: Seq<BoxMeasure>,
    numbers: Seq<usize>,
    roots: Seq<int>,
    minus: spec_fn(Level, Level) -> Level,
    n: int,
)
    requires
        0 <= n,
    ensures
        clusters_merged(detections, boxes, numbers, roots, minus, n).len() <= n,
    decreases n,
{
    if n > 0 {
        lemma_clusters_never_add(detections, boxes, numbers, roots, minus, n - 1);
    }
}

proof fn lemma_classes_never_add(
    detections: Seq<Detection>,
    boxes: Seq<BoxMeasure>,
    relate: spec_fn(usize, usize) -> PairMeasure,
    minus: spec_fn(Level, Level) -> Level,
    rule: MergeRule,
    contained: Seq<String>,
    labels: Seq<Seq<char>>,
    m: int,
)
    requires
        0 <= m <= labels.len(),
    ensures
        classes_merged(detections, boxes, relate, minus, rule, contained, labels, m).len()
            <= bearers(detections, labels, m, detections.len() as int),
    decreases m,
{
    if m > 0 {
        lemma_classes_never_add(
            detections,
            boxes,
            relate,
            minus,
            rule,
            contained,
            labels,
            m - 1,
        );
        let numbers = numbers_with(detections, labels[m - 1], detections.len() as int);
        let own = rule_for(rule, contained, labels[m - 1]);
        let n = numbers.len();
        lemma_clusters_never_add(
            detections,
            boxes,
            numbers,
            all_joined(related(boxes, numbers, relate, own), n, n as int),
            minus,
            n as int,
        );
    }
}

/// No more boxes come out than went in.
pub proof fn law_merging_never_adds(
    detections: Seq<Detection>,
    boxes: Seq<BoxMeasure>,
    relate: spec_fn(usize, usize) -> PairMeasure,
    minus: spec_fn(Level, Level) -> Level,
    rule: MergeRule,
    contained: Seq<String>,
)
    ensures
        all_merged(detections, boxes, relate, minus, rule, contained).len() <= detections.len(),
{
    let n = detections.len() as int;
    let labels = labels_of(detections, n);
    lemma_labels_are_met(detections, n);
    lemma_classes_never_add(
        detections,
        boxes,
        relate,
        minus,
        rule,
        contained,
        labels,
        labels.len() as int,
    );
    lemma_bearers(detections, labels, labels.len() as int, n);
}

/// The box reaches to these edges.
pub open spec fn reaches(
    d: Detection,
    minus: spec_fn(Level, Level) -> Level,
    right: Level,
    bottom: Level,
) -> bool {
    d.width == minus(right, d.x) && d.height == minus(bottom, d.y)
}

/// What comes out is what went in, or of its class with at least its score and around all of
/// it that lies in the image.
pub open spec fn covers(
    out: Detection,
    d: Detection,
    e: Extent,
    minus: spec_fn(Level, Level) -> Level,
) -> bool {
    &&& out.label@ == d.label@
    &&& out.confidence >= d.confidence
    &&& out == d || exists|right: Level, bottom: Level| #[trigger]
        reaches(out, minus, right, bottom) && out.x <= larger(e.left, 0) && out.y <= larger(
            e.top,
            0,
        ) && right >= smaller(e.right, ONE) && bottom >= smaller(e.bottom, ONE)
}

/// Some of these boxes cover the box.
pub open spec fn is_covered(
    out: Seq<Detection>,
    d: Detection,
    e: Extent,
    minus: spec_fn(Level, Level) -> Level,
) -> bool {
    exists|k: int| 0 <= k < out.len() && covers(#[trigger] out[k], d, e, minus)
}

proof fn lemma_first_of_cluster(roots: Seq<int>, i: int) -> (first: int)
    requires
        0 <= i < roots.len(),
    ensures
        0 <= first <= i,
        roots[first] == roots[i],
        is_first(roots, first),
    decreases i,
{
    if is_first(roots, i) {
        i
    } else {
        let j = choose|j: int| 0 <= j < i && #[trigger] roots[j] == roots[i];
        lemma_first_of_cluster(roots, j)
    }
}

proof fn lemma_cluster_is_merged(
    detections: Seq<Detection>,
    boxes: Seq<BoxMeasure>,
    numbers: Seq<usize>,
    roots: Seq<int>,
    minus: spec_fn(Level, Level) -> Level,
    first: int,
    n: int,
    d: Detection,
)
    requires
        0 <= first < n <= roots.len(),
        is_first(roots, first),
        made_one(
            detections,
            boxes,
            numbers,
            cluster_of(roots, roots[first], roots.len() as int),
            minus,
        ).contains(d),
    ensures
        clusters_merged(detections, boxes, numbers, roots, minus, n).contains(d),
    decreases n,
{
    let before = clusters_merged(detections, boxes, numbers, roots, minus, n - 1);
    let out = clusters_merged(detections, boxes, numbers, roots, minus, n);
    if first < n - 1 {
        lemma_cluster_is_merged(
            detections,
            boxes,
            numbers,
            roots,
            minus,
            first,
            n - 1,
            d,
        );
        let k = choose|k: int| 0 <= k < before.len() && before[k] == d;
        assert(out[k] == d);
    } else {
        let made = made_one(
            detections,
            boxes,
            numbers,
            cluster_of(roots, roots[first], roots.len() as int),
            minus,
        );
        let k = choose|k: int| 0 <= k < made.len() && made[k] == d;
        assert(out[before.len() + k] == d);
    }
}

/// The place of a box among those of its class.
pub open spec fn place_in_class(numbers: Seq<usize>, x: usize) -> int {
    choose|i: int| 0 <= i < numbers.len() && #[trigger] numbers[i] == x
}

/// What the boxes that are merged with this one are made into, if anything.
pub open spec fn made_of(
    detections: Seq<Detection>,
    boxes: Seq<BoxMeasure>,
    relate: spec_fn(usize, usize) -> PairMeasure,
    minus: spec_fn(Level, Level) -> Level,
    rule: MergeRule,
    contained: Seq<String>,
    x: usize,
) -> Seq<Detection> {
    let label = detections[x as int].label@;
    let numbers = numbers_with(detections, label, detections.len() as int);
    let n = numbers.len();
    let roots = all_joined(
        related(boxes, numbers, relate, rule_for(rule, contained, label)),
        n,
        n as int,
    );
    let root = roots[place_in_class(numbers, x)];
    made_one(detections, boxes, numbers, cluster_of(roots, root, n as int), minus)
}

/// No box is lost: every box is covered by one that comes out, of the same class and with at
/// least its score, unless all it is merged with has no area inside the image.
pub proof fn law_every_box_is_covered(
    detections: Seq<Detection>,
    boxes: Seq<BoxMeasure>,
    relate: spec_fn(usize, usize) -> PairMeasure,
    minus: spec_fn(Level, Level) -> Level,
    rule: MergeRule,
    contained: Seq<String>,
    x: usize,
)
    requires
        x < detections.len() <= usize::MAX,
        made_of(detections, boxes, relate, minus, rule, contained, x).len() > 0,
    ensures
        is_covered(
            all_merged(detections, boxes, relate, minus, rule, contained),
            detections[x as int],
            boxes[x as int].extent,
            minus,
        ),
{
    let n = detections.len() as int;
    let own = detections[x as int];
    let e = boxes[x as int].extent;
    let label = own.label@;
    let numbers = numbers_with(detections, label, n);
    lemma_numbers(detections, label, n);
    assert(numbers.contains(x));
    let i = place_in_class(numbers, x);
    let count = numbers.len();
    let r = related(boxes, numbers, relate, rule_for(rule, contained, label));
    let roots = all_joined(r, count, count as int);
    lemma_joined_len(r, count, count as int);
    let first = lemma_first_of_cluster(roots, i);
    let members = cluster_of(roots, roots[first], count as int);
    lemma_members_are_members(roots, roots[first], count as int);
    lemma_cluster_has(roots, i, count as int);
    let at = choose|at: int| 0 <= at < members.len() && members[at] == i;
    law_bounds_cover_the_members(
        detections,
        boxes,
        numbers,
        members,
        members.len() as int,
        at,
    );
    let made = made_one(detections, boxes, numbers, members, minus);
    let b = bounds_of(detections, boxes, numbers, members, members.len() as int).cut();
    assert(detections[numbers[members[0]] as int].label@ == label);
    assert(made.len() == 1);
    let out = made[0];
    assert(covers(out, own, e, minus)) by {
        if members.len() > 1 {
            assert(reaches(out, minus, b.right, b.bottom));
        }
    }
    assert(made.contains(out));
    lemma_cluster_is_merged(
        detections,
        boxes,
        numbers,
        roots,
        minus,
        first,
        count as int,
        out,
    );
    let labels = labels_of(detections, n);
    lemma_labels_are_met(detections, n);
    assert(labels.contains(label));
    let k = choose|k: int| 0 <= k < labels.len() && labels[k] == label;
    lemma_class_is_merged(
        detections,
        boxes,
        relate,
        minus,
        rule,
        contained,
        labels,
        k,
        labels.len() as int,
        out,
    );
    let all = all_merged(detections, boxes, relate, minus, rule, contained);
    let z = choose|z: int| 0 <= z < all.len() && all[z] == out;
    assert(covers(all[z], own, e, minus));
}

/// A box with an area inside the image never goes without a trace.
pub proof fn law_boxes_in_the_image_stay(
    detections: Seq<Detection>,
    boxes: Seq<BoxMeasure>,
    relate: spec_fn(usize, usize) -> PairMeasure,
    minus: spec_fn(Level, Level) -> Level,
    rule: MergeRule,
    contained: Seq<String>,
    x: usize,
)
    requires
        x < detections.len() <= usize::MAX,
        ({
            let e = boxes[x as int].extent;
            &&& larger(e.left, 0) < smaller(e.right, ONE)
            &&& larger(e.top, 0) < smaller(e.bottom, ONE)
        }),
    ensures
        made_of(detections, boxes, relate, minus, rule, contained, x).len() > 0,
{
    let n = detections.len() as int;
    let label = detections[x as int].label@;
    let numbers = numbers_with(detections, label, n);
    lemma_numbers(detections, label, n);
    assert(numbers.contains(x));
    let i = place_in_class(numbers, x);
    let count = numbers.len();
    let r = related(boxes, numbers, relate, rule_for(rule, contained, label));
    let roots = all_joined(r, count, count as int);
    lemma_joined_len(r, count, count as int);
    let members = cluster_of(roots, roots[i], count as int);
    lemma_cluster_has(roots, i, count as int);
    let at = choose|at: int| 0 <= at < members.len() && members[at] == i;
    law_bounds_cover_the_members(
        detections,
        boxes,
        numbers,
        members,
        members.len() as int,
        at,
    );
}

/// A box can be a fragment of another from a share of 0.9 inside it on.
pub proof fn law_a_fragment_is_mostly_inside()
    ensures
        level_is(FRAGMENT_SHARE, 9, 10),
{
    lemma2_to64();
    lemma_is_nearest(1063675494, 0x80_0000, 150, 9, 10, 126, 6710886, 16777216);
}

/// The boxes have inner points in common.
pub open spec fn meet(e: Extent, f: Extent) -> bool {
    &&& e.left < e.right && f.left < f.right && e.left < f.right && f.left < e.right
    &&& e.top < e.bottom && f.top < f.bottom && e.top < f.bottom && f.top < e.bottom
}

/// Two boxes without a common area belong together only if both their left edges and their
/// upper edges are close: one of the two alone is not enough.
pub proof fn law_boxes_apart_do_not_belong_together(
    a: BoxMeasure,
    b: BoxMeasure,
    m: PairMeasure,
    rule: MergeRule,
)
    requires
        m.left_gap > rule.close_threshold || m.top_gap > rule.close_threshold,
        !meet(a.extent, b.extent) || m.inter <= 0,
    ensures
        !belong_together(a, b, m, rule),
{
}

/// Two boxes whose upper left corners are close along both axes belong together, wherever
/// they end, unless a share is demanded; then exactly if they have inner points in common and
/// enough of the smaller one, which has an area, is inside the other.
pub proof fn law_close_corners_belong_together(
    a: BoxMeasure,
    b: BoxMeasure,
    m: PairMeasure,
    rule: MergeRule,
)
    requires
        m.left_gap <= rule.close_threshold,
        m.top_gap <= rule.close_threshold,
    ensures
        rule.min_share <= 0 ==> belong_together(a, b, m, rule),
        rule.min_share > 0 ==> (belong_together(a, b, m, rule) <==> meet(a.extent, b.extent)
            && a.area > 0 && b.area > 0 && m.share >= rule.min_share),
{
}

/// Where no share is demanded, two boxes whose corners are not close belong together exactly
/// if they have an area in common and their overlap is more than the threshold.
pub proof fn law_enough_overlap_belongs_together(
    a: BoxMeasure,
    b: BoxMeasure,
    m: PairMeasure,
    rule: MergeRule,
)
    requires
        m.left_gap > rule.close_threshold || m.top_gap > rule.close_threshold,
        rule.min_share <= 0,
    ensures
        belong_together(a, b, m, rule) <==> meet(a.extent, b.extent) && m.inter > 0 && m.union > 0
            && m.ratio > rule.iou_threshold,
{
}

/// Where a share is demanded, two boxes whose corners are not close belong together exactly
/// if they have an area in common and one is a fragment of the other, mostly inside it and
/// ending where the larger one does, above or below; or their overlap is more than the
/// threshold and enough of the smaller one is inside the other.
pub proof fn law_a_fragment_belongs_to_its_box(
    a: BoxMeasure,
    b: BoxMeasure,
    m: PairMeasure,
    rule: MergeRule,
)
    requires
        m.left_gap > rule.close_threshold || m.top_gap > rule.close_threshold,
        rule.min_share > 0,
    ensures
        ({
            let inside = if a.area > 0 && b.area > 0 {
                m.share
            } else {
                0
            };
            let tolerance = if b.area >= a.area {
                b.tolerance
            } else {
                a.tolerance
            };
            let fragment = inside >= FRAGMENT_SHARE && (m.top_gap <= tolerance || m.bottom_gap
                <= tolerance);
            let enough = m.union > 0 && m.ratio > rule.iou_threshold && inside >= rule.min_share;
            belong_together(a, b, m, rule) <==> meet(a.extent, b.extent) && m.inter > 0 && (fragment
                || enough)
        }),
{
}

/// A share is demanded exactly of the listed classes; the other thresholds are the same for
/// all.
pub proof fn law_a_share_is_demanded_of_the_listed(
    rule: MergeRule,
    contained: Seq<String>,
    label: Seq<char>,
)
    ensures
        rule_for(rule, contained, label).iou_threshold == rule.iou_threshold,
        rule_for(rule, contained, label).close_threshold == rule.close_threshold,
        (exists|i: int| 0 <= i < contained.len() && #[trigger] contained[i]@ == label) ==> rule_for(
            rule,
            contained,
            label,
        ).min_share == rule.min_share,
        (forall|i: int|
            0 <= i < contained.len() ==> #[trigger] contained[i]@ != label) ==> rule_for(
            rule,
            contained,
            label,
        ).min_share == 0,
{
}

/// A box comes out as it went in if each other box of its class is apart from it: without a
/// common area, and with the left or the upper edges farther from each other than is close.
pub proof fn law_a_box_apart_comes_out_as_it_went_in(
    detections: Seq<Detection>,
    boxes: Seq<BoxMeasure>,
    relate: spec_fn(usize, usize) -> PairMeasure,
    minus: spec_fn(Level, Level) -> Level,
    rule: MergeRule,
    contained: Seq<String>,
    x: usize,
)
    requires
        x < detections.len() <= usize::MAX,
        forall|y: usize|
            #![trigger detections[y as int]]
            y < detections.len() && y != x && detections[y as int].label@
                == detections[x as int].label@ ==> {
                let m = if x < y {
                    relate(x, y)
                } else {
                    relate(y, x)
                };
                &&& m.left_gap > rule.close_threshold || m.top_gap > rule.close_threshold
                &&& !meet(boxes[x as int].extent, boxes[y as int].extent) || m.inter <= 0
            },
    ensures
        all_merged(detections, boxes, relate, minus, rule, contained).contains(
            detections[x as int],
        ),
{
    assert forall|y: usize| y < detections.len() implies !#[trigger] partners(
        detections,
        boxes,
        relate,
        rule,
        contained,
        x,
        y,
    ) by {
        assert(detections[y as int].label@ == detections[y as int].label@);
        let own = rule_for(rule, contained, detections[x as int].label@);
        assert(own.close_threshold == rule.close_threshold);
    }
    law_a_lone_box_stays(detections, boxes, relate, minus, rule, contained, x);
}

/// Each edge of the box around a cluster is that of a box in it, or that of the image where
/// none goes beyond, and its score is that of a box in it, or 0 where none is higher.
pub proof fn law_bounds_are_those_of_members(
    detections: Seq<Detection>,
    boxes: Seq<BoxMeasure>,
    numbers: Seq<usize>,
    members: Seq<int>,
    k: int,
)
    requires
        0 <= k <= members.len(),
    ensures
        ({
            let b = bounds_of(detections, boxes, numbers, members, k);
            &&& b.left <= ONE && b.top <= ONE && b.right >= 0 && b.bottom >= 0 && b.confidence >= 0
            &&& b.left == ONE || exists|i: int|
                0 <= i < k && b.left == boxes[numbers[#[trigger] members[i]] as int].extent.left
            &&& b.top == ONE || exists|i: int|
                0 <= i < k && b.top == boxes[numbers[#[trigger] members[i]] as int].extent.top
            &&& b.right == 0 || exists|i: int|
                0 <= i < k && b.right == boxes[numbers[#[trigger] members[i]] as int].extent.right
            &&& b.bottom == 0 || exists|i: int|
                0 <= i < k && b.bottom == boxes[numbers[#[trigger] members[i]] as int].extent.bottom
            &&& b.confidence == 0 || exists|i: int|
                0 <= i < k && b.confidence == detections[numbers[
                    #[trigger] members[i]
                ] as int].confidence
        }),
    decreases k,
{
    if k > 0 {
        law_bounds_are_those_of_members(detections, boxes, numbers, members, k - 1);
        let b = bounds_of(detections, boxes, numbers, members, k);
        let c = bounds_of(detections, boxes, numbers, members, k - 1);
        let x = numbers[members[k - 1]] as int;
        assert(b.left == c.left || b.left == boxes[x].extent.left);
        assert(b.top == c.top || b.top == boxes[x].extent.top);
        assert(b.right == c.right || b.right == boxes[x].extent.right);
        assert(b.bottom == c.bottom || b.bottom == boxes[x].extent.bottom);
        assert(b.confidence == c.confidence || b.confidence == detections[x].confidence);
    }
}

/// A cluster of several boxes becomes the box around them, cut off at the edges of the image,
/// with their class and the best score; it is dropped if nothing of it is in the image. A
/// single box stays as it is.
pub proof fn law_a_cluster_becomes_the_box_around_it(
    detections: Seq<Detection>,
    boxes: Seq<BoxMeasure>,
    numbers: Seq<usize>,
    members: Seq<int>,
    minus: spec_fn(Level, Level) -> Level,
)
    requires
        members.len() > 0,
    ensures
        ({
            let first = detections[numbers[members[0]] as int];
            let b = bounds_of(detections, boxes, numbers, members, members.len() as int);
            let left = if b.left < 0 {
                0
            } else {
                b.left
            };
            let top = if b.top < 0 {
                0
            } else {
                b.top
            };
            let right = if b.right > ONE {
                ONE
            } else {
                b.right
            };
            let bottom = if b.bottom > ONE {
                ONE
            } else {
                b.bottom
            };
            let out = made_one(detections, boxes, numbers, members, minus);
            &&& members.len() == 1 ==> out.len() == 1 && out[0] == first
            &&& members.len() > 1 ==> (out.len() == 1 <==> left < right && top < bottom)
                && out.len() <= 1
            &&& members.len() > 1 && out.len() == 1 ==> {
                &&& out[0].x == left && out[0].y == top
                &&& out[0].width == minus(right, left) && out[0].height == minus(bottom, top)
                &&& out[0].confidence == b.confidence
                &&& out[0].label@ == first.label@
            }
        }),
{
}

/// Two boxes of a class that belong together become one: the box around both, with the better
/// score. Two that do not both come out.
pub proof fn law_two_boxes_become_one_or_stay_two(
    detections: Seq<Detection>,
    boxes: Seq<BoxMeasure>,
    relate: spec_fn(usize, usize) -> PairMeasure,
    minus: spec_fn(Level, Level) -> Level,
    rule: MergeRule,
    contained: Seq<String>,
)
    requires
        detections.len() == 2,
        detections[0].label@ == detections[1].label@,
        forall|x: int|
            #![trigger boxes[x]]
            0 <= x < 2 ==> 0 <= boxes[x].extent.left < boxes[x].extent.right <= ONE && 0
                <= boxes[x].extent.top < boxes[x].extent.bottom <= ONE && 0
                <= detections[x].confidence,
    ensures
        ({
            let out = all_merged(detections, boxes, relate, minus, rule, contained);
            let own = rule_for(rule, contained, detections[0].label@);
            let e = boxes[0].extent;
            let f = boxes[1].extent;
            if belong_together(boxes[0], boxes[1], relate(0, 1), own) {
                let left = if e.left <= f.left {
                    e.left
                } else {
                    f.left
                };
                let top = if e.top <= f.top {
                    e.top
                } else {
                    f.top
                };
                let right = if e.right >= f.right {
                    e.right
                } else {
                    f.right
                };
                let bottom = if e.bottom >= f.bottom {
                    e.bottom
                } else {
                    f.bottom
                };
                &&& out.len() == 1
                &&& out[0].x == left && out[0].y == top
                &&& out[0].width == minus(right, left) && out[0].height == minus(bottom, top)
                &&& out[0].confidence == (if detections[0].confidence >= detections[1].confidence {
                    detections[0].confidence
                } else {
                    detections[1].confidence
                })
                &&& out[0].label@ == detections[0].label@
            } else {
                out == detections
            }
        }),
{
    let label = detections[0].label@;
    let own = rule_for(rule, contained, label);
    reveal_with_fuel(labels_of, 3);
    reveal_with_fuel(numbers_with, 3);
    reveal_with_fuel(classes_merged, 3);
    let one = labels_of(detections, 1);
    assert(one =~= seq![label]);
    assert(one[0] == label);
    let labels = labels_of(detections, 2);
    assert(labels =~= seq![label]);
    let numbers = numbers_with(detections, label, 2);
    assert(numbers =~= seq![0usize, 1usize]);
    let r = related(boxes, numbers, relate, own);
    reveal_with_fuel(all_joined, 3);
    reveal_with_fuel(row_joined, 3);
    let roots = all_joined(r, 2, 2);
    let merged = belong_together(boxes[0], boxes[1], relate(0, 1), own);
    assert(r(0, 1) == merged);
    assert(roots.len() == 2);
    reveal_with_fuel(cluster_of, 3);
    reveal_with_fuel(clusters_merged, 3);
    reveal_with_fuel(bounds_of, 3);
    assert(boxes[0].extent.left < boxes[0].extent.right);
    assert(boxes[1].extent.left < boxes[1].extent.right);
    let out = all_merged(detections, boxes, relate, minus, rule, contained);
    let class = class_merged(detections, boxes, numbers, relate, minus, own);
    assert(out =~= class);
    assert(is_first(roots, 0));
    if merged {
        assert(roots =~= seq![1int, 1int]);
        assert(!is_first(roots, 1));
        assert(cluster_of(roots, 1, 2) =~= seq![0int, 1int]);
        assert(class =~= made_one(detections, boxes, numbers, seq![0int, 1int], minus));
    } else {
        assert(roots =~= seq![0int, 1int]);
        assert(is_first(roots, 1));
        assert(cluster_of(roots, 0, 2) =~= seq![0int]);
        assert(cluster_of(roots, 1, 2) =~= seq![1int]);
        assert(class =~= detections);
    }
}

/// A cluster comes out where its first box stands: a box adds what its cluster becomes if no
/// earlier box is in its cluster, and nothing otherwise.
pub proof fn law_a_cluster_comes_out_where_it_begins(
    detections: Seq<Detection>,
    boxes: Seq<BoxMeasure>,
    numbers: Seq<usize>,
    roots: Seq<int>,
    minus: spec_fn(Level, Level) -> Level,
    n: int,
) -> (members: Seq<int>)
    requires
        0 <= n < roots.len(),
    ensures
        clusters_merged(detections, boxes, numbers, roots, minus, 0).len() == 0,
        clusters_merged(detections, boxes, numbers, roots, minus, n + 1) == (if forall|j: int|
            0 <= j < n ==> #[trigger] roots[j] != roots[n] {
            clusters_merged(detections, boxes, numbers, roots, minus, n) + made_one(
                detections,
                boxes,
                numbers,
                members,
                minus,
            )
        } else {
            clusters_merged(detections, boxes, numbers, roots, minus, n)
        }),
        forall|k: int|
            0 <= k < members.len() ==> 0 <= #[trigger] members[k] < roots.len()
                && roots[members[k]] == roots[n],
        forall|k: int, l: int|
            0 <= k < l < members.len() ==> #[trigger] members[k] < #[trigger] members[l],
        forall|i: int|
            0 <= i < roots.len() && #[trigger] roots[i] == roots[n] ==> members.contains(i),
{
    let members = cluster_of(roots, roots[n], roots.len() as int);
    lemma_members_are_members(roots, roots[n], roots.len() as int);
    lemma_members_ascend(roots, roots[n], roots.len() as int);
    assert forall|i: int| 0 <= i < roots.len() && #[trigger] roots[i] == roots[n] implies
        members.contains(i) by {
        lemma_cluster_has(roots, i, roots.len() as int);
    }
    members
}

proof fn lemma_members_ascend(roots: Seq<int>, root: int, n: int)
    requires
        0 <= n <= roots.len(),
    ensures
        ({
            let members = cluster_of(roots, root, n);
            forall|k: int, l: int|
                0 <= k < l < members.len() ==> #[trigger] members[k] < #[trigger] members[l]
        }),
    decreases n,
{
    if n > 0 {
        lemma_members_ascend(roots, root, n - 1);
        lemma_members_are_members(roots, root, n - 1);
        let before = cluster_of(roots, root, n - 1);
        let members = cluster_of(roots, root, n);
        assert forall|k: int, l: int| 0 <= k < l < members.len() implies #[trigger] members[k]
            < #[trigger] members[l] by {
            assert(members[k] == before[k]);
            if l < before.len() {
                assert(members[l] == before[l]);
            }
        }
    }
}

proof fn lemma_class_order(
    detections: Seq<Detection>,
    boxes: Seq<BoxMeasure>,
    relate: spec_fn(usize, usize) -> PairMeasure,
    minus: spec_fn(Level, Level) -> Level,
    rule: MergeRule,
    contained: Seq<String>,
    labels: Seq<Seq<char>>,
    n: int,
) -> (classes: Seq<int>)
    requires
        0 <= n <= labels.len(),
        detections.len() <= usize::MAX,
    ensures
        ({
            let out = classes_merged(
                detections,
                boxes,
                relate,
                minus,
                rule,
                contained,
                labels,
                n,
            );
            &&& classes.len() == out.len()
            &&& forall|k: int|
                0 <= k < out.len() ==> 0 <= #[trigger] classes[k] < n && labels[classes[k]]
                    == out[k].label@
            &&& forall|k: int, l: int|
                0 <= k < l < out.len() ==> #[trigger] classes[k] <= #[trigger] classes[l]
        }),
    decreases n,
{
    if n <= 0 {
        Seq::empty()
    } else {
        let before = lemma_class_order(
            detections,
            boxes,
            relate,
            minus,
            rule,
            contained,
            labels,
            n - 1,
        );
        let label = labels[n - 1];
        let numbers = numbers_with(detections, label, detections.len() as int);
        lemma_numbers(detections, label, detections.len() as int);
        let own = rule_for(rule, contained, label);
        law_merging_keeps_the_class(detections, boxes, numbers, relate, minus, own, label);
        let last = class_merged(detections, boxes, numbers, relate, minus, own);
        let so_far = classes_merged(
            detections,
            boxes,
            relate,
            minus,
            rule,
            contained,
            labels,
            n - 1,
        );
        let out = classes_merged(detections, boxes, relate, minus, rule, contained, labels, n);
        assert(out == so_far + last);
        let classes = before + Seq::new(last.len(), |i: int| n - 1);
        assert forall|k: int| 0 <= k < out.len() implies 0 <= #[trigger] classes[k] < n
            && labels[classes[k]] == out[k].label@ by {
            if k < so_far.len() {
                assert(classes[k] == before[k]);
            } else {
                assert(out[k] == last[k - so_far.len()]);
            }
        }
        classes
    }
}

/// The classes come out in the order in which they first appear, all boxes of one before those
/// of the next.
pub proof fn law_classes_come_out_in_order(
    detections: Seq<Detection>,
    boxes: Seq<BoxMeasure>,
    relate: spec_fn(usize, usize) -> PairMeasure,
    minus: spec_fn(Level, Level) -> Level,
    rule: MergeRule,
    contained: Seq<String>,
    k: int,
    l: int,
) -> (first: (int, int))
    requires
        detections.len() <= usize::MAX,
        0 <= k < l < all_merged(detections, boxes, relate, minus, rule, contained).len(),
    ensures
        ({
            let out = all_merged(detections, boxes, relate, minus, rule, contained);
            &&& 0 <= first.0 <= first.1 < detections.len()
            &&& detections[first.0].label@ == out[k].label@
            &&& detections[first.1].label@ == out[l].label@
            &&& forall|j: int|
                0 <= j < first.0 ==> (#[trigger] detections[j]).label@ != out[k].label@
            &&& forall|j: int|
                0 <= j < first.1 ==> (#[trigger] detections[j]).label@ != out[l].label@
        }),
{
    let n = detections.len() as int;
    let labels = labels_of(detections, n);
    let firsts = law_labels_come_in_order(detections, n);
    let classes = lemma_class_order(
        detections,
        boxes,
        relate,
        minus,
        rule,
        contained,
        labels,
        labels.len() as int,
    );
    let a = classes[k];
    let b = classes[l];
    assert(is_first_with_its_label(detections, firsts[a]));
    assert(is_first_with_its_label(detections, firsts[b]));
    if a < b {
        assert(firsts[a] < firsts[b]);
    }
    (firsts[a], firsts[b])
}

/// Whatever comes out is made of boxes of its class that went in: a single one as it is, or
/// the box around several.
pub proof fn law_what_comes_out_is_made_of_a_cluster(
    detections: Seq<Detection>,
    boxes: Seq<BoxMeasure>,
    numbers: Seq<usize>,
    roots: Seq<int>,
    minus: spec_fn(Level, Level) -> Level,
    n: int,
    k: int,
) -> (i: int)
    requires
        0 <= n <= roots.len(),
        0 <= k < clusters_merged(detections, boxes, numbers, roots, minus, n).len(),
    ensures
        0 <= i < n,
        forall|j: int| 0 <= j < i ==> #[trigger] roots[j] != roots[i],
        made_one(
            detections,
            boxes,
            numbers,
            cluster_of(roots, roots[i], roots.len() as int),
            minus,
        ).contains(clusters_merged(detections, boxes, numbers, roots, minus, n)[k]),
    decreases n,
{
    let before = clusters_merged(detections, boxes, numbers, roots, minus, n - 1);
    if k < before.len() {
        assert(clusters_merged(detections, boxes, numbers, roots, minus, n)[k] == before[k]);
        law_what_comes_out_is_made_of_a_cluster(
            detections,
            boxes,
            numbers,
            roots,
            minus,
            n - 1,
            k,
        )
    } else {
        let more = made_one(
            detections,
            boxes,
            numbers,
            cluster_of(roots, roots[n - 1], roots.len() as int),
            minus,
        );
        assert(clusters_merged(detections, boxes, numbers, roots, minus, n)[k] == more[k
            - before.len()]);
        n - 1
    }
}

} // verus!
