//! Merging does not depend on the order of the boxes.
use vstd::multiset::Multiset;
use vstd::prelude::*;
use crate::cluster::{
    all_joined, chained, is_chain, law_clusters_are_chains, lemma_chain_joins,
    lemma_chain_reverses, lemma_link_is_a_chain, linked,
};
use crate::grouping::{labels_of, lemma_labels_are_met, numbers_with};
use crate::merge::{
    all_merged, belong_together, bounds_of, class_merged, classes_merged, cluster_of,
    clusters_merged, is_first, made_one, no_bounds, related, rule_for, BoxMeasure, Bounds,
    MergeRule, PairMeasure,
};
use crate::merge_laws::{
    lemma_cluster_has, lemma_joined_len, lemma_members_are_members, lemma_numbers,
};
use crate::reading::{Level, ONE};
use crate::types::Detection;

verus! {

/// A detection by what it says.
pub struct Shape {
    pub x: Level,
    pub y: Level,
    pub width: Level,
    pub height: Level,
    pub confidence: Level,
    pub label: Seq<char>,
}

/// What a detection says.
pub open spec fn shape(d: Detection) -> Shape {
    Shape {
        x: d.x,
        y: d.y,
        width: d.width,
        height: d.height,
        confidence: d.confidence,
        label: d.label@,
    }
}

/// What some detections say, in no order.
pub open spec fn shapes(detections: Seq<Detection>) -> Multiset<Shape> {
    detections.map_values(|d: Detection| shape(d)).to_multiset()
}

/// Boxes to be merged, and all that says how.
pub struct Merging {
    pub detections: Seq<Detection>,
    pub boxes: Seq<BoxMeasure>,
    pub relate: spec_fn(usize, usize) -> PairMeasure,
    pub minus: spec_fn(Level, Level) -> Level,
    pub rule: MergeRule,
    pub contained: Seq<String>,
}

impl Merging {
    /// What the boxes are made into.
    pub open spec fn merged(self) -> Seq<Detection> {
        all_merged(
            self.detections,
            self.boxes,
            self.relate,
            self.minus,
            self.rule,
            self.contained,
        )
    }

    /// There is a measure for every box, and how two boxes lie to each other does not depend
    /// on which comes first. Where a share is demanded, boxes of the same area have the same
    /// height: of two equal ones the first would else decide when they end alike.
    pub open spec fn is_even_handed(self) -> bool {
        &&& self.boxes.len() == self.detections.len() <= usize::MAX
        &&& forall|a: usize, b: usize| #[trigger] (self.relate)(a, b) == (self.relate)(b, a)
        &&& self.rule.min_share <= 0 || forall|a: int, b: int|
            0 <= a < self.boxes.len() && 0 <= b < self.boxes.len() && (
            #[trigger] self.boxes[a]).area == (#[trigger] self.boxes[b]).area
                ==> self.boxes[a].tolerance == self.boxes[b].tolerance
    }

    /// The same boxes, the one at `order[k]` coming at `k`.
    pub open spec fn is_reordered(self, other: Merging, order: Seq<int>) -> bool {
        let n = self.detections.len();
        &&& order.len() == n
        &&& order.no_duplicates()
        &&& forall|k: int| 0 <= k < n ==> 0 <= #[trigger] order[k] < n
        &&& other.detections.len() == n
        &&& other.boxes.len() == n
        &&& forall|k: int|
            0 <= k < n ==> #[trigger] other.detections[k] == self.detections[order[k]]
        &&& forall|k: int| 0 <= k < n ==> #[trigger] other.boxes[k] == self.boxes[order[k]]
        &&& forall|a: usize, b: usize|
            a < n && b < n ==> #[trigger] (other.relate)(a, b) == (self.relate)(
                order[a as int] as usize,
                order[b as int] as usize,
            )
        &&& other.minus == self.minus
        &&& other.rule == self.rule
        &&& other.contained == self.contained
    }

    /// Two boxes are of the same class and belong together.
    spec fn partner(self) -> spec_fn(int, int) -> bool {
        |a: int, b: int|
            self.detections[a].label@ == self.detections[b].label@ && belong_together(
                self.boxes[a],
                self.boxes[b],
                (self.relate)(a as usize, b as usize),
                rule_for(self.rule, self.contained, self.detections[a].label@),
            )
    }

    /// A chain of partners leads from one box to the other.
    #[verifier::opaque]
    spec fn akin(self, a: int, b: int) -> bool {
        chained(self.partner(), self.detections.len(), a, b)
    }

    /// The bounds of the first `k` boxes of a list.
    spec fn list_bounds(self, list: Seq<int>, k: int) -> Bounds
        decreases k,
    {
        if k <= 0 {
            no_bounds()
        } else {
            let x = list[k - 1];
            self.list_bounds(list, k - 1).with(self.boxes[x].extent, self.detections[x].confidence)
        }
    }

    /// What the boxes of a list are made into.
    spec fn list_shape(self, list: Seq<int>) -> Seq<Shape> {
        if list.len() == 1 {
            seq![shape(self.detections[list[0]])]
        } else {
            let b = self.list_bounds(list, list.len() as int).cut();
            if b.right <= b.left || b.bottom <= b.top {
                Seq::empty()
            } else {
                seq![
                    Shape {
                        x: b.left,
                        y: b.top,
                        width: (self.minus)(b.right, b.left),
                        height: (self.minus)(b.bottom, b.top),
                        confidence: b.confidence,
                        label: self.detections[list[0]].label@,
                    },
                ]
            }
        }
    }

    /// Those of the first `n` boxes that are akin to this one.
    spec fn kin(self, x: int, n: int) -> Seq<int>
        decreases n,
    {
        if n <= 0 {
            Seq::empty()
        } else if self.akin(x, n - 1) {
            self.kin(x, n - 1).push(n - 1)
        } else {
            self.kin(x, n - 1)
        }
    }

    /// What the boxes that are akin to this one are made into.
    spec fn outcome(self, x: int) -> Multiset<Shape> {
        self.list_shape(self.kin(x, self.detections.len() as int)).to_multiset()
    }

    /// What the boxes akin to these are made into.
    spec fn outcomes(self, heads: Seq<int>) -> Multiset<Shape>
        decreases heads.len(),
    {
        if heads.len() == 0 {
            Multiset::empty()
        } else {
            self.outcomes(heads.drop_last()).add(self.outcome(heads.last()))
        }
    }
}

proof fn lemma_partners_are_mutual(m: Merging, a: int, b: int)
    requires
        m.is_even_handed(),
        0 <= a < m.detections.len(),
        0 <= b < m.detections.len(),
    ensures
        m.partner()(a, b) == m.partner()(b, a),
{
    assert((m.relate)(a as usize, b as usize) == (m.relate)(b as usize, a as usize));
    if m.boxes[a].area == m.boxes[b].area && m.rule.min_share > 0 {
        assert(m.boxes[a].tolerance == m.boxes[b].tolerance);
    }
}

proof fn lemma_bounds_are_met(m: Merging, list: Seq<int>, k: int)
    requires
        0 <= k <= list.len(),
    ensures
        ({
            let b = m.list_bounds(list, k);
            &&& b.left <= ONE && b.top <= ONE && 0 <= b.right && 0 <= b.bottom && 0 <= b.confidence
            &&& forall|i: int|
                0 <= i < k ==> {
                    let x = #[trigger] list[i];
                    &&& b.left <= m.boxes[x].extent.left
                    &&& b.top <= m.boxes[x].extent.top
                    &&& b.right >= m.boxes[x].extent.right
                    &&& b.bottom >= m.boxes[x].extent.bottom
                    &&& b.confidence >= m.detections[x].confidence
                }
            &&& b.left == ONE || exists|i: int|
                0 <= i < k && m.boxes[#[trigger] list[i]].extent.left == b.left
            &&& b.top == ONE || exists|i: int|
                0 <= i < k && m.boxes[#[trigger] list[i]].extent.top == b.top
            &&& b.right == 0 || exists|i: int|
                0 <= i < k && m.boxes[#[trigger] list[i]].extent.right == b.right
            &&& b.bottom == 0 || exists|i: int|
                0 <= i < k && m.boxes[#[trigger] list[i]].extent.bottom == b.bottom
            &&& b.confidence == 0 || exists|i: int|
                0 <= i < k && m.detections[#[trigger] list[i]].confidence == b.confidence
        }),
    decreases k,
{
    if k > 0 {
        lemma_bounds_are_met(m, list, k - 1);
        let x = list[k - 1];
        assert(m.boxes[list[k - 1]] == m.boxes[x]);
    }
}

proof fn lemma_bounds_go_by_the_boxes(m: Merging, a: Seq<int>, b: Seq<int>)
    requires
        forall|x: int| #[trigger] a.contains(x) <==> b.contains(x),
    ensures
        m.list_bounds(a, a.len() as int) == m.list_bounds(b, b.len() as int),
{
    lemma_bounds_are_met(m, a, a.len() as int);
    lemma_bounds_are_met(m, b, b.len() as int);
    assert forall|i: int| 0 <= i < a.len() implies b.contains(#[trigger] a[i]) by {
        assert(a.contains(a[i]));
    }
    assert forall|i: int| 0 <= i < b.len() implies a.contains(#[trigger] b[i]) by {
        assert(b.contains(b[i]));
    }
    let p = m.list_bounds(a, a.len() as int);
    let q = m.list_bounds(b, b.len() as int);
    assert(p.left == q.left);
    assert(p.top == q.top);
    assert(p.right == q.right);
    assert(p.bottom == q.bottom);
    assert(p.confidence == q.confidence);
}

proof fn lemma_shape_goes_by_the_boxes(m: Merging, a: Seq<int>, b: Seq<int>, label: Seq<char>)
    requires
        a.no_duplicates(),
        b.no_duplicates(),
        a.len() > 0,
        forall|x: int| #[trigger] a.contains(x) <==> b.contains(x),
        forall|i: int| 0 <= i < a.len() ==> m.detections[#[trigger] a[i]].label@ == label,
    ensures
        m.list_shape(a) == m.list_shape(b),
{
    a.unique_seq_to_set();
    b.unique_seq_to_set();
    assert(a.to_set() =~= b.to_set());
    assert(a.contains(a[0]));
    assert(a.contains(b[0])) by {
        assert(b.contains(b[0]));
    }
    lemma_bounds_go_by_the_boxes(m, a, b);
    if a.len() == 1 {
        assert(a[0] == b[0]);
    }
}

proof fn lemma_kin(m: Merging, x: int, n: int)
    requires
        0 <= n <= m.detections.len(),
    ensures
        m.kin(x, n).no_duplicates(),
        forall|y: int| #[trigger] m.kin(x, n).contains(y) <==> 0 <= y < n && m.akin(x, y),
    decreases n,
{
    if n > 0 {
        lemma_kin(m, x, n - 1);
        let before = m.kin(x, n - 1);
        let all = m.kin(x, n);
        assert forall|y: int| #[trigger] all.contains(y) <==> 0 <= y < n && m.akin(x, y) by {
            if all.contains(y) {
                let k = choose|k: int| 0 <= k < all.len() && all[k] == y;
                if k < before.len() {
                    assert(before[k] == y);
                    assert(before.contains(y));
                }
            }
            if 0 <= y < n && m.akin(x, y) {
                if y < n - 1 {
                    assert(before.contains(y));
                    let k = choose|k: int| 0 <= k < before.len() && before[k] == y;
                    assert(all[k] == y);
                } else {
                    assert(all[before.len() as int] == y);
                }
            }
        }
        assert forall|i: int, j: int| 0 <= i < j < all.len() implies all[i] != all[j] by {
            assert(before.contains(before[i]));
            if j < before.len() {
                assert(before[i] != before[j]);
            }
        }
    }
}

proof fn lemma_akin_is_an_equivalence(m: Merging, a: int, b: int, c: int)
    ensures
        0 <= a < m.detections.len() ==> m.akin(a, a),
        m.akin(a, b) ==> m.akin(b, a),
        m.akin(a, b) && m.akin(b, c) ==> m.akin(a, c),
        m.akin(a, b) ==> 0 <= a < m.detections.len() && 0 <= b < m.detections.len(),
        m.akin(a, b) ==> m.detections[a].label@ == m.detections[b].label@,
{
    reveal(Merging::akin);
    let n = m.detections.len();
    let r = m.partner();
    if 0 <= a < n {
        lemma_link_is_a_chain(r, n, a, a);
    }
    if m.akin(a, b) {
        lemma_chain_reverses(r, n, a, b);
        if m.akin(b, c) {
            lemma_chain_joins(r, n, a, b, c);
        }
        let path = choose|path: Seq<int>| #[trigger]
            is_chain(r, n, path) && path[0] == a && path.last() == b;
        lemma_chain_has_one_label(m, path, path.len() - 1);
    }
}

proof fn lemma_chain_has_one_label(m: Merging, path: Seq<int>, k: int)
    requires
        is_chain(m.partner(), m.detections.len(), path),
        0 <= k < path.len(),
    ensures
        m.detections[path[k]].label@ == m.detections[path[0]].label@,
    decreases k,
{
    if k > 0 {
        lemma_chain_has_one_label(m, path, k - 1);
        assert(linked(m.partner(), path[k - 1], path[k]));
    }
}

proof fn lemma_outcome_goes_by_kinship(m: Merging, a: int, b: int)
    requires
        m.akin(a, b),
    ensures
        m.outcome(a) == m.outcome(b),
{
    let n = m.detections.len() as int;
    lemma_kin(m, a, n);
    lemma_kin(m, b, n);
    lemma_akin_is_an_equivalence(m, a, b, a);
    let p = m.kin(a, n);
    let q = m.kin(b, n);
    assert forall|y: int| #[trigger] p.contains(y) <==> q.contains(y) by {
        lemma_akin_is_an_equivalence(m, a, b, y);
        lemma_akin_is_an_equivalence(m, b, a, y);
    }
    assert(p.contains(a));
    assert forall|i: int| 0 <= i < p.len() implies m.detections[#[trigger] p[i]].label@
        == m.detections[a].label@ by {
        assert(p.contains(p[i]));
        lemma_akin_is_an_equivalence(m, a, p[i], a);
    }
    lemma_shape_goes_by_the_boxes(m, p, q, m.detections[a].label@);
}

/// Each of these boxes stands for others: no two are akin.
spec fn are_strangers(m: Merging, heads: Seq<int>) -> bool {
    forall|i: int, j: int|
        0 <= i < j < heads.len() ==> !m.akin(#[trigger] heads[i], #[trigger] heads[j])
}

/// One of these boxes is akin to this one.
spec fn has_kin(m: Merging, heads: Seq<int>, x: int) -> bool {
    exists|i: int| 0 <= i < heads.len() && m.akin(x, #[trigger] heads[i])
}

proof fn lemma_outcomes_without(m: Merging, heads: Seq<int>, i: int)
    requires
        0 <= i < heads.len(),
    ensures
        m.outcomes(heads) == m.outcomes(heads.remove(i)).add(m.outcome(heads[i])),
    decreases heads.len(),
{
    let rest = heads.remove(i);
    let last = heads.len() - 1;
    if i < last {
        lemma_outcomes_without(m, heads.drop_last(), i);
        assert(heads.drop_last().remove(i) =~= rest.drop_last());
        assert(rest.last() == heads.last());
        assert(m.outcomes(heads) =~= m.outcomes(rest).add(m.outcome(heads[i])));
    } else {
        assert(rest =~= heads.drop_last());
    }
}

/// Any two choices of heads that stand for the same boxes give the same.
proof fn lemma_heads_do_not_matter(m: Merging, a: Seq<int>, b: Seq<int>)
    requires
        are_strangers(m, a),
        are_strangers(m, b),
        forall|i: int| 0 <= i < a.len() ==> has_kin(m, b, #[trigger] a[i]),
        forall|i: int| 0 <= i < b.len() ==> has_kin(m, a, #[trigger] b[i]),
    ensures
        m.outcomes(a) == m.outcomes(b),
    decreases a.len(),
{
    if a.len() == 0 {
        if b.len() > 0 {
            assert(has_kin(m, a, b[0]));
        }
    } else {
        let x = a.last();
        let last = a.len() - 1;
        assert(has_kin(m, b, a[last]));
        let j = choose|j: int| 0 <= j < b.len() && m.akin(x, #[trigger] b[j]);
        let p = a.drop_last();
        let q = b.remove(j);
        assert forall|i: int| 0 <= i < p.len() implies has_kin(m, q, #[trigger] p[i]) by {
            assert(has_kin(m, b, a[i]));
            let k = choose|k: int| 0 <= k < b.len() && m.akin(a[i], #[trigger] b[k]);
            if k == j {
                lemma_akin_is_an_equivalence(m, x, b[j], x);
                lemma_akin_is_an_equivalence(m, a[i], b[j], x);
                assert(!m.akin(a[i], a[last]));
            } else if k < j {
                assert(q[k] == b[k]);
            } else {
                assert(q[k - 1] == b[k]);
            }
        }
        assert forall|i: int| 0 <= i < q.len() implies has_kin(m, p, #[trigger] q[i]) by {
            let l = if i < j {
                i
            } else {
                i + 1
            };
            assert(q[i] == b[l]);
            assert(has_kin(m, a, b[l]));
            let k = choose|k: int| 0 <= k < a.len() && m.akin(b[l], #[trigger] a[k]);
            if k == last {
                lemma_akin_is_an_equivalence(m, b[l], x, b[j]);
                lemma_akin_is_an_equivalence(m, b[l], b[j], x);
                if l < j {
                    assert(!m.akin(b[l], b[j]));
                } else {
                    lemma_akin_is_an_equivalence(m, b[l], b[j], x);
                    assert(!m.akin(b[j], b[l]));
                }
            } else {
                assert(p[k] == a[k]);
            }
        }
        assert(are_strangers(m, p)) by {
            assert forall|i: int, k: int| 0 <= i < k < p.len() implies !m.akin(
                #[trigger] p[i],
                #[trigger] p[k],
            ) by {
                assert(!m.akin(a[i], a[k]));
            }
        }
        assert(are_strangers(m, q)) by {
            assert forall|i: int, k: int| 0 <= i < k < q.len() implies !m.akin(
                #[trigger] q[i],
                #[trigger] q[k],
            ) by {
                let i2 = if i < j {
                    i
                } else {
                    i + 1
                };
                let k2 = if k < j {
                    k
                } else {
                    k + 1
                };
                assert(!m.akin(b[i2], b[k2]));
            }
        }
        lemma_heads_do_not_matter(m, p, q);
        lemma_outcomes_without(m, b, j);
        lemma_outcome_goes_by_kinship(m, x, b[j]);
    }
}

proof fn lemma_order_reaches_all(order: Seq<int>, x: int)
    requires
        order.no_duplicates(),
        forall|k: int| 0 <= k < order.len() ==> 0 <= #[trigger] order[k] < order.len(),
        0 <= x < order.len(),
    ensures
        order.contains(x),
{
    let n = order.len() as int;
    order.unique_seq_to_set();
    vstd::set_lib::lemma_int_range(0, n);
    let range = vstd::set_lib::set_int_range(0, n);
    assert(order.to_set().subset_of(range)) by {
        assert forall|y: int| order.to_set().contains(y) implies range.contains(y) by {
            let k = choose|k: int| 0 <= k < order.len() && order[k] == y;
        }
    }
    vstd::set_lib::lemma_subset_equality(order.to_set(), range);
    assert(range.contains(x));
}

/// The boxes are reordered, and how they are merged does not depend on who comes first.
#[verifier::opaque]
spec fn is_fair(m: Merging, other: Merging, order: Seq<int>) -> bool {
    m.is_even_handed() && m.is_reordered(other, order)
}

/// The boxes of a class, wherever the order has put them.
spec fn class_at(other: Merging, label: Seq<char>) -> Seq<usize> {
    numbers_with(other.detections, label, other.detections.len() as int)
}

/// Which boxes of a class belong together, by their places in the class.
spec fn class_relation(other: Merging, label: Seq<char>) -> spec_fn(int, int) -> bool {
    related(
        other.boxes,
        class_at(other, label),
        other.relate,
        rule_for(other.rule, other.contained, label),
    )
}

/// The box at this place of a class, by its number before it was moved.
spec fn origin(other: Merging, order: Seq<int>, label: Seq<char>, i: int) -> int {
    order[class_at(other, label)[i] as int]
}

proof fn lemma_origins(m: Merging, other: Merging, order: Seq<int>, label: Seq<char>)
    requires
        is_fair(m, other, order),
    ensures
        ({
            let c = class_at(other, label);
            &&& forall|i: int|
                0 <= i < c.len() ==> {
                    let x = #[trigger] origin(other, order, label, i);
                    &&& 0 <= x < m.detections.len()
                    &&& m.detections[x].label@ == label
                    &&& c[i] < m.detections.len()
                }
            &&& forall|i: int, j: int|
                0 <= i < c.len() && 0 <= j < c.len() && i != j ==> #[trigger] origin(
                    other,
                    order,
                    label,
                    i,
                ) != #[trigger] origin(other, order, label, j)
            &&& forall|x: int|
                0 <= x < m.detections.len() && m.detections[x].label@ == label ==> exists|i: int|
                    0 <= i < c.len() && #[trigger] origin(other, order, label, i) == x
        }),
{
    reveal(is_fair);
    let n = other.detections.len() as int;
    let c = class_at(other, label);
    lemma_numbers(other.detections, label, n);
    assert forall|i: int| 0 <= i < c.len() implies {
        let x = #[trigger] origin(other, order, label, i);
        &&& 0 <= x < m.detections.len()
        &&& m.detections[x].label@ == label
        &&& c[i] < m.detections.len()
    } by {
        assert(c[i] < n);
        assert(other.detections[c[i] as int] == m.detections[order[c[i] as int]]);
    }
    assert forall|i: int, j: int|
        0 <= i < c.len() && 0 <= j < c.len() && i != j implies #[trigger] origin(
        other,
        order,
        label,
        i,
    ) != #[trigger] origin(other, order, label, j) by {
        if i < j {
            assert(c[i] < c[j]);
        } else {
            assert(c[j] < c[i]);
        }
    }
    assert forall|x: int|
        0 <= x < m.detections.len() && m.detections[x].label@ == label implies exists|i: int|
        0 <= i < c.len() && #[trigger] origin(other, order, label, i) == x by {
        lemma_order_reaches_all(order, x);
        let k = choose|k: int| 0 <= k < order.len() && order[k] == x;
        assert(other.detections[k] == m.detections[order[k]]);
        let y = k as usize;
        assert(c.contains(y));
        let i = choose|i: int| 0 <= i < c.len() && c[i] == y;
        assert(origin(other, order, label, i) == x);
    }
}

proof fn lemma_links_are_kept(
    m: Merging,
    other: Merging,
    order: Seq<int>,
    label: Seq<char>,
    i: int,
    j: int,
)
    requires
        is_fair(m, other, order),
        0 <= i < class_at(other, label).len(),
        0 <= j < class_at(other, label).len(),
        i != j,
    ensures
        linked(class_relation(other, label), i, j) <==> linked(
            m.partner(),
            origin(other, order, label, i),
            origin(other, order, label, j),
        ),
{
    reveal(is_fair);
    lemma_origins(m, other, order, label);
    let c = class_at(other, label);
    let x = origin(other, order, label, i);
    let y = origin(other, order, label, j);
    lemma_partners_are_mutual(m, x, y);
    assert(other.boxes[c[i] as int] == m.boxes[x]);
    assert(other.boxes[c[j] as int] == m.boxes[y]);
    assert((other.relate)(c[i], c[j]) == (m.relate)(x as usize, y as usize));
    assert((other.relate)(c[j], c[i]) == (m.relate)(y as usize, x as usize));
    let r = class_relation(other, label);
    assert(r(i, j) == m.partner()(x, y));
    assert(r(j, i) == m.partner()(y, x));
}

proof fn lemma_chains_are_kept(
    m: Merging,
    other: Merging,
    order: Seq<int>,
    label: Seq<char>,
    i: int,
    j: int,
)
    requires
        is_fair(m, other, order),
        0 <= i < class_at(other, label).len(),
        0 <= j < class_at(other, label).len(),
    ensures
        chained(class_relation(other, label), class_at(other, label).len(), i, j) <==> m.akin(
            origin(other, order, label, i),
            origin(other, order, label, j),
        ),
{
    reveal(Merging::akin);
    let r = class_relation(other, label);
    let count = class_at(other, label).len();
    let n = m.detections.len();
    let x = origin(other, order, label, i);
    let y = origin(other, order, label, j);
    lemma_origins(m, other, order, label);
    if chained(r, count, i, j) {
        let path = choose|path: Seq<int>| #[trigger]
            is_chain(r, count, path) && path[0] == i && path.last() == j;
        let way = Seq::new(path.len(), |k: int| origin(other, order, label, path[k]));
        assert forall|k: int| 0 <= k < way.len() implies 0 <= #[trigger] way[k] < n by {
            assert(0 <= path[k] < count);
            let at = origin(other, order, label, path[k]);
        }
        assert forall|k: int| 0 < k < way.len() implies linked(
            m.partner(),
            way[k - 1],
            #[trigger] way[k],
        ) by {
            assert(0 <= path[k - 1] < count && 0 <= path[k] < count);
            assert(linked(r, path[k - 1], path[k]));
            lemma_links_are_kept(m, other, order, label, path[k - 1], path[k]);
        }
        assert(is_chain(m.partner(), n, way));
        assert(way[0] == x && way.last() == y);
    }
    if m.akin(x, y) {
        let way = choose|way: Seq<int>| #[trigger]
            is_chain(m.partner(), n, way) && way[0] == x && way.last() == y;
        let path = Seq::new(
            way.len(),
            |k: int|
                choose|a: int|
                    0 <= a < count && #[trigger] origin(other, order, label, a) == way[k],
        );
        assert forall|k: int| 0 <= k < way.len() implies 0 <= #[trigger] path[k] < count && origin(
            other,
            order,
            label,
            path[k],
        ) == way[k] by {
            lemma_chain_has_one_label(m, way, k);
            assert(0 <= way[k] < n);
            assert(m.detections[way[k]].label@ == label);
            assert(exists|a: int|
                0 <= a < count && #[trigger] origin(other, order, label, a) == way[k]);
        }
        assert forall|k: int| 0 < k < path.len() implies linked(
            r,
            path[k - 1],
            #[trigger] path[k],
        ) by {
            assert(origin(other, order, label, path[k - 1]) == way[k - 1]);
            assert(linked(m.partner(), way[k - 1], way[k]));
            lemma_links_are_kept(m, other, order, label, path[k - 1], path[k]);
        }
        assert(is_chain(r, count, path));
        assert(path[0] == i) by {
            assert(origin(other, order, label, path[0]) == origin(other, order, label, i));
        }
        assert(path.last() == j) by {
            let last = path.len() - 1;
            assert(origin(other, order, label, path[last]) == origin(other, order, label, j));
        }
    }
}

proof fn lemma_cluster_ascends(roots: Seq<int>, root: int, n: int)
    requires
        0 <= n <= roots.len(),
    ensures
        forall|a: int, b: int|
            0 <= a < b < cluster_of(roots, root, n).len() ==> #[trigger] cluster_of(
                roots,
                root,
                n,
            )[a] < #[trigger] cluster_of(roots, root, n)[b],
    decreases n,
{
    if n > 0 {
        lemma_cluster_ascends(roots, root, n - 1);
        lemma_members_are_members(roots, root, n - 1);
        let before = cluster_of(roots, root, n - 1);
        let all = cluster_of(roots, root, n);
        assert forall|a: int, b: int| 0 <= a < b < all.len() implies #[trigger] all[a]
            < #[trigger] all[b] by {
            assert(all[a] == before[a]);
            if b < before.len() {
                assert(all[b] == before[b]);
            }
        }
    }
}

proof fn lemma_bounds_are_kept(
    m: Merging,
    other: Merging,
    order: Seq<int>,
    numbers: Seq<usize>,
    members: Seq<int>,
    list: Seq<int>,
    k: int,
)
    requires
        is_fair(m, other, order),
        0 <= k <= members.len(),
        list.len() == members.len(),
        forall|i: int|
            0 <= i < members.len() ==> numbers[#[trigger] members[i]] < m.detections.len()
                && list[i] == order[numbers[members[i]] as int],
    ensures
        bounds_of(other.detections, other.boxes, numbers, members, k) == m.list_bounds(list, k),
    decreases k,
{
    reveal(is_fair);
    if k > 0 {
        lemma_bounds_are_kept(m, other, order, numbers, members, list, k - 1);
        let x = numbers[members[k - 1]] as int;
        assert(list[k - 1] == order[x]);
        assert(other.boxes[x] == m.boxes[order[x]]);
        assert(other.detections[x] == m.detections[order[x]]);
    }
}

proof fn lemma_one_cluster(
    m: Merging,
    other: Merging,
    order: Seq<int>,
    label: Seq<char>,
    i: int,
)
    requires
        is_fair(m, other, order),
        0 <= i < class_at(other, label).len(),
    ensures
        ({
            let numbers = class_at(other, label);
            let n = numbers.len();
            let roots = all_joined(class_relation(other, label), n, n as int);
            shapes(
                made_one(
                    other.detections,
                    other.boxes,
                    numbers,
                    cluster_of(roots, roots[i], roots.len() as int),
                    other.minus,
                ),
            ) == m.outcome(origin(other, order, label, i))
        }),
{
    reveal(is_fair);
    let numbers = class_at(other, label);
    let n = numbers.len();
    let r = class_relation(other, label);
    let roots = all_joined(r, n, n as int);
    lemma_joined_len(r, n, n as int);
    let members = cluster_of(roots, roots[i], n as int);
    lemma_members_are_members(roots, roots[i], n as int);
    lemma_cluster_has(roots, i, n as int);
    lemma_cluster_ascends(roots, roots[i], n as int);
    lemma_origins(m, other, order, label);
    let x = origin(other, order, label, i);
    let list = Seq::new(members.len(), |k: int| origin(other, order, label, members[k]));
    assert forall|k: int| 0 <= k < members.len() implies numbers[#[trigger] members[k]]
        < m.detections.len() && list[k] == order[numbers[members[k]] as int] by {
        let at = origin(other, order, label, members[k]);
    }
    lemma_bounds_are_kept(m, other, order, numbers, members, list, members.len() as int);
    let kin = m.kin(x, m.detections.len() as int);
    lemma_kin(m, x, m.detections.len() as int);
    assert forall|y: int| #[trigger] list.contains(y) <==> kin.contains(y) by {
        if list.contains(y) {
            let k = choose|k: int| 0 <= k < list.len() && list[k] == y;
            assert(roots[members[k]] == roots[i]);
            law_clusters_are_chains(r, n, i, members[k]);
            lemma_chains_are_kept(m, other, order, label, i, members[k]);
        }
        if kin.contains(y) {
            lemma_akin_is_an_equivalence(m, x, y, x);
            assert(exists|a: int|
                0 <= a < n && #[trigger] origin(other, order, label, a) == y);
            let a = choose|a: int|
                0 <= a < n && #[trigger] origin(other, order, label, a) == y;
            lemma_chains_are_kept(m, other, order, label, i, a);
            law_clusters_are_chains(r, n, i, a);
            lemma_cluster_has(roots, a, n as int);
            let k = choose|k: int| 0 <= k < members.len() && members[k] == a;
            assert(list[k] == y);
        }
    }
    assert forall|a: int, b: int| 0 <= a < b < list.len() implies list[a] != list[b] by {
        assert(members[a] < members[b]);
        assert(origin(other, order, label, members[a]) != origin(
            other,
            order,
            label,
            members[b],
        ));
    }
    assert forall|k: int| 0 <= k < list.len() implies m.detections[#[trigger] list[k]].label@
        == label by {
        let at = origin(other, order, label, members[k]);
    }
    lemma_shape_goes_by_the_boxes(m, list, kin, label);
    let made = made_one(other.detections, other.boxes, numbers, members, other.minus);
    assert(other.detections[numbers[members[0]] as int] == m.detections[list[0]]);
    assert(made.map_values(|d: Detection| shape(d)) =~= m.list_shape(list));
}

proof fn lemma_shapes_add(a: Seq<Detection>, b: Seq<Detection>)
    ensures
        shapes(a + b) == shapes(a).add(shapes(b)),
{
    let f = |d: Detection| shape(d);
    assert((a + b).map_values(f) =~= a.map_values(f) + b.map_values(f));
    vstd::seq_lib::lemma_multiset_commutative(a.map_values(f), b.map_values(f));
}

proof fn lemma_no_shapes()
    ensures
        shapes(Seq::empty()) == Multiset::<Shape>::empty(),
{
    let none = Seq::<Detection>::empty().map_values(|d: Detection| shape(d));
    none.to_multiset_ensures();
    assert(none.to_multiset().len() == 0);
}

proof fn lemma_outcomes_add(m: Merging, a: Seq<int>, b: Seq<int>)
    ensures
        m.outcomes(a + b) == m.outcomes(a).add(m.outcomes(b)),
    decreases b.len(),
{
    if b.len() == 0 {
        assert(a + b =~= a);
        assert(m.outcomes(a + b) =~= m.outcomes(a).add(m.outcomes(b)));
    } else {
        lemma_outcomes_add(m, a, b.drop_last());
        assert((a + b).drop_last() =~= a + b.drop_last());
        assert((a + b).last() == b.last());
        assert(m.outcomes(a + b) =~= m.outcomes(a).add(m.outcomes(b)));
    }
}

/// The box is one of the first `k` of a class.
#[verifier::opaque]
spec fn is_origin(
    other: Merging,
    order: Seq<int>,
    label: Seq<char>,
    k: int,
    x: int,
) -> bool {
    exists|i: int| 0 <= i < k && #[trigger] origin(other, order, label, i) == x
}

/// The heads of a class: boxes of the class, no two akin, each of the first `k` boxes akin
/// to one of them.
spec fn heads_class(
    m: Merging,
    other: Merging,
    order: Seq<int>,
    label: Seq<char>,
    heads: Seq<int>,
    k: int,
) -> bool {
    &&& are_strangers(m, heads)
    &&& forall|i: int|
        0 <= i < heads.len() ==> 0 <= #[trigger] heads[i] < m.detections.len()
            && m.detections[heads[i]].label@ == label
    &&& forall|i: int|
        0 <= i < k ==> has_kin(m, heads, #[trigger] origin(other, order, label, i))
    &&& forall|h: int|
        0 <= h < heads.len() ==> is_origin(other, order, label, k, #[trigger] heads[h])
}

proof fn lemma_has_kin_grows(m: Merging, heads: Seq<int>, more: Seq<int>, x: int)
    requires
        has_kin(m, heads, x) || has_kin(m, more, x),
    ensures
        has_kin(m, heads + more, x),
{
    let all = heads + more;
    if has_kin(m, heads, x) {
        let i = choose|i: int| 0 <= i < heads.len() && m.akin(x, #[trigger] heads[i]);
        assert(all[i] == heads[i]);
    } else {
        let i = choose|i: int| 0 <= i < more.len() && m.akin(x, #[trigger] more[i]);
        assert(all[heads.len() + i] == more[i]);
    }
}

proof fn lemma_class_outcomes(
    m: Merging,
    other: Merging,
    order: Seq<int>,
    label: Seq<char>,
    k: int,
) -> (heads: Seq<int>)
    requires
        is_fair(m, other, order),
        0 <= k <= class_at(other, label).len(),
    ensures
        ({
            let numbers = class_at(other, label);
            let n = numbers.len();
            let roots = all_joined(class_relation(other, label), n, n as int);
            &&& shapes(
                clusters_merged(
                    other.detections,
                    other.boxes,
                    numbers,
                    roots,
                    other.minus,
                    k,
                ),
            ) == m.outcomes(heads)
            &&& heads_class(m, other, order, label, heads, k)
        }),
    decreases k,
{
    let numbers = class_at(other, label);
    let n = numbers.len();
    let r = class_relation(other, label);
    let roots = all_joined(r, n, n as int);
    if k <= 0 {
        lemma_no_shapes();
        Seq::empty()
    } else {
        let before = lemma_class_outcomes(m, other, order, label, k - 1);
        lemma_joined_len(r, n, n as int);
        lemma_origins(m, other, order, label);
        let x = origin(other, order, label, k - 1);
        let merged = clusters_merged(
            other.detections,
            other.boxes,
            numbers,
            roots,
            other.minus,
            k - 1,
        );
        if is_first(roots, k - 1) {
            let made = made_one(
                other.detections,
                other.boxes,
                numbers,
                cluster_of(roots, roots[k - 1], roots.len() as int),
                other.minus,
            );
            lemma_one_cluster(m, other, order, label, k - 1);
            lemma_shapes_add(merged, made);
            let heads = before.push(x);
            assert(heads.drop_last() =~= before);
            assert(heads =~= before + seq![x]);
            assert forall|i: int, j: int| 0 <= i < j < heads.len() implies !m.akin(
                #[trigger] heads[i],
                #[trigger] heads[j],
            ) by {
                assert(heads[i] == before[i]);
                if j == before.len() {
                    assert(is_origin(other, order, label, k - 1, before[i]));
                    reveal(is_origin);
                    let a = choose|a: int|
                        0 <= a < k - 1 && #[trigger] origin(other, order, label, a) == before[i];
                    lemma_chains_are_kept(m, other, order, label, a, k - 1);
                    law_clusters_are_chains(r, n, a, k - 1);
                    assert(roots[a] != roots[k - 1]);
                } else {
                    assert(heads[j] == before[j]);
                }
            }
            assert forall|i: int| 0 <= i < k implies has_kin(
                m,
                heads,
                #[trigger] origin(other, order, label, i),
            ) by {
                if i < k - 1 {
                    lemma_has_kin_grows(m, before, seq![x], origin(other, order, label, i));
                } else {
                    lemma_akin_is_an_equivalence(m, x, x, x);
                    assert(heads[before.len() as int] == x);
                }
            }
            assert forall|h: int| 0 <= h < heads.len() implies is_origin(
                other,
                order,
                label,
                k,
                #[trigger] heads[h],
            ) by {
                reveal(is_origin);
                if h < before.len() {
                    assert(is_origin(other, order, label, k - 1, before[h]));
                    let i = choose|i: int|
                        0 <= i < k - 1 && #[trigger] origin(other, order, label, i) == before[h];
                    assert(origin(other, order, label, i) == heads[h]);
                } else {
                    assert(origin(other, order, label, k - 1) == heads[h]);
                }
            }
            heads
        } else {
            assert forall|i: int| 0 <= i < k implies has_kin(
                m,
                before,
                #[trigger] origin(other, order, label, i),
            ) by {
                if i == k - 1 {
                    let a = choose|a: int| 0 <= a < k - 1 && #[trigger] roots[a] == roots[k - 1];
                    law_clusters_are_chains(r, n, k - 1, a);
                    lemma_chains_are_kept(m, other, order, label, k - 1, a);
                    let y = origin(other, order, label, a);
                    assert(has_kin(m, before, y));
                    let h = choose|h: int|
                        0 <= h < before.len() && m.akin(y, #[trigger] before[h]);
                    lemma_akin_is_an_equivalence(m, x, y, before[h]);
                    assert(m.akin(x, before[h]));
                }
            }
            assert forall|h: int| 0 <= h < before.len() implies is_origin(
                other,
                order,
                label,
                k,
                #[trigger] before[h],
            ) by {
                reveal(is_origin);
                assert(is_origin(other, order, label, k - 1, before[h]));
                let i = choose|i: int|
                    0 <= i < k - 1 && #[trigger] origin(other, order, label, i) == before[h];
                assert(origin(other, order, label, i) == before[h]);
            }
            before
        }
    }
}

/// The heads of the first `k` classes.
spec fn heads_classes(m: Merging, labels: Seq<Seq<char>>, heads: Seq<int>, k: int) -> bool {
    &&& are_strangers(m, heads)
    &&& forall|i: int|
        0 <= i < heads.len() ==> 0 <= #[trigger] heads[i] < m.detections.len()
            && labels.take(k).contains(m.detections[heads[i]].label@)
    &&& forall|x: int|
        0 <= x < m.detections.len() && labels.take(k).contains(
            (#[trigger] m.detections[x]).label@,
        ) ==> has_kin(m, heads, x)
}

proof fn lemma_heads_combine(
    m: Merging,
    other: Merging,
    order: Seq<int>,
    labels: Seq<Seq<char>>,
    before: Seq<int>,
    more: Seq<int>,
    k: int,
)
    requires
        is_fair(m, other, order),
        0 < k <= labels.len(),
        forall|a: int, b: int|
            0 <= a < b < labels.len() ==> #[trigger] labels[a] != #[trigger] labels[b],
        heads_classes(m, labels, before, k - 1),
        heads_class(
            m,
            other,
            order,
            labels[k - 1],
            more,
            class_at(other, labels[k - 1]).len() as int,
        ),
    ensures
        heads_classes(m, labels, before + more, k),
{
    let label = labels[k - 1];
    let count = class_at(other, label).len() as int;
    let heads = before + more;
    lemma_origins(m, other, order, label);
    let few = labels.take(k - 1);
    let now = labels.take(k);
    assert forall|text: Seq<char>| #[trigger] now.contains(text) <==> few.contains(text) || text
        == label by {
        if few.contains(text) {
            let a = choose|a: int| 0 <= a < few.len() && few[a] == text;
            assert(now[a] == text);
        }
        if text == label {
            assert(now[k - 1] == text);
        }
        if now.contains(text) {
            let a = choose|a: int| 0 <= a < now.len() && now[a] == text;
            if a < k - 1 {
                assert(few[a] == text);
            }
        }
    }
    assert(!few.contains(label)) by {
        if few.contains(label) {
            let a = choose|a: int| 0 <= a < few.len() && few[a] == label;
            assert(labels[a] != labels[k - 1]);
        }
    }
    assert forall|i: int| 0 <= i < heads.len() implies 0 <= #[trigger] heads[i]
        < m.detections.len() && now.contains(m.detections[heads[i]].label@) by {
        if i < before.len() {
            assert(heads[i] == before[i]);
            assert(few.contains(m.detections[before[i]].label@));
        } else {
            assert(heads[i] == more[i - before.len()]);
        }
    }
    assert forall|i: int, j: int| 0 <= i < j < heads.len() implies !m.akin(
        #[trigger] heads[i],
        #[trigger] heads[j],
    ) by {
        if j < before.len() {
            assert(heads[i] == before[i] && heads[j] == before[j]);
        } else if i >= before.len() {
            assert(heads[i] == more[i - before.len()] && heads[j] == more[j - before.len()]);
        } else {
            assert(heads[i] == before[i] && heads[j] == more[j - before.len()]);
            lemma_akin_is_an_equivalence(m, heads[i], heads[j], heads[i]);
            assert(few.contains(m.detections[before[i]].label@));
        }
    }
    assert forall|x: int|
        0 <= x < m.detections.len() && now.contains(
            (#[trigger] m.detections[x]).label@,
        ) implies has_kin(m, heads, x) by {
        if m.detections[x].label@ == label {
            let i = choose|i: int|
                0 <= i < count && #[trigger] origin(other, order, label, i) == x;
            assert(has_kin(m, more, origin(other, order, label, i)));
        } else {
            assert(few.contains(m.detections[x].label@));
        }
        lemma_has_kin_grows(m, before, more, x);
    }
}

proof fn lemma_all_outcomes(
    m: Merging,
    other: Merging,
    order: Seq<int>,
    labels: Seq<Seq<char>>,
    k: int,
) -> (heads: Seq<int>)
    requires
        is_fair(m, other, order),
        0 <= k <= labels.len(),
        forall|a: int, b: int|
            0 <= a < b < labels.len() ==> #[trigger] labels[a] != #[trigger] labels[b],
    ensures
        shapes(
            classes_merged(
                other.detections,
                other.boxes,
                other.relate,
                other.minus,
                other.rule,
                other.contained,
                labels,
                k,
            ),
        ) == m.outcomes(heads),
        heads_classes(m, labels, heads, k),
    decreases k,
{
    if k <= 0 {
        lemma_no_shapes();
        Seq::empty()
    } else {
        let before = lemma_all_outcomes(m, other, order, labels, k - 1);
        let label = labels[k - 1];
        let count = class_at(other, label).len() as int;
        let more = lemma_class_outcomes(m, other, order, label, count);
        let heads = before + more;
        lemma_outcomes_add(m, before, more);
        lemma_shapes_add(
            classes_merged(
                other.detections,
                other.boxes,
                other.relate,
                other.minus,
                other.rule,
                other.contained,
                labels,
                k - 1,
            ),
            class_merged(
                other.detections,
                other.boxes,
                class_at(other, label),
                other.relate,
                other.minus,
                rule_for(other.rule, other.contained, label),
            ),
        );
        lemma_heads_combine(m, other, order, labels, before, more, k);
        heads
    }
}

proof fn lemma_merged_outcomes(m: Merging, other: Merging, order: Seq<int>) -> (heads: Seq<int>)
    requires
        is_fair(m, other, order),
    ensures
        shapes(other.merged()) == m.outcomes(heads),
        are_strangers(m, heads),
        forall|i: int| 0 <= i < heads.len() ==> 0 <= #[trigger] heads[i] < m.detections.len(),
        forall|x: int| 0 <= x < m.detections.len() ==> #[trigger] has_kin(m, heads, x),
{
    reveal(is_fair);
    let n = other.detections.len() as int;
    let labels = labels_of(other.detections, n);
    lemma_labels_are_met(other.detections, n);
    let heads = lemma_all_outcomes(m, other, order, labels, labels.len() as int);
    assert(labels.take(labels.len() as int) =~= labels);
    assert forall|x: int| 0 <= x < m.detections.len() implies #[trigger] has_kin(
        m,
        heads,
        x,
    ) by {
        lemma_order_reaches_all(order, x);
        let k = choose|k: int| 0 <= k < order.len() && order[k] == x;
        assert(other.detections[k] == m.detections[order[k]]);
        assert(labels.contains(m.detections[x].label@));
    }
    heads
}

/// It does not matter in which order the boxes come: however they are reordered, they are
/// made into the same boxes.
pub proof fn law_the_order_does_not_matter(m: Merging, other: Merging, order: Seq<int>)
    requires
        m.is_even_handed(),
        m.is_reordered(other, order),
    ensures
        shapes(other.merged()) == shapes(m.merged()),
{
    let n = m.detections.len();
    let same = Seq::new(n, |k: int| k);
    assert(m.is_reordered(m, same));
    reveal(is_fair);
    let a = lemma_merged_outcomes(m, m, same);
    let b = lemma_merged_outcomes(m, other, order);
    assert forall|i: int| 0 <= i < a.len() implies has_kin(m, b, #[trigger] a[i]) by {
        assert(0 <= a[i] < n);
    }
    assert forall|i: int| 0 <= i < b.len() implies has_kin(m, a, #[trigger] b[i]) by {
        assert(0 <= b[i] < n);
    }
    lemma_heads_do_not_matter(m, a, b);
}

} // verus!
