//! Greedy suppression of boxes that overlap a better one of the same class.
use vstd::prelude::*;
use crate::iou::{box_iou, overlap, AreaShare};
use crate::reading::Level;
use crate::types::{Detection, Extent};

verus! {

/// `g` gives what `f` returns.
pub open spec fn shares_as<F: Fn(usize, usize) -> AreaShare>(
    f: F,
    g: spec_fn(usize, usize) -> AreaShare,
) -> bool {
    forall|a: usize, b: usize, r: AreaShare| #[trigger]
        call_ensures(f, (a, b), r) ==> r == g(a, b)
}

/// `f` can be called with the numbers of any two of `n` boxes.
pub open spec fn can_share<F: Fn(usize, usize) -> AreaShare>(f: F, n: nat) -> bool {
    forall|a: usize, b: usize| a < n && b < n ==> #[trigger] call_requires(f, (a, b))
}

/// The place of a detection in a ranking: behind all with at least its score.
pub open spec fn place_in(detections: Seq<Detection>, order: Seq<usize>, x: usize) -> int
    decreases order.len(),
{
    if order.len() == 0 {
        0
    } else if detections[order.last() as int].confidence < detections[x as int].confidence {
        place_in(detections, order.drop_last(), x)
    } else {
        order.len() as int
    }
}

/// The first `n` detections by score, the best first; equals stay in order.
pub open spec fn ranked(detections: Seq<Detection>, n: int) -> Seq<usize>
    decreases n,
{
    if n <= 0 {
        Seq::empty()
    } else {
        let before = ranked(detections, n - 1);
        let x = (n - 1) as usize;
        before.insert(place_in(detections, before, x), x)
    }
}

/// How many of the best detections are looked at.
pub open spec fn look_limit(max_detections: int) -> int {
    if max_detections * 10 < 64 {
        64
    } else if max_detections * 10 > usize::MAX {
        usize::MAX as int
    } else {
        max_detections * 10
    }
}

/// The detections that are looked at, the best first.
pub open spec fn candidates(detections: Seq<Detection>, max_detections: int) -> Seq<usize> {
    let order = ranked(detections, detections.len() as int);
    if order.len() > look_limit(max_detections) {
        order.take(look_limit(max_detections))
    } else {
        order
    }
}

/// A detection suppresses another of the same class that it overlaps too much.
pub open spec fn suppresses(
    detections: Seq<Detection>,
    extents: Seq<Extent>,
    share: spec_fn(usize, usize) -> AreaShare,
    threshold: Level,
    a: usize,
    b: usize,
) -> bool {
    &&& detections[a as int].label@ == detections[b as int].label@
    &&& share(a, b).union > 0
    &&& overlap(extents[a as int], extents[b as int], share(a, b)) > threshold
}

/// Someone in the list suppresses the detection.
pub open spec fn is_suppressed(
    detections: Seq<Detection>,
    extents: Seq<Extent>,
    share: spec_fn(usize, usize) -> AreaShare,
    threshold: Level,
    kept: Seq<usize>,
    x: usize,
) -> bool {
    exists|i: int|
        0 <= i < kept.len() && suppresses(
            detections,
            extents,
            share,
            threshold,
            #[trigger] kept[i],
            x,
        )
}

/// Those among the first `n` candidates that no better survivor suppresses.
pub open spec fn survivors(
    detections: Seq<Detection>,
    extents: Seq<Extent>,
    share: spec_fn(usize, usize) -> AreaShare,
    threshold: Level,
    order: Seq<usize>,
    n: int,
) -> Seq<usize>
    decreases n,
{
    if n <= 0 {
        Seq::empty()
    } else {
        let kept = survivors(detections, extents, share, threshold, order, n - 1);
        if is_suppressed(detections, extents, share, threshold, kept, order[n - 1]) {
            kept
        } else {
            kept.push(order[n - 1])
        }
    }
}

/// The best survivors, as many as asked for but at least one if there is any.
pub open spec fn kept_best(
    detections: Seq<Detection>,
    extents: Seq<Extent>,
    share: spec_fn(usize, usize) -> AreaShare,
    threshold: Level,
    max_detections: Option<usize>,
) -> Seq<usize> {
    let most = match max_detections {
        Some(n) => n as int,
        None => detections.len() as int,
    };
    let order = candidates(detections, most);
    let all = survivors(detections, extents, share, threshold, order, order.len() as int);
    let limit = if most < 1 {
        1
    } else {
        most
    };
    if all.len() > limit {
        all.take(limit)
    } else {
        all
    }
}

/// The detections with these numbers.
pub open spec fn picked(detections: Seq<Detection>, numbers: Seq<usize>) -> Seq<Detection> {
    Seq::new(numbers.len(), |i: int| detections[numbers[i] as int])
}

proof fn lemma_place(detections: Seq<Detection>, order: Seq<usize>, x: usize)
    ensures
        0 <= place_in(detections, order, x) <= order.len(),
        forall|i: int|
            place_in(detections, order, x) <= i < order.len() ==> detections[
                #[trigger] order[i] as int
            ].confidence < detections[x as int].confidence,
        place_in(detections, order, x) > 0 ==> detections[order[place_in(detections, order, x)
            - 1] as int].confidence >= detections[x as int].confidence,
    decreases order.len(),
{
    if order.len() > 0 && detections[order.last() as int].confidence
        < detections[x as int].confidence {
        lemma_place(detections, order.drop_last(), x);
        let rest = order.drop_last();
        assert forall|i: int| place_in(detections, order, x) <= i < order.len() implies detections[
            #[trigger] order[i] as int
        ].confidence < detections[x as int].confidence by {
            if i < rest.len() {
                assert(rest[i] == order[i]);
            }
        }
    }
}

/// The ranking lists each detection once, better ones first, and equals in their order.
pub proof fn law_ranking_sorts(detections: Seq<Detection>, n: int)
    requires
        0 <= n <= detections.len(),
        n <= usize::MAX,
    ensures
        ({
            let order = ranked(detections, n);
            &&& order.len() == n
            &&& forall|i: int| 0 <= i < n ==> (#[trigger] order[i]) < n
            &&& forall|i: int, j: int|
                0 <= i < j < n ==> {
                    let a = #[trigger] order[i];
                    let b = #[trigger] order[j];
                    &&& detections[a as int].confidence >= detections[b as int].confidence
                    &&& detections[a as int].confidence == detections[b as int].confidence ==> a
                        < b
                    &&& a != b
                }
            &&& forall|x: usize| x < n ==> #[trigger] order.contains(x)
        }),
    decreases n,
{
    if n > 0 {
        law_ranking_sorts(detections, n - 1);
        let before = ranked(detections, n - 1);
        let x = (n - 1) as usize;
        lemma_place(detections, before, x);
        let p = place_in(detections, before, x);
        let order = ranked(detections, n);
        assert forall|i: int| 0 <= i < n implies #[trigger] order[i] == (if i < p {
            before[i]
        } else if i == p {
            x
        } else {
            before[i - 1]
        }) by {}
        if p > 0 {
            assert forall|i: int| 0 <= i < p implies detections[
                #[trigger] before[i] as int
            ].confidence >= detections[x as int].confidence by {
                if i < p - 1 {
                    assert(detections[before[i] as int].confidence >= detections[before[p
                        - 1] as int].confidence);
                }
            }
        }
        assert forall|i: int, j: int| 0 <= i < j < n implies {
            let a = #[trigger] order[i];
            let b = #[trigger] order[j];
            &&& detections[a as int].confidence >= detections[b as int].confidence
            &&& detections[a as int].confidence == detections[b as int].confidence ==> a < b
            &&& a != b
        } by {
            if i < p && j == p {
                assert(before[i] < n - 1);
            } else if i == p {
                assert(detections[before[j - 1] as int].confidence
                    < detections[x as int].confidence);
            } else {
                let k = if i < p {
                    i
                } else {
                    i - 1
                };
                let l = if j < p {
                    j
                } else {
                    j - 1
                };
                assert(before[k] != before[l]);
            }
        }
        assert forall|y: usize| y < n implies #[trigger] order.contains(y) by {
            if y == x {
                assert(order[p] == x);
            } else {
                assert(before.contains(y));
                let k = choose|k: int| 0 <= k < before.len() && before[k] == y;
                if k < p {
                    assert(order[k] == y);
                } else {
                    assert(order[k + 1] == y);
                }
            }
        }
    }
}

/// The detections by score, the best first; equals stay in order.
fn rank(detections: &Vec<Detection>) -> (order: Vec<usize>)
    ensures
        order@ == ranked(detections@, detections@.len() as int),
{
    let mut order: Vec<usize> = Vec::new();
    let mut x: usize = 0;
    while x < detections.len()
        invariant
            x <= detections@.len(),
            order@ == ranked(detections@, x as int),
        decreases detections@.len() - x,
    {
        proof {
            law_ranking_sorts(detections@, x as int);
        }
        let ghost before = order@;
        let mut p: usize = order.len();
        assert(before.take(p as int) == before);
        while p > 0 && detections[order[p - 1]].confidence < detections[x].confidence
            invariant
                p <= order@.len(),
                order@ == before,
                x < detections@.len(),
                forall|i: int| 0 <= i < before.len() ==> (#[trigger] before[i]) < detections@.len(),
                place_in(detections@, before, x) == place_in(
                    detections@,
                    before.take(p as int),
                    x,
                ),
            decreases p,
        {
            assert(before.take(p as int).drop_last() == before.take(p - 1));
            p -= 1;
        }
        assert(p == place_in(detections@, before, x)) by {
            if p > 0 {
                assert(before.take(p as int).last() == before[p - 1]);
            }
        }
        order.insert(p, x);
        x += 1;
    }
    order
}

proof fn lemma_survivors_grow(
    detections: Seq<Detection>,
    extents: Seq<Extent>,
    share: spec_fn(usize, usize) -> AreaShare,
    threshold: Level,
    order: Seq<usize>,
    a: int,
    b: int,
)
    requires
        0 <= a <= b,
    ensures
        ({
            let few = survivors(detections, extents, share, threshold, order, a);
            let all = survivors(detections, extents, share, threshold, order, b);
            few.len() <= all.len() && all.take(few.len() as int) == few
        }),
    decreases b,
{
    let few = survivors(detections, extents, share, threshold, order, a);
    let all = survivors(detections, extents, share, threshold, order, b);
    if a < b {
        lemma_survivors_grow(detections, extents, share, threshold, order, a, b - 1);
        let most = survivors(detections, extents, share, threshold, order, b - 1);
        assert(all.take(few.len() as int) =~= most.take(few.len() as int));
    } else {
        assert(all.take(few.len() as int) =~= few);
    }
}

/// The numbers of the detections that survive, the best first. `extents` are the edges of
/// the boxes, and `share` gives the areas of two of them, by their numbers.
pub fn nms_core<F: Fn(usize, usize) -> AreaShare>(
    detections: &Vec<Detection>,
    extents: &Vec<Extent>,
    share: &F,
    iou_threshold: Level,
    max_detections: Option<usize>,
) -> (kept: Vec<usize>)
    requires
        extents@.len() == detections@.len(),
        can_share(*share, detections@.len()),
    ensures
        forall|i: int| 0 <= i < kept@.len() ==> (#[trigger] kept@[i]) < detections@.len(),
        forall|g: spec_fn(usize, usize) -> AreaShare| #[trigger]
            shares_as(*share, g) ==> kept@ == kept_best(
                detections@,
                extents@,
                g,
                iou_threshold,
                max_detections,
            ),
{
    let count: usize = detections.len();
    let most: usize = match max_detections {
        Some(n) => n,
        None => count,
    };
    let mut order = rank(detections);
    proof {
        law_ranking_sorts(detections@, count as int);
    }
    let tenfold: usize = if most > usize::MAX / 10 {
        usize::MAX
    } else {
        most * 10
    };
    let limit: usize = if tenfold < 64 {
        64
    } else {
        tenfold
    };
    assert(limit == look_limit(most as int));
    if order.len() > limit {
        order.truncate(limit);
    }
    assert(order@ =~= candidates(detections@, most as int));
    let m: usize = order.len();
    let mut suppressed: Vec<bool> = Vec::new();
    let mut i: usize = 0;
    while i < m
        invariant
            i <= m,
            suppressed@.len() == i,
            forall|k: int| 0 <= k < i ==> !#[trigger] suppressed@[k],
        decreases m - i,
    {
        suppressed.push(false);
        i += 1;
    }
    let mut kept: Vec<usize> = Vec::new();
    let mut i: usize = 0;
    let mut full = false;
    while i < m && !full
        invariant
            i <= m,
            m == order@.len(),
            suppressed@.len() == m,
            extents@.len() == detections@.len(),
            can_share(*share, detections@.len()),
            forall|k: int| 0 <= k < m ==> (#[trigger] order@[k]) < detections@.len(),
            forall|k: int| 0 <= k < kept@.len() ==> (#[trigger] kept@[k]) < detections@.len(),
            full ==> kept@.len() >= most && kept@.len() >= 1,
            !full ==> kept@.len() < most || kept@.len() == 0,
            kept@.len() <= most || kept@.len() <= 1,
            forall|g: spec_fn(usize, usize) -> AreaShare| #[trigger]
                shares_as(*share, g) ==> {
                    &&& kept@ == survivors(
                        detections@,
                        extents@,
                        g,
                        iou_threshold,
                        order@,
                        i as int,
                    )
                    &&& full || forall|k: int|
                        i <= k < m ==> #[trigger] suppressed@[k] == is_suppressed(
                            detections@,
                            extents@,
                            g,
                            iou_threshold,
                            kept@,
                            order@[k],
                        )
                },
        decreases m - i,
    {
        let x: usize = order[i];
        if suppressed[i] {
            i += 1;
            continue;
        }
        let ghost before = kept@;
        kept.push(x);
        if kept.len() >= most {
            full = true;
            i += 1;
            continue;
        }
        let mut j: usize = i + 1;
        let ghost flags = suppressed@;
        while j < m
            invariant
                i < j <= m,
                m == order@.len(),
                suppressed@.len() == m,
                flags.len() == m,
                extents@.len() == detections@.len(),
                can_share(*share, detections@.len()),
                x == order@[i as int],
                x < detections@.len(),
                forall|k: int| 0 <= k < m ==> (#[trigger] order@[k]) < detections@.len(),
                forall|k: int| j <= k < m ==> #[trigger] suppressed@[k] == flags[k],
                forall|g: spec_fn(usize, usize) -> AreaShare, k: int|
                    #![trigger shares_as(*share, g), suppressed@[k]]
                    shares_as(*share, g) && i < k < j ==> suppressed@[k] == (flags[k]
                        || suppresses(
                        detections@,
                        extents@,
                        g,
                        iou_threshold,
                        x,
                        order@[k],
                    )),
            decreases m - j,
        {
            let y: usize = order[j];
            if !suppressed[j] && detections[x].label == detections[y].label {
                let areas = share(x, y);
                if areas.union > 0 && box_iou(&extents[x], &extents[y], &areas) > iou_threshold {
                    suppressed.set(j, true);
                }
            }
            j += 1;
        }
        proof {
            assert forall|g: spec_fn(usize, usize) -> AreaShare| #[trigger]
                shares_as(*share, g) implies (forall|k: int|
                i + 1 <= k < m ==> #[trigger] suppressed@[k] == is_suppressed(
                    detections@,
                    extents@,
                    g,
                    iou_threshold,
                    kept@,
                    order@[k],
                )) by {
                assert forall|k: int| i + 1 <= k < m implies #[trigger] suppressed@[k]
                    == is_suppressed(
                    detections@,
                    extents@,
                    g,
                    iou_threshold,
                    kept@,
                    order@[k],
                ) by {
                    assert(flags[k] == is_suppressed(
                        detections@,
                        extents@,
                        g,
                        iou_threshold,
                        before,
                        order@[k],
                    ));
                    if flags[k] {
                        let l = choose|l: int|
                            0 <= l < before.len() && suppresses(
                                detections@,
                                extents@,
                                g,
                                iou_threshold,
                                #[trigger] before[l],
                                order@[k],
                            );
                        assert(kept@[l] == before[l]);
                    }
                    if suppresses(detections@, extents@, g, iou_threshold, x, order@[k]) {
                        assert(kept@[before.len() as int] == x);
                    }
                    if is_suppressed(
                        detections@,
                        extents@,
                        g,
                        iou_threshold,
                        kept@,
                        order@[k],
                    ) {
                        let l = choose|l: int|
                            0 <= l < kept@.len() && suppresses(
                                detections@,
                                extents@,
                                g,
                                iou_threshold,
                                #[trigger] kept@[l],
                                order@[k],
                            );
                        if l < before.len() {
                            assert(before[l] == kept@[l]);
                        }
                    }
                }
            }
        }
        i += 1;
    }
    proof {
        assert forall|g: spec_fn(usize, usize) -> AreaShare| #[trigger]
            shares_as(*share, g) implies kept@ == kept_best(
            detections@,
            extents@,
            g,
            iou_threshold,
            max_detections,
        ) by {
            lemma_survivors_grow(
                detections@,
                extents@,
                g,
                iou_threshold,
                order@,
                i as int,
                m as int,
            );
            let all = survivors(detections@, extents@, g, iou_threshold, order@, m as int);
            assert(all.take(kept@.len() as int) == kept@);
            if kept@.len() == all.len() {
                assert(all.take(kept@.len() as int) =~= all);
            }
        }
    }
    kept
}

/// The detections that survive, the best first.
pub fn nms<F: Fn(usize, usize) -> AreaShare>(
    detections: &Vec<Detection>,
    extents: &Vec<Extent>,
    share: &F,
    iou_threshold: Level,
    max_detections: Option<usize>,
) -> (kept: Vec<Detection>)
    requires
        extents@.len() == detections@.len(),
        can_share(*share, detections@.len()),
    ensures
        forall|g: spec_fn(usize, usize) -> AreaShare| #[trigger]
            shares_as(*share, g) ==> kept@ == picked(
                detections@,
                kept_best(detections@, extents@, g, iou_threshold, max_detections),
            ),
{
    let best = nms_core(detections, extents, share, iou_threshold, max_detections);
    let mut kept: Vec<Detection> = Vec::new();
    let mut i: usize = 0;
    while i < best.len()
        invariant
            i <= best@.len(),
            forall|k: int| 0 <= k < best@.len() ==> (#[trigger] best@[k]) < detections@.len(),
            kept@ == Seq::new(i as nat, |k: int| detections@[best@[k] as int]),
        decreases best@.len() - i,
    {
        kept.push(detections[best[i]].copy());
        i += 1;
        assert(kept@ =~= Seq::new(i as nat, |k: int| detections@[best@[k] as int]));
    }
    kept
}

/// The numbers of the detections that survive, the best first.
pub fn nms_indices<F: Fn(usize, usize) -> AreaShare>(
    detections: &Vec<Detection>,
    extents: &Vec<Extent>,
    share: &F,
    iou_threshold: Level,
) -> (kept: Vec<usize>)
    requires
        extents@.len() == detections@.len(),
        can_share(*share, detections@.len()),
    ensures
        forall|g: spec_fn(usize, usize) -> AreaShare| #[trigger]
            shares_as(*share, g) ==> kept@ == kept_best(
                detections@,
                extents@,
                g,
                iou_threshold,
                None,
            ),
{
    nms_core(detections, extents, share, iou_threshold, None)
}

/// Survivors do not suppress each other, they are among the candidates in the same order,
/// and whoever does not survive is suppressed by a better survivor of its class.
pub proof fn law_survivors_cover_the_rest(
    detections: Seq<Detection>,
    extents: Seq<Extent>,
    share: spec_fn(usize, usize) -> AreaShare,
    threshold: Level,
    order: Seq<usize>,
    n: int,
)
    requires
        0 <= n <= order.len(),
    ensures
        ({
            let kept = survivors(detections, extents, share, threshold, order, n);
            &&& forall|i: int, j: int|
                0 <= i < j < kept.len() ==> !suppresses(
                    detections,
                    extents,
                    share,
                    threshold,
                    #[trigger] kept[i],
                    #[trigger] kept[j],
                )
            &&& forall|k: int|
                0 <= k < n ==> kept.contains(#[trigger] order[k]) || exists|l: int|
                    0 <= l < k && kept.contains(#[trigger] order[l]) && suppresses(
                        detections,
                        extents,
                        share,
                        threshold,
                        order[l],
                        order[k],
                    )
            &&& forall|i: int|
                0 <= i < kept.len() ==> exists|k: int|
                    0 <= k < n && #[trigger] order[k] == #[trigger] kept[i]
        }),
    decreases n,
{
    if n > 0 {
        law_survivors_cover_the_rest(detections, extents, share, threshold, order, n - 1);
        let before = survivors(detections, extents, share, threshold, order, n - 1);
        let kept = survivors(detections, extents, share, threshold, order, n);
        let last = order[n - 1];
        let dropped = is_suppressed(detections, extents, share, threshold, before, last);
        assert forall|x: usize| before.contains(x) implies #[trigger] kept.contains(x) by {
            let i = choose|i: int| 0 <= i < before.len() && before[i] == x;
            assert(kept[i] == x);
        }
        assert forall|k: int| 0 <= k < n implies kept.contains(#[trigger] order[k]) || exists|
            l: int,
        |
            0 <= l < k && kept.contains(#[trigger] order[l]) && suppresses(
                detections,
                extents,
                share,
                threshold,
                order[l],
                order[k],
            ) by {
            if k < n - 1 {
                if before.contains(order[k]) {
                    assert(kept.contains(order[k]));
                } else {
                    let l = choose|l: int|
                        0 <= l < k && before.contains(#[trigger] order[l]) && suppresses(
                            detections,
                            extents,
                            share,
                            threshold,
                            order[l],
                            order[k],
                        );
                    assert(kept.contains(order[l]));
                }
            } else if dropped {
                let i = choose|i: int|
                    0 <= i < before.len() && suppresses(
                        detections,
                        extents,
                        share,
                        threshold,
                        #[trigger] before[i],
                        last,
                    );
                let l = choose|l: int|
                    0 <= l < n - 1 && #[trigger] order[l] == #[trigger] before[i];
                assert(kept.contains(order[l]));
            } else {
                assert(kept[before.len() as int] == last);
            }
        }
        assert forall|i: int| 0 <= i < kept.len() implies exists|k: int|
            0 <= k < n && #[trigger] order[k] == #[trigger] kept[i] by {
            if i < before.len() {
                assert(kept[i] == before[i]);
                let k = choose|k: int|
                    0 <= k < n - 1 && #[trigger] order[k] == #[trigger] before[i];
                assert(order[k] == kept[i]);
            } else {
                assert(order[n - 1] == kept[i]);
            }
        }
    }
}

proof fn lemma_survivors_ascend(
    detections: Seq<Detection>,
    extents: Seq<Extent>,
    share: spec_fn(usize, usize) -> AreaShare,
    threshold: Level,
    order: Seq<usize>,
    n: int,
)
    requires
        0 <= n <= order.len(),
        forall|i: int, j: int|
            0 <= i < j < order.len() ==> detections[#[trigger] order[i] as int].confidence
                >= detections[#[trigger] order[j] as int].confidence,
    ensures
        ({
            let kept = survivors(detections, extents, share, threshold, order, n);
            &&& forall|i: int, j: int|
                0 <= i < j < kept.len() ==> detections[#[trigger] kept[i] as int].confidence
                    >= detections[#[trigger] kept[j] as int].confidence
            &&& forall|i: int, k: int|
                0 <= i < kept.len() && n <= k < order.len() ==> detections[
                    #[trigger] kept[i] as int
                ].confidence >= detections[#[trigger] order[k] as int].confidence
        }),
    decreases n,
{
    if n > 0 {
        lemma_survivors_ascend(detections, extents, share, threshold, order, n - 1);
        let before = survivors(detections, extents, share, threshold, order, n - 1);
        let kept = survivors(detections, extents, share, threshold, order, n);
        assert forall|i: int, j: int| 0 <= i < j < kept.len() implies detections[
            #[trigger] kept[i] as int
        ].confidence >= detections[#[trigger] kept[j] as int].confidence by {
            assert(kept[i] == before[i]);
            if j < before.len() {
                assert(kept[j] == before[j]);
            } else {
                assert(kept[j] == order[n - 1]);
            }
        }
        assert forall|i: int, k: int|
            0 <= i < kept.len() && n <= k < order.len() implies detections[
            #[trigger] kept[i] as int
        ].confidence >= detections[#[trigger] order[k] as int].confidence by {
            if i < before.len() {
                assert(kept[i] == before[i]);
            } else {
                assert(kept[i] == order[n - 1]);
            }
        }
    }
}

proof fn lemma_survivors_are_distinct(
    detections: Seq<Detection>,
    extents: Seq<Extent>,
    share: spec_fn(usize, usize) -> AreaShare,
    threshold: Level,
    order: Seq<usize>,
    n: int,
)
    requires
        0 <= n <= order.len(),
        forall|i: int, j: int|
            0 <= i < j < order.len() ==> #[trigger] order[i] != #[trigger] order[j],
    ensures
        ({
            let kept = survivors(detections, extents, share, threshold, order, n);
            &&& kept.no_duplicates()
            &&& forall|i: int, k: int|
                0 <= i < kept.len() && n <= k < order.len() ==> #[trigger] kept[i]
                    != #[trigger] order[k]
        }),
    decreases n,
{
    if n > 0 {
        lemma_survivors_are_distinct(detections, extents, share, threshold, order, n - 1);
    }
}

/// What is kept comes best first, each number once, and never more of it than asked for,
/// except that one is kept even if none is asked for.
pub proof fn law_the_best_come_first(
    detections: Seq<Detection>,
    extents: Seq<Extent>,
    share: spec_fn(usize, usize) -> AreaShare,
    threshold: Level,
    max_detections: Option<usize>,
)
    requires
        detections.len() <= usize::MAX,
    ensures
        ({
            let kept = kept_best(detections, extents, share, threshold, max_detections);
            &&& forall|i: int, j: int|
                0 <= i < j < kept.len() ==> detections[#[trigger] kept[i] as int].confidence
                    >= detections[#[trigger] kept[j] as int].confidence
            &&& forall|i: int| 0 <= i < kept.len() ==> (#[trigger] kept[i]) < detections.len()
            &&& kept.no_duplicates()
            &&& max_detections matches Some(n) ==> kept.len() <= n || kept.len() <= 1
            &&& detections.len() > 0 ==> kept.len() > 0
        }),
{
    let most = match max_detections {
        Some(n) => n as int,
        None => detections.len() as int,
    };
    law_ranking_sorts(detections, detections.len() as int);
    let order = candidates(detections, most);
    let all = survivors(detections, extents, share, threshold, order, order.len() as int);
    lemma_survivors_ascend(detections, extents, share, threshold, order, order.len() as int);
    lemma_survivors_are_distinct(
        detections,
        extents,
        share,
        threshold,
        order,
        order.len() as int,
    );
    law_survivors_cover_the_rest(
        detections,
        extents,
        share,
        threshold,
        order,
        order.len() as int,
    );
    assert forall|i: int| 0 <= i < all.len() implies (#[trigger] all[i]) < detections.len() by {
        let k = choose|k: int| 0 <= k < order.len() && #[trigger] order[k] == #[trigger] all[i];
        assert(order[k] < detections.len());
    }
    if detections.len() > 0 {
        assert(order.len() > 0);
        assert(all.contains(order[0]));
    }
}

/// Detections of different classes never suppress each other.
pub proof fn law_classes_do_not_suppress_each_other(
    detections: Seq<Detection>,
    extents: Seq<Extent>,
    share: spec_fn(usize, usize) -> AreaShare,
    threshold: Level,
    a: usize,
    b: usize,
)
    requires
        detections[a as int].label@ != detections[b as int].label@,
    ensures
        !suppresses(detections, extents, share, threshold, a, b),
{
}

/// Where no number is asked for, every detection is kept or suppressed by a kept one of its
/// class with at least its score, and no two kept ones suppress each other.
pub proof fn law_everyone_is_kept_or_suppressed(
    detections: Seq<Detection>,
    extents: Seq<Extent>,
    share: spec_fn(usize, usize) -> AreaShare,
    threshold: Level,
    x: usize,
)
    requires
        x < detections.len() <= usize::MAX,
    ensures
        ({
            let kept = kept_best(detections, extents, share, threshold, None);
            &&& kept.contains(x) || exists|i: int|
                0 <= i < kept.len() && suppresses(
                    detections,
                    extents,
                    share,
                    threshold,
                    #[trigger] kept[i],
                    x,
                ) && detections[kept[i] as int].confidence >= detections[x as int].confidence
            &&& forall|i: int, j: int|
                0 <= i < j < kept.len() ==> !suppresses(
                    detections,
                    extents,
                    share,
                    threshold,
                    #[trigger] kept[i],
                    #[trigger] kept[j],
                )
        }),
{
    let n = detections.len() as int;
    let order = ranked(detections, n);
    law_ranking_sorts(detections, n);
    assert(candidates(detections, n) == order);
    let kept = survivors(detections, extents, share, threshold, order, n);
    law_survivors_cover_the_rest(detections, extents, share, threshold, order, n);
    lemma_survivors_are_few(detections, extents, share, threshold, order, n);
    assert(kept == kept_best(detections, extents, share, threshold, None));
    assert(order.contains(x));
    let k = choose|k: int| 0 <= k < order.len() && order[k] == x;
    if !kept.contains(order[k]) {
        let l = choose|l: int|
            0 <= l < k && kept.contains(#[trigger] order[l]) && suppresses(
                detections,
                extents,
                share,
                threshold,
                order[l],
                order[k],
            );
        let i = choose|i: int| 0 <= i < kept.len() && kept[i] == order[l];
        assert(detections[order[l] as int].confidence >= detections[order[k] as int].confidence);
        assert(suppresses(detections, extents, share, threshold, kept[i], x));
    }
}

proof fn lemma_survivors_are_few(
    detections: Seq<Detection>,
    extents: Seq<Extent>,
    share: spec_fn(usize, usize) -> AreaShare,
    threshold: Level,
    order: Seq<usize>,
    n: int,
)
    requires
        0 <= n,
    ensures
        survivors(detections, extents, share, threshold, order, n).len() <= n,
    decreases n,
{
    if n > 0 {
        lemma_survivors_are_few(detections, extents, share, threshold, order, n - 1);
    }
}

/// The detections kept and the numbers kept agree: one is the detection with the other, and
/// the scores never go up.
pub proof fn law_kept_detections_have_the_kept_numbers(
    detections: Seq<Detection>,
    extents: Seq<Extent>,
    share: spec_fn(usize, usize) -> AreaShare,
    threshold: Level,
)
    requires
        detections.len() <= usize::MAX,
    ensures
        ({
            let numbers = kept_best(detections, extents, share, threshold, None);
            let kept = picked(detections, numbers);
            &&& kept.len() == numbers.len()
            &&& forall|i: int|
                0 <= i < kept.len() ==> (#[trigger] numbers[i]) < detections.len() && kept[i]
                    == detections[numbers[i] as int]
            &&& forall|i: int, j: int|
                0 <= i < j < kept.len() ==> (#[trigger] kept[i]).confidence >= (
                #[trigger] kept[j]).confidence
        }),
{
    law_the_best_come_first(detections, extents, share, threshold, None);
    let numbers = kept_best(detections, extents, share, threshold, None);
    let kept = picked(detections, numbers);
    assert forall|i: int, j: int| 0 <= i < j < kept.len() implies (#[trigger] kept[i]).confidence
        >= (#[trigger] kept[j]).confidence by {
        assert(detections[numbers[i] as int].confidence
            >= detections[numbers[j] as int].confidence);
    }
}

proof fn lemma_survivors_of_the_first(
    detections: Seq<Detection>,
    extents: Seq<Extent>,
    share: spec_fn(usize, usize) -> AreaShare,
    threshold: Level,
    order: Seq<usize>,
    limit: int,
    n: int,
)
    requires
        n <= limit <= order.len(),
    ensures
        survivors(detections, extents, share, threshold, order.take(limit), n) == survivors(
            detections,
            extents,
            share,
            threshold,
            order,
            n,
        ),
    decreases n,
{
    if n > 0 {
        lemma_survivors_of_the_first(
            detections,
            extents,
            share,
            threshold,
            order,
            limit,
            n - 1,
        );
        assert(order.take(limit)[n - 1] == order[n - 1]);
    }
}

/// A limit only cuts off: what is kept under a limit is the beginning of what is kept
/// without one, and as much of it as the limit allows wherever all detections are looked at.
pub proof fn law_a_limit_only_cuts_off(
    detections: Seq<Detection>,
    extents: Seq<Extent>,
    share: spec_fn(usize, usize) -> AreaShare,
    threshold: Level,
    most: usize,
)
    requires
        1 <= most,
        detections.len() <= usize::MAX,
    ensures
        ({
            let kept = kept_best(detections, extents, share, threshold, Some(most));
            let full = kept_best(detections, extents, share, threshold, None);
            &&& kept.len() <= full.len()
            &&& kept == full.take(kept.len() as int)
            &&& detections.len() <= 64 || detections.len() <= 10 * most ==> kept == full.take(
                if most < full.len() {
                    most as int
                } else {
                    full.len() as int
                },
            )
        }),
{
    let n = detections.len() as int;
    let order = ranked(detections, n);
    law_ranking_sorts(detections, n);
    assert(candidates(detections, n) == order);
    let full = survivors(detections, extents, share, threshold, order, n);
    lemma_survivors_are_few(detections, extents, share, threshold, order, n);
    assert(full == kept_best(detections, extents, share, threshold, None));
    let limit = look_limit(most as int);
    let looked = candidates(detections, most as int);
    if n > limit {
        lemma_survivors_of_the_first(
            detections,
            extents,
            share,
            threshold,
            order,
            limit,
            limit,
        );
    }
    let count = looked.len() as int;
    let all = survivors(detections, extents, share, threshold, looked, count);
    assert(all == survivors(detections, extents, share, threshold, order, count));
    lemma_survivors_grow(detections, extents, share, threshold, order, count, n);
    assert(all == full.take(all.len() as int));
    let kept = kept_best(detections, extents, share, threshold, Some(most));
    assert(kept =~= full.take(kept.len() as int));
    if n <= limit {
        assert(all =~= full);
    }
}

/// By how much two boxes overlap: the share of their union that is common to them, and 0 if
/// they have no inner points in common.
pub open spec fn shared_part(e: Extent, f: Extent, m: AreaShare) -> Level {
    if e.left < e.right && f.left < f.right && e.left < f.right && f.left < e.right && e.top
        < e.bottom && f.top < f.bottom && e.top < f.bottom && f.top < e.bottom {
        m.ratio
    } else {
        0
    }
}

/// A detection is only left out for one of its class with at least its score that is kept and
/// overlaps it by more than the threshold.
pub proof fn law_only_more_overlap_leaves_out(
    detections: Seq<Detection>,
    extents: Seq<Extent>,
    share: spec_fn(usize, usize) -> AreaShare,
    threshold: Level,
    x: usize,
)
    requires
        x < detections.len() <= usize::MAX,
        !kept_best(detections, extents, share, threshold, None).contains(x),
    ensures
        ({
            let kept = kept_best(detections, extents, share, threshold, None);
            exists|i: int|
                {
                    &&& 0 <= i < kept.len()
                    &&& kept[i] != x && kept[i] < detections.len()
                    &&& detections[kept[i] as int].label@ == detections[x as int].label@
                    &&& detections[kept[i] as int].confidence >= detections[x as int].confidence
                    &&& share(kept[i], x).union > 0
                    &&& shared_part(
                        extents[#[trigger] kept[i] as int],
                        extents[x as int],
                        share(kept[i], x),
                    ) > threshold
                }
        }),
{
    let kept = kept_best(detections, extents, share, threshold, None);
    law_everyone_is_kept_or_suppressed(detections, extents, share, threshold, x);
    law_the_best_come_first(detections, extents, share, threshold, None);
    let i = choose|i: int|
        0 <= i < kept.len() && suppresses(
            detections,
            extents,
            share,
            threshold,
            #[trigger] kept[i],
            x,
        ) && detections[kept[i] as int].confidence >= detections[x as int].confidence;
    assert(kept[i] != x) by {
        if kept[i] == x {
            assert(kept.contains(x));
        }
    }
    assert(shared_part(extents[kept[i] as int], extents[x as int], share(kept[i], x))
        > threshold);
}

/// Two detections of a class that are both kept overlap by at most the threshold, as far as
/// their union has an area.
pub proof fn law_the_kept_overlap_little(
    detections: Seq<Detection>,
    extents: Seq<Extent>,
    share: spec_fn(usize, usize) -> AreaShare,
    threshold: Level,
    max_detections: Option<usize>,
    i: int,
    j: int,
)
    requires
        detections.len() <= usize::MAX,
        0 <= i < j < kept_best(detections, extents, share, threshold, max_detections).len(),
    ensures
        ({
            let kept = kept_best(detections, extents, share, threshold, max_detections);
            detections[kept[i] as int].label@ == detections[kept[j] as int].label@ && share(
                kept[i],
                kept[j],
            ).union > 0 ==> shared_part(
                extents[kept[i] as int],
                extents[kept[j] as int],
                share(kept[i], kept[j]),
            ) <= threshold
        }),
{
    let most = match max_detections {
        Some(n) => n as int,
        None => detections.len() as int,
    };
    let order = candidates(detections, most);
    law_survivors_cover_the_rest(
        detections,
        extents,
        share,
        threshold,
        order,
        order.len() as int,
    );
    let all = survivors(detections, extents, share, threshold, order, order.len() as int);
    assert(!suppresses(detections, extents, share, threshold, all[i], all[j]));
}

/// Where no two of a class overlap by more than the threshold, all are kept.
pub proof fn law_little_overlap_keeps_all(
    detections: Seq<Detection>,
    extents: Seq<Extent>,
    share: spec_fn(usize, usize) -> AreaShare,
    threshold: Level,
    x: usize,
)
    requires
        x < detections.len() <= usize::MAX,
        forall|a: usize|
            #![trigger detections[a as int]]
            a < detections.len() && a != x && detections[a as int].label@
                == detections[x as int].label@ ==> share(a, x).union <= 0 || shared_part(
                extents[a as int],
                extents[x as int],
                share(a, x),
            ) <= threshold,
    ensures
        kept_best(detections, extents, share, threshold, None).contains(x),
{
    let kept = kept_best(detections, extents, share, threshold, None);
    if !kept.contains(x) {
        law_only_more_overlap_leaves_out(detections, extents, share, threshold, x);
        let i = choose|i: int|
            {
                &&& 0 <= i < kept.len()
                &&& kept[i] != x && kept[i] < detections.len()
                &&& detections[kept[i] as int].label@ == detections[x as int].label@
                &&& detections[kept[i] as int].confidence >= detections[x as int].confidence
                &&& share(kept[i], x).union > 0
                &&& shared_part(
                    extents[#[trigger] kept[i] as int],
                    extents[x as int],
                    share(kept[i], x),
                ) > threshold
            };
        assert(detections[kept[i] as int].label@ == detections[x as int].label@);
    }
}

/// Under a limit the best are looked at, ten times as many as asked for and at least
/// sixty-four: only those are kept, and as long as fewer are kept than asked for, each of
/// them is kept or overlaps a kept one of its class by more than the threshold.
pub proof fn law_a_limit_looks_at_the_best(
    detections: Seq<Detection>,
    extents: Seq<Extent>,
    share: spec_fn(usize, usize) -> AreaShare,
    threshold: Level,
    most: usize,
    p: int,
)
    requires
        detections.len() <= usize::MAX,
        0 <= p < detections.len(),
    ensures
        ({
            let kept = kept_best(detections, extents, share, threshold, Some(most));
            let x = ranked(detections, detections.len() as int)[p];
            &&& kept.contains(x) ==> p < 64 || p < 10 * most
            &&& (p < 64 || p < 10 * most) && !kept.contains(x) && (kept.len() < most || kept.len()
                == 0) ==> exists|i: int|
                {
                    &&& 0 <= i < kept.len()
                    &&& detections[kept[i] as int].label@ == detections[x as int].label@
                    &&& detections[kept[i] as int].confidence >= detections[x as int].confidence
                    &&& share(kept[i], x).union > 0
                    &&& shared_part(
                        extents[#[trigger] kept[i] as int],
                        extents[x as int],
                        share(kept[i], x),
                    ) > threshold
                }
        }),
{
    let n = detections.len() as int;
    let order = ranked(detections, n);
    let x = order[p];
    law_ranking_sorts(detections, n);
    let looked = candidates(detections, most as int);
    let count = looked.len() as int;
    let all = survivors(detections, extents, share, threshold, looked, count);
    let kept = kept_best(detections, extents, share, threshold, Some(most));
    law_survivors_cover_the_rest(detections, extents, share, threshold, looked, count);
    assert forall|k: int| 0 <= k < count implies #[trigger] looked[k] == order[k] by {}
    if kept.contains(x) {
        let i = choose|i: int| 0 <= i < kept.len() && kept[i] == x;
        assert(all[i] == x);
        let k = choose|k: int| 0 <= k < count && #[trigger] looked[k] == #[trigger] all[i];
        assert(order[k] == x);
        assert(k == p) by {
            if k < p {
                assert(order[k] != order[p]);
            }
            if p < k {
                assert(order[p] != order[k]);
            }
        }
    }
    if (p < 64 || p < 10 * most) && !kept.contains(x) && (kept.len() < most || kept.len() == 0) {
        assert(kept == all);
        assert(p < count);
        assert(looked[p] == x);
        assert(kept.contains(looked[p]) || exists|l: int|
            0 <= l < p && all.contains(#[trigger] looked[l]) && suppresses(
                detections,
                extents,
                share,
                threshold,
                looked[l],
                looked[p],
            ));
        let l = choose|l: int|
            0 <= l < p && all.contains(#[trigger] looked[l]) && suppresses(
                detections,
                extents,
                share,
                threshold,
                looked[l],
                looked[p],
            );
        let i = choose|i: int| 0 <= i < all.len() && all[i] == looked[l];
        assert(order[l] == kept[i]);
        assert(detections[order[l] as int].confidence >= detections[order[p] as int].confidence);
        assert(shared_part(extents[kept[i] as int], extents[x as int], share(kept[i], x))
            > threshold);
    }
}

/// The detections kept are those with the numbers kept, field by field and in that order.
pub proof fn law_a_kept_detection_is_unchanged(
    detections: Seq<Detection>,
    numbers: Seq<usize>,
    i: int,
)
    requires
        0 <= i < numbers.len(),
    ensures
        picked(detections, numbers).len() == numbers.len(),
        ({
            let kept = picked(detections, numbers)[i];
            let d = detections[numbers[i] as int];
            &&& kept.x == d.x && kept.y == d.y
            &&& kept.width == d.width && kept.height == d.height
            &&& kept.confidence == d.confidence
            &&& kept.label@ == d.label@
        }),
{
}

} // verus!
