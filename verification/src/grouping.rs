//! Detections sorted by their labels.
use vstd::prelude::*;
use crate::labels::contains_label;
use crate::types::Detection;

verus! {

/// The labels of the first `n` detections, each once, in the order they first appear.
pub open spec fn labels_of(detections: Seq<Detection>, n: int) -> Seq<Seq<char>>
    decreases n,
{
    if n <= 0 {
        Seq::empty()
    } else {
        let before = labels_of(detections, n - 1);
        let label = detections[n - 1].label@;
        if before.contains(label) {
            before
        } else {
            before.push(label)
        }
    }
}

/// The numbers of those among the first `n` detections that have this label.
pub open spec fn numbers_with(detections: Seq<Detection>, label: Seq<char>, n: int) -> Seq<usize>
    decreases n,
{
    if n <= 0 {
        Seq::empty()
    } else if detections[n - 1].label@ == label {
        numbers_with(detections, label, n - 1).push((n - 1) as usize)
    } else {
        numbers_with(detections, label, n - 1)
    }
}

pub proof fn lemma_labels_are_met(detections: Seq<Detection>, n: int)
    requires
        0 <= n <= detections.len(),
    ensures
        ({
            let labels = labels_of(detections, n);
            &&& forall|text: Seq<char>| #[trigger]
                labels.contains(text) <==> exists|j: int|
                    0 <= j < n && (#[trigger] detections[j]).label@ == text
            &&& forall|a: int, b: int|
                0 <= a < b < labels.len() ==> #[trigger] labels[a] != #[trigger] labels[b]
        }),
    decreases n,
{
    if n > 0 {
        lemma_labels_are_met(detections, n - 1);
        let before = labels_of(detections, n - 1);
        let labels = labels_of(detections, n);
        let last = detections[n - 1].label@;
        assert forall|text: Seq<char>| #[trigger] labels.contains(text) <==> exists|j: int|
            0 <= j < n && (#[trigger] detections[j]).label@ == text by {
            if before.contains(text) {
                let a = choose|a: int| 0 <= a < before.len() && before[a] == text;
                assert(labels[a] == text);
                let j = choose|j: int| 0 <= j < n - 1 && (#[trigger] detections[j]).label@ == text;
                assert(detections[j].label@ == text);
            }
            if text == last {
                if !before.contains(last) {
                    assert(labels[before.len() as int] == last);
                }
                assert(detections[n - 1].label@ == text);
            }
            if labels.contains(text) && !before.contains(text) {
                let a = choose|a: int| 0 <= a < labels.len() && labels[a] == text;
                if a < before.len() {
                    assert(before[a] == text);
                }
            }
            if exists|j: int| 0 <= j < n && (#[trigger] detections[j]).label@ == text {
                let j = choose|j: int| 0 <= j < n && (#[trigger] detections[j]).label@ == text;
                if j < n - 1 {
                    assert(before.contains(text));
                }
            }
        }
        assert forall|a: int, b: int| 0 <= a < b < labels.len() implies #[trigger] labels[a]
            != #[trigger] labels[b] by {
            if b == before.len() {
                assert(before.contains(labels[a]));
            }
        }
    }
}

/// The labels, each once, in the order they first appear.
pub fn distinct_labels(detections: &Vec<Detection>) -> (labels: Vec<String>)
    ensures
        labels@.map_values(|l: String| l@) == labels_of(detections@, detections@.len() as int),
{
    let mut labels: Vec<String> = Vec::new();
    let mut i: usize = 0;
    assert(labels@.map_values(|l: String| l@) =~= Seq::empty());
    while i < detections.len()
        invariant
            i <= detections@.len(),
            labels@.map_values(|l: String| l@) == labels_of(detections@, i as int),
        decreases detections@.len() - i,
    {
        let ghost before = labels@;
        let ghost texts = before.map_values(|l: String| l@);
        let ghost label = detections@[i as int].label;
        if !contains_label(&labels, &detections[i].label) {
            assert(!texts.contains(label@)) by {
                if texts.contains(label@) {
                    let k = choose|k: int| 0 <= k < texts.len() && texts[k] == label@;
                    assert(before[k]@ == label@);
                }
            }
            labels.push(detections[i].label.clone());
            assert(labels@.map_values(|l: String| l@) =~= texts.push(label@));
        } else {
            let ghost k = choose|k: int| 0 <= k < before.len() && #[trigger] before[k]@ == label@;
            assert(texts[k] == label@);
        }
        i += 1;
    }
    labels
}

/// The numbers of the detections with this label.
pub fn find_with_label(detections: &Vec<Detection>, label: &String) -> (numbers: Vec<usize>)
    ensures
        numbers@ == numbers_with(detections@, label@, detections@.len() as int),
        forall|k: int| 0 <= k < numbers@.len() ==> (#[trigger] numbers@[k]) < detections@.len(),
{
    let mut numbers: Vec<usize> = Vec::new();
    let mut i: usize = 0;
    while i < detections.len()
        invariant
            i <= detections@.len(),
            numbers@ == numbers_with(detections@, label@, i as int),
            forall|k: int| 0 <= k < numbers@.len() ==> (#[trigger] numbers@[k]) < i,
        decreases detections@.len() - i,
    {
        if detections[i].label == *label {
            numbers.push(i);
        }
        i += 1;
    }
    numbers
}

/// The detection is the first with its label.
pub open spec fn is_first_with_its_label(detections: Seq<Detection>, i: int) -> bool {
    forall|j: int| 0 <= j < i ==> (#[trigger] detections[j]).label@ != detections[i].label@
}

/// The labels are listed in the order in which they first appear: each listed label is that of
/// a first detection with it, and later in the list means later among the detections.
pub proof fn law_labels_come_in_order(detections: Seq<Detection>, n: int) -> (firsts: Seq<int>)
    requires
        0 <= n <= detections.len(),
    ensures
        firsts.len() == labels_of(detections, n).len(),
        forall|k: int|
            0 <= k < firsts.len() ==> 0 <= #[trigger] firsts[k] < n && is_first_with_its_label(
                detections,
                firsts[k],
            ) && labels_of(detections, n)[k] == detections[firsts[k]].label@,
        forall|k: int, l: int|
            0 <= k < l < firsts.len() ==> #[trigger] firsts[k] < #[trigger] firsts[l],
    decreases n,
{
    if n <= 0 {
        Seq::empty()
    } else {
        let before = law_labels_come_in_order(detections, n - 1);
        let label = detections[n - 1].label@;
        lemma_labels_are_met(detections, n - 1);
        if labels_of(detections, n - 1).contains(label) {
            before
        } else {
            assert(is_first_with_its_label(detections, n - 1));
            let firsts = before.push(n - 1);
            assert forall|k: int| 0 <= k < firsts.len() implies 0 <= #[trigger] firsts[k] < n
                && is_first_with_its_label(detections, firsts[k]) && labels_of(detections, n)[k]
                == detections[firsts[k]].label@ by {
                if k < before.len() {
                    assert(firsts[k] == before[k]);
                }
            }
            firsts
        }
    }
}

} // verus!
