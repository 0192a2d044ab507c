//! Class labels and sets of labels.
use vstd::prelude::*;

verus! {

/// What `str::to_lowercase` makes of a text.
pub uninterp spec fn lowercase_text(text: Seq<char>) -> Seq<char>;

/// Calls `str::to_lowercase`. The claim is only that the result is determined by the
/// text; which characters Unicode maps where is left to the standard library.
#[verifier::external_body]
pub(crate) fn lowercase(label: &String) -> (lower: String)
    ensures
        lower@ == lowercase_text(label@),
{
    label.to_lowercase()
}

/// Some label in the list has this text.
pub open spec fn has_text(labels: Seq<String>, text: Seq<char>) -> bool {
    exists|i: int| 0 <= i < labels.len() && #[trigger] labels[i]@ == text
}

/// No two labels in the list have the same text.
pub open spec fn distinct_texts(labels: Seq<String>) -> bool {
    forall|i: int, j: int|
        0 <= i < j < labels.len() ==> #[trigger] labels[i]@ != #[trigger] labels[j]@
}

/// `set` lists, each once, the lowercased texts of `labels`.
pub open spec fn is_lowercase_set(set: Seq<String>, labels: Seq<String>) -> bool {
    &&& distinct_texts(set)
    &&& forall|text: Seq<char>|
        has_text(set, text) <==> #[trigger] has_lowercase(labels, text)
}

/// Some label in the list has this text once lowercased.
pub open spec fn has_lowercase(labels: Seq<String>, text: Seq<char>) -> bool {
    exists|i: int| 0 <= i < labels.len() && lowercase_text(#[trigger] labels[i]@) == text
}

/// Whether the list holds a label with the text of `label`.
pub fn contains_label(labels: &Vec<String>, label: &String) -> (found: bool)
    ensures
        found == has_text(labels@, label@),
{
    let mut i: usize = 0;
    while i < labels.len()
        invariant
            i <= labels.len(),
            forall|j: int| 0 <= j < i ==> #[trigger] labels@[j]@ != label@,
        decreases labels.len() - i,
    {
        if labels[i] == *label {
            return true;
        }
        i += 1;
    }
    false
}

/// The position of the first label with the text of `label`.
pub fn position_of_label(labels: &Vec<String>, label: &String) -> (at: Option<usize>)
    ensures
        match at {
            Some(i) => {
                &&& i < labels.len()
                &&& labels@[i as int]@ == label@
                &&& forall|j: int| 0 <= j < i ==> #[trigger] labels@[j]@ != label@
            },
            None => !has_text(labels@, label@),
        },
{
    let mut i: usize = 0;
    while i < labels.len()
        invariant
            i <= labels.len(),
            forall|j: int| 0 <= j < i ==> #[trigger] labels@[j]@ != label@,
        decreases labels.len() - i,
    {
        if labels[i] == *label {
            return Some(i);
        }
        i += 1;
    }
    None
}

/// Adds a label to a set of labels.
pub fn insert_label(set: &mut Vec<String>, label: String)
    requires
        distinct_texts(old(set)@),
    ensures
        distinct_texts(final(set)@),
        final(set)@ == if has_text(old(set)@, label@) {
            old(set)@
        } else {
            old(set)@.push(label)
        },
        forall|text: Seq<char>|
            #[trigger] has_text(final(set)@, text) <==> has_text(old(set)@, text) || text == label@,
{
    if !contains_label(set, &label) {
        let ghost before = set@;
        set.push(label);
        proof {
            assert forall|text: Seq<char>| #[trigger]
                has_text(set@, text) <==> has_text(before, text) || text == label@ by {
                if has_text(before, text) {
                    let i = choose|i: int| 0 <= i < before.len() && #[trigger] before[i]@ == text;
                    assert(set@[i]@ == text);
                }
                if text == label@ {
                    assert(set@[before.len() as int]@ == text);
                }
            }
        }
    }
}

/// A copy of a list of labels.
pub fn copy_labels(labels: &Vec<String>) -> (copy: Vec<String>)
    ensures
        copy@ == labels@,
{
    let mut copy: Vec<String> = Vec::new();
    let mut i: usize = 0;
    while i < labels.len()
        invariant
            i <= labels.len(),
            copy@ == labels@.take(i as int),
        decreases labels.len() - i,
    {
        copy.push(labels[i].clone());
        i += 1;
        assert(labels@.take(i as int) == labels@.take(i - 1).push(labels@[i - 1]));
    }
    assert(labels@.take(i as int) == labels@);
    copy
}

/// The set of lowercased labels.
pub fn lowercase_set(labels: &Vec<String>) -> (set: Vec<String>)
    ensures
        is_lowercase_set(set@, labels@),
        set@.len() == 0 <==> labels@.len() == 0,
{
    let mut set: Vec<String> = Vec::new();
    let mut i: usize = 0;
    while i < labels.len()
        invariant
            i <= labels.len(),
            is_lowercase_set(set@, labels@.take(i as int)),
            set@.len() == 0 <==> i == 0,
        decreases labels.len() - i,
    {
        let lower = lowercase(&labels[i]);
        let ghost before = set@;
        insert_label(&mut set, lower);
        proof {
            let done = labels@.take(i as int);
            let next = labels@.take(i + 1);
            assert(next == done.push(labels@[i as int]));
            assert forall|text: Seq<char>|
                has_text(set@, text) <==> #[trigger] has_lowercase(next, text) by {
                assert(has_text(set@, text) <==> has_text(before, text) || text == lower@);
                assert(has_text(before, text) <==> has_lowercase(done, text));
                if has_lowercase(done, text) {
                    let k = choose|k: int|
                        0 <= k < done.len() && lowercase_text(#[trigger] done[k]@) == text;
                    assert(next[k] == done[k]);
                }
                if text == lower@ {
                    assert(lowercase_text(next[i as int]@) == text);
                }
                if has_lowercase(next, text) && text != lower@ {
                    let k = choose|k: int|
                        0 <= k < next.len() && lowercase_text(#[trigger] next[k]@) == text;
                    assert(done[k] == next[k]);
                }
            }
        }
        i += 1;
    }
    assert(labels@.take(i as int) == labels@);
    set
}

} // verus!
