use vstd::prelude::*;

use crate::json::str_eq;
use crate::seqs::{first_index, lemma_first_index};

verus! {

broadcast use vstd::std_specs::vec::group_vec_axioms;

/// Counts of events grouped by a label, each label once, in the order in
/// which the labels first occur.
pub struct KindCounts {
    entries: Vec<(String, usize)>,
}

/// The predicate "this entry is for label `l`".
pub open spec fn has_label(l: Seq<char>) -> spec_fn((Seq<char>, nat)) -> bool {
    |e: (Seq<char>, nat)| e.0 == l
}

/// The count of each label of `labels`, each label once, in the order of
/// first occurrence.
pub open spec fn tally(labels: Seq<Seq<char>>) -> Seq<(Seq<char>, nat)>
    decreases labels.len(),
{
    if labels.len() == 0 {
        Seq::empty()
    } else {
        let t = tally(labels.drop_last());
        let l = labels.last();
        match first_index(t, has_label(l)) {
            Some(i) => t.update(i, (l, t[i].1 + 1)),
            None => t.push((l, 1)),
        }
    }
}

/// The count held for label `l`, if there is one.
pub open spec fn count_for(t: Seq<(Seq<char>, nat)>, l: Seq<char>) -> Option<nat> {
    match first_index(t, has_label(l)) {
        Some(i) => Some(t[i].1),
        None => None,
    }
}

/// The sum of all counts.
pub open spec fn total(t: Seq<(Seq<char>, nat)>) -> nat
    decreases t.len(),
{
    if t.len() == 0 {
        0
    } else {
        total(t.drop_last()) + t.last().1
    }
}

/// The entries as `(label, count)` pairs of plain values.
pub open spec fn entry_views(e: Seq<(String, usize)>) -> Seq<(Seq<char>, nat)> {
    Seq::new(e.len(), |i: int| (e[i].0@, e[i].1 as nat))
}

impl View for KindCounts {
    type V = Seq<(Seq<char>, nat)>;

    closed spec fn view(&self) -> Seq<(Seq<char>, nat)> {
        entry_views(self.entries@)
    }
}

/// `first_index` depends only on which elements satisfy the predicate.
pub proof fn lemma_first_index_same_truth<A>(s1: Seq<A>, s2: Seq<A>, p: spec_fn(A) -> bool)
    requires
        s1.len() == s2.len(),
        forall|j: int| 0 <= j < s1.len() ==> p(s1[j]) == p(s2[j]),
    ensures
        first_index(s1, p) == first_index(s2, p),
    decreases s1.len(),
{
    if s1.len() > 0 {
        lemma_first_index_same_truth(s1.drop_last(), s2.drop_last(), p);
    }
}

/// Changing one entry's count changes the total by the difference.
pub proof fn lemma_total_update(t: Seq<(Seq<char>, nat)>, i: int, e: (Seq<char>, nat))
    requires
        0 <= i < t.len(),
    ensures
        total(t.update(i, e)) + t[i].1 == total(t) + e.1,
    decreases t.len(),
{
    if i < t.len() - 1 {
        assert(t.update(i, e).drop_last() =~= t.drop_last().update(i, e));
        lemma_total_update(t.drop_last(), i, e);
    } else {
        assert(t.update(i, e).drop_last() =~= t.drop_last());
    }
}

/// The counts of a tally add up to the number of labels counted.
pub proof fn lemma_tally_total(labels: Seq<Seq<char>>)
    ensures
        total(tally(labels)) == labels.len(),
    decreases labels.len(),
{
    if labels.len() > 0 {
        let t = tally(labels.drop_last());
        let l = labels.last();
        lemma_tally_total(labels.drop_last());
        lemma_first_index(t, has_label(l));
        match first_index(t, has_label(l)) {
            Some(i) => {
                lemma_total_update(t, i, (l, t[i].1 + 1));
            },
            None => {
                assert(t.push((l, 1)).drop_last() =~= t);
            },
        }
    }
}

/// Each label occurs in a tally once, and every count is positive.
pub proof fn lemma_tally_unique(labels: Seq<Seq<char>>)
    ensures
        forall|i: int, j: int|
            0 <= i < j < tally(labels).len() ==> tally(labels)[i].0 != tally(labels)[j].0,
        forall|i: int| 0 <= i < tally(labels).len() ==> tally(labels)[i].1 > 0,
    decreases labels.len(),
{
    if labels.len() > 0 {
        let t = tally(labels.drop_last());
        let l = labels.last();
        lemma_tally_unique(labels.drop_last());
        lemma_first_index(t, has_label(l));
    }
}

/// The count a tally holds for a label is the number of times the label
/// occurs; a label that does not occur has no count.
pub proof fn lemma_tally_count(labels: Seq<Seq<char>>, l: Seq<char>)
    ensures
        count_for(tally(labels), l) == (if labels.contains(l) {
            Some(labels.filter(|x: Seq<char>| x == l).len())
        } else {
            None::<nat>
        }),
    decreases labels.len(),
{
    reveal_with_fuel(Seq::filter, 1);
    if labels.len() > 0 {
        let init = labels.drop_last();
        let t = tally(init);
        let m = labels.last();
        let p = has_label(l);
        lemma_tally_count(init, l);
        lemma_first_index(t, has_label(m));
        lemma_first_index(t, p);
        assert(labels.contains(l) == (init.contains(l) || m == l)) by {
            if labels.contains(l) {
                let k = choose|k: int| 0 <= k < labels.len() && labels[k] == l;
                if k < labels.len() - 1 {
                    assert(init[k] == l);
                }
            }
            if init.contains(l) {
                let k = choose|k: int| 0 <= k < init.len() && init[k] == l;
                assert(labels[k] == l);
            }
        }
        let q = |x: Seq<char>| x == l;
        assert(labels.filter(q) == (if q(m) {
            init.filter(q).push(m)
        } else {
            init.filter(q)
        }));
        match first_index(t, has_label(m)) {
            Some(i) => {
                let t2 = t.update(i, (m, t[i].1 + 1));
                assert(tally(labels) == t2);
                lemma_first_index_same_truth(t, t2, p);
                if m == l {
                    assert(has_label(m) == p);
                    assert(first_index(t, p) == Some(i));
                    assert(count_for(t, l) == Some(t[i].1));
                    assert(count_for(t2, l) == Some(t[i].1 + 1));
                } else {
                    match first_index(t, p) {
                        Some(j) => {
                            assert(j != i);
                            assert(t2[j] == t[j]);
                        },
                        None => {},
                    }
                }
            },
            None => {
                let t2 = t.push((m, 1));
                assert(tally(labels) == t2);
                assert(t2.drop_last() =~= t);
                if m != l {
                    assert(first_index(t2, p) == first_index(t, p));
                    match first_index(t, p) {
                        Some(j) => {
                            assert(t2[j] == t[j]);
                        },
                        None => {},
                    }
                } else {
                    assert(has_label(m) == p);
                    assert(first_index(t2, p) == Some(t.len() as int));
                    assert(init.filter(q).len() == 0) by {
                        init.lemma_filter_len(q);
                        if init.filter(q).len() > 0 {
                            let f = init.filter(q);
                            init.lemma_filter_pred(q, 0);
                            assert(f.contains(f[0]));
                            init.lemma_filter_contains_rev(q, f[0]);
                        }
                    }
                }
            },
        }
    }
}

/// The position of the entry for `label` in `entries`.
fn find_label(entries: &Vec<(String, usize)>, label: &str) -> (r: Option<usize>)
    ensures
        match r {
            Some(i) => first_index(entry_views(entries@), has_label(label@)) == Some(i as int),
            None => first_index(entry_views(entries@), has_label(label@)) is None,
        },
{
    let ghost t = entry_views(entries@);
    let ghost p = has_label(label@);
    proof {
        lemma_first_index(t, p);
    }
    let mut i: usize = 0;
    while i < entries.len()
        invariant
            t == entry_views(entries@),
            p == has_label(label@),
            i <= entries@.len(),
            forall|j: int| 0 <= j < i ==> !p(t[j]),
            match first_index(t, p) {
                Some(k) => 0 <= k < t.len() && p(t[k]) && forall|j: int| 0 <= j < k ==> !p(t[j]),
                None => forall|j: int| 0 <= j < t.len() ==> !p(t[j]),
            },
        decreases entries@.len() - i,
    {
        if str_eq(entries[i].0.as_str(), label) {
            assert(p(t[i as int]));
            return Some(i);
        }
        i = i + 1;
    }
    None
}

impl KindCounts {
    /// No counts yet.
    pub fn new() -> (r: KindCounts)
        ensures
            r@ == Seq::<(Seq<char>, nat)>::empty(),
    {
        let r = KindCounts { entries: Vec::new() };
        assert(r@ =~= Seq::<(Seq<char>, nat)>::empty());
        r
    }

    /// Count one more occurrence of `label`.
    pub fn add(&mut self, label: String)
        requires
            forall|j: int| 0 <= j < old(self)@.len() ==> old(self)@[j].1 < usize::MAX,
        ensures
            final(self)@ == (match first_index(old(self)@, has_label(label@)) {
                Some(i) => old(self)@.update(i, (label@, old(self)@[i].1 + 1)),
                None => old(self)@.push((label@, 1)),
            }),
    {
        proof {
            lemma_first_index(self@, has_label(label@));
        }
        match find_label(&self.entries, label.as_str()) {
            Some(j) => {
                let c = self.entries[j].1;
                let ghost l = label@;
                self.entries.set(j, (label, c + 1));
                assert(self@ =~= old(self)@.update(j as int, (l, old(self)@[j as int].1 + 1)));
            },
            None => {
                let ghost l = label@;
                self.entries.push((label, 1));
                assert(self@ =~= old(self)@.push((l, 1)));
            },
        }
    }

    /// The count for `label`, or `None` when no event had that label.
    pub fn get(&self, label: &str) -> (r: Option<usize>)
        ensures
            match count_for(self@, label@) {
                Some(n) => r == Some(n as usize),
                None => r is None,
            },
    {
        proof {
            lemma_first_index(self@, has_label(label@));
        }
        match find_label(&self.entries, label) {
            Some(j) => Some(self.entries[j].1),
            None => None,
        }
    }

    /// The number of distinct labels.
    pub fn len(&self) -> (r: usize)
        ensures
            r == self@.len(),
    {
        self.entries.len()
    }

    /// The `(label, count)` entries, in order of first occurrence.
    pub fn entries(&self) -> (r: &[(String, usize)])
        ensures
            entry_views(r@) == self@,
    {
        self.entries.as_slice()
    }
}

} // verus!
