//! An insertion-ordered sequence of ids in which no id occurs twice.
use vstd::prelude::*;
use crate::idset::{IdSet, set_new, set_insert, set_remove, set_contains};
use crate::utils::SeqExt;

verus! {

/// A sequence of ids in the order in which they were added, together with a
/// hash set of the same ids for a fast membership test.
#[derive(Debug)]
pub struct HashVec {
    pub hash: IdSet,
    pub vector: Vec<usize>,
    pub length: usize,
}

impl View for HashVec {
    type V = Seq<usize>;

    open spec fn view(&self) -> Seq<usize> {
        self.vector@
    }
}

/// `s` followed by `x`, unless `s` holds `x` already.
pub open spec fn appended(s: Seq<usize>, x: usize) -> Seq<usize> {
    if s.contains(x) {
        s
    } else {
        s.push(x)
    }
}

/// `a` followed by those ids of `b` that `a` does not hold, in the order of `b`.
pub open spec fn merged(a: Seq<usize>, b: Seq<usize>) -> Seq<usize> {
    a + b.filter(|x: usize| !a.contains(x))
}

/// All of `items` merged from left to right, starting from nothing.
pub open spec fn merged_all(items: Seq<Seq<usize>>) -> Seq<usize>
    decreases items.len(),
{
    if items.len() == 0 {
        Seq::empty()
    } else {
        merged(merged_all(items.drop_last()), items.last())
    }
}

/// Removing the first occurrence of `x` from a sequence without duplicates
/// leaves a sequence without duplicates that holds every id but `x`.
pub proof fn lemma_remove_value_unique(s: Seq<usize>, x: usize)
    requires
        s.no_duplicates(),
    ensures
        s.remove_value(x).no_duplicates(),
        s.remove_value(x).to_set() =~= s.to_set().remove(x),
        s.contains(x) ==> s.remove_value(x).len() == s.len() - 1,
        !s.contains(x) ==> s.remove_value(x) == s,
{
    s.index_of_first_ensures(x);
    match s.index_of_first(x) {
        Some(i) => {
            let t = s.remove(i);
            s.remove_ensures(i);
            assert forall|y: usize| t.to_set().contains(y) <==> s.to_set().remove(x).contains(
                y,
            ) by {
                if t.contains(y) {
                    let k = choose|k: int| 0 <= k < t.len() && t[k] == y;
                    if k < i {
                        assert(s[k] == y);
                    } else {
                        assert(s[k + 1] == y);
                    }
                }
                if s.contains(y) && y != x {
                    let k = choose|k: int| 0 <= k < s.len() && s[k] == y;
                    if k < i {
                        assert(t[k] == y);
                    } else {
                        assert(t[k - 1] == y);
                    }
                }
            }
        },
        None => {},
    }
}

/// What every step does to a sequence without duplicates. Adding an id keeps
/// what was there in its place and puts a new id last, so the ids stand in the
/// order in which they were first added; removing an id keeps the others in
/// their order. Either way no id occurs twice, the ids are those of the set
/// with the id added or removed, and the length is the size of that set.
pub proof fn lemma_sequence_tracks_set(s: Seq<usize>, x: usize)
    requires
        s.no_duplicates(),
    ensures
        appended(s, x).no_duplicates(),
        appended(s, x).to_set() == s.to_set().insert(x),
        appended(s, x).len() == s.to_set().insert(x).len(),
        appended(s, x).take(s.len() as int) == s,
        s.remove_value(x).no_duplicates(),
        s.remove_value(x).to_set() == s.to_set().remove(x),
        s.remove_value(x).len() == s.to_set().remove(x).len(),
        forall|i: int, j: int|
            #![trigger s.remove_value(x)[i], s.remove_value(x)[j]]
            0 <= i < j < s.remove_value(x).len() ==> s.index_of(s.remove_value(x)[i]) < s.index_of(
                s.remove_value(x)[j],
            ),
{
    let a = appended(s, x);
    if !s.contains(x) {
        s.lemma_push_to_set_commute(x);
        assert(a.take(s.len() as int) =~= s);
    } else {
        assert(s.to_set().insert(x) =~= s.to_set());
        assert(a.take(s.len() as int) =~= s);
    }
    a.unique_seq_to_set();
    let r = s.remove_value(x);
    lemma_remove_value_unique(s, x);
    r.unique_seq_to_set();
    s.index_of_first_ensures(x);
    assert forall|i: int, j: int|
        #![trigger r[i], r[j]]
        0 <= i < j < r.len() implies s.index_of(r[i]) < s.index_of(r[j]) by {
        let (ii, jj) = match s.index_of_first(x) {
            Some(k) => {
                s.remove_ensures(k);
                (
                    if i < k {
                        i
                    } else {
                        i + 1
                    },
                    if j < k {
                        j
                    } else {
                        j + 1
                    },
                )
            },
            None => (i, j),
        };
        assert(s[ii] == r[i] && s[jj] == r[j] && ii < jj);
        assert(s[s.index_of(r[i])] == r[i]);
        assert(s[s.index_of(r[j])] == r[j]);
    }
}

/// One step of a history of a sequence: an id is added, if it is not there
/// yet, or an id is removed, if it is there.
pub enum Edit {
    Add(usize),
    Remove(usize),
}

/// The sequence that a history of edits leaves, starting from nothing.
pub open spec fn sequence_after(edits: Seq<Edit>) -> Seq<usize>
    decreases edits.len(),
{
    if edits.len() == 0 {
        Seq::empty()
    } else {
        match edits.last() {
            Edit::Add(x) => appended(sequence_after(edits.drop_last()), x),
            Edit::Remove(x) => sequence_after(edits.drop_last()).remove_value(x),
        }
    }
}

/// The ids that a history of edits leaves, as a set: those added and not
/// removed since.
pub open spec fn ids_after(edits: Seq<Edit>) -> Set<usize>
    decreases edits.len(),
{
    if edits.len() == 0 {
        Set::empty()
    } else {
        match edits.last() {
            Edit::Add(x) => ids_after(edits.drop_last()).insert(x),
            Edit::Remove(x) => ids_after(edits.drop_last()).remove(x),
        }
    }
}

/// After any history of edits the sequence holds no id twice, it holds
/// exactly the ids added and not removed since, and its length is their
/// number.
pub proof fn lemma_length_counts_ids(edits: Seq<Edit>)
    ensures
        sequence_after(edits).no_duplicates(),
        sequence_after(edits).to_set() == ids_after(edits),
        sequence_after(edits).len() == ids_after(edits).len(),
    decreases edits.len(),
{
    if edits.len() == 0 {
        assert(Seq::<usize>::empty().to_set() =~= Set::<usize>::empty());
    } else {
        lemma_length_counts_ids(edits.drop_last());
        match edits.last() {
            Edit::Add(x) => lemma_sequence_tracks_set(sequence_after(edits.drop_last()), x),
            Edit::Remove(x) => lemma_sequence_tracks_set(sequence_after(edits.drop_last()), x),
        }
    }
}

/// The position in `edits` of the edit that added `x` for the last time
/// while the sequence did not hold it; below zero if there is no such edit.
pub open spec fn added_at(edits: Seq<Edit>, x: usize) -> int
    decreases edits.len(),
{
    if edits.len() == 0 {
        -1
    } else {
        match edits.last() {
            Edit::Add(y) => if y == x && !sequence_after(edits.drop_last()).contains(x) {
                edits.len() - 1
            } else {
                added_at(edits.drop_last(), x)
            },
            Edit::Remove(_) => added_at(edits.drop_last(), x),
        }
    }
}

/// After any history of edits the ids stand in the order in which they were
/// added: of two ids in the sequence, the one that stands first was added
/// first, counting for each the addition that put it where it stands.
pub proof fn lemma_order_of_addition(edits: Seq<Edit>)
    ensures
        forall|i: int|
            #![trigger sequence_after(edits)[i]]
            0 <= i < sequence_after(edits).len() ==> 0 <= added_at(edits, sequence_after(edits)[i])
                < edits.len(),
        forall|i: int, j: int|
            #![trigger sequence_after(edits)[i], sequence_after(edits)[j]]
            0 <= i < j < sequence_after(edits).len() ==> added_at(edits, sequence_after(edits)[i])
                < added_at(edits, sequence_after(edits)[j]),
    decreases edits.len(),
{
    if edits.len() > 0 {
        let before = edits.drop_last();
        let s = sequence_after(before);
        let t = sequence_after(edits);
        lemma_order_of_addition(before);
        lemma_length_counts_ids(before);
        match edits.last() {
            Edit::Add(x) => {
                assert forall|i: int| 0 <= i < s.len() implies added_at(edits, #[trigger] s[i])
                    == added_at(before, s[i]) by {
                    if s[i] == x {
                        assert(s.contains(x));
                    }
                }
                if !s.contains(x) {
                    assert(t == s.push(x));
                    assert forall|i: int| 0 <= i < t.len() implies 0 <= added_at(
                        edits,
                        #[trigger] t[i],
                    ) < edits.len() by {
                        if i < s.len() {
                            assert(t[i] == s[i]);
                        }
                    }
                    assert forall|i: int, j: int| 0 <= i < j < t.len() implies added_at(
                        edits,
                        #[trigger] t[i],
                    ) < added_at(edits, #[trigger] t[j]) by {
                        assert(t[i] == s[i]);
                        if j < s.len() {
                            assert(t[j] == s[j]);
                        }
                    }
                }
            },
            Edit::Remove(x) => {
                lemma_sequence_tracks_set(s, x);
                assert forall|i: int| 0 <= i < t.len() implies s.contains(#[trigger] t[i])
                    && 0 <= s.index_of(t[i]) < s.len() && s[s.index_of(t[i])] == t[i] by {
                    assert(t.to_set().contains(t[i]));
                    assert(s.to_set().contains(t[i]));
                }
                assert forall|i: int| 0 <= i < t.len() implies 0 <= added_at(
                    edits,
                    #[trigger] t[i],
                ) < edits.len() by {
                    let k = s.index_of(t[i]);
                    assert(s[k] == t[i]);
                }
                assert forall|i: int, j: int| 0 <= i < j < t.len() implies added_at(
                    edits,
                    #[trigger] t[i],
                ) < added_at(edits, #[trigger] t[j]) by {
                    let a = s.index_of(t[i]);
                    let b = s.index_of(t[j]);
                    assert(s[a] == t[i] && s[b] == t[j] && a < b);
                }
            },
        }
    }
}

impl HashVec {
    /// The invariant: no id occurs twice, the hash set holds exactly the ids of
    /// the sequence, and `length` is the length of the sequence.
    pub open spec fn wf(&self) -> bool {
        &&& self.vector@.no_duplicates()
        &&& self.hash@ == self.vector@.to_set()
        &&& self.length == self.vector@.len()
    }

    /// An empty sequence.
    pub fn new() -> (out: Self)
        ensures
            out.wf(),
            out@ == Seq::<usize>::empty(),
    {
        let out = Self { hash: set_new(), vector: Vec::new(), length: 0 };
        assert(out.vector@.to_set() =~= Set::<usize>::empty());
        out
    }

    /// Takes `value` out of the sequence, keeping the order of the rest; does
    /// nothing when the sequence does not hold it.
    pub fn remove(&mut self, value: &usize)
        requires
            old(self).wf(),
        ensures
            final(self).wf(),
            final(self)@ == old(self)@.remove_value(*value),
    {
        proof {
            lemma_remove_value_unique(self.vector@, *value);
            self.vector@.index_of_first_ensures(*value);
        }
        if let Some(pos) = self.vector.index_of(value) {
            let _ = self.vector.remove(pos);
            let _ = set_remove(&mut self.hash, *value);
            self.length = self.length - 1;
        }
    }

    /// Appends `value`, which the sequence must not hold yet.
    pub fn add(&mut self, value: usize)
        requires
            old(self).wf(),
            !old(self)@.contains(value),
        ensures
            final(self).wf(),
            final(self)@ == old(self)@.push(value),
    {
        proof {
            self.vector@.lemma_push_to_set_commute(value);
        }
        let _ = set_insert(&mut self.hash, value);
        self.vector.push(value);
        self.length = self.vector.len();
    }

    /// Appends `value` unless the sequence holds it already.
    pub fn add_if_not_exists(&mut self, value: usize)
        requires
            old(self).wf(),
        ensures
            final(self).wf(),
            final(self)@ == appended(old(self)@, value),
    {
        if !set_contains(&self.hash, value) {
            self.add(value);
        }
    }

    /// Tells whether the sequence holds `value`.
    pub fn contains(&self, value: usize) -> (found: bool)
        requires
            self.wf(),
        ensures
            found == self@.contains(value),
    {
        set_contains(&self.hash, value)
    }

    /// The ids of the sequence, in order.
    pub fn to_vec(&self) -> (out: Vec<usize>)
        ensures
            out@ == self@,
    {
        let mut out: Vec<usize> = Vec::new();
        let mut i: usize = 0;
        while i < self.vector.len()
            invariant
                i <= self.vector@.len(),
                out@ == self.vector@.take(i as int),
            decreases self.vector@.len() - i,
        {
            out.push(self.vector[i]);
            assert(self.vector@.take(i + 1) =~= self.vector@.take(i as int).push(self.vector@[i as int]));
            i += 1;
        }
        assert(self.vector@.take(i as int) =~= self.vector@);
        out
    }

    /// Appends every id of `other_hashvec` that the sequence does not hold, in
    /// the order in which `other_hashvec` holds them.
    pub fn merge_with_hashvec(&mut self, other_hashvec: &HashVec)
        requires
            old(self).wf(),
            other_hashvec.wf(),
        ensures
            final(self).wf(),
            final(self)@ == merged(old(self)@, other_hashvec@),
    {
        let ghost start = self@;
        let ghost fresh = |x: usize| !start.contains(x);
        let ghost other = other_hashvec@;
        let mut i: usize = 0;
        proof {
            reveal_with_fuel(Seq::filter, 1);
            assert(other.take(0).filter(fresh) =~= Seq::<usize>::empty());
            assert(self@ =~= start + other.take(0).filter(fresh));
        }
        while i < other_hashvec.vector.len()
            invariant
                self.wf(),
                other_hashvec.wf(),
                other == other_hashvec@,
                fresh == |x: usize| !start.contains(x),
                i <= other.len(),
                self@ == start + other.take(i as int).filter(fresh),
            decreases other.len() - i,
        {
            let value = other_hashvec.vector[i];
            proof {
                let before = other.take(i as int);
                let now = other.take(i + 1);
                reveal_with_fuel(Seq::filter, 2);
                assert(now.drop_last() =~= before);
                assert(now.last() == value);
                if before.filter(fresh).contains(value) {
                    before.lemma_filter_contains_rev(fresh, value);
                    let k = choose|k: int| 0 <= k < before.len() && before[k] == value;
                    assert(other[k] == other[i as int]);
                }
                if self@.contains(value) {
                    let k = choose|k: int| 0 <= k < self@.len() && self@[k] == value;
                    if k < start.len() {
                        assert(start[k] == value);
                    } else {
                        assert(before.filter(fresh)[k - start.len()] == value);
                    }
                }
                if start.contains(value) {
                    let k = choose|k: int| 0 <= k < start.len() && start[k] == value;
                    assert(self@[k] == value);
                }
                assert(start + before.filter(fresh).push(value) =~= (start + before.filter(
                    fresh,
                )).push(value));
            }
            if !set_contains(&self.hash, value) {
                self.add(value);
            }
            i += 1;
        }
        assert(other.take(i as int) =~= other);
    }

    /// Merges all of `items` from left to right into a new sequence.
    pub fn from_others(items: Vec<&HashVec>) -> (out: HashVec)
        requires
            forall|i: int| 0 <= i < items@.len() ==> (#[trigger] items@[i]).wf(),
        ensures
            out.wf(),
            out@ == merged_all(items@.map_values(|h: &HashVec| h@)),
    {
        let mut out = HashVec::new();
        let ghost views = items@.map_values(|h: &HashVec| h@);
        let mut i: usize = 0;
        while i < items.len()
            invariant
                out.wf(),
                i <= items@.len(),
                views == items@.map_values(|h: &HashVec| h@),
                forall|i: int| 0 <= i < items@.len() ==> (#[trigger] items@[i]).wf(),
                out@ == merged_all(views.take(i as int)),
            decreases items@.len() - i,
        {
            proof {
                assert(views.take(i + 1).drop_last() =~= views.take(i as int));
                assert(views.take(i + 1).last() == items@[i as int]@);
            }
            out.merge_with_hashvec(items[i]);
            i += 1;
        }
        assert(views.take(i as int) =~= views);
        out
    }
}

} // verus!
