//! The maps behind the table, taken one by one: what it means that they agree,
//! and the steps that keep them so.
use vstd::prelude::*;
use std::collections::HashMap;
use crate::idset::{IdSet, set_contains};
use crate::hashvec::{HashVec, appended, lemma_remove_value_unique};
use crate::setmap::{members, sequence_at, sequences_wf, remove_from_set_and_map, unlink, key_list};

verus! {

broadcast use vstd::std_specs::hash::group_hash_axioms;

/// The key under which the values of column `c` in row `r` are kept.
#[verifier::opaque]
pub open spec fn pair_key(c: usize, r: usize) -> u128 {
    (c as int * 0x1_0000_0000_0000_0000 + r as int) as u128
}

/// The column of the intersection that `k` is the key of.
#[verifier::opaque]
pub open spec fn key_column(k: u128) -> usize {
    (k as int / 0x1_0000_0000_0000_0000) as usize
}

/// The row of the intersection that `k` is the key of.
#[verifier::opaque]
pub open spec fn key_row(k: u128) -> usize {
    (k as int % 0x1_0000_0000_0000_0000) as usize
}

/// The key of an intersection tells its column and its row, so different
/// intersections have different keys.
pub proof fn lemma_pair_key_injective()
    ensures
        forall|c: usize, r: usize|
            key_column(#[trigger] pair_key(c, r)) == c && key_row(pair_key(c, r)) == r,
{
    reveal(pair_key);
    reveal(key_column);
    reveal(key_row);
}

/// Computes the key of the intersection of column `c` and row `r`.
pub(crate) fn pair(c: usize, r: usize) -> (k: u128)
    ensures
        k == pair_key(c, r),
{
    reveal(pair_key);
    (c as u128) * 0x1_0000_0000_0000_0000u128 + (r as u128)
}

/// Tells whether `m` holds `x` in the set under `k`.
pub open spec fn in_set<K>(m: Map<K, IdSet>, k: K, x: usize) -> bool {
    members(m, k).contains(x)
}

/// Tells whether `m` holds `x` in the sequence under `k`.
pub open spec fn in_seq(m: Map<usize, HashVec>, k: usize, x: usize) -> bool {
    sequence_at(m, k).contains(x)
}

/// No key of `m` has an empty set.
pub open spec fn tidy<K>(m: Map<K, IdSet>) -> bool {
    forall|k: K| #[trigger] m.contains_key(k) ==> m[k]@ != Set::<usize>::empty()
}

/// The adjacency sequences list exactly the intersections that have a set of
/// values, and no such set is empty.
#[verifier::opaque]
pub open spec fn links_ok(
    t: Map<u128, IdSet>,
    c2r: Map<usize, HashVec>,
    r2c: Map<usize, HashVec>,
) -> bool {
    &&& tidy(t)
    &&& forall|k: u128| #[trigger] t.contains_key(k) ==> k == pair_key(key_column(k), key_row(k))
    &&& sequences_wf(c2r)
    &&& sequences_wf(r2c)
    &&& forall|c: usize, r: usize|
        #![trigger in_seq(c2r, c, r)]
        #![trigger t.contains_key(pair_key(c, r))]
        in_seq(c2r, c, r) <==> t.contains_key(pair_key(c, r))
    &&& forall|c: usize, r: usize|
        #![trigger in_seq(r2c, r, c)]
        #![trigger t.contains_key(pair_key(c, r))]
        in_seq(r2c, r, c) <==> t.contains_key(pair_key(c, r))
}

/// The value sets of the columns and of the rows are the unions of the sets at
/// their intersections, and none of them is empty.
#[verifier::opaque]
pub open spec fn values_ok(
    t: Map<u128, IdSet>,
    c2v: Map<usize, IdSet>,
    r2v: Map<usize, IdSet>,
) -> bool {
    &&& tidy(c2v)
    &&& tidy(r2v)
    &&& forall|c: usize, r: usize, v: usize| #[trigger]
        in_set(t, pair_key(c, r), v) ==> in_set(c2v, c, v) && in_set(r2v, r, v)
    &&& forall|c: usize, v: usize| #[trigger]
        in_set(c2v, c, v) ==> exists|r: usize| in_set(t, pair_key(c, r), v)
    &&& forall|r: usize, v: usize| #[trigger]
        in_set(r2v, r, v) ==> exists|c: usize| in_set(t, pair_key(c, r), v)
}

/// What adding `v` to the set under `k0` does, id by id.
pub(crate) proof fn lemma_added_pointwise<K>(m: Map<K, IdSet>, m2: Map<K, IdSet>, k0: K, v: usize)
    requires
        m2.dom() == m.dom().insert(k0),
        members(m2, k0) == members(m, k0).insert(v),
        forall|k: K| k != k0 && #[trigger] m2.contains_key(k) ==> m2[k] == m[k],
    ensures
        forall|k: K, x: usize| #[trigger]
            in_set(m2, k, x) <==> in_set(m, k, x) || (k == k0 && x == v),
        forall|k: K| #[trigger] m2.contains_key(k) <==> m.contains_key(k) || k == k0,
        tidy(m) ==> tidy(m2),
{
    assert(forall|k: K| #[trigger] m2.contains_key(k) <==> m2.dom().contains(k));
    assert(forall|k: K| #[trigger] m.contains_key(k) <==> m.dom().contains(k));
    assert(members(m2, k0).contains(v));
}

/// What linking `to` under `from` does, id by id.
pub(crate) proof fn lemma_linked_pointwise(
    s: Map<usize, HashVec>,
    s2: Map<usize, HashVec>,
    from: usize,
    to: usize,
)
    requires
        s2.dom() == s.dom().insert(from),
        sequence_at(s2, from) == appended(sequence_at(s, from), to),
        forall|k: usize| k != from && #[trigger] s2.contains_key(k) ==> s2[k] == s[k],
    ensures
        forall|k: usize, x: usize| #[trigger]
            in_seq(s2, k, x) <==> in_seq(s, k, x) || (k == from && x == to),
        forall|k: usize| k != from ==> #[trigger] sequence_at(s2, k) == sequence_at(s, k),
{
    assert(forall|k: usize| #[trigger] s2.contains_key(k) <==> s2.dom().contains(k));
    assert(forall|k: usize| #[trigger] s.contains_key(k) <==> s.dom().contains(k));
    let q = sequence_at(s, from);
    assert forall|x: usize| appended(q, to).contains(x) <==> q.contains(x) || x == to by {
        if !q.contains(to) {
            assert(q.push(to)[q.len() as int] == to);
            if q.contains(x) {
                let i = choose|i: int| 0 <= i < q.len() && q[i] == x;
                assert(q.push(to)[i] == x);
            }
        }
    }
}

/// What taking `v` out of the set under `k0` does, id by id.
pub(crate) proof fn lemma_removed_pointwise<K>(m: Map<K, IdSet>, m2: Map<K, IdSet>, k0: K, v: usize)
    requires
        tidy(m),
        members(m2, k0) == members(m, k0).remove(v),
        m2.contains_key(k0) <==> m.contains_key(k0) && m[k0]@.remove(v) != Set::<usize>::empty(),
        forall|k: K| k != k0 ==> (#[trigger] m2.contains_key(k) <==> m.contains_key(k)),
        forall|k: K| k != k0 && #[trigger] m2.contains_key(k) ==> m2[k] == m[k],
    ensures
        forall|k: K, x: usize| #[trigger]
            in_set(m2, k, x) <==> in_set(m, k, x) && !(k == k0 && x == v),
        forall|k: K| k != k0 ==> (#[trigger] m2.contains_key(k) <==> m.contains_key(k)),
        tidy(m2),
{
}

/// What unlinking `to` under `from` does, id by id.
pub(crate) proof fn lemma_unlinked_pointwise(
    s: Map<usize, HashVec>,
    s2: Map<usize, HashVec>,
    from: usize,
    to: usize,
)
    requires
        sequences_wf(s),
        sequence_at(s2, from) == sequence_at(s, from).remove_value(to),
        forall|k: usize| k != from ==> (#[trigger] s2.contains_key(k) <==> s.contains_key(k)),
        forall|k: usize| k != from && #[trigger] s2.contains_key(k) ==> s2[k] == s[k],
    ensures
        forall|k: usize, x: usize| #[trigger]
            in_seq(s2, k, x) <==> in_seq(s, k, x) && !(k == from && x == to),
        forall|k: usize| k != from ==> #[trigger] sequence_at(s2, k) == sequence_at(s, k),
{
    let q = sequence_at(s, from);
    lemma_remove_value_unique(q, to);
    assert forall|x: usize| q.remove_value(to).contains(x) <==> q.contains(x) && x != to by {
        assert(q.remove_value(to).to_set().contains(x) <==> q.to_set().remove(to).contains(x));
    }
}

/// Tells whether column `c` has value `v` in any row, going through the rows
/// that the column is linked with.
pub(crate) fn column_still_has(
    tuples: &HashMap<u128, IdSet>,
    links: &HashMap<usize, HashVec>,
    back: &HashMap<usize, HashVec>,
    c: usize,
    v: usize,
) -> (found: bool)
    requires
        links_ok(tuples@, links@, back@),
    ensures
        found <==> exists|r: usize| in_set(tuples@, pair_key(c, r), v),
{
    reveal(links_ok);
    match links.get(&c) {
        Some(rows) => {
            let mut i: usize = 0;
            while i < rows.vector.len()
                invariant
                    i <= rows@.len(),
                    rows@ == sequence_at(links@, c),
                    forall|j: int| 0 <= j < i ==> !in_set(tuples@, pair_key(c, rows@[j]), v),
                decreases rows@.len() - i,
            {
                let r = rows.vector[i];
                let key = pair(c, r);
                let here = match tuples.get(&key) {
                    Some(set) => set_contains(set, v),
                    None => false,
                };
                if here {
                    return true;
                }
                i += 1;
            }
            assert forall|r: usize| !in_set(tuples@, pair_key(c, r), v) by {
                if tuples@.contains_key(pair_key(c, r)) {
                    assert(in_seq(links@, c, r));
                    let j = choose|j: int| 0 <= j < rows@.len() && rows@[j] == r;
                    assert(!in_set(tuples@, pair_key(c, rows@[j]), v));
                }
            }
            false
        },
        None => {
            assert forall|r: usize| !in_set(tuples@, pair_key(c, r), v) by {
                assert(!in_seq(links@, c, r));
            }
            false
        },
    }
}

/// Tells whether row `r` has value `v` in any column, going through the
/// columns that the row is linked with.
pub(crate) fn row_still_has(
    tuples: &HashMap<u128, IdSet>,
    back: &HashMap<usize, HashVec>,
    links: &HashMap<usize, HashVec>,
    r: usize,
    v: usize,
) -> (found: bool)
    requires
        links_ok(tuples@, back@, links@),
    ensures
        found <==> exists|c: usize| in_set(tuples@, pair_key(c, r), v),
{
    reveal(links_ok);
    match links.get(&r) {
        Some(columns) => {
            let mut i: usize = 0;
            while i < columns.vector.len()
                invariant
                    i <= columns@.len(),
                    columns@ == sequence_at(links@, r),
                    forall|j: int| 0 <= j < i ==> !in_set(tuples@, pair_key(columns@[j], r), v),
                decreases columns@.len() - i,
            {
                let c = columns.vector[i];
                let key = pair(c, r);
                let here = match tuples.get(&key) {
                    Some(set) => set_contains(set, v),
                    None => false,
                };
                if here {
                    return true;
                }
                i += 1;
            }
            assert forall|c: usize| !in_set(tuples@, pair_key(c, r), v) by {
                if tuples@.contains_key(pair_key(c, r)) {
                    assert(in_seq(links@, r, c));
                    let j = choose|j: int| 0 <= j < columns@.len() && columns@[j] == c;
                    assert(!in_set(tuples@, pair_key(columns@[j], r), v));
                }
            }
            false
        },
        None => {
            assert forall|c: usize| !in_set(tuples@, pair_key(c, r), v) by {
                assert(!in_seq(links@, r, c));
            }
            false
        },
    }
}

/// Tells whether any key of `sets` has `v` in its set.
pub(crate) fn any_set_has(sets: &HashMap<usize, IdSet>, v: usize) -> (found: bool)
    ensures
        found <==> exists|k: usize| in_set(sets@, k, v),
{
    let keys = key_list(sets);
    let mut i: usize = 0;
    while i < keys.len()
        invariant
            i <= keys@.len(),
            keys@.to_set() =~= sets@.dom(),
            forall|j: int| 0 <= j < i ==> !in_set(sets@, keys@[j], v),
        decreases keys@.len() - i,
    {
        let k = keys[i];
        assert(keys@.to_set().contains(k));
        let here = match sets.get(&k) {
            Some(set) => set_contains(set, v),
            None => false,
        };
        if here {
            assert(in_set(sets@, k, v));
            return true;
        }
        i += 1;
    }
    assert forall|k: usize| !in_set(sets@, k, v) by {
        if sets@.contains_key(k) {
            assert(keys@.to_set().contains(k));
            let j = choose|j: int| 0 <= j < keys@.len() && keys@[j] == k;
            assert(!in_set(sets@, keys@[j], v));
        }
    }
    false
}

/// Takes `v` out of the set at the intersection of column `c` and row `r`,
/// and unlinks the two if that leaves nothing at the intersection.
pub(crate) fn drop_fact(
    tuples: &mut HashMap<u128, IdSet>,
    c2r: &mut HashMap<usize, HashVec>,
    r2c: &mut HashMap<usize, HashVec>,
    c: usize,
    r: usize,
    v: usize,
)
    requires
        links_ok(old(tuples)@, old(c2r)@, old(r2c)@),
    ensures
        links_ok(final(tuples)@, final(c2r)@, final(r2c)@),
        forall|k: u128, x: usize| #[trigger]
            in_set(final(tuples)@, k, x) <==> in_set(old(tuples)@, k, x) && !(k == pair_key(c, r)
                && x == v),
        members(final(tuples)@, pair_key(c, r)) == members(old(tuples)@, pair_key(c, r)).remove(v),
        forall|k: u128|
            k != pair_key(c, r) ==> #[trigger] members(final(tuples)@, k) == members(old(tuples)@, k),
        sequence_at(final(c2r)@, c) == if final(tuples)@.contains_key(pair_key(c, r)) {
            sequence_at(old(c2r)@, c)
        } else {
            sequence_at(old(c2r)@, c).remove_value(r)
        },
        sequence_at(final(r2c)@, r) == if final(tuples)@.contains_key(pair_key(c, r)) {
            sequence_at(old(r2c)@, r)
        } else {
            sequence_at(old(r2c)@, r).remove_value(c)
        },
        forall|k: usize|
            k != c ==> #[trigger] sequence_at(final(c2r)@, k) == sequence_at(old(c2r)@, k),
        forall|k: usize|
            k != r ==> #[trigger] sequence_at(final(r2c)@, k) == sequence_at(old(r2c)@, k),
{
    reveal(links_ok);
    let key = pair(c, r);
    remove_from_set_and_map(tuples, &key, &v);
    proof {
        lemma_pair_key_injective();
        lemma_removed_pointwise(old(tuples)@, tuples@, key, v);
    }
    if !tuples.contains_key(&key) {
        unlink(c2r, c, r);
        unlink(r2c, r, c);
        proof {
            lemma_unlinked_pointwise(old(c2r)@, c2r@, c, r);
            lemma_unlinked_pointwise(old(r2c)@, r2c@, r, c);
        }
    }
}

/// Takes `v` out of the set under `k` unless `still` says that it belongs
/// there, and gives up the entity under `k` once `k` has no set any more.
pub(crate) fn prune<E>(
    sets: &mut HashMap<usize, IdSet>,
    owned: &mut HashMap<usize, E>,
    k: usize,
    v: usize,
    still: bool,
)
    requires
        tidy(old(sets)@),
    ensures
        tidy(final(sets)@),
        forall|j: usize, x: usize| #[trigger]
            in_set(final(sets)@, j, x) <==> in_set(old(sets)@, j, x) && (still || !(j == k && x
                == v)),
        forall|j: usize|
            j != k ==> (#[trigger] final(sets)@.contains_key(j) <==> old(sets)@.contains_key(j)),
        final(sets)@.contains_key(k) ==> old(sets)@.contains_key(k),
        members(final(sets)@, k) == if still {
            members(old(sets)@, k)
        } else {
            members(old(sets)@, k).remove(v)
        },
        forall|j: usize| j != k ==> #[trigger] members(final(sets)@, j) == members(old(sets)@, j),
        final(owned)@ == if final(sets)@.contains_key(k) {
            old(owned)@
        } else {
            old(owned)@.remove(k)
        },
{
    if !still {
        remove_from_set_and_map(sets, &k, &v);
        proof {
            lemma_removed_pointwise(old(sets)@, sets@, k, v);
        }
    }
    if !sets.contains_key(&k) {
        let _ = owned.remove(&k);
    }
}

/// Withdrawing one fact, and pruning the value sets of its column and of its
/// row as far as no other fact supports the value there, leaves value sets
/// that are the unions of the sets at the intersections.
pub(crate) proof fn lemma_remove_keeps_values(
    t: Map<u128, IdSet>,
    c2v: Map<usize, IdSet>,
    r2v: Map<usize, IdSet>,
    t2: Map<u128, IdSet>,
    c2v2: Map<usize, IdSet>,
    r2v2: Map<usize, IdSet>,
    c0: usize,
    r0: usize,
    v0: usize,
    in_column: bool,
    in_row: bool,
)
    requires
        values_ok(t, c2v, r2v),
        tidy(c2v2),
        tidy(r2v2),
        forall|k: u128, x: usize| #[trigger]
            in_set(t2, k, x) <==> in_set(t, k, x) && !(k == pair_key(c0, r0) && x == v0),
        forall|j: usize, x: usize| #[trigger]
            in_set(c2v2, j, x) <==> in_set(c2v, j, x) && (in_column || !(j == c0 && x == v0)),
        forall|j: usize, x: usize| #[trigger]
            in_set(r2v2, j, x) <==> in_set(r2v, j, x) && (in_row || !(j == r0 && x == v0)),
        in_column <==> exists|r: usize| in_set(t2, pair_key(c0, r), v0),
        in_row <==> exists|c: usize| in_set(t2, pair_key(c, r0), v0),
    ensures
        values_ok(t2, c2v2, r2v2),
{
    reveal(values_ok);
    lemma_pair_key_injective();
    assert forall|c: usize, r: usize, v: usize| #[trigger]
        in_set(t2, pair_key(c, r), v) implies in_set(c2v2, c, v) && in_set(r2v2, r, v) by {
        assert(in_set(t, pair_key(c, r), v));
    }
    assert forall|c: usize, v: usize| #[trigger] in_set(c2v2, c, v) implies exists|r: usize|
        in_set(t2, pair_key(c, r), v) by {
        assert(in_set(c2v, c, v));
        if !(c == c0 && v == v0) {
            let r = choose|r: usize| in_set(t, pair_key(c, r), v);
            assert(in_set(t2, pair_key(c, r), v));
        }
    }
    assert forall|r: usize, v: usize| #[trigger] in_set(r2v2, r, v) implies exists|c: usize|
        in_set(t2, pair_key(c, r), v) by {
        assert(in_set(r2v, r, v));
        if !(r == r0 && v == v0) {
            let c = choose|c: usize| in_set(t, pair_key(c, r), v);
            assert(in_set(t2, pair_key(c, r), v));
        }
    }
}

/// What the parts of the invariant say about empty sets.
pub(crate) proof fn lemma_tidy(
    t: Map<u128, IdSet>,
    c2r: Map<usize, HashVec>,
    r2c: Map<usize, HashVec>,
    c2v: Map<usize, IdSet>,
    r2v: Map<usize, IdSet>,
)
    requires
        links_ok(t, c2r, r2c),
        values_ok(t, c2v, r2v),
    ensures
        tidy(t),
        tidy(c2v),
        tidy(r2v),
{
    reveal(links_ok);
    reveal(values_ok);
}

/// A value is held by some fact exactly if some column has it, and after one
/// fact was withdrawn that is so exactly if the scans found it.
pub(crate) proof fn lemma_kept(
    t2: Map<u128, IdSet>,
    c2v2: Map<usize, IdSet>,
    r2v2: Map<usize, IdSet>,
    c0: usize,
    r0: usize,
    v0: usize,
    in_column: bool,
    in_row: bool,
    kept: bool,
)
    requires
        values_ok(t2, c2v2, r2v2),
        in_column <==> exists|r: usize| in_set(t2, pair_key(c0, r), v0),
        in_row <==> exists|c: usize| in_set(t2, pair_key(c, r0), v0),
        kept <==> in_column || in_row || exists|c: usize| in_set(c2v2, c, v0),
    ensures
        kept <==> exists|c: usize| in_set(c2v2, c, v0),
        kept <==> exists|c: usize, r: usize| in_set(t2, pair_key(c, r), v0),
{
    reveal(values_ok);
    if in_column {
        let r = choose|r: usize| in_set(t2, pair_key(c0, r), v0);
        assert(in_set(c2v2, c0, v0));
    }
    if in_row {
        let c = choose|c: usize| in_set(t2, pair_key(c, r0), v0);
        assert(in_set(c2v2, c, v0));
    }
    if exists|c: usize| in_set(c2v2, c, v0) {
        let c = choose|c: usize| in_set(c2v2, c, v0);
        let r = choose|r: usize| in_set(t2, pair_key(c, r), v0);
        assert(in_set(t2, pair_key(c, r), v0));
    }
    if exists|c: usize, r: usize| in_set(t2, pair_key(c, r), v0) {
        let (c, r) = choose|c: usize, r: usize| in_set(t2, pair_key(c, r), v0);
        assert(in_set(c2v2, c, v0));
    }
}

/// The values that are owned stay those that some column has, if the one
/// value that may have left every column is given up exactly then.
pub(crate) proof fn lemma_owned_values(
    c2v: Map<usize, IdSet>,
    c2v2: Map<usize, IdSet>,
    owned: Set<usize>,
    owned2: Set<usize>,
    c0: usize,
    v0: usize,
    in_column: bool,
    kept: bool,
)
    requires
        forall|v: usize| #[trigger] owned.contains(v) <==> exists|c: usize| in_set(c2v, c, v),
        forall|j: usize, x: usize| #[trigger]
            in_set(c2v2, j, x) <==> in_set(c2v, j, x) && (in_column || !(j == c0 && x == v0)),
        kept <==> exists|c: usize| in_set(c2v2, c, v0),
        owned2 == if kept {
            owned
        } else {
            owned.remove(v0)
        },
    ensures
        forall|v: usize| #[trigger] owned2.contains(v) <==> exists|c: usize| in_set(c2v2, c, v),
{
    assert forall|v: usize| #[trigger] owned2.contains(v) <==> exists|c: usize|
        in_set(c2v2, c, v) by {
        if exists|c: usize| in_set(c2v2, c, v) {
            let c = choose|c: usize| in_set(c2v2, c, v);
            assert(in_set(c2v, c, v));
        }
        if v != v0 && owned.contains(v) {
            let c = choose|c: usize| in_set(c2v, c, v);
            assert(in_set(c2v2, c, v));
        }
    }
}

/// A set that is not empty holds some id.
pub(crate) proof fn lemma_some_member(s: Set<usize>) -> (x: usize)
    requires
        s != Set::<usize>::empty(),
    ensures
        s.contains(x),
{
    if forall|y: usize| !s.contains(y) {
        assert(s =~= Set::<usize>::empty());
    }
    choose|y: usize| s.contains(y)
}

/// A fact puts its value into the sets of its column and of its row.
pub(crate) proof fn lemma_fact_registers(
    t: Map<u128, IdSet>,
    c2v: Map<usize, IdSet>,
    r2v: Map<usize, IdSet>,
    c: usize,
    r: usize,
    v: usize,
)
    requires
        values_ok(t, c2v, r2v),
        in_set(t, pair_key(c, r), v),
    ensures
        in_set(c2v, c, v),
        in_set(r2v, r, v),
        c2v.contains_key(c),
        r2v.contains_key(r),
{
    reveal(values_ok);
}

/// A sequence that got one more element holds what it held and that element.
pub(crate) proof fn lemma_push_contains(s: Seq<(usize, usize)>, x: (usize, usize))
    ensures
        forall|y: (usize, usize)| #[trigger] s.push(x).contains(y) <==> s.contains(y) || y == x,
{
    assert forall|y: (usize, usize)| #[trigger] s.push(x).contains(y) <==> s.contains(y) || y
        == x by {
        assert(s.push(x)[s.len() as int] == x);
        if s.contains(y) {
            let i = choose|i: int| 0 <= i < s.len() && s[i] == y;
            assert(s.push(x)[i] == y);
        }
    }
}

/// The first `i + 1` elements of a sequence are the first `i` and the next one.
pub(crate) proof fn lemma_take_next(s: Seq<usize>, i: int)
    requires
        0 <= i < s.len(),
    ensures
        forall|x: usize|
            #[trigger] s.take(i + 1).contains(x) <==> s.take(i).contains(x) || x == s[i],
{
    assert forall|x: usize| #[trigger] s.take(i + 1).contains(x) <==> s.take(i).contains(x) || x
        == s[i] by {
        let short = s.take(i);
        let long = s.take(i + 1);
        assert(long[i] == s[i]);
        if short.contains(x) {
            let j = choose|j: int| 0 <= j < short.len() && short[j] == x;
            assert(long[j] == x);
        }
        if long.contains(x) {
            let j = choose|j: int| 0 <= j < long.len() && long[j] == x;
            if j < i {
                assert(short[j] == x);
            }
        }
    }
}

/// A part of a part of a map is a part of that map.
pub(crate) proof fn lemma_submap_trans<E>(a: Map<usize, E>, b: Map<usize, E>, c: Map<usize, E>)
    requires
        a.submap_of(b),
        b.submap_of(c),
    ensures
        a.submap_of(c),
{
    assert forall|k: usize| #[trigger] a.dom().contains(k) implies c.dom().contains(k) && a[k]
        == c[k] by {
        assert(b.dom().contains(k));
    }
}

} // verus!
