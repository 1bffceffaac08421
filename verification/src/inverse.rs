//! For every intersection that has a fact, the values that only its column
//! has and the values that only its row has.
use vstd::prelude::*;
use std::collections::HashMap;
use crate::idset::{IdSet, set_difference, set_items};
use crate::index::{pair, pair_key, lemma_pair_key_injective};
use crate::table::{Table, TableKV};

verus! {

broadcast use vstd::std_specs::hash::group_hash_axioms;

/// A snapshot computed from a table: it owns its sets and does not follow
/// the table when that changes afterwards.
#[derive(Debug)]
pub struct InverseTable {
    column_value_keys_except: HashMap<u128, IdSet>,
    row_value_keys_except: HashMap<u128, IdSet>,
}

/// The set that `m` holds for the intersection of column `c` and row `r`.
pub open spec fn entry(m: Map<u128, IdSet>, c: usize, r: usize) -> Option<Set<usize>> {
    if m.contains_key(pair_key(c, r)) {
        Some(m[pair_key(c, r)]@)
    } else {
        None
    }
}

impl InverseTable {
    /// The values that column `c` has in any row and row `r` has in no
    /// column; `None` where the snapshot saw no fact at their intersection.
    pub closed spec fn column_exclusive(&self, c: usize, r: usize) -> Option<Set<usize>> {
        entry(self.column_value_keys_except@, c, r)
    }

    /// The values that row `r` has in any column and column `c` has in no
    /// row; `None` where the snapshot saw no fact at their intersection.
    pub closed spec fn row_exclusive(&self, c: usize, r: usize) -> Option<Set<usize>> {
        entry(self.row_value_keys_except@, c, r)
    }

    /// Says that this is the snapshot of `table`: it has an entry exactly for
    /// the intersections at which `table` holds a fact, and the entry is what
    /// the column has and the row lacks, or what the row has and the column
    /// lacks.
    pub open spec fn is_snapshot_of<C: TableKV, R: TableKV, V: TableKV>(
        &self,
        table: &Table<C, R, V>,
    ) -> bool {
        &&& forall|c: usize, r: usize| #[trigger]
            self.column_exclusive(c, r) == if table.tuple_values(c, r) != Set::<usize>::empty() {
                Some(table.column_values(c).difference(table.row_values(r)))
            } else {
                None
            }
        &&& forall|c: usize, r: usize| #[trigger]
            self.row_exclusive(c, r) == if table.tuple_values(c, r) != Set::<usize>::empty() {
                Some(table.row_values(r).difference(table.column_values(c)))
            } else {
                None
            }
    }

    /// A snapshot is a function of the facts alone: tables that hold the same
    /// facts have the same snapshot, however they came to hold them and
    /// whatever is done to them afterwards.
    pub proof fn lemma_snapshot_follows_facts<C: TableKV, R: TableKV, V: TableKV>(
        &self,
        other: &Self,
        a: &Table<C, R, V>,
        b: &Table<C, R, V>,
    )
        requires
            a.wf(),
            b.wf(),
            a@ == b@,
            self.is_snapshot_of(a),
            other.is_snapshot_of(b),
        ensures
            forall|c: usize, r: usize| #[trigger]
                self.column_exclusive(c, r) == other.column_exclusive(c, r),
            forall|c: usize, r: usize|
                #[trigger] self.row_exclusive(c, r) == other.row_exclusive(c, r),
    {
        a.lemma_values_follow_facts();
        b.lemma_values_follow_facts();
        assert forall|c: usize, r: usize, v: usize| a.holds(c, r, v) == b.holds(c, r, v) by {
            let fact = (c, r, v);
            assert(a@.contains(fact) == a.holds(fact.0, fact.1, fact.2));
            assert(b@.contains(fact) == b.holds(fact.0, fact.1, fact.2));
        }
        assert forall|c: usize, r: usize|
            #[trigger] a.tuple_values(c, r) == b.tuple_values(c, r) by {
            assert forall|v: usize| a.tuple_values(c, r).contains(v) == b.tuple_values(
                c,
                r,
            ).contains(v) by {
                assert(a.holds(c, r, v) == b.holds(c, r, v));
            }
            assert(a.tuple_values(c, r) =~= b.tuple_values(c, r));
        }
        assert forall|c: usize| #[trigger] a.column_values(c) == b.column_values(c) by {
            assert forall|v: usize| a.column_values(c).contains(v) == b.column_values(c).contains(
                v,
            ) by {
                if a.column_values(c).contains(v) {
                    let r = choose|r: usize| a.holds(c, r, v);
                    assert(b.holds(c, r, v));
                }
                if b.column_values(c).contains(v) {
                    let r = choose|r: usize| b.holds(c, r, v);
                    assert(a.holds(c, r, v));
                }
            }
            assert(a.column_values(c) =~= b.column_values(c));
        }
        assert forall|r: usize| #[trigger] a.row_values(r) == b.row_values(r) by {
            assert forall|v: usize| a.row_values(r).contains(v) == b.row_values(r).contains(v) by {
                if a.row_values(r).contains(v) {
                    let c = choose|c: usize| a.holds(c, r, v);
                    assert(b.holds(c, r, v));
                }
                if b.row_values(r).contains(v) {
                    let c = choose|c: usize| b.holds(c, r, v);
                    assert(a.holds(c, r, v));
                }
            }
            assert(a.row_values(r) =~= b.row_values(r));
        }
    }

    /// Computes the snapshot of `table` as it is now.
    pub fn rebuild_from<C: TableKV, R: TableKV, V: TableKV>(table: &Table<C, R, V>) -> (inverse:
        Self)
        requires
            table.wf(),
        ensures
            inverse.is_snapshot_of(table),
    {
        let mut column_value_keys_except: HashMap<u128, IdSet> = HashMap::new();
        let mut row_value_keys_except: HashMap<u128, IdSet> = HashMap::new();
        let cells = table.intersections();
        let mut i: usize = 0;
        proof {
            lemma_pair_key_injective();
        }
        while i < cells.len()
            invariant
                table.wf(),
                i <= cells@.len(),
                forall|c: usize, r: usize| #[trigger]
                    cells@.contains((c, r)) <==> table.tuple_values(c, r) != Set::<usize>::empty(),
                forall|c: usize, r: usize|
                    #![trigger pair_key(c, r)]
                    entry(column_value_keys_except@, c, r) == if cells@.take(i as int).contains(
                        (c, r),
                    ) {
                        Some(table.column_values(c).difference(table.row_values(r)))
                    } else {
                        None
                    },
                forall|c: usize, r: usize|
                    #![trigger pair_key(c, r)]
                    entry(row_value_keys_except@, c, r) == if cells@.take(i as int).contains(
                        (c, r),
                    ) {
                        Some(table.row_values(r).difference(table.column_values(c)))
                    } else {
                        None
                    },
            decreases cells@.len() - i,
        {
            let (column_key, row_key) = cells[i];
            let key = pair(column_key, row_key);
            proof {
                lemma_pair_key_injective();
                assert(cells@.contains((column_key, row_key)));
                table.lemma_values_follow_facts();
                let v = choose|v: usize| table.tuple_values(column_key, row_key).contains(v);
                if forall|x: usize| !table.tuple_values(column_key, row_key).contains(x) {
                    assert(table.tuple_values(column_key, row_key) =~= Set::<usize>::empty());
                }
                assert(table.holds(column_key, row_key, v));
                assert(table.column_values(column_key).contains(v));
                assert(table.row_values(row_key).contains(v));
                assert(cells@.take(i + 1) =~= cells@.take(i as int).push((column_key, row_key)));
                assert forall|y: (usize, usize)| #[trigger]
                    cells@.take(i + 1).contains(y) <==> cells@.take(i as int).contains(y) || y == (
                        column_key,
                        row_key,
                    ) by {
                    assert(cells@.take(i + 1)[i as int] == (column_key, row_key));
                    if cells@.take(i as int).contains(y) {
                        let j = choose|j: int|
                            0 <= j < cells@.take(i as int).len() && cells@.take(i as int)[j] == y;
                        assert(cells@.take(i + 1)[j] == y);
                    }
                }
            }
            let column_value_keys = table.column_set(column_key).unwrap();
            let row_value_keys = table.row_set(row_key).unwrap();
            let column_values_diff = set_difference(column_value_keys, row_value_keys);
            let row_values_diff = set_difference(row_value_keys, column_value_keys);
            let _ = column_value_keys_except.insert(key, column_values_diff);
            let _ = row_value_keys_except.insert(key, row_values_diff);
            i += 1;
        }
        proof {
            assert(cells@.take(i as int) =~= cells@);
            assert forall|c: usize, r: usize|
                entry(column_value_keys_except@, c, r) == if table.tuple_values(c, r) != Set::<
                    usize,
                >::empty() {
                    Some(table.column_values(c).difference(table.row_values(r)))
                } else {
                    None
                } && entry(row_value_keys_except@, c, r) == if table.tuple_values(c, r) != Set::<
                    usize,
                >::empty() {
                    Some(table.row_values(r).difference(table.column_values(c)))
                } else {
                    None
                } by {
                let k = pair_key(c, r);
            }
        }
        InverseTable { column_value_keys_except, row_value_keys_except }
    }

    /// The values that only the column has, for the intersection of column
    /// `column_key` and row `row_key`: each once and in no particular order,
    /// or `None` where the snapshot saw no fact there.
    pub fn column_values_except(&self, column_key: usize, row_key: usize) -> (found: Option<
        Vec<usize>,
    >)
        ensures
            found is None <==> self.column_exclusive(column_key, row_key) is None,
            found matches Some(items) ==> items@.no_duplicates() && Some(items@.to_set())
                == self.column_exclusive(column_key, row_key),
    {
        let key = pair(column_key, row_key);
        match self.column_value_keys_except.get(&key) {
            Some(set) => Some(set_items(set)),
            None => None,
        }
    }

    /// The values that only the row has, for the intersection of column
    /// `column_key` and row `row_key`: each once and in no particular order,
    /// or `None` where the snapshot saw no fact there.
    pub fn row_values_except(&self, column_key: usize, row_key: usize) -> (found: Option<
        Vec<usize>,
    >)
        ensures
            found is None <==> self.row_exclusive(column_key, row_key) is None,
            found matches Some(items) ==> items@.no_duplicates() && Some(items@.to_set())
                == self.row_exclusive(column_key, row_key),
    {
        let key = pair(column_key, row_key);
        match self.row_value_keys_except.get(&key) {
            Some(set) => Some(set_items(set)),
            None => None,
        }
    }
}

} // verus!
