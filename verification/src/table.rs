//! The index of (column, row, value) facts and the maps that are kept in step
//! with it.
use vstd::prelude::*;
use std::collections::HashMap;
use std::hash::Hash;
use crate::idset::{IdSet, set_contains, set_items};
use crate::hashvec::{HashVec, appended, lemma_remove_value_unique};
use crate::setmap::{members, sequence_at, add_to_set_in_map, link, key_list};
use crate::index::{
    any_set_has, column_still_has, drop_fact, in_seq, in_set, key_column, key_row,
    lemma_added_pointwise, lemma_fact_registers, lemma_kept, lemma_linked_pointwise,
    lemma_owned_values, lemma_pair_key_injective, lemma_push_contains,
    lemma_remove_keeps_values, lemma_some_member, lemma_take_next, lemma_tidy, links_ok, pair,
    pair_key, prune, row_still_has, values_ok,
};

verus! {

broadcast use vstd::std_specs::hash::group_hash_axioms;

/// What a column, a row or a value must offer: its id.
pub trait TableKV: Eq + PartialEq + Hash {
    /// The id of this entity, which never changes.
    spec fn key(&self) -> usize;

    /// The id of this entity.
    fn id(&self) -> (k: usize)
        ensures
            k == self.key(),
    ;
}

/// The facts (column, row, value) and, kept in step with them, the values of
/// each column and of each row, the rows of each column and the columns of
/// each row in the order in which they were first linked, and the entities
/// themselves by their ids.
#[derive(Debug)]
pub struct Table<C: TableKV, R: TableKV, V: TableKV> {
    tuples: HashMap<u128, IdSet>,
    cols2rows: HashMap<usize, HashVec>,
    rows2cols: HashMap<usize, HashVec>,
    cols2values: HashMap<usize, IdSet>,
    rows2values: HashMap<usize, IdSet>,
    values: HashMap<usize, V>,
    cols: HashMap<usize, C>,
    rows: HashMap<usize, R>,
}

impl<C: TableKV, R: TableKV, V: TableKV> View for Table<C, R, V> {
    type V = Set<(usize, usize, usize)>;

    /// The facts that the table holds, each as its column, its row and its
    /// value. With the invariant they determine every map of the table but
    /// for the order of the links and the entities themselves.
    open spec fn view(&self) -> Set<(usize, usize, usize)> {
        Set::new(|fact: (usize, usize, usize)| self.holds(fact.0, fact.1, fact.2))
    }
}

impl<C: TableKV, R: TableKV, V: TableKV> Table<C, R, V> {
    /// The values at the intersection of column `c` and row `r`.
    pub closed spec fn tuple_values(&self, c: usize, r: usize) -> Set<usize> {
        members(self.tuples@, pair_key(c, r))
    }

    /// Tells whether the table holds the fact that column `c` has value `v` in row `r`.
    pub open spec fn holds(&self, c: usize, r: usize, v: usize) -> bool {
        self.tuple_values(c, r).contains(v)
    }

    /// The values that column `c` has in any row.
    pub closed spec fn column_values(&self, c: usize) -> Set<usize> {
        members(self.cols2values@, c)
    }

    /// The values that row `r` has in any column.
    pub closed spec fn row_values(&self, r: usize) -> Set<usize> {
        members(self.rows2values@, r)
    }

    /// The rows that column `c` meets, in the order in which they were linked.
    pub closed spec fn column_rows(&self, c: usize) -> Seq<usize> {
        sequence_at(self.cols2rows@, c)
    }

    /// The columns that row `r` meets, in the order in which they were linked.
    pub closed spec fn row_columns(&self, r: usize) -> Seq<usize> {
        sequence_at(self.rows2cols@, r)
    }

    /// The columns that the table owns, by id.
    pub closed spec fn columns(&self) -> Map<usize, C> {
        self.cols@
    }

    /// The rows that the table owns, by id.
    pub closed spec fn rows(&self) -> Map<usize, R> {
        self.rows@
    }

    /// The values that the table owns, by id.
    pub closed spec fn values(&self) -> Map<usize, V> {
        self.values@
    }

    /// Says that the table holds no fact.
    pub open spec fn no_facts(&self) -> bool {
        forall|c: usize, r: usize, v: usize| !self.holds(c, r, v)
    }

    /// The invariant of the table: its maps agree with each other, a column or
    /// a row is owned only while it has a value, and a value is owned exactly
    /// while some fact holds it.
    pub closed spec fn wf(&self) -> bool {
        &&& links_ok(self.tuples@, self.cols2rows@, self.rows2cols@)
        &&& values_ok(self.tuples@, self.cols2values@, self.rows2values@)
        &&& forall|c: usize|
            #[trigger] self.cols@.contains_key(c) ==> self.cols2values@.contains_key(c)
        &&& forall|r: usize|
            #[trigger] self.rows@.contains_key(r) ==> self.rows2values@.contains_key(r)
        &&& forall|v: usize| #[trigger]
            self.values@.contains_key(v) <==> exists|c: usize| in_set(self.cols2values@, c, v)
    }

    /// Says that the table owns every column and every row that has a value.
    /// With the invariant this makes ownership exact: a column or a row is
    /// owned exactly while it has a value.
    pub open spec fn owns_all(&self) -> bool {
        &&& forall|c: usize| #[trigger]
            self.column_values(c) != Set::<usize>::empty() ==> self.columns().contains_key(c)
        &&& forall|r: usize| #[trigger]
            self.row_values(r) != Set::<usize>::empty() ==> self.rows().contains_key(r)
    }

    /// Says that `self` is `before` with one more fact: that column `c0` has
    /// value `v0` in row `r0`. Nothing changes where `before` holds the fact
    /// already; else the sets at the intersection, of the column and of the
    /// row gain the value, and the column and the row are linked if they were
    /// not.
    pub open spec fn gained(self, before: Self, c0: usize, r0: usize, v0: usize) -> bool {
        &&& self@ == before@.insert((c0, r0, v0))
        &&& forall|c: usize, r: usize, v: usize| #[trigger]
            self.holds(c, r, v) <==> before.holds(c, r, v) || (c == c0 && r == r0 && v == v0)
        &&& self.tuple_values(c0, r0) == before.tuple_values(c0, r0).insert(v0)
        &&& forall|c: usize, r: usize|
            c != c0 || r != r0 ==> #[trigger] self.tuple_values(c, r) == before.tuple_values(c, r)
        &&& self.column_rows(c0) == appended(before.column_rows(c0), r0)
        &&& self.row_columns(r0) == appended(before.row_columns(r0), c0)
        &&& forall|c: usize| c != c0 ==> #[trigger] self.column_rows(c) == before.column_rows(c)
        &&& forall|r: usize| r != r0 ==> #[trigger] self.row_columns(r) == before.row_columns(r)
        &&& self.column_values(c0) == before.column_values(c0).insert(v0)
        &&& self.row_values(r0) == before.row_values(r0).insert(v0)
        &&& forall|c: usize| c != c0 ==> #[trigger] self.column_values(c) == before.column_values(c)
        &&& forall|r: usize| r != r0 ==> #[trigger] self.row_values(r) == before.row_values(r)
    }

    /// Says that `self` is `before` without the fact that column `c0` has
    /// value `v0` in row `r0`, and without what no remaining fact supports:
    /// the link between the column and the row, the value in the sets of the
    /// column and of the row, and the column, the row and the value themselves.
    pub open spec fn lost(self, before: Self, c0: usize, r0: usize, v0: usize) -> bool {
        &&& self@ == before@.remove((c0, r0, v0))
        &&& forall|c: usize, r: usize, v: usize| #[trigger]
            self.holds(c, r, v) <==> before.holds(c, r, v) && !(c == c0 && r == r0 && v == v0)
        &&& self.tuple_values(c0, r0) == before.tuple_values(c0, r0).remove(v0)
        &&& forall|c: usize, r: usize|
            c != c0 || r != r0 ==> #[trigger] self.tuple_values(c, r) == before.tuple_values(c, r)
        &&& self.column_rows(c0) == if self.tuple_values(c0, r0) == Set::<usize>::empty() {
            before.column_rows(c0).remove_value(r0)
        } else {
            before.column_rows(c0)
        }
        &&& self.row_columns(r0) == if self.tuple_values(c0, r0) == Set::<usize>::empty() {
            before.row_columns(r0).remove_value(c0)
        } else {
            before.row_columns(r0)
        }
        &&& forall|c: usize| c != c0 ==> #[trigger] self.column_rows(c) == before.column_rows(c)
        &&& forall|r: usize| r != r0 ==> #[trigger] self.row_columns(r) == before.row_columns(r)
        &&& self.column_values(c0) == if exists|r: usize| self.holds(c0, r, v0) {
            before.column_values(c0)
        } else {
            before.column_values(c0).remove(v0)
        }
        &&& self.row_values(r0) == if exists|c: usize| self.holds(c, r0, v0) {
            before.row_values(r0)
        } else {
            before.row_values(r0).remove(v0)
        }
        &&& forall|c: usize| c != c0 ==> #[trigger] self.column_values(c) == before.column_values(c)
        &&& forall|r: usize| r != r0 ==> #[trigger] self.row_values(r) == before.row_values(r)
        &&& self.columns() == if self.column_values(c0) == Set::<usize>::empty() {
            before.columns().remove(c0)
        } else {
            before.columns()
        }
        &&& self.rows() == if self.row_values(r0) == Set::<usize>::empty() {
            before.rows().remove(r0)
        } else {
            before.rows()
        }
        &&& self.values() == if exists|c: usize, r: usize| self.holds(c, r, v0) {
            before.values()
        } else {
            before.values().remove(v0)
        }
    }

    /// A table without facts.
    pub fn new() -> (table: Self)
        ensures
            table.wf(),
            table@ == Set::<(usize, usize, usize)>::empty(),
            table.no_facts(),
            forall|c: usize| table.column_rows(c) == Seq::<usize>::empty(),
            forall|r: usize| table.row_columns(r) == Seq::<usize>::empty(),
            table.columns() == Map::<usize, C>::empty(),
            table.rows() == Map::<usize, R>::empty(),
            table.values() == Map::<usize, V>::empty(),
            table.owns_all(),
    {
        reveal(links_ok);
        reveal(values_ok);
        Table {
            tuples: HashMap::new(),
            cols2rows: HashMap::new(),
            rows2cols: HashMap::new(),
            cols2values: HashMap::new(),
            rows2values: HashMap::new(),
            values: HashMap::new(),
            cols: HashMap::new(),
            rows: HashMap::new(),
        }
    }

    /// Records that column `column_key` has `value` in row `row_key`, and takes
    /// ownership of `value`. The column and the row themselves are not stored.
    pub fn insert_value(&mut self, column_key: usize, row_key: usize, value: V)
        requires
            old(self).wf(),
        ensures
            final(self).wf(),
            final(self).gained(*old(self), column_key, row_key, value.key()),
            final(self).columns() == old(self).columns(),
            final(self).rows() == old(self).rows(),
            final(self).values() == old(self).values().insert(value.key(), value),
    {
        reveal(links_ok);
        reveal(values_ok);
        let key = pair(column_key, row_key);
        let value_key = value.id();
        add_to_set_in_map(&mut self.tuples, key, value_key);
        add_to_set_in_map(&mut self.cols2values, column_key, value_key);
        add_to_set_in_map(&mut self.rows2values, row_key, value_key);
        link(&mut self.cols2rows, column_key, row_key);
        link(&mut self.rows2cols, row_key, column_key);
        let _ = self.values.insert(value_key, value);
        proof {
            lemma_pair_key_injective();
            lemma_added_pointwise(old(self).tuples@, self.tuples@, key, value_key);
            lemma_added_pointwise(old(self).cols2values@, self.cols2values@, column_key, value_key);
            lemma_added_pointwise(old(self).rows2values@, self.rows2values@, row_key, value_key);
            lemma_linked_pointwise(old(self).cols2rows@, self.cols2rows@, column_key, row_key);
            lemma_linked_pointwise(old(self).rows2cols@, self.rows2cols@, row_key, column_key);
            assert(self@ =~= old(self)@.insert((column_key, row_key, value_key)));
            assert forall|v: usize| #[trigger] self.values@.contains_key(v) <==> exists|c: usize|
                in_set(self.cols2values@, c, v) by {
                if v == value_key {
                    assert(in_set(self.cols2values@, column_key, v));
                } else {
                    if old(self).values@.contains_key(v) {
                        let c = choose|c: usize| in_set(old(self).cols2values@, c, v);
                        assert(in_set(self.cols2values@, c, v));
                    }
                    if exists|c: usize| in_set(self.cols2values@, c, v) {
                        let c = choose|c: usize| in_set(self.cols2values@, c, v);
                        assert(in_set(old(self).cols2values@, c, v));
                    }
                }
            }
        }
    }

    /// Tells whether the table holds the fact that column `column_key` has
    /// value `value_key` in row `row_key`.
    pub fn contains(&self, column_key: usize, row_key: usize, value_key: usize) -> (found: bool)
        ensures
            found == self.holds(column_key, row_key, value_key),
    {
        let key = pair(column_key, row_key);
        match self.tuples.get(&key) {
            Some(set) => set_contains(set, value_key),
            None => false,
        }
    }

    /// Withdraws the fact that column `column_key` has value `value_key` in row
    /// `row_key`, and with it what no remaining fact supports: the link between
    /// the column and the row, the value in the sets of the column and of the
    /// row, and the column, the row and the value themselves. Does nothing
    /// when the table does not hold the fact.
    pub fn remove(&mut self, column_key: usize, row_key: usize, value_key: usize)
        requires
            old(self).wf(),
        ensures
            final(self).wf(),
            final(self).lost(*old(self), column_key, row_key, value_key),
            old(self).owns_all() ==> final(self).owns_all(),
    {
        proof {
            lemma_tidy(
                self.tuples@,
                self.cols2rows@,
                self.rows2cols@,
                self.cols2values@,
                self.rows2values@,
            );
        }
        drop_fact(
            &mut self.tuples,
            &mut self.cols2rows,
            &mut self.rows2cols,
            column_key,
            row_key,
            value_key,
        );
        let in_column = column_still_has(
            &self.tuples,
            &self.cols2rows,
            &self.rows2cols,
            column_key,
            value_key,
        );
        let in_row = row_still_has(
            &self.tuples,
            &self.cols2rows,
            &self.rows2cols,
            row_key,
            value_key,
        );
        prune(&mut self.cols2values, &mut self.cols, column_key, value_key, in_column);
        prune(&mut self.rows2values, &mut self.rows, row_key, value_key, in_row);
        let kept = in_column || in_row || any_set_has(&self.cols2values, value_key);
        if !kept {
            let _ = self.values.remove(&value_key);
        }
        proof {
            lemma_remove_keeps_values(
                old(self).tuples@,
                old(self).cols2values@,
                old(self).rows2values@,
                self.tuples@,
                self.cols2values@,
                self.rows2values@,
                column_key,
                row_key,
                value_key,
                in_column,
                in_row,
            );
            lemma_tidy(
                self.tuples@,
                self.cols2rows@,
                self.rows2cols@,
                self.cols2values@,
                self.rows2values@,
            );
            lemma_kept(
                self.tuples@,
                self.cols2values@,
                self.rows2values@,
                column_key,
                row_key,
                value_key,
                in_column,
                in_row,
                kept,
            );
            lemma_pair_key_injective();
            assert(Set::<usize>::empty().remove(value_key) =~= Set::<usize>::empty());
            assert forall|c: usize, r: usize, v: usize| #[trigger]
                self.holds(c, r, v) <==> old(self).holds(c, r, v) && !(c == column_key && r
                    == row_key && v == value_key) by {
                assert(self.holds(c, r, v) == in_set(self.tuples@, pair_key(c, r), v));
                assert(old(self).holds(c, r, v) == in_set(old(self).tuples@, pair_key(c, r), v));
            }
            assert(self@ =~= old(self)@.remove((column_key, row_key, value_key)));
            if in_column {
                let r = choose|r: usize| in_set(self.tuples@, pair_key(column_key, r), value_key);
                assert(self.holds(column_key, r, value_key));
            } else {
                assert forall|r: usize| !self.holds(column_key, r, value_key) by {
                    assert(!in_set(self.tuples@, pair_key(column_key, r), value_key));
                }
            }
            if in_row {
                let c = choose|c: usize| in_set(self.tuples@, pair_key(c, row_key), value_key);
                assert(self.holds(c, row_key, value_key));
            } else {
                assert forall|c: usize| !self.holds(c, row_key, value_key) by {
                    assert(!in_set(self.tuples@, pair_key(c, row_key), value_key));
                }
            }
            if kept {
                let (c, r) = choose|c: usize, r: usize| in_set(self.tuples@, pair_key(c, r), value_key);
                assert(self.holds(c, r, value_key));
            } else {
                assert forall|c: usize, r: usize| !self.holds(c, r, value_key) by {
                    assert(!in_set(self.tuples@, pair_key(c, r), value_key));
                }
            }
            assert(self.values@.dom() =~= if kept {
                old(self).values@.dom()
            } else {
                old(self).values@.dom().remove(value_key)
            });
            lemma_owned_values(
                old(self).cols2values@,
                self.cols2values@,
                old(self).values@.dom(),
                self.values@.dom(),
                column_key,
                value_key,
                in_column,
                kept,
            );
        }
    }

    /// Tables with the same five maps show the same facts and links.
    proof fn lemma_same_index(a: Self, b: Self)
        requires
            a.tuples == b.tuples,
            a.cols2rows == b.cols2rows,
            a.rows2cols == b.rows2cols,
            a.cols2values == b.cols2values,
            a.rows2values == b.rows2values,
        ensures
            forall|c: usize, r: usize| #[trigger] a.tuple_values(c, r) == b.tuple_values(c, r),
            forall|c: usize, r: usize, v: usize| #[trigger] a.holds(c, r, v) == b.holds(c, r, v),
            forall|c: usize| #[trigger] a.column_rows(c) == b.column_rows(c),
            forall|r: usize| #[trigger] a.row_columns(r) == b.row_columns(r),
            forall|c: usize| #[trigger] a.column_values(c) == b.column_values(c),
            forall|r: usize| #[trigger] a.row_values(r) == b.row_values(r),
    {
    }

    /// Records that `column` has `value` in `row`, and takes ownership of all
    /// three. Entities that the table owned under the same ids are replaced.
    pub fn insert(&mut self, column: C, row: R, value: V)
        requires
            old(self).wf(),
        ensures
            final(self).wf(),
            final(self).gained(*old(self), column.key(), row.key(), value.key()),
            final(self).columns() == old(self).columns().insert(column.key(), column),
            final(self).rows() == old(self).rows().insert(row.key(), row),
            final(self).values() == old(self).values().insert(value.key(), value),
            old(self).owns_all() ==> final(self).owns_all(),
    {
        let column_key = column.id();
        let row_key = row.id();
        let ghost value_key = value.key();
        self.insert_value(column_key, row_key, value);
        let ghost mid = *self;
        proof {
            assert(self.holds(column_key, row_key, value_key));
            lemma_fact_registers(
                self.tuples@,
                self.cols2values@,
                self.rows2values@,
                column_key,
                row_key,
                value_key,
            );
        }
        let _ = self.cols.insert(column_key, column);
        let _ = self.rows.insert(row_key, row);
        proof {
            Self::lemma_same_index(*self, mid);
            assert(self@ =~= mid@);
        }
    }

    /// Records that `column` has `value` in the row `row_key`, and takes
    /// ownership of the column and the value. The row is expected to be owned
    /// already; it is not stored here.
    pub fn insert_column_value(&mut self, column: C, row_key: usize, value: V)
        requires
            old(self).wf(),
        ensures
            final(self).wf(),
            final(self).gained(*old(self), column.key(), row_key, value.key()),
            final(self).columns() == old(self).columns().insert(column.key(), column),
            final(self).rows() == old(self).rows(),
            final(self).values() == old(self).values().insert(value.key(), value),
            old(self).owns_all() && old(self).rows().contains_key(row_key) ==> final(self).owns_all(),
    {
        let column_key = column.id();
        let ghost value_key = value.key();
        self.insert_value(column_key, row_key, value);
        let ghost mid = *self;
        proof {
            assert(self.holds(column_key, row_key, value_key));
            lemma_fact_registers(
                self.tuples@,
                self.cols2values@,
                self.rows2values@,
                column_key,
                row_key,
                value_key,
            );
        }
        let _ = self.cols.insert(column_key, column);
        proof {
            Self::lemma_same_index(*self, mid);
            assert(self@ =~= mid@);
        }
    }

    /// Records that the column `column_key` has `value` in `row`, and takes
    /// ownership of the row and the value. The column is expected to be owned
    /// already; it is not stored here.
    pub fn insert_row_value(&mut self, column_key: usize, row: R, value: V)
        requires
            old(self).wf(),
        ensures
            final(self).wf(),
            final(self).gained(*old(self), column_key, row.key(), value.key()),
            final(self).columns() == old(self).columns(),
            final(self).rows() == old(self).rows().insert(row.key(), row),
            final(self).values() == old(self).values().insert(value.key(), value),
            old(self).owns_all() && old(self).columns().contains_key(column_key)
                ==> final(self).owns_all(),
    {
        let row_key = row.id();
        let ghost value_key = value.key();
        self.insert_value(column_key, row_key, value);
        let ghost mid = *self;
        proof {
            assert(self.holds(column_key, row_key, value_key));
            lemma_fact_registers(
                self.tuples@,
                self.cols2values@,
                self.rows2values@,
                column_key,
                row_key,
                value_key,
            );
        }
        let _ = self.rows.insert(row_key, row);
        proof {
            Self::lemma_same_index(*self, mid);
            assert(self@ =~= mid@);
        }
    }

    /// Tells whether the table holds no fact.
    pub fn is_empty(&self) -> (empty: bool)
        requires
            self.wf(),
        ensures
            empty == self.no_facts(),
    {
        proof {
            let t = self.tuples@;
            if !t.dom().is_empty() {
                let k = choose|k: u128| t.dom().contains(k);
                assert(t.contains_key(k));
                assert(k == pair_key(key_column(k), key_row(k)) && t[k]@ != Set::<usize>::empty()) by {
                    reveal(links_ok);
                }
                let v = lemma_some_member(t[k]@);
                assert(self.holds(key_column(k), key_row(k), v));
            } else {
                assert forall|c: usize, r: usize, v: usize| !self.holds(c, r, v) by {
                    assert(!t.dom().contains(pair_key(c, r)));
                }
            }
        }
        self.tuples.is_empty()
    }

    /// The values at the intersection of column `column_key` and row `row_key`,
    /// each once and in no particular order, or `None` where there is none.
    pub fn values_at(&self, column_key: usize, row_key: usize) -> (found: Option<Vec<usize>>)
        requires
            self.wf(),
        ensures
            found is None <==> self.tuple_values(column_key, row_key) == Set::<usize>::empty(),
            found matches Some(items) ==> items@.no_duplicates() && items@.to_set()
                == self.tuple_values(column_key, row_key),
    {
        proof {
            lemma_tidy(
                self.tuples@,
                self.cols2rows@,
                self.rows2cols@,
                self.cols2values@,
                self.rows2values@,
            );
        }
        let key = pair(column_key, row_key);
        match self.tuples.get(&key) {
            Some(set) => Some(set_items(set)),
            None => None,
        }
    }

    /// The values that column `column_key` has in any row, each once and in no
    /// particular order, or `None` where it has none.
    pub fn values_of_column(&self, column_key: usize) -> (found: Option<Vec<usize>>)
        requires
            self.wf(),
        ensures
            found is None <==> self.column_values(column_key) == Set::<usize>::empty(),
            found matches Some(items) ==> items@.no_duplicates() && items@.to_set()
                == self.column_values(column_key),
    {
        proof {
            lemma_tidy(
                self.tuples@,
                self.cols2rows@,
                self.rows2cols@,
                self.cols2values@,
                self.rows2values@,
            );
        }
        match self.cols2values.get(&column_key) {
            Some(set) => Some(set_items(set)),
            None => None,
        }
    }

    /// The values that row `row_key` has in any column, each once and in no
    /// particular order, or `None` where it has none.
    pub fn values_of_row(&self, row_key: usize) -> (found: Option<Vec<usize>>)
        requires
            self.wf(),
        ensures
            found is None <==> self.row_values(row_key) == Set::<usize>::empty(),
            found matches Some(items) ==> items@.no_duplicates() && items@.to_set()
                == self.row_values(row_key),
    {
        proof {
            lemma_tidy(
                self.tuples@,
                self.cols2rows@,
                self.rows2cols@,
                self.cols2values@,
                self.rows2values@,
            );
        }
        match self.rows2values.get(&row_key) {
            Some(set) => Some(set_items(set)),
            None => None,
        }
    }

    /// The rows that column `column_key` meets, in the order in which they
    /// were linked with it.
    pub fn rows_of(&self, column_key: usize) -> (rows: Vec<usize>)
        ensures
            rows@ == self.column_rows(column_key),
    {
        match self.cols2rows.get(&column_key) {
            Some(sequence) => sequence.to_vec(),
            None => Vec::new(),
        }
    }

    /// The columns that row `row_key` meets, in the order in which they were
    /// linked with it.
    pub fn columns_of(&self, row_key: usize) -> (columns: Vec<usize>)
        ensures
            columns@ == self.row_columns(row_key),
    {
        match self.rows2cols.get(&row_key) {
            Some(sequence) => sequence.to_vec(),
            None => Vec::new(),
        }
    }

    /// The set of the values that column `column_key` has in any row.
    pub(crate) fn column_set(&self, column_key: usize) -> (found: Option<&IdSet>)
        ensures
            found matches Some(set) ==> set@ == self.column_values(column_key),
            found is None ==> self.column_values(column_key) == Set::<usize>::empty(),
    {
        self.cols2values.get(&column_key)
    }

    /// The set of the values that row `row_key` has in any column.
    pub(crate) fn row_set(&self, row_key: usize) -> (found: Option<&IdSet>)
        ensures
            found matches Some(set) ==> set@ == self.row_values(row_key),
            found is None ==> self.row_values(row_key) == Set::<usize>::empty(),
    {
        self.rows2values.get(&row_key)
    }

    /// The intersections at which some fact holds, each as its column and its
    /// row, in no particular order.
    pub fn intersections(&self) -> (cells: Vec<(usize, usize)>)
        requires
            self.wf(),
        ensures
            forall|c: usize, r: usize| #[trigger]
                cells@.contains((c, r)) <==> self.tuple_values(c, r) != Set::<usize>::empty(),
    {
        let mut cells: Vec<(usize, usize)> = Vec::new();
        let columns = key_list(&self.cols2rows);
        let mut i: usize = 0;
        while i < columns.len()
            invariant
                i <= columns@.len(),
                forall|c: usize, r: usize| #[trigger]
                    cells@.contains((c, r)) <==> columns@.take(i as int).contains(c)
                        && self.column_rows(c).contains(r),
            decreases columns@.len() - i,
        {
            let c = columns[i];
            let rows = self.rows_of(c);
            let ghost before = cells@;
            let mut n: usize = 0;
            while n < rows.len()
                invariant
                    n <= rows@.len(),
                    forall|x: usize, r: usize| #[trigger]
                        cells@.contains((x, r)) <==> before.contains((x, r)) || (x == c
                            && rows@.take(n as int).contains(r)),
                decreases rows@.len() - n,
            {
                let r = rows[n];
                proof {
                    lemma_push_contains(cells@, (c, r));
                    lemma_take_next(rows@, n as int);
                }
                cells.push((c, r));
                n += 1;
            }
            proof {
                assert(rows@.take(n as int) =~= rows@);
                lemma_take_next(columns@, i as int);
            }
            i += 1;
        }
        proof {
            assert(columns@.take(i as int) =~= columns@);
            self.lemma_links_follow_facts();
            assert forall|c: usize, r: usize| #[trigger]
                cells@.contains((c, r)) <==> self.tuple_values(c, r) != Set::<usize>::empty() by {
                if self.column_rows(c).contains(r) {
                    assert(self.cols2rows@.contains_key(c));
                    assert(columns@.to_set().contains(c));
                }
            }
        }
        cells
    }

    /// Tells whether the table owns a column with this id.
    pub fn has_column(&self, column_key: usize) -> (owned: bool)
        ensures
            owned == self.columns().contains_key(column_key),
    {
        self.cols.contains_key(&column_key)
    }

    /// Tells whether the table owns a row with this id.
    pub fn has_row(&self, row_key: usize) -> (owned: bool)
        ensures
            owned == self.rows().contains_key(row_key),
    {
        self.rows.contains_key(&row_key)
    }

    /// Tells whether the table owns a value with this id.
    pub fn has_value(&self, value_key: usize) -> (owned: bool)
        ensures
            owned == self.values().contains_key(value_key),
    {
        self.values.contains_key(&value_key)
    }

    /// The invariant, said of the sets: the values of a column are those that
    /// it has in some row, and the values of a row those that it has in some
    /// column.
    pub proof fn lemma_values_follow_facts(&self)
        requires
            self.wf(),
        ensures
            forall|c: usize, v: usize| #[trigger]
                self.column_values(c).contains(v) <==> exists|r: usize| self.holds(c, r, v),
            forall|r: usize, v: usize| #[trigger]
                self.row_values(r).contains(v) <==> exists|c: usize| self.holds(c, r, v),
    {
        reveal(values_ok);
        assert forall|c: usize, v: usize| #[trigger]
            self.column_values(c).contains(v) <==> exists|r: usize| self.holds(c, r, v) by {
            if in_set(self.cols2values@, c, v) {
                let r = choose|r: usize| in_set(self.tuples@, pair_key(c, r), v);
                assert(self.holds(c, r, v));
            }
            if exists|r: usize| self.holds(c, r, v) {
                let r = choose|r: usize| self.holds(c, r, v);
                assert(in_set(self.tuples@, pair_key(c, r), v));
            }
        }
        assert forall|r: usize, v: usize| #[trigger]
            self.row_values(r).contains(v) <==> exists|c: usize| self.holds(c, r, v) by {
            if in_set(self.rows2values@, r, v) {
                let c = choose|c: usize| in_set(self.tuples@, pair_key(c, r), v);
                assert(self.holds(c, r, v));
            }
            if exists|c: usize| self.holds(c, r, v) {
                let c = choose|c: usize| self.holds(c, r, v);
                assert(in_set(self.tuples@, pair_key(c, r), v));
            }
        }
    }

    /// The invariant, said of the links: a column lists a row, and the row
    /// lists the column, exactly if some fact holds at their intersection; and
    /// no list names anything twice.
    pub proof fn lemma_links_follow_facts(&self)
        requires
            self.wf(),
        ensures
            forall|c: usize, r: usize|
                #![trigger self.tuple_values(c, r)]
                self.column_rows(c).contains(r) <==> self.tuple_values(c, r) != Set::<usize>::empty(),
            forall|c: usize, r: usize|
                #![trigger self.tuple_values(c, r)]
                self.row_columns(r).contains(c) <==> self.tuple_values(c, r) != Set::<usize>::empty(),
            forall|c: usize| #[trigger] self.column_rows(c).no_duplicates(),
            forall|r: usize| #[trigger] self.row_columns(r).no_duplicates(),
    {
        reveal(links_ok);
        assert forall|c: usize, r: usize|
            #![trigger self.tuple_values(c, r)]
            (self.column_rows(c).contains(r) <==> self.tuple_values(c, r) != Set::<usize>::empty())
                && (self.row_columns(r).contains(c) <==> self.tuple_values(c, r) != Set::<
                usize,
            >::empty()) by {
            assert(in_seq(self.cols2rows@, c, r) <==> self.tuples@.contains_key(pair_key(c, r)));
            assert(in_seq(self.rows2cols@, r, c) <==> self.tuples@.contains_key(pair_key(c, r)));
        }
    }

    /// The invariant, said of ownership: a column or a row is owned only while
    /// it has a value, and a value is owned exactly while some fact holds it.
    pub proof fn lemma_owned_follow_facts(&self)
        requires
            self.wf(),
        ensures
            forall|c: usize| #[trigger]
                self.columns().contains_key(c) ==> self.column_values(c) != Set::<usize>::empty(),
            forall|r: usize| #[trigger]
                self.rows().contains_key(r) ==> self.row_values(r) != Set::<usize>::empty(),
            forall|v: usize| #[trigger]
                self.values().contains_key(v) <==> exists|c: usize, r: usize| self.holds(c, r, v),
    {
        lemma_tidy(
            self.tuples@,
            self.cols2rows@,
            self.rows2cols@,
            self.cols2values@,
            self.rows2values@,
        );
        self.lemma_values_follow_facts();
        assert forall|v: usize| #[trigger]
            self.values().contains_key(v) <==> exists|c: usize, r: usize| self.holds(c, r, v) by {
            if self.values@.contains_key(v) {
                let c = choose|c: usize| in_set(self.cols2values@, c, v);
                assert(self.column_values(c).contains(v));
                let r = choose|r: usize| self.holds(c, r, v);
                assert(self.holds(c, r, v));
            }
            if exists|c: usize, r: usize| self.holds(c, r, v) {
                let (c, r) = choose|c: usize, r: usize| self.holds(c, r, v);
                assert(self.column_values(c).contains(v));
                assert(in_set(self.cols2values@, c, v));
            }
        }
    }

    /// Emptiness is all or nothing: the table holds no fact exactly if no
    /// intersection has a value, exactly if no column has a value, exactly if
    /// no row has a value, exactly if no column lists a row, and exactly if no
    /// row lists a column.
    pub proof fn lemma_all_or_nothing(&self)
        requires
            self.wf(),
        ensures
            self.no_facts() <==> forall|c: usize, r: usize| #[trigger]
                self.tuple_values(c, r) == Set::<usize>::empty(),
            self.no_facts() <==> forall|c: usize| #[trigger]
                self.column_values(c) == Set::<usize>::empty(),
            self.no_facts() <==> forall|r: usize| #[trigger]
                self.row_values(r) == Set::<usize>::empty(),
            self.no_facts() <==> forall|c: usize| #[trigger]
                self.column_rows(c) == Seq::<usize>::empty(),
            self.no_facts() <==> forall|r: usize| #[trigger]
                self.row_columns(r) == Seq::<usize>::empty(),
    {
        self.lemma_values_follow_facts();
        self.lemma_links_follow_facts();
        if self.no_facts() {
            assert forall|c: usize, r: usize| #[trigger]
                self.tuple_values(c, r) == Set::<usize>::empty() by {
                assert forall|v: usize| !self.tuple_values(c, r).contains(v) by {
                    assert(!self.holds(c, r, v));
                }
                assert(self.tuple_values(c, r) =~= Set::<usize>::empty());
            }
            assert forall|c: usize| #[trigger] self.column_values(c) == Set::<usize>::empty() by {
                assert forall|v: usize| !self.column_values(c).contains(v) by {
                    if self.column_values(c).contains(v) {
                        let r = choose|r: usize| self.holds(c, r, v);
                        assert(self.holds(c, r, v));
                    }
                }
                assert(self.column_values(c) =~= Set::<usize>::empty());
            }
            assert forall|r: usize| #[trigger] self.row_values(r) == Set::<usize>::empty() by {
                assert forall|v: usize| !self.row_values(r).contains(v) by {
                    if self.row_values(r).contains(v) {
                        let c = choose|c: usize| self.holds(c, r, v);
                        assert(self.holds(c, r, v));
                    }
                }
                assert(self.row_values(r) =~= Set::<usize>::empty());
            }
            assert forall|c: usize| #[trigger] self.column_rows(c) == Seq::<usize>::empty() by {
                let s = self.column_rows(c);
                if s.len() > 0 {
                    assert(s.contains(s[0]));
                    assert(self.tuple_values(c, s[0]) == Set::<usize>::empty());
                }
                assert(s =~= Seq::<usize>::empty());
            }
            assert forall|r: usize| #[trigger] self.row_columns(r) == Seq::<usize>::empty() by {
                let s = self.row_columns(r);
                if s.len() > 0 {
                    assert(s.contains(s[0]));
                    assert(self.tuple_values(s[0], r) == Set::<usize>::empty());
                }
                assert(s =~= Seq::<usize>::empty());
            }
        } else {
            let (c, r, v) = choose|c: usize, r: usize, v: usize| self.holds(c, r, v);
            assert(self.holds(c, r, v));
            assert(self.tuple_values(c, r).contains(v));
            assert(self.tuple_values(c, r) != Set::<usize>::empty());
            assert(self.column_values(c).contains(v));
            assert(self.column_values(c) != Set::<usize>::empty());
            assert(self.row_values(r).contains(v));
            assert(self.row_values(r) != Set::<usize>::empty());
            assert(self.column_rows(c).contains(r));
            assert(self.column_rows(c) != Seq::<usize>::empty());
            assert(self.row_columns(r).contains(c));
            assert(self.row_columns(r) != Seq::<usize>::empty());
        }
    }

    /// Recording a fact that the table holds already changes nothing: the
    /// facts, the set at every intersection, the links and the value sets stay
    /// as they are, and the table owns entities under the same ids as before,
    /// whichever entities are handed in.
    pub proof fn lemma_insert_again(self, after: Self, c0: usize, r0: usize, v0: usize)
        requires
            self.wf(),
            self.holds(c0, r0, v0),
            after.gained(self, c0, r0, v0),
        ensures
            after@ == self@,
            forall|c: usize, r: usize, v: usize|
                #[trigger] after.holds(c, r, v) == self.holds(c, r, v),
            forall|c: usize, r: usize|
                #[trigger] after.tuple_values(c, r) == self.tuple_values(c, r),
            forall|c: usize| #[trigger] after.column_rows(c) == self.column_rows(c),
            forall|r: usize| #[trigger] after.row_columns(r) == self.row_columns(r),
            forall|c: usize| #[trigger] after.column_values(c) == self.column_values(c),
            forall|r: usize| #[trigger] after.row_values(r) == self.row_values(r),
            forall|value: V|
                #[trigger] self.values().insert(v0, value).dom() == self.values().dom(),
            self.columns().contains_key(c0) ==> forall|column: C| #[trigger]
                self.columns().insert(c0, column).dom() == self.columns().dom(),
            self.rows().contains_key(r0) ==> forall|row: R| #[trigger]
                self.rows().insert(r0, row).dom() == self.rows().dom(),
    {
        self.lemma_values_follow_facts();
        self.lemma_links_follow_facts();
        self.lemma_owned_follow_facts();
        assert(self@.insert((c0, r0, v0)) =~= self@);
        assert(self.tuple_values(c0, r0).contains(v0));
        assert(self.tuple_values(c0, r0).insert(v0) =~= self.tuple_values(c0, r0));
        assert(self.column_values(c0).contains(v0));
        assert(self.column_values(c0).insert(v0) =~= self.column_values(c0));
        assert(self.row_values(r0).contains(v0));
        assert(self.row_values(r0).insert(v0) =~= self.row_values(r0));
        assert(self.column_rows(c0).contains(r0));
        assert(self.row_columns(r0).contains(c0));
        assert(self.values().contains_key(v0));
        assert forall|value: V| #[trigger]
            self.values().insert(v0, value).dom() == self.values().dom() by {
            assert(self.values().insert(v0, value).dom() =~= self.values().dom());
        }
        if self.columns().contains_key(c0) {
            assert forall|column: C| #[trigger]
                self.columns().insert(c0, column).dom() == self.columns().dom() by {
                assert(self.columns().insert(c0, column).dom() =~= self.columns().dom());
            }
        }
        if self.rows().contains_key(r0) {
            assert forall|row: R| #[trigger]
                self.rows().insert(r0, row).dom() == self.rows().dom() by {
                assert(self.rows().insert(r0, row).dom() =~= self.rows().dom());
            }
        }
    }

    /// Withdrawing a fact that the table does not hold changes nothing: the
    /// facts, the sets, the links and the owned entities stay as they are, so
    /// the table is empty afterwards exactly if it was before.
    pub proof fn lemma_remove_absent(self, after: Self, c0: usize, r0: usize, v0: usize)
        requires
            self.wf(),
            !self.holds(c0, r0, v0),
            after.lost(self, c0, r0, v0),
        ensures
            after@ == self@,
            forall|c: usize, r: usize, v: usize|
                #[trigger] after.holds(c, r, v) == self.holds(c, r, v),
            forall|c: usize, r: usize|
                #[trigger] after.tuple_values(c, r) == self.tuple_values(c, r),
            forall|c: usize| #[trigger] after.column_rows(c) == self.column_rows(c),
            forall|r: usize| #[trigger] after.row_columns(r) == self.row_columns(r),
            forall|c: usize| #[trigger] after.column_values(c) == self.column_values(c),
            forall|r: usize| #[trigger] after.row_values(r) == self.row_values(r),
            after.columns() == self.columns(),
            after.rows() == self.rows(),
            after.values() == self.values(),
            after.no_facts() == self.no_facts(),
    {
        self.lemma_values_follow_facts();
        self.lemma_links_follow_facts();
        self.lemma_owned_follow_facts();
        assert(self@.remove((c0, r0, v0)) =~= self@);
        assert(self.tuple_values(c0, r0).remove(v0) =~= self.tuple_values(c0, r0));
        lemma_remove_value_unique(self.column_rows(c0), r0);
        lemma_remove_value_unique(self.row_columns(r0), c0);
        assert(after.tuple_values(c0, r0) == self.tuple_values(c0, r0));
        if exists|r: usize| after.holds(c0, r, v0) {
        } else {
            assert(self.column_values(c0).remove(v0) =~= self.column_values(c0)) by {
                if self.column_values(c0).contains(v0) {
                    let r = choose|r: usize| self.holds(c0, r, v0);
                    assert(after.holds(c0, r, v0));
                }
            }
        }
        if exists|c: usize| after.holds(c, r0, v0) {
        } else {
            assert(self.row_values(r0).remove(v0) =~= self.row_values(r0)) by {
                if self.row_values(r0).contains(v0) {
                    let c = choose|c: usize| self.holds(c, r0, v0);
                    assert(after.holds(c, r0, v0));
                }
            }
        }
        assert(after.column_values(c0) == self.column_values(c0));
        assert(after.row_values(r0) == self.row_values(r0));
        if after.column_values(c0) == Set::<usize>::empty() {
            assert(self.columns().remove(c0) =~= self.columns());
        }
        if after.row_values(r0) == Set::<usize>::empty() {
            assert(self.rows().remove(r0) =~= self.rows());
        }
        if exists|c: usize, r: usize| after.holds(c, r, v0) {
        } else {
            assert(self.values().remove(v0) =~= self.values()) by {
                if self.values().contains_key(v0) {
                    let (c, r) = choose|c: usize, r: usize| self.holds(c, r, v0);
                    assert(after.holds(c, r, v0));
                }
            }
        }
        if after.no_facts() {
            assert forall|c: usize, r: usize, v: usize| !self.holds(c, r, v) by {
                assert(after.holds(c, r, v) == self.holds(c, r, v));
            }
        }
    }

    /// The links are symmetric: a column lists a row exactly if the row lists
    /// the column.
    pub proof fn lemma_links_symmetric(&self)
        requires
            self.wf(),
        ensures
            forall|c: usize, r: usize|
                #![trigger self.column_rows(c), self.row_columns(r)]
                self.column_rows(c).contains(r) <==> self.row_columns(r).contains(c),
    {
        self.lemma_links_follow_facts();
        assert forall|c: usize, r: usize|
            #![trigger self.column_rows(c), self.row_columns(r)]
            self.column_rows(c).contains(r) <==> self.row_columns(r).contains(c) by {
            let cell = self.tuple_values(c, r);
        }
    }
}

} // verus!
