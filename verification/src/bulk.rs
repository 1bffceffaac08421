//! Withdrawing all the facts of one row or of one column.
use vstd::prelude::*;
use crate::hashvec::lemma_remove_value_unique;
use crate::index::{lemma_push_contains, lemma_submap_trans, lemma_take_next};
use crate::table::{Table, TableKV};

verus! {

/// The facts among `facts` that are not about row `r0`.
pub open spec fn without_row(facts: Set<(usize, usize, usize)>, r0: usize) -> Set<
    (usize, usize, usize),
> {
    facts.filter(|fact: (usize, usize, usize)| fact.1 != r0)
}

/// The facts among `facts` that are not about column `c0`.
pub open spec fn without_column(facts: Set<(usize, usize, usize)>, c0: usize) -> Set<
    (usize, usize, usize),
> {
    facts.filter(|fact: (usize, usize, usize)| fact.0 != c0)
}

impl<C: TableKV, R: TableKV, V: TableKV> Table<C, R, V> {
    /// The facts of row `row_key`, each as its column and its value.
    fn facts_of_row(&self, row_key: usize) -> (items: Vec<(usize, usize)>)
        requires
            self.wf(),
        ensures
            forall|c: usize, v: usize| #[trigger]
                items@.contains((c, v)) <==> self.holds(c, row_key, v),
    {
        let mut items: Vec<(usize, usize)> = Vec::new();
        let columns = self.columns_of(row_key);
        let mut i: usize = 0;
        while i < columns.len()
            invariant
                self.wf(),
                i <= columns@.len(),
                columns@ == self.row_columns(row_key),
                forall|c: usize, v: usize| #[trigger]
                    items@.contains((c, v)) <==> self.holds(c, row_key, v) && columns@.take(
                        i as int,
                    ).contains(c),
            decreases columns@.len() - i,
        {
            let c = columns[i];
            let found = self.values_at(c, row_key);
            let ghost before = items@;
            proof {
                lemma_take_next(columns@, i as int);
            }
            match found {
                Some(values) => {
                    let mut n: usize = 0;
                    while n < values.len()
                        invariant
                            n <= values@.len(),
                            forall|x: usize, v: usize| #[trigger]
                                items@.contains((x, v)) <==> before.contains((x, v)) || (x == c
                                    && values@.take(n as int).contains(v)),
                        decreases values@.len() - n,
                    {
                        let v = values[n];
                        proof {
                            lemma_push_contains(items@, (c, v));
                            lemma_take_next(values@, n as int);
                        }
                        items.push((c, v));
                        n += 1;
                    }
                    proof {
                        assert(values@.take(n as int) =~= values@);
                        assert forall|x: usize, v: usize| #[trigger]
                            items@.contains((x, v)) <==> self.holds(x, row_key, v)
                                && columns@.take(i + 1).contains(x) by {
                            assert(values@.to_set().contains(v) <==> values@.contains(v));
                            assert(before.contains((x, v)) <==> self.holds(x, row_key, v)
                                && columns@.take(i as int).contains(x));
                            if x == c && columns@.take(i as int).contains(c) {
                                let j = choose|j: int|
                                    0 <= j < i && columns@.take(i as int)[j] == c;
                                self.lemma_links_follow_facts();
                                assert(columns@[j] == columns@[i as int]);
                            }
                        }
                    }
                },
                None => {
                    proof {
                        assert forall|x: usize, v: usize| #[trigger]
                            items@.contains((x, v)) <==> self.holds(x, row_key, v)
                                && columns@.take(i + 1).contains(x) by {
                            assert(!self.tuple_values(c, row_key).contains(v));
                        }
                    }
                },
            }
            i += 1;
        }
        proof {
            assert(columns@.take(i as int) =~= columns@);
            self.lemma_links_follow_facts();
            assert forall|c: usize, v: usize| #[trigger]
                items@.contains((c, v)) <==> self.holds(c, row_key, v) by {
                if self.holds(c, row_key, v) {
                    assert(self.tuple_values(c, row_key) != Set::<usize>::empty());
                }
            }
        }
        items
    }

    /// Says that `self` is `before` without the facts of row `r0`, and without
    /// what no remaining fact supports: the row leaves the list of every
    /// column, its own list and its set of values are gone, the columns keep
    /// the values that they have in other rows, and a column, a row or a
    /// value stays owned exactly if it was owned and still has a fact.
    pub open spec fn lost_row(self, before: Self, r0: usize) -> bool {
        &&& self@ == without_row(before@, r0)
        &&& forall|c: usize, r: usize, v: usize| #[trigger]
            self.holds(c, r, v) <==> before.holds(c, r, v) && r != r0
        &&& forall|c: usize| #[trigger] self.tuple_values(c, r0) == Set::<usize>::empty()
        &&& forall|c: usize, r: usize|
            r != r0 ==> #[trigger] self.tuple_values(c, r) == before.tuple_values(c, r)
        &&& forall|c: usize| #[trigger]
            self.column_rows(c) == before.column_rows(c).remove_value(r0)
        &&& self.row_columns(r0) == Seq::<usize>::empty()
        &&& forall|r: usize| r != r0 ==> #[trigger] self.row_columns(r) == before.row_columns(r)
        &&& forall|c: usize, v: usize| #[trigger]
            self.column_values(c).contains(v) <==> exists|r: usize|
                r != r0 && before.holds(c, r, v)
        &&& self.row_values(r0) == Set::<usize>::empty()
        &&& forall|r: usize| r != r0 ==> #[trigger] self.row_values(r) == before.row_values(r)
        &&& self.columns().submap_of(before.columns())
        &&& self.rows().submap_of(before.rows())
        &&& self.values().submap_of(before.values())
        &&& forall|c: usize| #[trigger]
            self.columns().contains_key(c) <==> before.columns().contains_key(c)
                && self.column_values(c) != Set::<usize>::empty()
        &&& forall|r: usize| #[trigger]
            self.rows().contains_key(r) <==> before.rows().contains_key(r) && r != r0
        &&& forall|v: usize| #[trigger]
            self.values().contains_key(v) <==> before.values().contains_key(v) && exists|
                c: usize,
                r: usize,
            | self.holds(c, r, v)
    }

    /// Withdraws every fact of row `row_key_to_remove`. The facts are listed
    /// first and withdrawn one by one afterwards, so the row leaves the links
    /// of every column that met it, and the row itself and whatever no remaining
    /// fact supports are given up.
    pub fn remove_by_row(&mut self, row_key_to_remove: usize)
        requires
            old(self).wf(),
        ensures
            final(self).wf(),
            final(self).lost_row(*old(self), row_key_to_remove),
            old(self).owns_all() ==> final(self).owns_all(),
    {
        let items = self.facts_of_row(row_key_to_remove);
        let ghost row = row_key_to_remove;
        let mut i: usize = 0;
        proof {
            self.lemma_links_follow_facts();
            self.lemma_owned_follow_facts();
            assert forall|c: usize| #[trigger]
                self.column_rows(c) == if self.tuple_values(c, row) == Set::<usize>::empty() {
                    self.column_rows(c).remove_value(row)
                } else {
                    self.column_rows(c)
                } by {
                lemma_remove_value_unique(self.column_rows(c), row);
            }
        }
        while i < items.len()
            invariant
                self.wf(),
                i <= items@.len(),
                row == row_key_to_remove,
                forall|c: usize, v: usize| #[trigger]
                    items@.contains((c, v)) <==> old(self).holds(c, row, v),
                forall|c: usize, r: usize, v: usize| #[trigger]
                    self.holds(c, r, v) <==> old(self).holds(c, r, v) && !(r == row && items@.take(
                        i as int,
                    ).contains((c, v))),
                forall|c: usize| #[trigger]
                    self.column_rows(c) == if self.tuple_values(c, row) == Set::<usize>::empty() {
                        old(self).column_rows(c).remove_value(row)
                    } else {
                        old(self).column_rows(c)
                    },
                forall|r: usize|
                    r != row ==> #[trigger] self.row_columns(r) == old(self).row_columns(r),
                forall|r: usize|
                    r != row ==> #[trigger] self.row_values(r) == old(self).row_values(r),
                old(self).owns_all() ==> self.owns_all(),
                self.columns().submap_of(old(self).columns()),
                self.rows().submap_of(old(self).rows()),
                self.values().submap_of(old(self).values()),
                forall|c: usize| #[trigger]
                    old(self).columns().contains_key(c) && self.column_values(c) != Set::<
                        usize,
                    >::empty() ==> self.columns().contains_key(c),
                forall|r: usize| #[trigger]
                    old(self).rows().contains_key(r) && self.row_values(r) != Set::<usize>::empty()
                        ==> self.rows().contains_key(r),
                forall|v: usize| #[trigger]
                    old(self).values().contains_key(v) && (exists|c: usize, r: usize|
                        self.holds(c, r, v)) ==> self.values().contains_key(v),
            decreases items@.len() - i,
        {
            let (column_key, value_key) = items[i];
            let ghost before = *self;
            self.remove(column_key, row_key_to_remove, value_key);
            proof {
                lemma_push_contains(items@.take(i as int), (column_key, value_key));
                assert(items@.take(i + 1) =~= items@.take(i as int).push((column_key, value_key)));
                assert(Set::<usize>::empty().remove(value_key) =~= Set::<usize>::empty());
                assert(self.columns().submap_of(before.columns()));
                assert(self.rows().submap_of(before.rows()));
                assert(self.values().submap_of(before.values()));
                lemma_submap_trans(self.columns(), before.columns(), old(self).columns());
                lemma_submap_trans(self.rows(), before.rows(), old(self).rows());
                lemma_submap_trans(self.values(), before.values(), old(self).values());
                before.lemma_links_follow_facts();
                assert forall|c: usize| #[trigger]
                    self.column_rows(c) == if self.tuple_values(c, row) == Set::<usize>::empty() {
                        old(self).column_rows(c).remove_value(row)
                    } else {
                        old(self).column_rows(c)
                    } by {
                    assert forall|v: usize|
                        self.tuple_values(c, row).contains(v) <==> before.tuple_values(
                            c,
                            row,
                        ).contains(v) && !(c == column_key && v == value_key) by {
                        assert(self.holds(c, row, v) <==> before.holds(c, row, v) && !(c
                            == column_key && v == value_key));
                    }
                    if c != column_key {
                        assert(self.tuple_values(c, row) =~= before.tuple_values(c, row));
                    } else if before.tuple_values(c, row) == Set::<usize>::empty() {
                        assert(self.tuple_values(c, row) =~= Set::<usize>::empty());
                        lemma_remove_value_unique(before.column_rows(c), row);
                    }
                }
                assert forall|v: usize| #[trigger]
                    old(self).values().contains_key(v) && (exists|c: usize, r: usize|
                        self.holds(c, r, v)) implies self.values().contains_key(v) by {
                    let (c, r) = choose|c: usize, r: usize| self.holds(c, r, v);
                    assert(before.holds(c, r, v));
                }
            }
            i += 1;
        }
        proof {
            assert(items@.take(i as int) =~= items@);
            self.lemma_links_follow_facts();
            self.lemma_values_follow_facts();
            self.lemma_owned_follow_facts();
            old(self).lemma_owned_follow_facts();
            assert forall|c: usize| #[trigger]
                self.tuple_values(c, row) == Set::<usize>::empty() by {
                assert forall|v: usize| !self.tuple_values(c, row).contains(v) by {
                    assert(!self.holds(c, row, v));
                }
                assert(self.tuple_values(c, row) =~= Set::<usize>::empty());
            }
            let s = self.row_columns(row);
            if s.len() > 0 {
                assert(s.contains(s[0]));
                assert(self.tuple_values(s[0], row) == Set::<usize>::empty());
            }
            assert(s =~= Seq::<usize>::empty());
            assert forall|v: usize| !self.row_values(row).contains(v) by {
                if self.row_values(row).contains(v) {
                    let c = choose|c: usize| self.holds(c, row, v);
                    assert(self.holds(c, row, v));
                }
            }
            assert(self.row_values(row) =~= Set::<usize>::empty());
            assert(self@ =~= without_row(old(self)@, row_key_to_remove));
            assert forall|c: usize, v: usize| #[trigger]
                self.column_values(c).contains(v) <==> exists|r: usize|
                    r != row && old(self).holds(c, r, v) by {
                if self.column_values(c).contains(v) {
                    let r = choose|r: usize| self.holds(c, r, v);
                    assert(r != row && old(self).holds(c, r, v));
                }
                if exists|r: usize| r != row && old(self).holds(c, r, v) {
                    let r = choose|r: usize| r != row && old(self).holds(c, r, v);
                    assert(self.holds(c, r, v));
                }
            }
            assert forall|c: usize, r: usize| r != row implies #[trigger] self.tuple_values(c, r)
                == old(self).tuple_values(c, r) by {
                assert forall|v: usize|
                    self.tuple_values(c, r).contains(v) <==> old(self).tuple_values(c, r).contains(
                        v,
                    ) by {
                    assert(self.holds(c, r, v) <==> old(self).holds(c, r, v));
                }
                assert(self.tuple_values(c, r) =~= old(self).tuple_values(c, r));
            }
            assert forall|v: usize| #[trigger]
                self.values().contains_key(v) <==> old(self).values().contains_key(v) && (
                exists|c: usize, r: usize| self.holds(c, r, v)) by {
                if self.values().contains_key(v) {
                    assert(old(self).values().dom().contains(v));
                }
            }
            assert forall|c: usize| #[trigger]
                self.columns().contains_key(c) <==> old(self).columns().contains_key(c)
                    && self.column_values(c) != Set::<usize>::empty() by {
                if self.columns().contains_key(c) {
                    assert(old(self).columns().dom().contains(c));
                }
            }
            assert forall|r: usize| #[trigger]
                self.rows().contains_key(r) <==> old(self).rows().contains_key(r) && r != row by {
                if self.rows().contains_key(r) {
                    assert(old(self).rows().dom().contains(r));
                }
                if r != row && old(self).rows().contains_key(r) {
                    assert(self.row_values(r) == old(self).row_values(r));
                }
            }
        }
    }

    /// The facts of column `column_key`, each as its row and its value.
    fn facts_of_column(&self, column_key: usize) -> (items: Vec<(usize, usize)>)
        requires
            self.wf(),
        ensures
            forall|r: usize, v: usize| #[trigger]
                items@.contains((r, v)) <==> self.holds(column_key, r, v),
    {
        let mut items: Vec<(usize, usize)> = Vec::new();
        let rows = self.rows_of(column_key);
        let mut i: usize = 0;
        while i < rows.len()
            invariant
                self.wf(),
                i <= rows@.len(),
                rows@ == self.column_rows(column_key),
                forall|r: usize, v: usize| #[trigger]
                    items@.contains((r, v)) <==> self.holds(column_key, r, v) && rows@.take(
                        i as int,
                    ).contains(r),
            decreases rows@.len() - i,
        {
            let r = rows[i];
            let found = self.values_at(column_key, r);
            let ghost before = items@;
            proof {
                lemma_take_next(rows@, i as int);
            }
            match found {
                Some(values) => {
                    let mut n: usize = 0;
                    while n < values.len()
                        invariant
                            n <= values@.len(),
                            forall|x: usize, v: usize| #[trigger]
                                items@.contains((x, v)) <==> before.contains((x, v)) || (x == r
                                    && values@.take(n as int).contains(v)),
                        decreases values@.len() - n,
                    {
                        let v = values[n];
                        proof {
                            lemma_push_contains(items@, (r, v));
                            lemma_take_next(values@, n as int);
                        }
                        items.push((r, v));
                        n += 1;
                    }
                    proof {
                        assert(values@.take(n as int) =~= values@);
                        assert forall|x: usize, v: usize| #[trigger]
                            items@.contains((x, v)) <==> self.holds(column_key, x, v)
                                && rows@.take(i + 1).contains(x) by {
                            assert(values@.to_set().contains(v) <==> values@.contains(v));
                            assert(before.contains((x, v)) <==> self.holds(column_key, x, v)
                                && rows@.take(i as int).contains(x));
                            if x == r && rows@.take(i as int).contains(r) {
                                let j = choose|j: int|
                                    0 <= j < i && rows@.take(i as int)[j] == r;
                                self.lemma_links_follow_facts();
                                assert(rows@[j] == rows@[i as int]);
                            }
                        }
                    }
                },
                None => {
                    proof {
                        assert forall|x: usize, v: usize| #[trigger]
                            items@.contains((x, v)) <==> self.holds(column_key, x, v)
                                && rows@.take(i + 1).contains(x) by {
                            assert(!self.tuple_values(column_key, r).contains(v));
                        }
                    }
                },
            }
            i += 1;
        }
        proof {
            assert(rows@.take(i as int) =~= rows@);
            self.lemma_links_follow_facts();
            assert forall|r: usize, v: usize| #[trigger]
                items@.contains((r, v)) <==> self.holds(column_key, r, v) by {
                if self.holds(column_key, r, v) {
                    assert(self.tuple_values(column_key, r) != Set::<usize>::empty());
                }
            }
        }
        items
    }

    /// Says that `self` is `before` without the facts of column `c0`, and
    /// without what no remaining fact supports: the column leaves the list of
    /// every row, its own list and its set of values are gone, the rows keep
    /// the values that they have in other columns, and a row, a column or a
    /// value stays owned exactly if it was owned and still has a fact.
    pub open spec fn lost_column(self, before: Self, c0: usize) -> bool {
        &&& self@ == without_column(before@, c0)
        &&& forall|r: usize, c: usize, v: usize| #[trigger]
            self.holds(c, r, v) <==> before.holds(c, r, v) && c != c0
        &&& forall|r: usize| #[trigger] self.tuple_values(c0, r) == Set::<usize>::empty()
        &&& forall|r: usize, c: usize|
            c != c0 ==> #[trigger] self.tuple_values(c, r) == before.tuple_values(c, r)
        &&& forall|r: usize| #[trigger]
            self.row_columns(r) == before.row_columns(r).remove_value(c0)
        &&& self.column_rows(c0) == Seq::<usize>::empty()
        &&& forall|c: usize| c != c0 ==> #[trigger] self.column_rows(c) == before.column_rows(c)
        &&& forall|r: usize, v: usize| #[trigger]
            self.row_values(r).contains(v) <==> exists|c: usize|
                c != c0 && before.holds(c, r, v)
        &&& self.column_values(c0) == Set::<usize>::empty()
        &&& forall|c: usize| c != c0 ==> #[trigger] self.column_values(c) == before.column_values(c)
        &&& self.rows().submap_of(before.rows())
        &&& self.columns().submap_of(before.columns())
        &&& self.values().submap_of(before.values())
        &&& forall|r: usize| #[trigger]
            self.rows().contains_key(r) <==> before.rows().contains_key(r)
                && self.row_values(r) != Set::<usize>::empty()
        &&& forall|c: usize| #[trigger]
            self.columns().contains_key(c) <==> before.columns().contains_key(c) && c != c0
        &&& forall|v: usize| #[trigger]
            self.values().contains_key(v) <==> before.values().contains_key(v) && exists|
                r: usize,
                c: usize,
            | self.holds(c, r, v)
    }

    /// Withdraws every fact of column `column_key_to_remove`. The facts are listed
    /// first and withdrawn one by one afterwards, so the column leaves the links
    /// of every row that met it, and the column itself and whatever no remaining
    /// fact supports are given up.
    pub fn remove_by_column(&mut self, column_key_to_remove: usize)
        requires
            old(self).wf(),
        ensures
            final(self).wf(),
            final(self).lost_column(*old(self), column_key_to_remove),
            old(self).owns_all() ==> final(self).owns_all(),
    {
        let items = self.facts_of_column(column_key_to_remove);
        let ghost column = column_key_to_remove;
        let mut i: usize = 0;
        proof {
            self.lemma_links_follow_facts();
            self.lemma_owned_follow_facts();
            assert forall|r: usize| #[trigger]
                self.row_columns(r) == if self.tuple_values(column, r) == Set::<usize>::empty() {
                    self.row_columns(r).remove_value(column)
                } else {
                    self.row_columns(r)
                } by {
                lemma_remove_value_unique(self.row_columns(r), column);
            }
        }
        while i < items.len()
            invariant
                self.wf(),
                i <= items@.len(),
                column == column_key_to_remove,
                forall|r: usize, v: usize| #[trigger]
                    items@.contains((r, v)) <==> old(self).holds(column, r, v),
                forall|r: usize, c: usize, v: usize| #[trigger]
                    self.holds(c, r, v) <==> old(self).holds(c, r, v) && !(c == column && items@.take(
                        i as int,
                    ).contains((r, v))),
                forall|r: usize| #[trigger]
                    self.row_columns(r) == if self.tuple_values(column, r) == Set::<usize>::empty() {
                        old(self).row_columns(r).remove_value(column)
                    } else {
                        old(self).row_columns(r)
                    },
                forall|c: usize|
                    c != column ==> #[trigger] self.column_rows(c) == old(self).column_rows(c),
                forall|c: usize|
                    c != column ==> #[trigger] self.column_values(c) == old(self).column_values(c),
                old(self).owns_all() ==> self.owns_all(),
                self.rows().submap_of(old(self).rows()),
                self.columns().submap_of(old(self).columns()),
                self.values().submap_of(old(self).values()),
                forall|r: usize| #[trigger]
                    old(self).rows().contains_key(r) && self.row_values(r) != Set::<
                        usize,
                    >::empty() ==> self.rows().contains_key(r),
                forall|c: usize| #[trigger]
                    old(self).columns().contains_key(c) && self.column_values(c) != Set::<usize>::empty()
                        ==> self.columns().contains_key(c),
                forall|v: usize| #[trigger]
                    old(self).values().contains_key(v) && (exists|r: usize, c: usize|
                        self.holds(c, r, v)) ==> self.values().contains_key(v),
            decreases items@.len() - i,
        {
            let (row_key, value_key) = items[i];
            let ghost before = *self;
            self.remove(column_key_to_remove, row_key, value_key);
            proof {
                lemma_push_contains(items@.take(i as int), (row_key, value_key));
                assert(items@.take(i + 1) =~= items@.take(i as int).push((row_key, value_key)));
                assert(Set::<usize>::empty().remove(value_key) =~= Set::<usize>::empty());
                assert(self.rows().submap_of(before.rows()));
                assert(self.columns().submap_of(before.columns()));
                assert(self.values().submap_of(before.values()));
                lemma_submap_trans(self.rows(), before.rows(), old(self).rows());
                lemma_submap_trans(self.columns(), before.columns(), old(self).columns());
                lemma_submap_trans(self.values(), before.values(), old(self).values());
                before.lemma_links_follow_facts();
                assert forall|r: usize| #[trigger]
                    self.row_columns(r) == if self.tuple_values(column, r) == Set::<usize>::empty() {
                        old(self).row_columns(r).remove_value(column)
                    } else {
                        old(self).row_columns(r)
                    } by {
                    assert forall|v: usize|
                        self.tuple_values(column, r).contains(v) <==> before.tuple_values(
                            column,
                            r,
                        ).contains(v) && !(r == row_key && v == value_key) by {
                        assert(self.holds(column, r, v) <==> before.holds(column, r, v) && !(r
                            == row_key && v == value_key));
                    }
                    if r != row_key {
                        assert(self.tuple_values(column, r) =~= before.tuple_values(column, r));
                    } else if before.tuple_values(column, r) == Set::<usize>::empty() {
                        assert(self.tuple_values(column, r) =~= Set::<usize>::empty());
                        lemma_remove_value_unique(before.row_columns(r), column);
                    }
                }
                assert forall|v: usize| #[trigger]
                    old(self).values().contains_key(v) && (exists|r: usize, c: usize|
                        self.holds(c, r, v)) implies self.values().contains_key(v) by {
                    let (r, c) = choose|r: usize, c: usize| self.holds(c, r, v);
                    assert(before.holds(c, r, v));
                }
            }
            i += 1;
        }
        proof {
            assert(items@.take(i as int) =~= items@);
            self.lemma_links_follow_facts();
            self.lemma_values_follow_facts();
            self.lemma_owned_follow_facts();
            old(self).lemma_owned_follow_facts();
            assert forall|r: usize| #[trigger]
                self.tuple_values(column, r) == Set::<usize>::empty() by {
                assert forall|v: usize| !self.tuple_values(column, r).contains(v) by {
                    assert(!self.holds(column, r, v));
                }
                assert(self.tuple_values(column, r) =~= Set::<usize>::empty());
            }
            let s = self.column_rows(column);
            if s.len() > 0 {
                assert(s.contains(s[0]));
                assert(self.tuple_values(column, s[0]) == Set::<usize>::empty());
            }
            assert(s =~= Seq::<usize>::empty());
            assert forall|v: usize| !self.column_values(column).contains(v) by {
                if self.column_values(column).contains(v) {
                    let r = choose|r: usize| self.holds(column, r, v);
                    assert(self.holds(column, r, v));
                }
            }
            assert(self.column_values(column) =~= Set::<usize>::empty());
            assert(self@ =~= without_column(old(self)@, column_key_to_remove));
            assert forall|r: usize, v: usize| #[trigger]
                self.row_values(r).contains(v) <==> exists|c: usize|
                    c != column && old(self).holds(c, r, v) by {
                if self.row_values(r).contains(v) {
                    let c = choose|c: usize| self.holds(c, r, v);
                    assert(c != column && old(self).holds(c, r, v));
                }
                if exists|c: usize| c != column && old(self).holds(c, r, v) {
                    let c = choose|c: usize| c != column && old(self).holds(c, r, v);
                    assert(self.holds(c, r, v));
                }
            }
            assert forall|r: usize, c: usize| c != column implies #[trigger] self.tuple_values(c, r)
                == old(self).tuple_values(c, r) by {
                assert forall|v: usize|
                    self.tuple_values(c, r).contains(v) <==> old(self).tuple_values(c, r).contains(
                        v,
                    ) by {
                    assert(self.holds(c, r, v) <==> old(self).holds(c, r, v));
                }
                assert(self.tuple_values(c, r) =~= old(self).tuple_values(c, r));
            }
            assert forall|v: usize| #[trigger]
                self.values().contains_key(v) <==> old(self).values().contains_key(v) && (
                exists|r: usize, c: usize| self.holds(c, r, v)) by {
                if self.values().contains_key(v) {
                    assert(old(self).values().dom().contains(v));
                }
            }
            assert forall|r: usize| #[trigger]
                self.rows().contains_key(r) <==> old(self).rows().contains_key(r)
                    && self.row_values(r) != Set::<usize>::empty() by {
                if self.rows().contains_key(r) {
                    assert(old(self).rows().dom().contains(r));
                }
            }
            assert forall|c: usize| #[trigger]
                self.columns().contains_key(c) <==> old(self).columns().contains_key(c) && c != column by {
                if self.columns().contains_key(c) {
                    assert(old(self).columns().dom().contains(c));
                }
                if c != column && old(self).columns().contains_key(c) {
                    assert(self.column_values(c) == old(self).column_values(c));
                }
            }
        }
    }
}

} // verus!
