use relation_index::inverse::InverseTable;
use relation_index::table::{Table, TableKV};

#[derive(Debug, Eq, PartialEq, Hash)]
struct Container(usize);

impl TableKV for Container {
    fn key(&self) -> usize {
        self.0
    }

    fn id(&self) -> usize {
        self.0
    }
}

fn sorted(mut items: Vec<usize>) -> Vec<usize> {
    items.sort();
    items
}

fn sorted_pairs(mut items: Vec<(usize, usize)>) -> Vec<(usize, usize)> {
    items.sort();
    items
}

fn sample() -> Table<Container, Container, Container> {
    let mut table: Table<Container, Container, Container> = Table::new();
    table.insert(Container(1), Container(2), Container(11));
    table.insert(Container(1), Container(2), Container(12));
    table.insert(Container(1), Container(3), Container(12));
    table
}

#[test]
fn basic_ops() {
    let mut table: Table<Container, Container, Container> = Table::new();
    table.insert(Container(1), Container(2), Container(11));
    table.insert(Container(1), Container(2), Container(11));
    table.insert(Container(1), Container(2), Container(12));
    table.insert(Container(1), Container(3), Container(12));

    assert_eq!(table.values_at(1, 2).unwrap().len(), 2);
    assert_eq!(table.values_at(1, 3).unwrap().len(), 1);
    assert!(table.values_at(4, 2).is_none());
}

#[test]
fn remove_handle_duplicate() {
    let mut table: Table<Container, Container, Container> = Table::new();
    table.insert(Container(1), Container(2), Container(11));
    table.insert(Container(1), Container(2), Container(11));
    table.remove(1, 2, 11);
    assert!(table.is_empty());
}

#[test]
fn remove_by_column() {
    let mut table: Table<Container, Container, Container> = Table::new();
    table.insert(Container(1), Container(2), Container(11));
    table.insert(Container(1), Container(2), Container(12));
    table.insert(Container(1), Container(3), Container(14));
    table.insert(Container(1), Container(3), Container(15));
    table.remove_by_column(1);
    assert!(table.is_empty());
}

#[test]
fn remove_by_row() {
    let mut table: Table<Container, Container, Container> = Table::new();
    table.insert(Container(2), Container(1), Container(11));
    table.insert(Container(3), Container(1), Container(12));
    table.insert(Container(4), Container(1), Container(13));
    table.insert(Container(5), Container(1), Container(14));
    table.remove_by_row(1);
    assert!(table.is_empty());
}

#[test]
fn inverse_table() {
    let hs0: Vec<usize> = Vec::new();
    let hs1: Vec<usize> = vec![12, 15];
    let hs2: Vec<usize> = vec![17];

    let mut table: Table<Container, Container, Container> = Table::new();
    table.insert(Container(1), Container(2), Container(12));
    table.insert(Container(1), Container(3), Container(14));
    table.insert(Container(1), Container(2), Container(15));
    table.insert(Container(4), Container(5), Container(16));
    table.insert(Container(2), Container(5), Container(17));
    table.insert(Container(2), Container(6), Container(17));

    let inverse: InverseTable = InverseTable::rebuild_from(&table);
    assert_eq!(sorted(inverse.row_values_except(2, 6).unwrap()), hs0);
    assert_eq!(sorted(inverse.column_values_except(1, 3).unwrap()), hs1);
    assert_eq!(sorted(inverse.row_values_except(4, 5).unwrap()), hs2);
    assert!(inverse.row_values_except(4, 6).is_none());
}

#[test]
fn inverse_table_other_side() {
    let mut table: Table<Container, Container, Container> = Table::new();
    table.insert(Container(1), Container(2), Container(12));
    table.insert(Container(1), Container(3), Container(14));
    table.insert(Container(1), Container(2), Container(15));
    let inverse = InverseTable::rebuild_from(&table);
    assert_eq!(sorted(inverse.column_values_except(1, 2).unwrap()), vec![14]);
    assert_eq!(sorted(inverse.row_values_except(1, 2).unwrap()), Vec::<usize>::new());
    assert_eq!(sorted(inverse.row_values_except(1, 3).unwrap()), Vec::<usize>::new());
    assert!(inverse.column_values_except(2, 1).is_none());
}

#[test]
fn inverse_of_equal_sets_is_present_and_empty() {
    let mut table: Table<Container, Container, Container> = Table::new();
    table.insert(Container(7), Container(8), Container(1));
    table.insert(Container(7), Container(8), Container(2));
    let inverse = InverseTable::rebuild_from(&table);
    assert_eq!(inverse.column_values_except(7, 8), Some(Vec::new()));
    assert_eq!(inverse.row_values_except(7, 8), Some(Vec::new()));
}

#[test]
fn inverse_of_empty_table_has_no_entry() {
    let table: Table<Container, Container, Container> = Table::new();
    let inverse = InverseTable::rebuild_from(&table);
    assert!(inverse.column_values_except(0, 0).is_none());
    assert!(inverse.row_values_except(1, 2).is_none());
}

#[test]
fn inverse_table_is_a_snapshot() {
    let mut table = sample();
    let inverse = InverseTable::rebuild_from(&table);
    let before_column = inverse.column_values_except(1, 2).map(sorted);
    let before_row = inverse.row_values_except(1, 3).map(sorted);
    assert_eq!(before_column, Some(Vec::new()));
    assert_eq!(before_row, Some(Vec::new()));

    table.insert(Container(1), Container(4), Container(99));
    table.remove_by_row(3);

    assert_eq!(inverse.column_values_except(1, 2).map(sorted), before_column);
    assert_eq!(inverse.row_values_except(1, 3).map(sorted), before_row);
    assert!(inverse.column_values_except(1, 4).is_none());

    let fresh = InverseTable::rebuild_from(&table);
    assert_eq!(fresh.column_values_except(1, 2).map(sorted), Some(vec![99]));
    assert!(fresh.row_values_except(1, 3).is_none());
    assert_eq!(fresh.column_values_except(1, 4).map(sorted), Some(vec![11, 12]));
}

#[test]
fn new_table_is_empty() {
    let table: Table<Container, Container, Container> = Table::new();
    assert!(table.is_empty());
    assert!(!table.contains(1, 2, 3));
    assert!(table.values_at(1, 2).is_none());
    assert!(table.rows_of(1).is_empty());
    assert!(table.columns_of(2).is_empty());
    assert!(table.intersections().is_empty());
}

#[test]
fn insert_twice_is_insert_once() {
    let mut once: Table<Container, Container, Container> = Table::new();
    once.insert(Container(1), Container(2), Container(11));
    let mut twice: Table<Container, Container, Container> = Table::new();
    twice.insert(Container(1), Container(2), Container(11));
    twice.insert(Container(1), Container(2), Container(11));

    assert_eq!(twice.values_at(1, 2), Some(vec![11]));
    assert_eq!(twice.values_at(1, 2), once.values_at(1, 2));
    assert_eq!(twice.rows_of(1), vec![2]);
    assert_eq!(twice.columns_of(2), vec![1]);
    assert_eq!(twice.values_of_column(1), Some(vec![11]));
    assert_eq!(twice.values_of_row(2), Some(vec![11]));
    assert_eq!(twice.intersections(), vec![(1, 2)]);
    assert!(twice.has_column(1) && twice.has_row(2) && twice.has_value(11));
    assert!(!twice.has_column(2) && !twice.has_row(1) && !twice.has_value(1));
    assert!(!twice.is_empty());
}

#[test]
fn cascading_removal() {
    let mut table = sample();
    assert_eq!(table.rows_of(1), vec![2, 3]);
    assert!(table.has_row(2));

    table.remove_by_row(2);

    assert_eq!(table.rows_of(1), vec![3]);
    assert!(!table.has_row(2));
    assert!(table.columns_of(2).is_empty());
    assert!(table.values_of_row(2).is_none());
    assert!(table.values_at(1, 2).is_none());
    assert_eq!(table.values_at(1, 3), Some(vec![12]));
    assert!(table.contains(1, 3, 12));
    assert!(table.has_column(1));
    assert!(table.has_row(3));
    assert!(table.has_value(12));
    assert!(!table.has_value(11));
    assert_eq!(table.values_of_column(1), Some(vec![12]));
    assert!(!table.is_empty());

    table.remove_by_column(1);
    assert!(table.is_empty());
    assert!(!table.has_column(1));
    assert!(!table.has_row(3));
    assert!(!table.has_value(12));
    assert!(table.rows_of(1).is_empty());
}

#[test]
fn links_are_symmetric() {
    let mut table: Table<Container, Container, Container> = Table::new();
    table.insert(Container(1), Container(2), Container(12));
    table.insert(Container(1), Container(3), Container(14));
    table.insert(Container(4), Container(5), Container(16));
    table.insert(Container(2), Container(5), Container(17));
    table.insert(Container(2), Container(6), Container(17));
    table.remove(1, 3, 14);
    for c in 0..8usize {
        for r in 0..8usize {
            let listed = table.rows_of(c).contains(&r);
            assert_eq!(listed, table.columns_of(r).contains(&c));
            assert_eq!(listed, table.values_at(c, r).is_some());
        }
    }
    assert_eq!(table.columns_of(5), vec![4, 2]);
    assert_eq!(table.rows_of(2), vec![5, 6]);
    assert_eq!(
        sorted_pairs(table.intersections()),
        vec![(1, 2), (2, 5), (2, 6), (4, 5)]
    );
}

#[test]
fn remove_of_absent_fact_changes_nothing() {
    let mut table = sample();
    table.remove(9, 9, 9);
    table.remove(1, 2, 13);
    table.remove(1, 4, 11);
    table.remove(2, 2, 11);
    assert!(!table.is_empty());
    assert_eq!(sorted(table.values_at(1, 2).unwrap()), vec![11, 12]);
    assert_eq!(table.values_at(1, 3), Some(vec![12]));
    assert_eq!(table.rows_of(1), vec![2, 3]);
    assert_eq!(table.columns_of(2), vec![1]);
    assert!(table.has_column(1) && table.has_row(2) && table.has_row(3));
    assert!(table.has_value(11) && table.has_value(12));

    let mut empty: Table<Container, Container, Container> = Table::new();
    empty.remove(1, 2, 3);
    empty.remove_by_row(4);
    empty.remove_by_column(5);
    assert!(empty.is_empty());
}

#[test]
fn value_stays_while_another_row_has_it() {
    let mut table = sample();
    table.remove(1, 2, 12);
    assert_eq!(table.values_at(1, 2), Some(vec![11]));
    assert_eq!(sorted(table.values_of_column(1).unwrap()), vec![11, 12]);
    assert_eq!(table.values_of_row(2), Some(vec![11]));
    assert_eq!(table.values_of_row(3), Some(vec![12]));
    assert!(table.has_value(12));
    assert_eq!(table.rows_of(1), vec![2, 3]);

    table.remove(1, 2, 11);
    assert!(table.values_at(1, 2).is_none());
    assert_eq!(table.values_of_column(1), Some(vec![12]));
    assert!(table.values_of_row(2).is_none());
    assert_eq!(table.rows_of(1), vec![3]);
    assert!(table.columns_of(2).is_empty());
    assert!(table.has_column(1));
    assert!(!table.has_row(2));
    assert!(!table.has_value(11));
    assert!(!table.is_empty());

    table.remove(1, 3, 12);
    assert!(table.is_empty());
    assert!(!table.has_column(1) && !table.has_row(3) && !table.has_value(12));
}

#[test]
fn one_sided_inserts() {
    let mut table: Table<Container, Container, Container> = Table::new();
    table.insert(Container(1), Container(2), Container(11));
    table.insert_column_value(Container(3), 2, Container(12));
    table.insert_row_value(1, Container(4), Container(13));
    table.insert_value(3, 4, Container(14));

    assert!(table.has_column(1) && table.has_column(3));
    assert!(table.has_row(2) && table.has_row(4));
    assert!(table.has_value(11) && table.has_value(12));
    assert!(table.has_value(13) && table.has_value(14));
    assert_eq!(table.columns_of(2), vec![1, 3]);
    assert_eq!(table.columns_of(4), vec![1, 3]);
    assert_eq!(table.rows_of(1), vec![2, 4]);
    assert_eq!(table.rows_of(3), vec![2, 4]);
    assert_eq!(sorted(table.values_of_column(3).unwrap()), vec![12, 14]);
    assert_eq!(sorted(table.values_of_row(4).unwrap()), vec![13, 14]);

    let mut bare: Table<Container, Container, Container> = Table::new();
    bare.insert_value(5, 6, Container(7));
    assert!(bare.contains(5, 6, 7));
    assert!(!bare.has_column(5) && !bare.has_row(6));
    assert!(bare.has_value(7));
    assert!(!bare.is_empty());
}

#[test]
fn bulk_removal_leaves_other_rows_and_columns() {
    let mut table: Table<Container, Container, Container> = Table::new();
    table.insert(Container(1), Container(2), Container(12));
    table.insert(Container(1), Container(3), Container(14));
    table.insert(Container(4), Container(5), Container(16));
    table.insert(Container(2), Container(5), Container(17));
    table.insert(Container(2), Container(6), Container(17));

    table.remove_by_row(5);
    assert!(!table.has_row(5));
    assert!(!table.has_column(4));
    assert!(!table.has_value(16));
    assert!(table.has_value(17));
    assert!(table.has_column(2));
    assert_eq!(table.rows_of(2), vec![6]);
    assert!(table.rows_of(4).is_empty());
    assert_eq!(table.rows_of(1), vec![2, 3]);

    table.remove_by_column(1);
    assert!(!table.has_column(1) && !table.has_row(2) && !table.has_row(3));
    assert!(!table.has_value(12) && !table.has_value(14));
    assert_eq!(table.intersections(), vec![(2, 6)]);
    assert_eq!(table.values_at(2, 6), Some(vec![17]));
    assert!(!table.is_empty());
}

#[test]
fn large_ids_keep_intersections_apart() {
    let big = usize::MAX;
    let mut table: Table<Container, Container, Container> = Table::new();
    table.insert(Container(big), Container(0), Container(1));
    table.insert(Container(0), Container(big), Container(2));
    table.insert(Container(big), Container(big), Container(3));
    assert_eq!(table.values_at(big, 0), Some(vec![1]));
    assert_eq!(table.values_at(0, big), Some(vec![2]));
    assert_eq!(table.values_at(big, big), Some(vec![3]));
    assert!(table.values_at(0, 0).is_none());
    assert_eq!(table.rows_of(big), vec![0, big]);
    table.remove_by_column(big);
    assert_eq!(table.intersections(), vec![(0, big)]);
}
