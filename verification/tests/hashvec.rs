use relation_index::hashvec::HashVec;
use relation_index::utils::SeqExt;

fn of(ids: &[usize]) -> HashVec {
    let mut out = HashVec::new();
    for id in ids {
        out.add_if_not_exists(*id);
    }
    out
}

#[test]
fn new_sequence_is_empty() {
    let sequence = HashVec::new();
    assert!(sequence.vector.is_empty());
    assert_eq!(sequence.length, 0);
    assert!(!sequence.contains(0));
}

#[test]
fn add_appends_in_order() {
    let mut sequence = HashVec::new();
    sequence.add(5);
    sequence.add(3);
    sequence.add(9);
    assert_eq!(sequence.vector, vec![5, 3, 9]);
    assert_eq!(sequence.length, 3);
    assert!(sequence.contains(3));
    assert!(!sequence.contains(4));
    assert_eq!(sequence.to_vec(), vec![5, 3, 9]);
}

#[test]
fn add_if_not_exists_is_idempotent() {
    let mut sequence = HashVec::new();
    sequence.add_if_not_exists(5);
    sequence.add_if_not_exists(3);
    sequence.add_if_not_exists(5);
    sequence.add_if_not_exists(3);
    assert_eq!(sequence.vector, vec![5, 3]);
    assert_eq!(sequence.length, 2);
}

#[test]
fn remove_keeps_the_order_of_the_rest() {
    let mut sequence = of(&[5, 3, 9, 1]);
    sequence.remove(&3);
    assert_eq!(sequence.vector, vec![5, 9, 1]);
    assert_eq!(sequence.length, 3);
    assert!(!sequence.contains(3));
    sequence.remove(&3);
    sequence.remove(&7);
    assert_eq!(sequence.vector, vec![5, 9, 1]);
    assert_eq!(sequence.length, 3);
    sequence.remove(&5);
    sequence.remove(&1);
    sequence.remove(&9);
    assert!(sequence.vector.is_empty());
    assert_eq!(sequence.length, 0);
}

#[test]
fn length_counts_distinct_present_ids() {
    let mut sequence = HashVec::new();
    sequence.add_if_not_exists(1);
    sequence.add_if_not_exists(2);
    sequence.add_if_not_exists(1);
    sequence.remove(&1);
    sequence.add_if_not_exists(3);
    sequence.add_if_not_exists(1);
    sequence.remove(&4);
    assert_eq!(sequence.vector, vec![2, 3, 1]);
    assert_eq!(sequence.length, 3);
}

#[test]
fn merge_appends_what_is_new() {
    let mut sequence = of(&[1, 2, 3]);
    let other = of(&[3, 7, 1, 5]);
    sequence.merge_with_hashvec(&other);
    assert_eq!(sequence.vector, vec![1, 2, 3, 7, 5]);
    assert_eq!(sequence.length, 5);
    assert_eq!(other.vector, vec![3, 7, 1, 5]);
    sequence.merge_with_hashvec(&HashVec::new());
    assert_eq!(sequence.vector, vec![1, 2, 3, 7, 5]);
}

#[test]
fn from_others_merges_from_left_to_right() {
    let a = of(&[4, 1]);
    let b = of(&[1, 2, 4]);
    let c = of(&[9, 2]);
    let merged = HashVec::from_others(vec![&a, &b, &c]);
    assert_eq!(merged.vector, vec![4, 1, 2, 9]);
    assert_eq!(merged.length, 4);
    let nothing = HashVec::from_others(Vec::new());
    assert!(nothing.vector.is_empty());
    assert_eq!(nothing.length, 0);
}

#[test]
fn index_of_finds_the_first_occurrence() {
    let items: Vec<usize> = vec![4, 7, 4, 9];
    assert_eq!(items.index_of(&4), Some(0));
    assert_eq!(items.index_of(&7), Some(1));
    assert_eq!(items.index_of(&9), Some(3));
    assert_eq!(items.index_of(&5), None);
    assert_eq!(Vec::<usize>::new().index_of(&0), None);
}

#[test]
fn has_value_tells_membership() {
    let items: Vec<usize> = vec![4, 7, 9];
    assert!(items.has_value(&7));
    assert!(!items.has_value(&8));
    assert!(!Vec::<usize>::new().has_value(&0));
}
