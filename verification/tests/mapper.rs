use vibrato::dictionary::mapper::{rank_ids, ConnIdCounter, ConnIdMapper};

#[test]
fn test_parse_basic() {
    let map = vec![2, 3, 4, 1];
    let mapping = ConnIdMapper::parse(map).unwrap();
    assert_eq!(mapping, vec![0, 4, 1, 2, 3]);
}

#[test]
fn test_parse_zero() {
    let map = vec![2, 3, 0, 1];
    let result = ConnIdMapper::parse(map);
    assert!(result.is_err());
}

#[test]
fn test_parse_oor() {
    let map = vec![2, 3, 5, 1];
    let result = ConnIdMapper::parse(map);
    assert!(result.is_err());
}

#[test]
fn mapper_builder_test_basic() {
    let map = vec![2, 3, 4, 1];
    let mapping = ConnIdMapper::parse(map).unwrap();
    assert_eq!(mapping, vec![0, 4, 1, 2, 3]);
}

#[test]
fn test_zero() {
    let map = vec![2, 3, 0, 1];
    let result = ConnIdMapper::parse(map);
    assert!(result.is_err());
}

#[test]
fn test_oor() {
    let map = vec![2, 3, 5, 1];
    let result = ConnIdMapper::parse(map);
    assert!(result.is_err());
}

#[test]
fn parse_rejects_duplicates() {
    assert!(ConnIdMapper::parse(vec![1, 1]).is_err());
}

#[test]
fn from_iter_is_inverse() {
    let m = ConnIdMapper::from_iter(vec![2, 1], vec![1, 3, 2]).unwrap();
    assert_eq!(m.num_left(), 3);
    assert_eq!(m.num_right(), 4);
    assert_eq!(m.left(0), 0);
    assert_eq!(m.left(2), 1);
    assert_eq!(m.left(1), 2);
    assert_eq!(m.right(3), 2);
    assert_eq!(m.right(2), 3);
}

#[test]
fn counter_counts() {
    let mut counter = ConnIdCounter::new(3, 3);
    counter.add(0, 2, 1);
    counter.add(1, 0, 3);
    counter.add(2, 2, 4);
    counter.add(1, 2, 2);
    assert_eq!(counter.lid_count(), &[1, 5, 4]);
    assert_eq!(counter.rid_count(), &[3, 0, 7]);
}

#[test]
fn ranks_follow_the_counts() {
    let mut counter = ConnIdCounter::new(3, 3);
    counter.add(0, 2, 1);
    counter.add(1, 0, 3);
    counter.add(2, 2, 4);
    counter.add(1, 2, 2);
    assert_eq!(counter.lid_count(), &[1, 5, 4]);
    assert_eq!(counter.rid_count(), &[3, 0, 7]);
    assert_eq!(rank_ids(counter.lid_count()), vec![1, 2]);
    assert_eq!(rank_ids(counter.rid_count()), vec![2, 1]);
    assert_eq!(rank_ids(&[9, 2, 2, 5, 0]), vec![3, 1, 2, 4]);
    assert!(rank_ids(&[]).is_empty());
}

#[test]
fn from_iter_takes_the_largest_permutation() {
    let lmap: Vec<u16> = (1..=65535u16).rev().collect();
    let rmap: Vec<u16> = (1..=65535u16).collect();
    let m = ConnIdMapper::from_iter(lmap, rmap).unwrap();
    assert_eq!(m.num_left(), 65536);
    assert_eq!(m.left(0), 0);
    assert_eq!(m.left(65535), 1);
    assert_eq!(m.left(1), 65535);
    assert_eq!(m.right(7), 7);
}
