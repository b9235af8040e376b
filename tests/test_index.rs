use ratatui_tree::TreeIndex;

fn idx(indices: &[usize]) -> TreeIndex {
    TreeIndex::new(indices).unwrap()
}

#[test]
fn test_new() {
    assert!(TreeIndex::new(&[]).is_none());
    assert!(TreeIndex::new(&[0]).is_some());
    assert!(TreeIndex::new(&[0, 1]).is_some());
}

#[test]
fn test_first() {
    let index = TreeIndex::new(&[0]).unwrap();
    assert_eq!(index.first(), 0);
    let index = TreeIndex::new(&[0, 1]).unwrap();
    assert_eq!(index.first(), 0);
}

#[test]
fn test_last() {
    let index = TreeIndex::new(&[0]).unwrap();
    assert_eq!(index.last(), 0);
    let index = TreeIndex::new(&[0, 1]).unwrap();
    assert_eq!(index.last(), 1);
}

#[test]
fn zero_and_new_at_are_single_offsets() {
    assert_eq!(TreeIndex::zero().as_slice(), &[0]);
    assert_eq!(TreeIndex::default().as_slice(), &[0]);
    assert_eq!(TreeIndex::new_at(7).as_slice(), &[7]);
    assert_eq!(TreeIndex::new_unchecked(vec![3, 4]).as_slice(), &[3, 4]);
}

#[test]
fn new_copies_the_offsets() {
    assert_eq!(idx(&[4, 0, 2]).as_slice(), &[4, 0, 2]);
}

#[test]
fn push_and_pushed_append() {
    let mut index = idx(&[1]);
    index.push(2);
    assert_eq!(index.as_slice(), &[1, 2]);
    let longer = index.pushed(5);
    assert_eq!(longer.as_slice(), &[1, 2, 5]);
    assert_eq!(index.as_slice(), &[1, 2]);
}

#[test]
fn pop_keeps_the_last_offset() {
    let mut index = idx(&[1, 2]);
    assert_eq!(index.pop(), Some(2));
    assert_eq!(index.as_slice(), &[1]);
    assert_eq!(index.pop(), None);
    assert_eq!(index.as_slice(), &[1]);
    assert_eq!(idx(&[3, 4, 5]).popped().as_slice(), &[3, 4]);
    assert_eq!(idx(&[3]).popped().as_slice(), &[3]);
}

#[test]
fn len_root_and_empty() {
    let index = idx(&[0, 1, 2]);
    assert_eq!(index.len(), 3);
    assert!(!index.is_root());
    assert!(!index.is_empty());
    assert!(idx(&[9]).is_root());
}

#[test]
fn splice_truncates_or_pads() {
    let mut index = idx(&[1, 2, 3]);
    index.splice(1, 7);
    assert_eq!(index.as_slice(), &[1, 7]);
    assert_eq!(idx(&[1]).spliced(3, 7).as_slice(), &[1, 0, 0, 7]);
    assert_eq!(idx(&[4, 5]).spliced(0, 9).as_slice(), &[9]);
}

#[test]
fn floor_truncates_or_pads() {
    let mut index = idx(&[1, 2, 3]);
    index.floor(0);
    assert_eq!(index.as_slice(), &[1]);
    assert_eq!(idx(&[1]).floored(2).as_slice(), &[1, 0, 0]);
    assert_eq!(idx(&[1, 2, 3]).floored(1).as_slice(), &[1, 2]);
}

#[test]
fn parent_and_rest() {
    assert_eq!(idx(&[1, 2, 3]).parent().map(|p| p.as_slice().to_vec()), Some(vec![1, 2]));
    assert!(idx(&[1]).parent().is_none());
    assert_eq!(idx(&[1, 2, 3]).rest().map(|p| p.as_slice().to_vec()), Some(vec![2, 3]));
    assert!(idx(&[1]).rest().is_none());
}

#[test]
fn iter_yields_all_offsets() {
    let index = idx(&[3, 1, 4]);
    assert_eq!(index.iter().copied().collect::<Vec<_>>(), vec![3, 1, 4]);
    assert_eq!(*index.first_ref(), 3);
    assert_eq!(*index.last_ref(), 4);
}

#[test]
fn equality_and_clone_follow_offsets() {
    let a = idx(&[0, 1]);
    assert!(a == a.clone());
    assert!(a != idx(&[0]));
    assert!(a != idx(&[0, 2]));
}

#[test]
fn rest_and_in_place_changes() {
    let mut index = idx(&[3, 1, 4]);
    assert_eq!(index.iter_rest().copied().collect::<Vec<_>>(), vec![1, 4]);
    assert_eq!(idx(&[3]).iter_rest().count(), 0);
    *index.first_mut() = 7;
    *index.last_mut() = 9;
    assert_eq!(index.as_slice(), &[7, 1, 9]);
}

#[test]
fn order_is_pre_order() {
    assert!(idx(&[0]) < idx(&[0, 0]));
    assert!(idx(&[0, 5]) < idx(&[1]));
    assert!(idx(&[1, 0]) > idx(&[0, 9, 9]));
    assert_eq!(idx(&[2, 1]).cmp(&idx(&[2, 1])), std::cmp::Ordering::Equal);
    let mut all = vec![idx(&[1]), idx(&[0, 1]), idx(&[0]), idx(&[1, 0])];
    all.sort();
    let sorted: Vec<Vec<usize>> = all.iter().map(|i| i.as_slice().to_vec()).collect();
    assert_eq!(sorted, vec![vec![0], vec![0, 1], vec![1], vec![1, 0]]);
}
