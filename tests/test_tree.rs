use ratatui_tree::compare_indices;
use std::cmp::Ordering;
use ratatui_tree::TreeIndex;
use ratatui_tree::TreeNode;

fn node(label: &'static str, children: Vec<TreeNode<&'static str>>) -> TreeNode<&'static str> {
    TreeNode::new(label, children)
}

fn example() -> TreeNode<&'static str> {
    node(
        "root",
        vec![
            node("a", vec![node("b", vec![]), node("c", vec![])]),
            node("x", vec![node("y", vec![]), node("z", vec![])]),
        ],
    )
}

fn deep() -> TreeNode<&'static str> {
    node(
        "root",
        vec![
            node("a", vec![node("b", vec![node("c", vec![]), node("d", vec![node("e", vec![])])])]),
            node("f", vec![]),
            node("g", vec![node("h", vec![])]),
        ],
    )
}

fn at(indices: &[usize]) -> TreeIndex {
    TreeIndex::new(indices).unwrap()
}

fn path(index: Option<TreeIndex>) -> Option<Vec<usize>> {
    index.map(|index| index.as_slice().to_vec())
}

fn all_addresses(tree: &TreeNode<&'static str>) -> Vec<Vec<usize>> {
    let mut out = Vec::new();
    let mut it = tree.iter_descendants_with_index();
    while let Some((index, _)) = it.next() {
        out.push(index.as_slice().to_vec());
    }
    out
}

#[test]
fn example_tree_addresses_in_pre_order() {
    let t = example();
    assert_eq!(
        all_addresses(&t),
        vec![vec![0], vec![0, 0], vec![0, 1], vec![1], vec![1, 0], vec![1, 1]]
    );
    for (offset, address) in all_addresses(&t).iter().enumerate() {
        assert_eq!(t.find_offset_of_index(&at(address)).map(|r| r.0), Some(offset));
    }
    assert_eq!(path(t.find_next_relative_of(&at(&[0])).map(|r| r.0)), Some(vec![0, 0]));
    assert_eq!(path(t.find_next_relative_of(&at(&[0, 1])).map(|r| r.0)), Some(vec![1]));
    assert_eq!(path(t.find_previous_relative_of(&at(&[1])).map(|r| r.0)), Some(vec![0, 1]));
    assert_eq!(path(t.find_nearest_to(&at(&[0, 5])).map(|r| r.0)), Some(vec![0, 1]));
}

#[test]
fn offset_round_trip_on_every_address() {
    for t in [example(), deep()] {
        for address in all_addresses(&t) {
            let offset = t.find_offset_of_index(&at(&address)).unwrap().0;
            assert_eq!(path(t.find_index_of_offset(offset).map(|r| r.0)), Some(address));
        }
    }
}

#[test]
fn offsets_increase_with_address_order() {
    let t = deep();
    let addresses = all_addresses(&t);
    for a in &addresses {
        for b in &addresses {
            if compare_indices(a, b) == Ordering::Less {
                let oa = t.find_offset_of_index(&at(a)).unwrap().0;
                let ob = t.find_offset_of_index(&at(b)).unwrap().0;
                assert!(oa < ob);
            }
        }
    }
}

#[test]
fn nearest_keeps_valid_and_repairs_stale() {
    let t = deep();
    for address in all_addresses(&t) {
        assert_eq!(path(t.find_nearest_to(&at(&address)).map(|r| r.0)), Some(address));
    }
    assert_eq!(path(t.find_nearest_to(&at(&[9, 9, 9])).map(|r| r.0)), Some(vec![2, 0]));
    assert_eq!(path(t.find_nearest_to(&at(&[0, 4, 1, 3])).map(|r| r.0)), Some(vec![0, 0, 1, 0]));
    assert_eq!(path(t.find_nearest_to(&at(&[1, 2, 3])).map(|r| r.0)), Some(vec![1]));
}

#[test]
fn previous_undoes_next_everywhere() {
    let t = deep();
    for address in all_addresses(&t) {
        if let Some((next, _)) = t.find_next_relative_of(&at(&address)) {
            assert_eq!(path(t.find_previous_relative_of(&next).map(|r| r.0)), Some(address));
        }
    }
    assert!(t.find_next_relative_of(&at(&[2, 0])).is_none());
    assert!(t.find_previous_relative_of(&at(&[0])).is_none());
}

#[test]
fn next_relative_walks_the_whole_tree() {
    let t = deep();
    let mut walked = vec![vec![0]];
    let mut current = at(&[0]);
    while let Some((next, _)) = t.find_next_relative_of(&current) {
        walked.push(next.as_slice().to_vec());
        current = next;
    }
    assert_eq!(walked, all_addresses(&t));
}

#[test]
fn next_relative_climbs_to_the_deepest_sibling() {
    let t = deep();
    assert_eq!(path(t.find_next_relative_of(&at(&[0, 0, 0])).map(|r| r.0)), Some(vec![0, 0, 1]));
    assert_eq!(path(t.find_next_relative_of(&at(&[0, 0, 1, 0])).map(|r| r.0)), Some(vec![1]));
    assert_eq!(path(t.find_previous_relative_of(&at(&[1])).map(|r| r.0)), Some(vec![0, 0, 1, 0]));
}

#[test]
fn siblings() {
    let t = example();
    assert_eq!(path(t.find_next_sibling_of(&at(&[0])).map(|r| r.0)), Some(vec![1]));
    assert!(t.find_next_sibling_of(&at(&[1])).is_none());
    assert_eq!(path(t.find_next_sibling_of(&at(&[1, 0])).map(|r| r.0)), Some(vec![1, 1]));
    assert!(t.find_next_sibling_of(&at(&[2, 0])).is_none());
    assert_eq!(path(t.find_previous_sibling_of(&at(&[1])).map(|r| r.0)), Some(vec![0]));
    assert!(t.find_previous_sibling_of(&at(&[0])).is_none());
    assert_eq!(path(t.find_previous_sibling_of(&at(&[0, 1])).map(|r| r.0)), Some(vec![0, 0]));
    assert_eq!(t.find_previous_sibling_of(&at(&[0, 1])).map(|r| r.1.value), Some("b"));
}

#[test]
fn child_accessors() {
    let t = example();
    assert_eq!(t.len_children(), 2);
    assert!(!t.is_empty());
    assert_eq!(t.first_child().map(|c| c.value), Some("a"));
    assert_eq!(t.last_child().map(|c| c.value), Some("x"));
    assert_eq!(t.find_first_child().map(|r| (r.0, r.1.value)), Some((0, "a")));
    assert_eq!(t.find_last_child().map(|r| (r.0, r.1.value)), Some((1, "x")));
    assert_eq!(t.find_previous_child_to(1).map(|r| r.0), Some(0));
    assert!(t.find_previous_child_to(0).is_none());
    assert_eq!(t.find_next_child_to(0).map(|r| r.0), Some(1));
    assert!(t.find_next_child_to(1).is_none());
    assert!(t.find_next_child_to(usize::MAX).is_none());
    let empty = node("root", vec![]);
    assert!(empty.is_empty());
    assert!(empty.first_child().is_none());
    assert!(empty.last_child().is_none());
    assert!(empty.find_last_child().is_none());
    assert!(empty.find_first_descendant().is_none());
}

#[test]
fn last_descendants() {
    let t = deep();
    assert_eq!(path(t.find_last_descendant().map(|r| r.0)), Some(vec![2, 0]));
    assert_eq!(path(t.find_last_descendant_in(at(&[0])).map(|r| r.0)), Some(vec![0, 0, 1, 0]));
    assert_eq!(t.find_last_descendant_in(at(&[0])).map(|r| r.1.value), Some("e"));
    assert_eq!(path(t.find_last_descendant_in(at(&[1])).map(|r| r.0)), Some(vec![1]));
    assert!(t.find_last_descendant_in(at(&[3])).is_none());
    assert!(node("root", vec![]).find_last_descendant().is_none());
    assert_eq!(path(t.find_first_descendant().map(|r| r.0)), Some(vec![0]));
}

#[test]
fn parents() {
    let t = deep();
    assert_eq!(path(t.find_parent_of(at(&[0, 0, 1])).map(|r| r.0)), Some(vec![0, 0]));
    assert_eq!(t.find_parent_of(at(&[0, 0, 1])).map(|r| r.1.value), Some("b"));
    assert!(t.find_parent_of(at(&[0])).is_none());
    assert!(t.find_parent_of(at(&[5, 0])).is_none());
}

#[test]
fn descendant_counts() {
    assert_eq!(example().len_descendants(), 6);
    assert_eq!(deep().len_descendants(), 8);
    assert_eq!(node("root", vec![]).len_descendants(), 0);
}

#[test]
fn compare_is_lexicographic() {
    assert_eq!(compare_indices(&[0], &[0, 0]), Ordering::Less);
    assert_eq!(compare_indices(&[0, 5], &[1]), Ordering::Less);
    assert_eq!(compare_indices(&[1, 0], &[1, 0]), Ordering::Equal);
    assert_eq!(compare_indices(&[2], &[1, 9]), Ordering::Greater);
}
