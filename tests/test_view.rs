use ratatui_tree::TreeIndex;
use ratatui_tree::TreeNode;

fn tree(label: &'static str, children: Vec<TreeNode<&'static str>>) -> TreeNode<&'static str> {
    TreeNode::new(label, children)
}

fn sample() -> TreeNode<&'static str> {
    tree(
        "root",
        vec![
            tree("a", vec![tree("b", vec![]), tree("c", vec![])]),
            tree("x", vec![tree("y", vec![]), tree("z", vec![])]),
        ],
    )
}

fn i(indices: &[usize]) -> TreeIndex {
    TreeIndex::new(indices).unwrap()
}

fn offsets(index: Option<TreeIndex>) -> Option<Vec<usize>> {
    index.map(|index| index.as_slice().to_vec())
}

#[test]
fn test_iter_children() {
    let tree0 = tree("root", vec![]);
    let mut count = 0;
    let mut it = tree0.iter_descendants();
    while it.next().is_some() {
        count += 1;
    }
    assert_eq!(count, 0);

    let tree1 = sample();
    assert_eq!(
        tree1.iter_children().map(|t| t.value).collect::<Vec<_>>(),
        vec!["a", "x"]
    );
}

#[test]
fn test_iter_descendants() {
    let tree0 = tree("root", vec![]);
    assert!(tree0.iter_descendants().next().is_none());

    let tree1 = sample();
    let mut seen = Vec::new();
    let mut it = tree1.iter_descendants();
    while let Some(t) = it.next() {
        seen.push(t.value);
    }
    assert_eq!(seen, vec!["a", "b", "c", "x", "y", "z"]);
}

#[test]
fn test_iter_descendants_with_depth() {
    let tree0 = tree("root", vec![]);
    assert!(tree0.iter_descendants_with_depth().next().is_none());

    let tree1 = sample();
    let mut seen = Vec::new();
    let mut it = tree1.iter_descendants_with_depth();
    while let Some((d, t)) = it.next() {
        seen.push((d, t.value));
    }
    assert_eq!(
        seen,
        vec![(0, "a"), (1, "b"), (1, "c"), (0, "x"), (1, "y"), (1, "z")]
    );
}

#[test]
fn test_iter_descendants_with_index() {
    let tree0 = tree("root", vec![]);
    assert!(tree0.iter_descendants_with_index().next().is_none());

    let tree1 = sample();
    let mut seen = Vec::new();
    let mut it = tree1.iter_descendants_with_index();
    while let Some((d, t)) = it.next() {
        seen.push((d.as_slice().to_vec(), t.value));
    }
    assert_eq!(
        seen,
        vec![
            (vec![0], "a"),
            (vec![0, 0], "b"),
            (vec![0, 1], "c"),
            (vec![1], "x"),
            (vec![1, 0], "y"),
            (vec![1, 1], "z")
        ]
    );
}

#[test]
fn test_get_child() {
    let tree0 = tree("root", vec![]);
    assert!(tree0.get_child(0).is_none());

    let tree1 = sample();
    assert_eq!(tree1.get_child(0).map(|t| t.value), Some("a"));
    assert_eq!(tree1.get_child(1).map(|t| t.value), Some("x"));
    assert_eq!(tree1.get_child(2).map(|t| t.value), None);
}

#[test]
fn test_get_descendant() {
    let tree0 = tree("root", vec![]);
    assert!(tree0.get_descendant(&i(&[0])).is_none());
    assert!(tree0.get_descendant(&i(&[0, 0])).is_none());

    let t = sample();
    assert_eq!(t.get_descendant(&i(&[0])).map(|t| t.value), Some("a"));
    assert_eq!(t.get_descendant(&i(&[0, 0])).map(|t| t.value), Some("b"));
    assert_eq!(t.get_descendant(&i(&[0, 0, 0])).map(|t| t.value), None);
    assert_eq!(t.get_descendant(&i(&[0, 1])).map(|t| t.value), Some("c"));
    assert_eq!(t.get_descendant(&i(&[0, 1, 0])).map(|t| t.value), None);
    assert_eq!(t.get_descendant(&i(&[0, 2])).map(|t| t.value), None);
    assert_eq!(t.get_descendant(&i(&[1])).map(|t| t.value), Some("x"));
    assert_eq!(t.get_descendant(&i(&[1, 0])).map(|t| t.value), Some("y"));
    assert_eq!(t.get_descendant(&i(&[1, 0, 0])).map(|t| t.value), None);
    assert_eq!(t.get_descendant(&i(&[1, 1])).map(|t| t.value), Some("z"));
    assert_eq!(t.get_descendant(&i(&[1, 1, 0])).map(|t| t.value), None);
    assert_eq!(t.get_descendant(&i(&[1, 2])).map(|t| t.value), None);
    assert_eq!(t.get_descendant(&i(&[2])).map(|t| t.value), None);
}

#[test]
fn test_get_descendant_infix() {
    let tree0 = tree("root", vec![]);
    assert!(tree0.get_descendant_infix(0).is_none());

    let t = sample();
    assert_eq!(t.get_descendant_infix(0).map(|t| t.value), Some("a"));
    assert_eq!(t.get_descendant_infix(1).map(|t| t.value), Some("b"));
    assert_eq!(t.get_descendant_infix(2).map(|t| t.value), Some("c"));
    assert_eq!(t.get_descendant_infix(3).map(|t| t.value), Some("x"));
    assert_eq!(t.get_descendant_infix(4).map(|t| t.value), Some("y"));
    assert_eq!(t.get_descendant_infix(5).map(|t| t.value), Some("z"));
    assert_eq!(t.get_descendant_infix(6).map(|t| t.value), None);
}

#[test]
fn test_find_index_of_offset() {
    let tree0 = tree("root", vec![]);
    assert!(tree0.find_index_of_offset(0).is_none());

    let t = sample();
    assert_eq!(offsets(t.find_index_of_offset(0).map(|r| r.0)), Some(vec![0]));
    assert_eq!(offsets(t.find_index_of_offset(1).map(|r| r.0)), Some(vec![0, 0]));
    assert_eq!(offsets(t.find_index_of_offset(2).map(|r| r.0)), Some(vec![0, 1]));
    assert_eq!(offsets(t.find_index_of_offset(3).map(|r| r.0)), Some(vec![1]));
    assert_eq!(offsets(t.find_index_of_offset(4).map(|r| r.0)), Some(vec![1, 0]));
    assert_eq!(offsets(t.find_index_of_offset(5).map(|r| r.0)), Some(vec![1, 1]));
    assert_eq!(offsets(t.find_index_of_offset(6).map(|r| r.0)), None);
}

#[test]
fn test_find_offset_of_index() {
    let tree0 = tree("root", vec![]);
    assert!(tree0.find_offset_of_index(&i(&[0])).is_none());

    let t = sample();
    assert_eq!(t.find_offset_of_index(&i(&[0])).map(|r| r.0), Some(0));
    assert_eq!(t.find_offset_of_index(&i(&[0, 0])).map(|r| r.0), Some(1));
    assert_eq!(t.find_offset_of_index(&i(&[0, 0, 0])).map(|r| r.0), None);
    assert_eq!(t.find_offset_of_index(&i(&[0, 1])).map(|r| r.0), Some(2));
    assert_eq!(t.find_offset_of_index(&i(&[0, 1, 0])).map(|r| r.0), None);
    assert_eq!(t.find_offset_of_index(&i(&[0, 2])).map(|r| r.0), None);
    assert_eq!(t.find_offset_of_index(&i(&[1])).map(|r| r.0), Some(3));
    assert_eq!(t.find_offset_of_index(&i(&[1, 0])).map(|r| r.0), Some(4));
    assert_eq!(t.find_offset_of_index(&i(&[1, 0, 0])).map(|r| r.0), None);
    assert_eq!(t.find_offset_of_index(&i(&[1, 1])).map(|r| r.0), Some(5));
    assert_eq!(t.find_offset_of_index(&i(&[1, 1, 0])).map(|r| r.0), None);
    assert_eq!(t.find_offset_of_index(&i(&[1, 2])).map(|r| r.0), None);
    assert_eq!(t.find_offset_of_index(&i(&[2])).map(|r| r.0), None);
}

#[test]
fn test_find_nearest_to() {
    let tree0 = tree("root", vec![]);
    assert!(tree0.find_nearest_to(&i(&[0])).is_none());

    let t = sample();
    assert_eq!(offsets(t.find_nearest_to(&i(&[0])).map(|r| r.0)), Some(vec![0]));
    assert_eq!(offsets(t.find_nearest_to(&i(&[0, 0])).map(|r| r.0)), Some(vec![0, 0]));
    assert_eq!(offsets(t.find_nearest_to(&i(&[0, 0, 0])).map(|r| r.0)), Some(vec![0, 0]));
    assert_eq!(offsets(t.find_nearest_to(&i(&[0, 1])).map(|r| r.0)), Some(vec![0, 1]));
    assert_eq!(offsets(t.find_nearest_to(&i(&[0, 1, 0])).map(|r| r.0)), Some(vec![0, 1]));
    assert_eq!(offsets(t.find_nearest_to(&i(&[0, 2])).map(|r| r.0)), Some(vec![0, 1]));
    assert_eq!(offsets(t.find_nearest_to(&i(&[1])).map(|r| r.0)), Some(vec![1]));
    assert_eq!(offsets(t.find_nearest_to(&i(&[1, 0])).map(|r| r.0)), Some(vec![1, 0]));
    assert_eq!(offsets(t.find_nearest_to(&i(&[1, 0, 0])).map(|r| r.0)), Some(vec![1, 0]));
    assert_eq!(offsets(t.find_nearest_to(&i(&[1, 1])).map(|r| r.0)), Some(vec![1, 1]));
    assert_eq!(offsets(t.find_nearest_to(&i(&[1, 1, 0])).map(|r| r.0)), Some(vec![1, 1]));
    assert_eq!(offsets(t.find_nearest_to(&i(&[1, 2])).map(|r| r.0)), Some(vec![1, 1]));
    assert_eq!(offsets(t.find_nearest_to(&i(&[2])).map(|r| r.0)), Some(vec![1]));
}

#[test]
fn find_next_relative_of() {
    let tree0 = tree("root", vec![]);
    assert!(tree0.find_next_relative_of(&i(&[0])).is_none());

    let t = sample();
    assert_eq!(offsets(t.find_next_relative_of(&i(&[0])).map(|r| r.0)), Some(vec![0, 0]));
    assert_eq!(offsets(t.find_next_relative_of(&i(&[0, 0])).map(|r| r.0)), Some(vec![0, 1]));
    assert_eq!(offsets(t.find_next_relative_of(&i(&[0, 0, 0])).map(|r| r.0)), None);
    assert_eq!(offsets(t.find_next_relative_of(&i(&[0, 1])).map(|r| r.0)), Some(vec![1]));
    assert_eq!(offsets(t.find_next_relative_of(&i(&[0, 1, 0])).map(|r| r.0)), None);
    assert_eq!(offsets(t.find_next_relative_of(&i(&[0, 2])).map(|r| r.0)), None);
    assert_eq!(offsets(t.find_next_relative_of(&i(&[1])).map(|r| r.0)), Some(vec![1, 0]));
    assert_eq!(offsets(t.find_next_relative_of(&i(&[1, 0])).map(|r| r.0)), Some(vec![1, 1]));
    assert_eq!(offsets(t.find_next_relative_of(&i(&[1, 0, 0])).map(|r| r.0)), None);
    assert_eq!(offsets(t.find_next_relative_of(&i(&[1, 1])).map(|r| r.0)), None);
    assert_eq!(offsets(t.find_next_relative_of(&i(&[1, 1, 0])).map(|r| r.0)), None);
    assert_eq!(offsets(t.find_next_relative_of(&i(&[1, 2])).map(|r| r.0)), None);
    assert_eq!(offsets(t.find_next_relative_of(&i(&[2])).map(|r| r.0)), None);
}

#[test]
fn find_previous_relative_of() {
    let tree0 = tree("root", vec![]);
    assert!(tree0.find_previous_relative_of(&i(&[0])).is_none());

    let t = sample();
    assert_eq!(offsets(t.find_previous_relative_of(&i(&[0])).map(|r| r.0)), None);
    assert_eq!(offsets(t.find_previous_relative_of(&i(&[0, 0])).map(|r| r.0)), Some(vec![0]));
    assert_eq!(offsets(t.find_previous_relative_of(&i(&[0, 0, 0])).map(|r| r.0)), None);
    assert_eq!(offsets(t.find_previous_relative_of(&i(&[0, 1])).map(|r| r.0)), Some(vec![0, 0]));
    assert_eq!(offsets(t.find_previous_relative_of(&i(&[0, 1, 0])).map(|r| r.0)), None);
    assert_eq!(offsets(t.find_previous_relative_of(&i(&[0, 2])).map(|r| r.0)), None);
    assert_eq!(offsets(t.find_previous_relative_of(&i(&[1])).map(|r| r.0)), Some(vec![0, 1]));
    assert_eq!(offsets(t.find_previous_relative_of(&i(&[1, 0])).map(|r| r.0)), Some(vec![1]));
    assert_eq!(offsets(t.find_previous_relative_of(&i(&[1, 0, 0])).map(|r| r.0)), None);
    assert_eq!(offsets(t.find_previous_relative_of(&i(&[1, 1])).map(|r| r.0)), Some(vec![1, 0]));
    assert_eq!(offsets(t.find_previous_relative_of(&i(&[1, 1, 0])).map(|r| r.0)), None);
    assert_eq!(offsets(t.find_previous_relative_of(&i(&[1, 2])).map(|r| r.0)), None);
    assert_eq!(offsets(t.find_previous_relative_of(&i(&[2])).map(|r| r.0)), None);
}
