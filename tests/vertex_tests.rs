use nexus_parser::model::vertex::{BranchLength, Decimal, Vertex};

fn length(mantissa: u64, exponent: i64) -> BranchLength {
    BranchLength::new(Decimal::new(false, mantissa, exponent)).unwrap()
}

#[test]
fn test_branch_lengths() {
    let test_length = Decimal::new(false, 1234, -3);
    let vertex = Vertex::new_internal(5, (1, 2), Some(BranchLength::new(test_length).unwrap()));
    assert_eq!(vertex.branch_length().unwrap().value(), test_length);
}

#[test]
fn test_is_x() {
    let leaf = Vertex::new_leaf(0, Some(length(5, -1)), 10);
    assert!(leaf.is_leaf());

    let vertex = Vertex::new_internal(0, (1, 2), Some(length(5, -1)));
    assert!(vertex.is_internal());

    let root = Vertex::new_root(2, (42, 42));
    assert!(root.is_root());
}

#[test]
fn test_internal_vertex_has_no_label() {
    let vertex = Vertex::new_internal(0, (1, 2), Some(length(5, -1)));
    assert_eq!(vertex.label_index(), None);
}

#[test]
fn test_parent_unset() {
    let vertex = Vertex::new_internal(0, (1, 2), Some(length(5, -1)));
    assert_eq!(vertex.parent_index(), None);
    assert!(!vertex.has_parent());

    let leaf = Vertex::new_leaf(0, Some(length(5, -1)), 0);
    assert_eq!(leaf.parent_index(), None);
    assert!(!leaf.has_parent());

    let root = Vertex::new_root(2, (42, 42));
    assert_eq!(root.parent_index(), None);
}

#[test]
fn test_leaf_has_no_children() {
    let vertex = Vertex::new_leaf(0, Some(length(5, -1)), 42);
    assert_eq!(vertex.children(), None);
}

#[test]
fn branch_length_keeps_non_negative_values() {
    for d in [
        Decimal::new(false, 0, 0),
        Decimal::new(false, 1234, -3),
        Decimal::new(false, u64::MAX, 280),
        Decimal::new(true, 0, 0),
    ] {
        let b = BranchLength::new(d).expect("non-negative value accepted");
        assert_eq!(b.value(), d);
    }
}

#[test]
fn branch_length_rejects_negative_values() {
    assert!(BranchLength::new(Decimal::new(true, 1, 0)).is_none());
    assert!(BranchLength::new(Decimal::new(true, 15, -1)).is_none());
}

#[test]
fn set_parent_links_only_the_parent() {
    let mut leaf = Vertex::new_leaf(3, Some(length(25, -2)), 7);
    leaf.set_parent(9);
    assert_eq!(leaf.parent_index(), Some(9));
    assert!(leaf.has_parent());
    assert_eq!(leaf.index(), 3);
    assert_eq!(leaf.label_index(), Some(7));
    assert_eq!(leaf.branch_length().unwrap().value(), Decimal::new(false, 25, -2));
}

#[test]
fn root_has_children_and_no_branch_length() {
    let root = Vertex::new_root(4, (1, 3));
    assert_eq!(root.children(), Some((1, 3)));
    assert!(root.branch_length().is_none());
    assert!(!root.has_parent());
    assert_eq!(root.label_index(), None);
}
