use nexus_parser::model::tree::{LeafLabelMap, Tree};
use nexus_parser::model::vertex::{BranchLength, Decimal};
use nexus_parser::parser::numeral::parse_decimal;

#[test]
fn get_or_insert_is_idempotent() {
    let mut map = LeafLabelMap::new(4);
    let a = map.get_or_insert("Scarabaeus".as_bytes());
    assert_eq!(map.num_labels(), 1);
    let again = map.get_or_insert("Scarabaeus".as_bytes());
    assert_eq!(a, again);
    assert_eq!(map.num_labels(), 1);
    let b = map.get_or_insert("Lucanus".as_bytes());
    assert_eq!(b, 1);
    assert_eq!(map.get_or_insert("Scarabaeus".as_bytes()), 0);
    assert_eq!(map.num_labels(), 2);
}

#[test]
fn dictionary_lookups() {
    let mut map = LeafLabelMap::new(0);
    map.get_or_insert("A".as_bytes());
    map.get_or_insert("B".as_bytes());
    assert_eq!(map.get_index("B".as_bytes()), Some(1));
    assert_eq!(map.get_index("C".as_bytes()), None);
    assert_eq!(map.get_label(0), Some("A".as_bytes()));
    assert_eq!(map.get_label(2), None);
}

#[test]
fn tree_built_bottom_up_is_valid() {
    let mut tree = Tree::new(3);
    let a = tree.add_leaf(None, 0);
    let b = tree.add_leaf(Some(BranchLength::new(Decimal::new(false, 1, 0)).unwrap()), 1);
    assert!(!tree.is_valid());
    let ab = tree.add_internal_vertex((a, b), None);
    let c = tree.add_leaf(None, 2);
    tree.add_root((ab, c));
    assert!(tree.is_valid());
    assert_eq!(tree.num_leaves(), 3);
    assert_eq!(tree.num_vertices(), 5);
    assert_eq!(tree.root_index(), Some(4));
    assert_eq!(tree.vertex(a).unwrap().parent_index(), Some(ab));
    assert_eq!(tree.vertex(ab).unwrap().parent_index(), Some(4));
    assert_eq!(tree.vertex(c).unwrap().parent_index(), Some(4));
    assert!(tree.vertex(5).is_none());
}

#[test]
fn numerals_read_as_decimals() {
    assert_eq!(parse_decimal("1.0".as_bytes()), Some(Decimal::new(false, 10, -1)));
    assert_eq!(parse_decimal("1.5e-3".as_bytes()), Some(Decimal::new(false, 15, -4)));
    assert_eq!(parse_decimal("-2E+2".as_bytes()), Some(Decimal::new(true, 2, 2)));
    assert_eq!(parse_decimal(".5".as_bytes()), Some(Decimal::new(false, 5, -1)));
    assert_eq!(parse_decimal("3.".as_bytes()), Some(Decimal::new(false, 3, 0)));
    assert_eq!(parse_decimal("+7".as_bytes()), Some(Decimal::new(false, 7, 0)));
}

#[test]
fn malformed_numerals_are_rejected() {
    for t in ["", ".", "-", "e5", "1e", "1.2.3", "1e5e", "1-2"] {
        assert_eq!(parse_decimal(t.as_bytes()), None, "{}", t);
    }
}

#[test]
fn long_numerals_keep_nineteen_significant_digits() {
    assert_eq!(
        parse_decimal("123456789012345678901".as_bytes()),
        Some(Decimal::new(false, 1234567890123456789, 2))
    );
    assert_eq!(
        parse_decimal("99999999999999999999".as_bytes()),
        Some(Decimal::new(false, 9999999999999999999, 1))
    );
    assert_eq!(
        parse_decimal("0.000123456789012345678901".as_bytes()),
        Some(Decimal::new(false, 1234567890123456789, -22))
    );
}

#[test]
fn branch_lengths_beyond_double_range_are_rejected() {
    assert!(BranchLength::new(Decimal::new(false, 1, 308)).is_some());
    assert!(BranchLength::new(Decimal::new(false, 17976931348623158079, 289)).is_some());
    assert!(BranchLength::new(Decimal::new(false, 17976931348623158080, 289)).is_none());
    assert!(BranchLength::new(Decimal::new(false, 18, 307)).is_none());
    assert!(BranchLength::new(Decimal::new(false, 1, 999)).is_none());
    assert!(BranchLength::new(Decimal::new(false, 0, 999)).is_some());
}
