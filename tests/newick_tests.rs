use nexus_parser::model::tree::LeafLabelMap;
use nexus_parser::model::vertex::Decimal;
use nexus_parser::parser::byte_parser::ByteParser;
use nexus_parser::parser::newick::{parse_branch_length, parse_newick, parse_newick_with_resolver, LabelResolver};
use nexus_parser::parser::parsing_error::ParsingErrorType;

#[test]
fn two_leaf_tree_with_direct_labels() {
    let mut parser = ByteParser::from_bytes("(A:1.0,B:2.0);".as_bytes());
    let (tree, map) = parse_newick(&mut parser, 2).unwrap();
    assert_eq!(tree.num_leaves(), 2);
    assert!(tree.is_valid());
    let root = tree.vertex(tree.root_index().unwrap()).unwrap();
    let (left, right) = root.children().unwrap();
    let l = tree.vertex(left).unwrap();
    let r = tree.vertex(right).unwrap();
    assert_eq!(l.branch_length().unwrap().value(), Decimal::new(false, 10, -1));
    assert_eq!(r.branch_length().unwrap().value(), Decimal::new(false, 20, -1));
    assert_eq!(map.num_labels(), 2);
    assert_eq!(map.get_index("A".as_bytes()), Some(0));
    assert_eq!(map.get_index("B".as_bytes()), Some(1));
    assert_eq!(l.label_index(), Some(0));
    assert_eq!(r.label_index(), Some(1));
}

#[test]
fn unterminated_description_fails() {
    let mut parser = ByteParser::from_bytes("(A,B".as_bytes());
    let e = parse_newick(&mut parser, 2).unwrap_err();
    assert!(matches!(e.kind(), ParsingErrorType::InvalidNewickString(_) | ParsingErrorType::UnexpectedEOF));
}

#[test]
fn missing_translation_token_is_named() {
    let translation = vec![("1".as_bytes().to_vec(), "Scarabaeus".as_bytes().to_vec())];
    let resolver = LabelResolver::new_key_to_label_to_index(translation);
    let mut map = LeafLabelMap::new(0);
    let mut parser = ByteParser::from_bytes("(1,beetle);".as_bytes());
    let e = parse_newick_with_resolver(&mut parser, 2, &resolver, &mut map).unwrap_err();
    match e.kind() {
        ParsingErrorType::InvalidNewickString(msg) => assert!(msg.contains("'beetle'"), "{}", msg),
        other => panic!("unexpected kind {:?}", other),
    }
}

#[test]
fn translation_then_precomputed_indices() {
    let translation = vec![
        ("1".as_bytes().to_vec(), "Scarabaeus".as_bytes().to_vec()),
        ("2".as_bytes().to_vec(), "Lucanus".as_bytes().to_vec()),
        ("3".as_bytes().to_vec(), "Dynastes".as_bytes().to_vec()),
    ];
    let first = LabelResolver::new_key_to_label_to_index(translation.clone());
    let mut map = LeafLabelMap::new(3);
    let mut parser = ByteParser::from_bytes("((3,1),2);((1,2),3);".as_bytes());
    let t1 = parse_newick_with_resolver(&mut parser, 3, &first, &mut map).unwrap();
    assert_eq!(map.get_index("Dynastes".as_bytes()), Some(0));
    assert_eq!(map.get_index("Scarabaeus".as_bytes()), Some(1));
    assert_eq!(map.get_index("Lucanus".as_bytes()), Some(2));
    let later = LabelResolver::new_key_to_index(&translation, &map, &parser).unwrap();
    let t2 = parse_newick_with_resolver(&mut parser, 3, &later, &mut map).unwrap();
    assert_eq!(map.num_labels(), 3);
    assert!(t1.is_valid() && t2.is_valid());
    assert_eq!(t2.vertex(0).unwrap().label_index(), Some(1));
    assert_eq!(t2.vertex(1).unwrap().label_index(), Some(2));
    assert_eq!(t2.vertex(3).unwrap().label_index(), Some(0));
    assert!(parser.is_eof());
}

#[test]
fn precomputing_needs_every_translated_name() {
    let translation = vec![("1".as_bytes().to_vec(), "Scarabaeus".as_bytes().to_vec())];
    let map = LeafLabelMap::new(0);
    let parser = ByteParser::from_bytes("".as_bytes());
    let e = LabelResolver::new_key_to_index(&translation, &map, &parser).unwrap_err();
    assert!(matches!(e.kind(), ParsingErrorType::InvalidNewickString(_)));
}

#[test]
fn resolver_kinds_resolve_labels() {
    let mut map = LeafLabelMap::new(0);
    let parser = ByteParser::from_bytes("".as_bytes());
    let direct = LabelResolver::new_label_to_index();
    assert_eq!(direct.resolve_label(&mut map, "X".as_bytes(), &parser).unwrap(), 0);
    assert_eq!(direct.resolve_label(&mut map, "X".as_bytes(), &parser).unwrap(), 0);
    let translate = LabelResolver::new_key_to_label_to_index(vec![("k".as_bytes().to_vec(), "Y".as_bytes().to_vec())]);
    assert_eq!(translate.resolve_label(&mut map, "k".as_bytes(), &parser).unwrap(), 1);
    assert!(translate.resolve_label(&mut map, "Y".as_bytes(), &parser).is_err());
    assert_eq!(map.num_labels(), 2);
}

#[test]
fn negative_branch_length_is_rejected() {
    let mut parser = ByteParser::from_bytes("(A:-1.0,B:2.0);".as_bytes());
    let e = parse_newick(&mut parser, 2).unwrap_err();
    assert!(matches!(e.kind(), ParsingErrorType::InvalidNewickString(_)));
}

#[test]
fn malformed_branch_length_is_rejected() {
    let mut parser = ByteParser::from_bytes("(A:1.2.3,B);".as_bytes());
    let e = parse_newick(&mut parser, 2).unwrap_err();
    assert!(matches!(e.kind(), ParsingErrorType::InvalidNewickString(_)));
    assert_eq!(e.position(), 8);
    assert_eq!(e.context(), ",B);");
}

#[test]
fn branch_length_parser_reads_only_after_colon() {
    let mut parser = ByteParser::from_bytes("0.5".as_bytes());
    assert!(parse_branch_length(&mut parser).unwrap().is_none());
    assert_eq!(parser.position(), 0);
    let mut parser = ByteParser::from_bytes(":2.5e1,".as_bytes());
    let b = parse_branch_length(&mut parser).unwrap().unwrap();
    assert_eq!(b.value(), Decimal::new(false, 25, 0));
    assert_eq!(parser.position(), 6);
}

#[test]
fn root_branch_length_and_blanks_are_accepted() {
    let mut parser = ByteParser::from_bytes("  [&R] ((A,B):0.1,C):0.0 ;".as_bytes());
    let (tree, map) = parse_newick(&mut parser, 3).unwrap();
    assert!(tree.is_valid());
    assert_eq!(tree.num_vertices(), 5);
    assert_eq!(map.num_labels(), 3);
    assert!(tree.vertex(4).unwrap().branch_length().is_none());
}

#[test]
fn polytomy_and_empty_label_are_rejected() {
    let mut parser = ByteParser::from_bytes("(A,B,C);".as_bytes());
    assert!(parse_newick(&mut parser, 3).is_err());
    let mut parser = ByteParser::from_bytes("(A,);".as_bytes());
    assert!(parse_newick(&mut parser, 2).is_err());
}

#[test]
fn error_context_is_bounded() {
    let text = format!("(A;{}", "x".repeat(80));
    let mut parser = ByteParser::from_bytes(text.as_bytes());
    let e = parse_newick(&mut parser, 2).unwrap_err();
    assert_eq!(e.position(), 2);
    assert_eq!(e.context().len(), 50);
    assert!(e.context().starts_with(";xxx"));
}

#[test]
fn infinite_branch_length_is_rejected() {
    let mut parser = ByteParser::from_bytes("(A:1e999,B);".as_bytes());
    let e = parse_newick(&mut parser, 2).unwrap_err();
    assert!(matches!(e.kind(), ParsingErrorType::InvalidNewickString(_)));
}

#[test]
fn long_branch_length_is_accepted() {
    let mut parser = ByteParser::from_bytes(":123456789012345678901,".as_bytes());
    let b = parse_branch_length(&mut parser).unwrap().unwrap();
    assert_eq!(b.value(), Decimal::new(false, 1234567890123456789, 2));
    assert_eq!(parser.position(), 22);
}

#[test]
fn precomputed_map_miss_names_token_and_keeps_dictionary() {
    let translation = vec![("1".as_bytes().to_vec(), "Scarabaeus".as_bytes().to_vec())];
    let mut map = LeafLabelMap::new(1);
    map.get_or_insert("Scarabaeus".as_bytes());
    let probe = ByteParser::from_bytes("".as_bytes());
    let later = LabelResolver::new_key_to_index(&translation, &map, &probe).unwrap();
    let mut parser = ByteParser::from_bytes("(1,2);".as_bytes());
    let e = parse_newick_with_resolver(&mut parser, 2, &later, &mut map).unwrap_err();
    match e.kind() {
        ParsingErrorType::InvalidNewickString(msg) => {
            assert_eq!(msg, "Label '2' not found in index map");
        },
        other => panic!("unexpected kind {:?}", other),
    }
    assert_eq!(map.num_labels(), 1);
}

#[test]
fn unclosed_comment_before_terminator() {
    let mut parser = ByteParser::from_bytes("(A,B) [ open".as_bytes());
    let e = parse_newick(&mut parser, 2).unwrap_err();
    assert_eq!(*e.kind(), ParsingErrorType::UnclosedComment);
}

#[test]
fn parsed_tree_has_twice_its_leaves_less_one_vertices() {
    let mut parser = ByteParser::from_bytes("(((A,B),C),(D,E));".as_bytes());
    let (tree, _) = parse_newick(&mut parser, 5).unwrap();
    assert_eq!(tree.num_leaves(), 5);
    assert_eq!(tree.num_vertices(), 9);
}
