use nexus_parser::model::tree::Tree;
use nexus_parser::parse_nexus_bytes;
use nexus_parser::parser::parsing_error::ParsingErrorType;

const SINGLE_TREE: &str = "#NEXUS
BEGIN TAXA;
    DIMENSIONS NTAX=10;
    TAXLABELS t1 t2 t3 t4 t5 t6 t7 t8 t9 t10;
END;
BEGIN TREES;
    TREE tree_1 = (((((((((t1:0.1,t2:0.2):0.3,t3:0.4):0.5,t4:0.1):0.2,t5:0.3):0.1,t6:0.2):0.1,t7:0.5):0.2,t8:0.1):0.3,t9:0.2):0.1,t10:0.4);
END;
";

const COMMENTED: &str = "#NEXUS
[ written by hand; comments may hold ; and END; ]
BEGIN TAXA;
    DIMENSIONS NTAX=10; [ ten taxa ]
    TAXLABELS a b c d e f g h i j;
END;
BEGIN ASSUMPTIONS;
    [ END; inside a comment does not end the block ]
    OPTIONS DEFTYPE=unord;
END;
BEGIN TREES;
    [ first tree ]
    TREE one = [&R] ((((a:1,b:2):1,(c:1,d:1):2):1,(e:1,f:1):1):1,((g:1,h:1):1,(i:1,j:1):1):1);
    TREE two = [&R] (((((((((j,i),h),g),f),e),d),c),b),a);
    [ last tree ]
    TREE three = ((a,(b,(c,(d,e)))),((f,g),(h,(i,j))));
END;
";

fn caterpillar(tokens: &[String]) -> String {
    let mut s = format!("({},{})", tokens[0], tokens[1]);
    for (k, t) in tokens.iter().enumerate().skip(2) {
        s = format!("({}:0.{},{}:1.5e-2)", s, k, t);
    }
    s.push(';');
    s
}

fn translated_file() -> String {
    let mut s = String::from("#NEXUS\nBEGIN TREES;\n    TRANSLATE\n");
    for k in 1..=20 {
        s.push_str(&format!("        {} Taxon_{}{}\n", k, k, if k < 20 { "," } else { "" }));
    }
    s.push_str("    ;\n");
    for t in 0..11 {
        let mut tokens: Vec<String> = (1..=20).map(|k| k.to_string()).collect();
        tokens.rotate_left(t);
        s.push_str(&format!("    TREE STATE_{} = [&R] {}\n", t * 1000, caterpillar(&tokens)));
    }
    s.push_str("END;\n");
    s
}

#[test]
fn test_single_tree() {
    let result = parse_nexus_bytes(SINGLE_TREE.as_bytes());
    if let Err(e) = &result {
        println!("Error parsing single tree: {:?}", e);
    }
    assert!(result.is_ok());

    let (trees, leaf_map) = result.unwrap();
    assert_eq!(trees.len(), 1);
    assert_eq!(leaf_map.num_labels(), 10);

    let tree = &trees[0];
    assert_eq!(tree.num_leaves(), 10);
    assert!(tree.is_valid());
}

#[test]
fn test_multiple_trees_with_translate() {
    let contents = translated_file();
    let result = parse_nexus_bytes(contents.as_bytes());
    if let Err(e) = &result {
        println!("Error parsing multiple trees: {:?}", e);
    }
    assert!(result.is_ok());

    let (trees, leaf_map) = result.unwrap();
    assert_eq!(trees.len(), 11);
    assert_eq!(leaf_map.num_labels(), 20);

    for tree in &trees {
        assert_eq!(tree.num_leaves(), 20);
        assert!(tree.is_valid());
    }
}

#[test]
fn test_comments_and_unknown_blocks() {
    let result = parse_nexus_bytes(COMMENTED.as_bytes());
    if let Err(e) = &result {
        println!("Error parsing trees with lots of comments: {:?}", e);
    }
    assert!(result.is_ok());

    let (trees, leaf_map) = result.unwrap();
    assert_eq!(trees.len(), 3);
    assert_eq!(leaf_map.num_labels(), 10);

    for tree in &trees {
        assert_eq!(tree.num_leaves(), 10);
        assert!(tree.is_valid());
    }
}

fn leaf_labels(tree: &Tree) -> Vec<usize> {
    let mut out = Vec::new();
    for i in 0..tree.num_vertices() {
        if let Some(l) = tree.vertex(i).unwrap().label_index() {
            out.push(l);
        }
    }
    out.sort();
    out
}

#[test]
fn taxa_block_seeds_dictionary_in_order() {
    let (trees, map) = parse_nexus_bytes(SINGLE_TREE.as_bytes()).unwrap();
    assert_eq!(map.get_index("t1".as_bytes()), Some(0));
    assert_eq!(map.get_index("t10".as_bytes()), Some(9));
    assert_eq!(leaf_labels(&trees[0]), (0..10).collect::<Vec<usize>>());
}

#[test]
fn translated_trees_share_one_dictionary() {
    let (trees, map) = parse_nexus_bytes(translated_file().as_bytes()).unwrap();
    assert_eq!(map.get_label(0), Some("Taxon_1".as_bytes()));
    for tree in &trees {
        assert_eq!(leaf_labels(tree), (0..20).collect::<Vec<usize>>());
    }
    // the second tree starts with token 2, which names Taxon_2
    let second = &trees[1];
    assert_eq!(second.vertex(0).unwrap().label_index(), map.get_index("Taxon_2".as_bytes()));
}

#[test]
fn every_parsed_tree_has_one_root_and_linked_vertices() {
    let (trees, _) = parse_nexus_bytes(COMMENTED.as_bytes()).unwrap();
    for tree in &trees {
        let mut roots = 0;
        for i in 0..tree.num_vertices() {
            let v = tree.vertex(i).unwrap();
            if v.is_root() {
                roots += 1;
                assert_eq!(tree.root_index(), Some(i));
            } else {
                assert!(v.has_parent());
                assert!(v.parent_index().unwrap() > i);
            }
            if let Some((a, b)) = v.children() {
                assert!(a < i && b < i);
            }
        }
        assert_eq!(roots, 1);
    }
}

#[test]
fn missing_header_is_reported() {
    let e = parse_nexus_bytes("BEGIN TREES; END;".as_bytes()).unwrap_err();
    assert_eq!(*e.kind(), ParsingErrorType::MissingNexusHeader);
    assert_eq!(e.position(), 5);
}

#[test]
fn header_may_follow_comments_and_block_words_ignore_case() {
    let (trees, map) = parse_nexus_bytes("[c] #NEXUS\nbegin trees;\ntree t = (A,B);\nend;".as_bytes()).unwrap();
    assert_eq!(trees.len(), 1);
    assert_eq!(map.num_labels(), 2);
}

#[test]
fn lower_case_header_is_missing_header() {
    let e = parse_nexus_bytes("#nexus\n".as_bytes()).unwrap_err();
    assert_eq!(*e.kind(), ParsingErrorType::MissingNexusHeader);
}

#[test]
fn empty_block_name_is_invalid() {
    let e = parse_nexus_bytes("#NEXUS BEGIN ;".as_bytes()).unwrap_err();
    assert_eq!(*e.kind(), ParsingErrorType::InvalidBlockName);
}

#[test]
fn stray_text_is_invalid_formatting() {
    let e = parse_nexus_bytes("#NEXUS hello".as_bytes()).unwrap_err();
    assert_eq!(*e.kind(), ParsingErrorType::InvalidFormatting);
}

#[test]
fn unclosed_comment_is_reported() {
    let e = parse_nexus_bytes("#NEXUS [ never closed".as_bytes()).unwrap_err();
    assert_eq!(*e.kind(), ParsingErrorType::UnclosedComment);
}

#[test]
fn block_without_end_is_unexpected_eof() {
    let e = parse_nexus_bytes("#NEXUS BEGIN TREES; TREE t = (A,B);".as_bytes()).unwrap_err();
    assert_eq!(*e.kind(), ParsingErrorType::UnexpectedEOF);
}

#[test]
fn taxon_count_mismatch_is_invalid_taxa_block() {
    let e = parse_nexus_bytes("#NEXUS BEGIN TAXA; DIMENSIONS NTAX=3; TAXLABELS A B; END;".as_bytes()).unwrap_err();
    assert!(matches!(e.kind(), ParsingErrorType::InvalidTaxaBlock(_)));
}

#[test]
fn unknown_tree_statement_is_invalid_trees_block() {
    let e = parse_nexus_bytes("#NEXUS BEGIN TREES; FOREST x; END;".as_bytes()).unwrap_err();
    assert!(matches!(e.kind(), ParsingErrorType::InvalidTreesBlock(_)));
}

#[test]
fn bad_tree_in_file_is_invalid_newick() {
    let e = parse_nexus_bytes("#NEXUS BEGIN TREES; TREE t = (A,B,C); END;".as_bytes()).unwrap_err();
    assert!(matches!(e.kind(), ParsingErrorType::InvalidNewickString(_)));
}

#[test]
fn empty_file_after_header_has_no_trees() {
    let (trees, map) = parse_nexus_bytes("#NEXUS\n".as_bytes()).unwrap();
    assert!(trees.is_empty());
    assert_eq!(map.num_labels(), 0);
}

#[test]
fn error_message_names_kind_position_and_context() {
    let e = parse_nexus_bytes("#NEXUS\nBEGIN TREES;\nTREE t = (A,B\n".as_bytes()).unwrap_err();
    assert_eq!(e.position(), 33);
    let m = e.message();
    assert!(m.starts_with("Invalid newick string: Expected ')' after children but found '\n' at position 33"), "{}", m);
    assert!(m.ends_with("Context (next 1 bytes): \n"), "{}", m);
}

#[test]
fn error_message_without_context() {
    let e = parse_nexus_bytes("#NEXUS [ open".as_bytes()).unwrap_err();
    assert_eq!(e.message(), "Unclosed comment at position 13");
}
