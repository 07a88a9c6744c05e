//! Parsing of phylogenetic tree collection files into a forest of binary
//! trees that share one taxon-label dictionary.
pub mod model;
pub mod parser;

use crate::model::tree::{LeafLabelMap, Tree};
use crate::parser::byte_parser::{skip_from, ByteParser};
use crate::parser::nexus::{has_header, nexus_result, parse_nexus, trees_match};
use crate::parser::parsing_error::{ParsingError, ParsingErrorType};
use vstd::prelude::*;

verus! {

/// Parses the whole contents of a tree collection file. It succeeds exactly
/// when the contents follow the file grammar [`nexus_result`]; then the
/// dictionary is the one that the grammar builds, and there is one finished
/// tree per tree statement, in file order, whose leaves carry what that
/// statement's resolver made of its labels. Contents that do not open with
/// the exact `#NEXUS` header fail with a missing-header error.
pub fn parse_nexus_bytes(contents: &[u8]) -> (r: Result<(Vec<Tree>, LeafLabelMap), ParsingError>)
    ensures
        r is Ok <==> nexus_result(contents@, 0) is Some,
        r is Ok ==> {
            &&& r->Ok_0.1.wf()
            &&& r->Ok_0.1.spec_labels() == nexus_result(contents@, 0).unwrap().0
            &&& trees_match(r->Ok_0.0@, nexus_result(contents@, 0).unwrap().1, r->Ok_0.1.spec_labels())
        },
        skip_from(contents@, 0, false) is None ==> r is Err && r->Err_0.spec_kind()
            == ParsingErrorType::UnclosedComment,
        skip_from(contents@, 0, false) is Some && !has_header(contents@, 0) ==> r is Err
            && r->Err_0.spec_kind() == ParsingErrorType::MissingNexusHeader,
{
    let mut parser = ByteParser::from_bytes(contents);
    parse_nexus(&mut parser)
}

} // verus!
