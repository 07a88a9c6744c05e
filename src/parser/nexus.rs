//! The block-structured tree collection file: a `#NEXUS` header, then
//! `BEGIN <name>; ... END;` blocks. A TAXA block seeds the label dictionary;
//! a TREES block holds an optional translation table and the tree
//! statements; other blocks are skipped.
use crate::model::tree::{after_get_or_insert, leaf_labels, LeafLabelMap, Tree};
use crate::parser::byte_parser::{label_end, lemma_label_end_bounds, same_bytes, skip_from, ByteParser};
use crate::parser::newick::{
    dictionary_after, extends, index_entries, kept, lemma_names_match_extends, names_match, newick_end, newick_tokens,
    newick_shape, parse_newick_with_resolver, shaped, translation_view, LabelResolver, ResolverView, VertexShape, COMMA,
    SEMICOLON,
};
use crate::parser::numeral::{accumulate_digits, digit_run_end, digits_value, is_digit};
use crate::parser::parsing_error::{ParsingError, ParsingErrorType};
use vstd::prelude::*;
use vstd::string::*;

verus! {

/// `=`
pub const EQUALS: u8 = 61;

/// The bytes that end a word of the file's block structure: blanks, `;`,
/// `[`, `=` and `,`.
pub open spec fn word_delimiters() -> Seq<u8> {
    seq![32u8, 9u8, 10u8, 13u8, 59u8, 91u8, 61u8, 44u8]
}

fn word_delimiter_bytes() -> (r: Vec<u8>)
    ensures
        r@ == word_delimiters(),
{
    vec![32u8, 9u8, 10u8, 13u8, 59u8, 91u8, 61u8, 44u8]
}

/// `b` in upper case, for ASCII letters.
pub open spec fn ascii_upper(b: u8) -> u8 {
    if 97 <= b <= 122 {
        (b - 32) as u8
    } else {
        b
    }
}

/// Whether `word` spells the upper-case keyword `kw`, ignoring ASCII case.
pub open spec fn is_keyword(word: Seq<u8>, kw: Seq<u8>) -> bool {
    &&& word.len() == kw.len()
    &&& forall|i: int| 0 <= i < word.len() ==> ascii_upper(#[trigger] word[i]) == kw[i]
}

/// The file header, `#NEXUS`.
pub open spec fn header_keyword() -> Seq<u8> {
    seq![35u8, 78u8, 69u8, 88u8, 85u8, 83u8]
}

/// Whether the input, from offset `i` on, starts with the file header: after
/// blanks and comments, the word `#NEXUS`, letter for letter.
pub open spec fn has_header(s: Seq<u8>, i: int) -> bool {
    match skip_from(s, i, false) {
        Some(p) => s.subrange(p, label_end(s, p, word_delimiters())) == header_keyword(),
        None => false,
    }
}

fn kw_header() -> (r: Vec<u8>)
    ensures
        r@ == header_keyword(),
{
    vec![35u8, 78u8, 69u8, 88u8, 85u8, 83u8]
}

/// The keyword `BEGIN`.
pub open spec fn begin_keyword() -> Seq<u8> {
    seq![66u8, 69u8, 71u8, 73u8, 78u8]
}

fn kw_begin() -> (r: Vec<u8>)
    ensures
        r@ == begin_keyword(),
{
    vec![66u8, 69u8, 71u8, 73u8, 78u8]
}

/// The keyword `END`.
pub open spec fn end_keyword() -> Seq<u8> {
    seq![69u8, 78u8, 68u8]
}

fn kw_end() -> (r: Vec<u8>)
    ensures
        r@ == end_keyword(),
{
    vec![69u8, 78u8, 68u8]
}

/// The keyword `ENDBLOCK`.
pub open spec fn endblock_keyword() -> Seq<u8> {
    seq![69u8, 78u8, 68u8, 66u8, 76u8, 79u8, 67u8, 75u8]
}

fn kw_endblock() -> (r: Vec<u8>)
    ensures
        r@ == endblock_keyword(),
{
    vec![69u8, 78u8, 68u8, 66u8, 76u8, 79u8, 67u8, 75u8]
}

/// The keyword `TAXA`.
pub open spec fn taxa_keyword() -> Seq<u8> {
    seq![84u8, 65u8, 88u8, 65u8]
}

fn kw_taxa() -> (r: Vec<u8>)
    ensures
        r@ == taxa_keyword(),
{
    vec![84u8, 65u8, 88u8, 65u8]
}

/// The keyword `TREES`.
pub open spec fn trees_keyword() -> Seq<u8> {
    seq![84u8, 82u8, 69u8, 69u8, 83u8]
}

fn kw_trees() -> (r: Vec<u8>)
    ensures
        r@ == trees_keyword(),
{
    vec![84u8, 82u8, 69u8, 69u8, 83u8]
}

/// The keyword `TREE`.
pub open spec fn tree_keyword() -> Seq<u8> {
    seq![84u8, 82u8, 69u8, 69u8]
}

fn kw_tree() -> (r: Vec<u8>)
    ensures
        r@ == tree_keyword(),
{
    vec![84u8, 82u8, 69u8, 69u8]
}

/// The keyword `TRANSLATE`.
pub open spec fn translate_keyword() -> Seq<u8> {
    seq![84u8, 82u8, 65u8, 78u8, 83u8, 76u8, 65u8, 84u8, 69u8]
}

fn kw_translate() -> (r: Vec<u8>)
    ensures
        r@ == translate_keyword(),
{
    vec![84u8, 82u8, 65u8, 78u8, 83u8, 76u8, 65u8, 84u8, 69u8]
}

/// The keyword `DIMENSIONS`.
pub open spec fn dimensions_keyword() -> Seq<u8> {
    seq![68u8, 73u8, 77u8, 69u8, 78u8, 83u8, 73u8, 79u8, 78u8, 83u8]
}

fn kw_dimensions() -> (r: Vec<u8>)
    ensures
        r@ == dimensions_keyword(),
{
    vec![68u8, 73u8, 77u8, 69u8, 78u8, 83u8, 73u8, 79u8, 78u8, 83u8]
}

/// The keyword `NTAX`.
pub open spec fn ntax_keyword() -> Seq<u8> {
    seq![78u8, 84u8, 65u8, 88u8]
}

fn kw_ntax() -> (r: Vec<u8>)
    ensures
        r@ == ntax_keyword(),
{
    vec![78u8, 84u8, 65u8, 88u8]
}

/// The keyword `TAXLABELS`.
pub open spec fn taxlabels_keyword() -> Seq<u8> {
    seq![84u8, 65u8, 88u8, 76u8, 65u8, 66u8, 69u8, 76u8, 83u8]
}

fn kw_taxlabels() -> (r: Vec<u8>)
    ensures
        r@ == taxlabels_keyword(),
{
    vec![84u8, 65u8, 88u8, 76u8, 65u8, 66u8, 69u8, 76u8, 83u8]
}

/// Whether `word` spells the upper-case keyword `kw`, ignoring ASCII case.
pub fn word_is(word: &[u8], kw: &[u8]) -> (r: bool)
    ensures
        r == is_keyword(word@, kw@),
{
    if word.len() != kw.len() {
        return false;
    }
    let mut i: usize = 0;
    while i < word.len()
        invariant
            word@.len() == kw@.len(),
            0 <= i <= word@.len(),
            forall|j: int| 0 <= j < i ==> ascii_upper(#[trigger] word@[j]) == kw@[j],
        decreases word@.len() - i,
    {
        let b = word[i];
        let up = if b >= 97 && b <= 122 {
            b - 32
        } else {
            b
        };
        if up != kw[i] {
            return false;
        }
        i = i + 1;
    }
    true
}

/// Reads a word: the bytes up to the next word delimiter.
fn read_word(parser: &mut ByteParser) -> (r: Vec<u8>)
    requires
        old(parser).wf(),
    ensures
        final(parser).wf(),
        final(parser).input() == old(parser).input(),
        final(parser).pos() == label_end(old(parser).input(), old(parser).pos(), word_delimiters()),
        final(parser).pos() == old(parser).pos() + r@.len(),
        r@ == old(parser).input().subrange(old(parser).pos(), final(parser).pos()),
{
    proof {
        lemma_label_end_bounds(parser.input(), parser.pos(), word_delimiters());
    }
    let delimiters = word_delimiter_bytes();
    parser.parse_label(delimiters.as_slice())
}

/// End of the word that starts at `i`.
pub open spec fn word_end(s: Seq<u8>, i: int) -> int {
    label_end(s, i, word_delimiters())
}

/// Whether `w` ends a block: `END` or `ENDBLOCK`, in any case.
pub open spec fn is_end_word(w: Seq<u8>) -> bool {
    is_keyword(w, end_keyword()) || is_keyword(w, endblock_keyword())
}

/// Where a statement's closing `;` that follows `i`, after blanks and
/// comments, ends.
pub open spec fn statement_end(s: Seq<u8>, i: int) -> Option<int> {
    match skip_from(s, i, false) {
        Some(q) => if 0 <= q < s.len() && s[q] == SEMICOLON {
            Some(q + 1)
        } else {
            None
        },
        None => None,
    }
}

/// Whether `w` is an unsigned decimal count that fits a `usize`.
pub open spec fn is_count(w: Seq<u8>) -> bool {
    &&& w.len() > 0
    &&& forall|k: int| 0 <= k < w.len() ==> is_digit(#[trigger] w[k])
    &&& digits_value(w) <= usize::MAX
}

/// Where the rest of a block that is skipped, from `i`, ends: after the
/// first `END;` or `ENDBLOCK;` outside comments.
pub open spec fn skip_block_end(s: Seq<u8>, i: int) -> Option<int>
    decreases s.len() - i,
{
    if !(0 <= i <= s.len()) {
        None
    } else {
        match skip_from(s, i, false) {
            None => None,
            Some(p) => if p >= s.len() {
                None
            } else {
                let e = word_end(s, p);
                if is_end_word(s.subrange(p, e)) {
                    match skip_from(s, e, false) {
                        None => None,
                        Some(q) => if 0 <= q < s.len() && s[q] == SEMICOLON {
                            Some(q + 1)
                        } else if i < q <= s.len() {
                            skip_block_end(s, q)
                        } else {
                            None
                        },
                    }
                } else if e == p {
                    if i < p + 1 <= s.len() {
                        skip_block_end(s, p + 1)
                    } else {
                        None
                    }
                } else if i < e <= s.len() {
                    skip_block_end(s, e)
                } else {
                    None
                }
            },
        }
    }
}

/// Where `NTAX = <count>;` after `DIMENSIONS` at `e` ends, and the count.
pub open spec fn dimensions_end(s: Seq<u8>, e: int) -> Option<(int, usize)> {
    match skip_from(s, e, false) {
        None => None,
        Some(p2) => {
            let e2 = word_end(s, p2);
            if !is_keyword(s.subrange(p2, e2), ntax_keyword()) {
                None
            } else {
                match skip_from(s, e2, false) {
                    None => None,
                    Some(p3) => if !(0 <= p3 < s.len() && s[p3] == EQUALS) {
                        None
                    } else {
                        match skip_from(s, p3 + 1, false) {
                            None => None,
                            Some(p4) => {
                                let w = s.subrange(p4, word_end(s, p4));
                                if !is_count(w) {
                                    None
                                } else {
                                    match statement_end(s, word_end(s, p4)) {
                                        Some(q) => Some((q, digits_value(w) as usize)),
                                        None => None,
                                    }
                                }
                            },
                        }
                    },
                }
            }
        },
    }
}

/// Where the names after `TAXLABELS`, from `i`, end with their `;`; the
/// dictionary after inserting them, in order, into `labels`; and the count of
/// names read, starting from `count`.
pub open spec fn taxlabels_end(s: Seq<u8>, i: int, labels: Seq<Seq<u8>>, count: nat) -> Option<(int, Seq<Seq<u8>>, nat)>
    decreases s.len() - i,
{
    if !(0 <= i <= s.len()) {
        None
    } else {
        match skip_from(s, i, false) {
            None => None,
            Some(p) => if p >= s.len() {
                None
            } else if s[p] == SEMICOLON {
                Some((p + 1, labels, count))
            } else {
                let e = word_end(s, p);
                if e == p || count >= usize::MAX || !(i < e <= s.len()) {
                    None
                } else {
                    taxlabels_end(s, e, after_get_or_insert(labels, s.subrange(p, e)), count + 1)
                }
            },
        }
    }
}

/// Where the rest of a TAXA block, from `i`, ends, and the dictionary after
/// it; `declared` is the count that DIMENSIONS gave so far and `count` the
/// number of names read so far.
pub open spec fn taxa_end(s: Seq<u8>, i: int, labels: Seq<Seq<u8>>, declared: Option<usize>, count: nat) -> Option<(int, Seq<Seq<u8>>)>
    decreases s.len() - i,
{
    if !(0 <= i <= s.len()) {
        None
    } else {
        match skip_from(s, i, false) {
            None => None,
            Some(p) => if p >= s.len() {
                None
            } else {
                let e = word_end(s, p);
                let w = s.subrange(p, e);
                if e == p {
                    None
                } else if is_end_word(w) {
                    match statement_end(s, e) {
                        Some(q) => if declared is Some && declared.unwrap() != count {
                            None
                        } else {
                            Some((q, labels))
                        },
                        None => None,
                    }
                } else if is_keyword(w, dimensions_keyword()) {
                    match dimensions_end(s, e) {
                        Some((q, n)) => if i < q <= s.len() {
                            taxa_end(s, q, labels, Some(n), count)
                        } else {
                            None
                        },
                        None => None,
                    }
                } else if is_keyword(w, taxlabels_keyword()) {
                    match taxlabels_end(s, e, labels, count) {
                        Some((q, l2, c2)) => if i < q <= s.len() {
                            taxa_end(s, q, l2, declared, c2)
                        } else {
                            None
                        },
                        None => None,
                    }
                } else {
                    None
                }
            },
        }
    }
}

/// Where the pairs of a TRANSLATE statement, from `i`, end with their `;`,
/// and `entries` with the pairs read appended.
pub open spec fn translation_end(s: Seq<u8>, i: int, entries: Seq<(Seq<u8>, Seq<u8>)>) -> Option<(int, Seq<(Seq<u8>, Seq<u8>)>)>
    decreases s.len() - i,
{
    if !(0 <= i <= s.len()) {
        None
    } else {
        match skip_from(s, i, false) {
            None => None,
            Some(p) => if p >= s.len() {
                None
            } else {
                let e = word_end(s, p);
                if e == p {
                    None
                } else {
                    match skip_from(s, e, false) {
                        None => None,
                        Some(p2) => {
                            let e2 = word_end(s, p2);
                            if e2 == p2 {
                                None
                            } else {
                                let en = entries.push((s.subrange(p, e), s.subrange(p2, e2)));
                                match skip_from(s, e2, false) {
                                    None => None,
                                    Some(p3) => if 0 <= p3 < s.len() && s[p3] == SEMICOLON {
                                        Some((p3 + 1, en))
                                    } else if 0 <= p3 < s.len() && s[p3] == COMMA && i < p3 + 1 <= s.len() {
                                        translation_end(s, p3 + 1, en)
                                    } else {
                                        None
                                    },
                                }
                            }
                        },
                    }
                }
            },
        }
    }
}

/// Whether every name of the translation `t` is in `labels`.
pub open spec fn all_named(t: Seq<(Seq<u8>, Seq<u8>)>, labels: Seq<Seq<u8>>) -> bool {
    forall|k: int| 0 <= k < t.len() ==> labels.contains(#[trigger] t[k].1)
}

/// The tree statements read so far: for each, the resolver it used, the
/// labels of its tree description in text order, and the arena that the
/// description gives.
pub type Statements = Seq<(ResolverView, Seq<Seq<u8>>, Seq<VertexShape>)>;

/// Where the rest of a TREES block, from `i`, ends; the dictionary after it;
/// and `stmts` with its tree statements appended. `res` is the resolver
/// that the next tree uses; `has_translation` and `any_tree` say whether
/// the block has had a translation or a tree yet.
pub open spec fn trees_end(
    s: Seq<u8>,
    i: int,
    labels: Seq<Seq<u8>>,
    res: ResolverView,
    has_translation: bool,
    any_tree: bool,
    stmts: Statements,
) -> Option<(int, Seq<Seq<u8>>, Statements)>
    decreases s.len() - i,
{
    if !(0 <= i <= s.len()) {
        None
    } else {
        match skip_from(s, i, false) {
            None => None,
            Some(p) => if p >= s.len() {
                None
            } else {
                let e = word_end(s, p);
                let w = s.subrange(p, e);
                if e == p {
                    None
                } else if is_end_word(w) {
                    match statement_end(s, e) {
                        Some(q) => Some((q, labels, stmts)),
                        None => None,
                    }
                } else if is_keyword(w, translate_keyword()) {
                    if any_tree || has_translation {
                        None
                    } else {
                        match translation_end(s, e, Seq::empty()) {
                            Some((q, t)) => if i < q <= s.len() {
                                trees_end(s, q, labels, ResolverView::Fresh(t), true, any_tree, stmts)
                            } else {
                                None
                            },
                            None => None,
                        }
                    }
                } else if is_keyword(w, tree_keyword()) {
                    match skip_from(s, e, false) {
                        None => None,
                        Some(p2) => match skip_from(s, word_end(s, p2), false) {
                            None => None,
                            Some(p3) => if !(0 <= p3 < s.len() && s[p3] == EQUALS) {
                                None
                            } else {
                                match newick_end(res, s, p3 + 1) {
                                    None => None,
                                    Some(q) => {
                                        let toks = newick_tokens(res, s, p3 + 1);
                                        let l2 = dictionary_after(res, labels, toks);
                                        let st2 = stmts.push((res, toks, newick_shape(res, s, p3 + 1)));
                                        if !(i < q <= s.len()) {
                                            None
                                        } else {
                                            match res {
                                                ResolverView::Fresh(t) => if all_named(t, l2) {
                                                    trees_end(s, q, l2, ResolverView::Indexed(index_entries(t, l2)), has_translation, true, st2)
                                                } else {
                                                    None
                                                },
                                                _ => trees_end(s, q, l2, res, has_translation, true, st2),
                                            }
                                        }
                                    },
                                }
                            },
                        },
                    }
                } else {
                    None
                }
            },
        }
    }
}

/// What the blocks from `i` on give: the dictionary and the tree statements,
/// starting from `labels` and `stmts`; `None` when they do not parse.
pub open spec fn blocks_end(s: Seq<u8>, i: int, labels: Seq<Seq<u8>>, stmts: Statements) -> Option<(Seq<Seq<u8>>, Statements)>
    decreases s.len() - i,
{
    if !(0 <= i <= s.len()) {
        None
    } else {
        match skip_from(s, i, false) {
            None => None,
            Some(p) => if p >= s.len() {
                Some((labels, stmts))
            } else {
                let e = word_end(s, p);
                if !is_keyword(s.subrange(p, e), begin_keyword()) {
                    None
                } else {
                    match skip_from(s, e, false) {
                        None => None,
                        Some(p2) => {
                            let e2 = word_end(s, p2);
                            let name = s.subrange(p2, e2);
                            match statement_end(s, e2) {
                                None => None,
                                Some(q) => if e2 == p2 {
                                    None
                                } else if is_keyword(name, taxa_keyword()) {
                                    match taxa_end(s, q, labels, None, 0) {
                                        Some((q2, l2)) => if i < q2 <= s.len() {
                                            blocks_end(s, q2, l2, stmts)
                                        } else {
                                            None
                                        },
                                        None => None,
                                    }
                                } else if is_keyword(name, trees_keyword()) {
                                    match trees_end(s, q, labels, ResolverView::Direct, false, false, stmts) {
                                        Some((q2, l2, st2)) => if i < q2 <= s.len() {
                                            blocks_end(s, q2, l2, st2)
                                        } else {
                                            None
                                        },
                                        None => None,
                                    }
                                } else {
                                    match skip_block_end(s, q) {
                                        Some(q2) => if i < q2 <= s.len() {
                                            blocks_end(s, q2, labels, stmts)
                                        } else {
                                            None
                                        },
                                        None => None,
                                    }
                                },
                            }
                        },
                    }
                }
            },
        }
    }
}

/// What a whole file from `i` on gives: after blanks and comments the exact
/// header `#NEXUS`, then blocks up to the end of the input. `None` when the
/// file does not parse; else its dictionary and its tree statements.
pub open spec fn nexus_result(s: Seq<u8>, i: int) -> Option<(Seq<Seq<u8>>, Statements)> {
    match skip_from(s, i, false) {
        None => None,
        Some(p) => if s.subrange(p, word_end(s, p)) == header_keyword() {
            blocks_end(s, word_end(s, p), Seq::empty(), Seq::empty())
        } else {
            None
        },
    }
}

/// The trees match the statements they were parsed from: one tree each,
/// finished, with the arena its description gives, and with leaves that
/// carry what the statement's resolver made of its labels in the dictionary
/// `labels`.
pub open spec fn trees_match(trees: Seq<Tree>, stmts: Statements, labels: Seq<Seq<u8>>) -> bool {
    &&& trees.len() == stmts.len()
    &&& forall|k: int|
        0 <= k < trees.len() ==> {
            &&& (#[trigger] trees[k]).is_complete()
            &&& trees[k].labels_below(labels.len())
            &&& names_match(leaf_labels(trees[k].spec_vertices()), stmts[k].1, stmts[k].0, labels)
            &&& shaped(trees[k].spec_vertices(), 0, stmts[k].2)
        }
}

/// A match of trees to statements stays a match as the dictionary grows.
proof fn lemma_trees_match_extends(trees: Seq<Tree>, stmts: Statements, a: Seq<Seq<u8>>, b: Seq<Seq<u8>>)
    requires
        trees_match(trees, stmts, a),
        extends(a, b),
    ensures
        trees_match(trees, stmts, b),
{
    assert forall|k: int| 0 <= k < trees.len() implies {
        &&& (#[trigger] trees[k]).is_complete()
        &&& trees[k].labels_below(b.len())
        &&& names_match(leaf_labels(trees[k].spec_vertices()), stmts[k].1, stmts[k].0, b)
        &&& shaped(trees[k].spec_vertices(), 0, stmts[k].2)
    } by {
        lemma_names_match_extends(leaf_labels(trees[k].spec_vertices()), stmts[k].1, stmts[k].0, a, b);
    }
}

/// Skips blanks and comments and fails when the input ends inside a comment
/// or when nothing follows.
fn skip_to_content(parser: &mut ByteParser) -> (r: Result<(), ParsingError>)
    requires
        old(parser).wf(),
    ensures
        final(parser).wf(),
        final(parser).input() == old(parser).input(),
        old(parser).pos() <= final(parser).pos(),
        match skip_from(old(parser).input(), old(parser).pos(), false) {
            Some(p) => if p < old(parser).input().len() {
                r is Ok && final(parser).pos() == p
            } else {
                r is Err
            },
            None => r is Err,
        },
{
    match parser.skip_whitespace() {
        Ok(()) => {},
        Err(e) => return Err(e),
    }
    if parser.is_eof() {
        return Err(ParsingError::unexpected_eof(parser));
    }
    Ok(())
}

/// Skips blanks and comments, then consumes a `;` if one comes next, and says
/// whether it did.
fn end_statement(parser: &mut ByteParser) -> (r: Result<bool, ParsingError>)
    requires
        old(parser).wf(),
    ensures
        final(parser).wf(),
        final(parser).input() == old(parser).input(),
        old(parser).pos() <= final(parser).pos(),
        match skip_from(old(parser).input(), old(parser).pos(), false) {
            Some(q) => {
                &&& r is Ok
                &&& r->Ok_0 == (0 <= q < old(parser).input().len() && old(parser).input()[q] == SEMICOLON)
                &&& final(parser).pos() == if r->Ok_0 { q + 1 } else { q }
            },
            None => r is Err,
        },
{
    match parser.skip_whitespace() {
        Ok(()) => {},
        Err(e) => return Err(e),
    }
    Ok(parser.consume_if(SEMICOLON))
}

/// Reads an unsigned decimal count.
fn parse_count(word: &[u8]) -> (r: Option<usize>)
    ensures
        r is Some <==> is_count(word@),
        r is Some ==> r.unwrap() == digits_value(word@),
{
    assert(Seq::<u8>::empty() + word@.subrange(0, 0) =~= Seq::<u8>::empty());
    let (end, value) = accumulate_digits(word, 0, Some(0), usize::MAX as u64, Ghost(Seq::<u8>::empty()));
    assert(Seq::<u8>::empty() + word@.subrange(0, end as int) =~= word@.subrange(0, end as int));
    proof {
        lemma_digit_run_all(word@, 0);
    }
    if end == word.len() && end > 0 {
        assert(word@.subrange(0, end as int) =~= word@);
        match value {
            Some(v) => Some(v as usize),
            None => None,
        }
    } else {
        None
    }
}

/// The run of digits from `i` reaches the end exactly when every byte from
/// `i` on is a digit.
proof fn lemma_digit_run_all(s: Seq<u8>, i: int)
    requires
        0 <= i <= s.len(),
    ensures
        (digit_run_end(s, i) == s.len()) <==> (forall|j: int| i <= j < s.len() ==> is_digit(#[trigger] s[j])),
    decreases s.len() - i,
{
    if i < s.len() {
        lemma_digit_run_all(s, i + 1);
        if digit_run_end(s, i) == s.len() {
            assert(is_digit(s[i]));
        }
    }
}

#[verifier::rlimit(60)]
/// Parses the whole file: the header, then every block up to the end of the
/// input. Returns the trees in file order and the dictionary that they share.
pub fn parse_nexus(parser: &mut ByteParser) -> (r: Result<(Vec<Tree>, LeafLabelMap), ParsingError>)
    requires
        old(parser).wf(),
    ensures
        final(parser).wf(),
        final(parser).input() == old(parser).input(),
        r is Ok <==> nexus_result(old(parser).input(), old(parser).pos()) is Some,
        r is Ok ==> {
            let res = nexus_result(old(parser).input(), old(parser).pos()).unwrap();
            &&& final(parser).pos() == final(parser).input().len()
            &&& r->Ok_0.1.wf()
            &&& r->Ok_0.1.spec_labels() == res.0
            &&& trees_match(r->Ok_0.0@, res.1, res.0)
        },
        skip_from(old(parser).input(), old(parser).pos(), false) is None ==> r is Err
            && r->Err_0.spec_kind() == ParsingErrorType::UnclosedComment,
        skip_from(old(parser).input(), old(parser).pos(), false) is Some && !has_header(
            old(parser).input(),
            old(parser).pos(),
        ) ==> r is Err && r->Err_0.spec_kind() == ParsingErrorType::MissingNexusHeader,
{
    match parser.skip_whitespace() {
        Ok(()) => {},
        Err(e) => return Err(e),
    }
    let header = read_word(parser);
    if !same_bytes(header.as_slice(), kw_header().as_slice()) {
        return Err(ParsingError::missing_nexus_header(parser));
    }
    let ghost start = parser.pos();
    let mut leaf_label_map = LeafLabelMap::new(0);
    let mut trees: Vec<Tree> = Vec::new();
    let ghost mut stmts: Statements = Seq::empty();
    assert(trees@ =~= Seq::<Tree>::empty());
    loop
        invariant
            parser.wf(),
            parser.input() == old(parser).input(),
            nexus_result(old(parser).input(), old(parser).pos()) == blocks_end(parser.input(), start, Seq::empty(), Seq::empty()),
            skip_from(old(parser).input(), old(parser).pos(), false) is Some,
            has_header(old(parser).input(), old(parser).pos()),
            blocks_end(parser.input(), parser.pos(), leaf_label_map.spec_labels(), stmts) == blocks_end(
                parser.input(),
                start,
                Seq::empty(),
                Seq::empty(),
            ),
            leaf_label_map.wf(),
            trees_match(trees@, stmts, leaf_label_map.spec_labels()),
        ensures
            parser.wf(),
            parser.input() == old(parser).input(),
            parser.pos() == parser.input().len(),
            leaf_label_map.wf(),
            trees_match(trees@, stmts, leaf_label_map.spec_labels()),
            blocks_end(parser.input(), start, Seq::empty(), Seq::empty()) == Some((leaf_label_map.spec_labels(), stmts)),
        decreases parser.input().len() - parser.pos(),
    {
        let ghost i = parser.pos();
        match parser.skip_whitespace() {
            Ok(()) => {},
            Err(e) => return Err(e),
        }
        if parser.is_eof() {
            break;
        }
        let begin = read_word(parser);
        if !word_is(begin.as_slice(), kw_begin().as_slice()) {
            return Err(ParsingError::invalid_formatting(parser));
        }
        match parser.skip_whitespace() {
            Ok(()) => {},
            Err(e) => return Err(e),
        }
        let name = read_word(parser);
        match end_statement(parser) {
            Ok(true) => {},
            Ok(false) => return Err(ParsingError::invalid_block_name(parser)),
            Err(e) => return Err(e),
        }
        if name.len() == 0 {
            return Err(ParsingError::invalid_block_name(parser));
        }
        let ghost labels0 = leaf_label_map.spec_labels();
        if word_is(name.as_slice(), kw_taxa().as_slice()) {
            match parse_taxa_block(parser, &mut leaf_label_map) {
                Ok(()) => {},
                Err(e) => return Err(e),
            }
            proof {
                lemma_trees_match_extends(trees@, stmts, labels0, leaf_label_map.spec_labels());
            }
        } else if word_is(name.as_slice(), kw_trees().as_slice()) {
            let ghost st0 = stmts;
            match parse_trees_block(parser, &mut leaf_label_map, &mut trees, Ghost(st0)) {
                Ok(st) => {
                    proof {
                        stmts = st@;
                    }
                },
                Err(e) => return Err(e),
            }
        } else {
            match skip_block(parser) {
                Ok(()) => {},
                Err(e) => return Err(e),
            }
        }
        assert(i < parser.pos());
    }
    Ok((trees, leaf_label_map))
}

/// Reads the statements of a block up to `END;` or `ENDBLOCK;` and drops
/// them. Comments are skipped as they come, so a `;` inside one ends nothing.
fn skip_block(parser: &mut ByteParser) -> (r: Result<(), ParsingError>)
    requires
        old(parser).wf(),
    ensures
        final(parser).wf(),
        final(parser).input() == old(parser).input(),
        old(parser).pos() <= final(parser).pos(),
        r is Ok <==> skip_block_end(old(parser).input(), old(parser).pos()) is Some,
        r is Ok ==> final(parser).pos() == skip_block_end(old(parser).input(), old(parser).pos()).unwrap(),
{
    loop
        invariant
            parser.wf(),
            parser.input() == old(parser).input(),
            old(parser).pos() <= parser.pos(),
            skip_block_end(parser.input(), parser.pos()) == skip_block_end(parser.input(), old(parser).pos()),
        decreases parser.input().len() - parser.pos(),
    {
        let ghost i = parser.pos();
        match skip_to_content(parser) {
            Ok(()) => {},
            Err(e) => return Err(e),
        }
        let word = read_word(parser);
        if word_is(word.as_slice(), kw_end().as_slice()) || word_is(word.as_slice(), kw_endblock().as_slice()) {
            match end_statement(parser) {
                Ok(true) => return Ok(()),
                Ok(false) => {},
                Err(e) => return Err(e),
            }
        } else if word.len() == 0 {
            parser.next();
        }
        assert(i < parser.pos());
    }
}

/// Reads a TAXA block up to `END;`: `DIMENSIONS NTAX=<n>;` and
/// `TAXLABELS <name>...;`, whose names go into the dictionary in order. The
/// number of names must match a declared count.
fn parse_taxa_block(parser: &mut ByteParser, leaf_label_map: &mut LeafLabelMap) -> (r: Result<(), ParsingError>)
    requires
        old(parser).wf(),
        old(leaf_label_map).wf(),
    ensures
        kept(old(parser), final(parser), old(leaf_label_map), final(leaf_label_map)),
        r is Ok <==> taxa_end(old(parser).input(), old(parser).pos(), old(leaf_label_map).spec_labels(), None, 0) is Some,
        r is Ok ==> {
            let res = taxa_end(old(parser).input(), old(parser).pos(), old(leaf_label_map).spec_labels(), None, 0).unwrap();
            &&& final(parser).pos() == res.0
            &&& final(leaf_label_map).spec_labels() == res.1
        },
{
    let mut declared: Option<usize> = None;
    let mut count: usize = 0;
    loop
        invariant
            kept(old(parser), parser, old(leaf_label_map), leaf_label_map),
            taxa_end(parser.input(), parser.pos(), leaf_label_map.spec_labels(), declared, count as nat) == taxa_end(
                old(parser).input(),
                old(parser).pos(),
                old(leaf_label_map).spec_labels(),
                None,
                0,
            ),
        decreases parser.input().len() - parser.pos(),
    {
        let ghost i = parser.pos();
        match skip_to_content(parser) {
            Ok(()) => {},
            Err(e) => return Err(e),
        }
        let word = read_word(parser);
        if word.len() == 0 {
            return Err(ParsingError::invalid_taxa_block(parser, String::from_str("unexpected delimiter")));
        }
        if word_is(word.as_slice(), kw_end().as_slice()) || word_is(word.as_slice(), kw_endblock().as_slice()) {
            match end_statement(parser) {
                Ok(true) => {},
                Ok(false) => return Err(ParsingError::invalid_taxa_block(parser, String::from_str("expected ';' after END"))),
                Err(e) => return Err(e),
            }
            match declared {
                Some(n) => {
                    if n != count {
                        return Err(ParsingError::invalid_taxa_block(parser, String::from_str("NTAX does not match the number of taxon labels")));
                    }
                },
                None => {},
            }
            return Ok(());
        } else if word_is(word.as_slice(), kw_dimensions().as_slice()) {
            match parser.skip_whitespace() {
                Ok(()) => {},
                Err(e) => return Err(e),
            }
            let key = read_word(parser);
            if !word_is(key.as_slice(), kw_ntax().as_slice()) {
                return Err(ParsingError::invalid_taxa_block(parser, String::from_str("expected NTAX")));
            }
            match parser.skip_whitespace() {
                Ok(()) => {},
                Err(e) => return Err(e),
            }
            if !parser.consume_if(EQUALS) {
                return Err(ParsingError::invalid_taxa_block(parser, String::from_str("expected '=' after NTAX")));
            }
            match parser.skip_whitespace() {
                Ok(()) => {},
                Err(e) => return Err(e),
            }
            let value = read_word(parser);
            let n = match parse_count(value.as_slice()) {
                Some(n) => n,
                None => return Err(ParsingError::invalid_taxa_block(parser, String::from_str("invalid NTAX value"))),
            };
            match end_statement(parser) {
                Ok(true) => {},
                Ok(false) => return Err(ParsingError::invalid_taxa_block(parser, String::from_str("expected ';' after DIMENSIONS"))),
                Err(e) => return Err(e),
            }
            declared = Some(n);
        } else if word_is(word.as_slice(), kw_taxlabels().as_slice()) {
            count = match parse_taxlabels(parser, leaf_label_map, count) {
                Ok(c) => c,
                Err(e) => return Err(e),
            };
        } else {
            return Err(ParsingError::invalid_taxa_block(parser, String::from_str("unknown statement")));
        }
        assert(i < parser.pos());
    }
}

/// Reads the names after `TAXLABELS` up to their `;`, inserting each into the
/// dictionary in order; returns `count` plus the number of names read.
fn parse_taxlabels(parser: &mut ByteParser, leaf_label_map: &mut LeafLabelMap, start_count: usize) -> (r: Result<usize, ParsingError>)
    requires
        old(parser).wf(),
        old(leaf_label_map).wf(),
    ensures
        kept(old(parser), final(parser), old(leaf_label_map), final(leaf_label_map)),
        r is Ok <==> taxlabels_end(old(parser).input(), old(parser).pos(), old(leaf_label_map).spec_labels(), start_count as nat) is Some,
        r is Ok ==> taxlabels_end(old(parser).input(), old(parser).pos(), old(leaf_label_map).spec_labels(), start_count as nat)
            == Some((final(parser).pos(), final(leaf_label_map).spec_labels(), r->Ok_0 as nat)),
{
    let mut count = start_count;
    loop
        invariant
            kept(old(parser), parser, old(leaf_label_map), leaf_label_map),
            taxlabels_end(parser.input(), parser.pos(), leaf_label_map.spec_labels(), count as nat)
                == taxlabels_end(old(parser).input(), old(parser).pos(), old(leaf_label_map).spec_labels(), start_count as nat),
        decreases parser.input().len() - parser.pos(),
    {
        let ghost i = parser.pos();
        match skip_to_content(parser) {
            Ok(()) => {},
            Err(e) => return Err(e),
        }
        if parser.consume_if(SEMICOLON) {
            return Ok(count);
        }
        let name = read_word(parser);
        if name.len() == 0 {
            return Err(ParsingError::invalid_taxa_block(parser, String::from_str("expected a taxon name")));
        }
        leaf_label_map.get_or_insert(name.as_slice());
        if count == usize::MAX {
            return Err(ParsingError::invalid_taxa_block(parser, String::from_str("too many taxa")));
        }
        count = count + 1;
        assert(i < parser.pos());
    }
}

/// Reads a TRANSLATE statement after its keyword: `<token> <name>` pairs
/// separated by `,` and ended by `;`.
fn parse_translation(parser: &mut ByteParser) -> (r: Result<Vec<(Vec<u8>, Vec<u8>)>, ParsingError>)
    requires
        old(parser).wf(),
    ensures
        final(parser).wf(),
        final(parser).input() == old(parser).input(),
        old(parser).pos() <= final(parser).pos(),
        r is Ok <==> translation_end(old(parser).input(), old(parser).pos(), Seq::empty()) is Some,
        r is Ok ==> {
            let res = translation_end(old(parser).input(), old(parser).pos(), Seq::empty()).unwrap();
            &&& final(parser).pos() == res.0
            &&& translation_view(r->Ok_0@) == res.1
        },
{
    let mut translation: Vec<(Vec<u8>, Vec<u8>)> = Vec::new();
    assert(translation_view(translation@) =~= Seq::<(Seq<u8>, Seq<u8>)>::empty());
    loop
        invariant
            parser.wf(),
            parser.input() == old(parser).input(),
            old(parser).pos() <= parser.pos(),
            translation_end(parser.input(), parser.pos(), translation_view(translation@)) == translation_end(
                old(parser).input(),
                old(parser).pos(),
                Seq::empty(),
            ),
        decreases parser.input().len() - parser.pos(),
    {
        let ghost i = parser.pos();
        match skip_to_content(parser) {
            Ok(()) => {},
            Err(e) => return Err(e),
        }
        let key = read_word(parser);
        if key.len() == 0 {
            return Err(ParsingError::invalid_trees_block(parser, String::from_str("expected a translation token")));
        }
        match parser.skip_whitespace() {
            Ok(()) => {},
            Err(e) => return Err(e),
        }
        let name = read_word(parser);
        if name.len() == 0 {
            return Err(ParsingError::invalid_trees_block(parser, String::from_str("expected a taxon name in translation")));
        }
        let ghost before = translation@;
        translation.push((key, name));
        assert(translation_view(translation@) =~= translation_view(before).push((key@, name@)));
        match parser.skip_whitespace() {
            Ok(()) => {},
            Err(e) => return Err(e),
        }
        if parser.consume_if(SEMICOLON) {
            return Ok(translation);
        }
        if !parser.consume_if(COMMA) {
            return Err(ParsingError::invalid_trees_block(parser, String::from_str("expected ',' or ';' in translation")));
        }
        assert(i < parser.pos());
    }
}

#[verifier::rlimit(60)]
/// Reads a TREES block up to `END;`: an optional TRANSLATE statement, then
/// `TREE <name> = <tree description>` statements, each appended to `trees`.
/// Without a translation every label names its taxon; with one, the first
/// tree maps tokens through the translation and inserts the names, and the
/// later trees map tokens straight to the indices that those names then have.
/// Returns the statements read, appended to `stmts`.
fn parse_trees_block(
    parser: &mut ByteParser,
    leaf_label_map: &mut LeafLabelMap,
    trees: &mut Vec<Tree>,
    Ghost(stmts): Ghost<Statements>,
) -> (r: Result<Ghost<Statements>, ParsingError>)
    requires
        old(parser).wf(),
        old(leaf_label_map).wf(),
        trees_match(old(trees)@, stmts, old(leaf_label_map).spec_labels()),
    ensures
        kept(old(parser), final(parser), old(leaf_label_map), final(leaf_label_map)),
        r is Ok <==> trees_end(
            old(parser).input(),
            old(parser).pos(),
            old(leaf_label_map).spec_labels(),
            ResolverView::Direct,
            false,
            false,
            stmts,
        ) is Some,
        r is Ok ==> {
            let res = trees_end(
                old(parser).input(),
                old(parser).pos(),
                old(leaf_label_map).spec_labels(),
                ResolverView::Direct,
                false,
                false,
                stmts,
            ).unwrap();
            &&& final(parser).pos() == res.0
            &&& final(leaf_label_map).spec_labels() == res.1
            &&& r->Ok_0@ == res.2
            &&& trees_match(final(trees)@, res.2, res.1)
        },
{
    let mut resolver = LabelResolver::new_label_to_index();
    let mut trees_in_block: usize = 0;
    let mut has_translation = false;
    let ghost mut st = stmts;
    loop
        invariant
            kept(old(parser), parser, old(leaf_label_map), leaf_label_map),
            resolver.spec_view().indices_below(leaf_label_map.spec_labels().len()),
            trees_match(trees@, st, leaf_label_map.spec_labels()),
            trees_end(
                parser.input(),
                parser.pos(),
                leaf_label_map.spec_labels(),
                resolver.spec_view(),
                has_translation,
                trees_in_block > 0,
                st,
            ) == trees_end(
                old(parser).input(),
                old(parser).pos(),
                old(leaf_label_map).spec_labels(),
                ResolverView::Direct,
                false,
                false,
                stmts,
            ),
        decreases parser.input().len() - parser.pos(),
    {
        let ghost i = parser.pos();
        match skip_to_content(parser) {
            Ok(()) => {},
            Err(e) => return Err(e),
        }
        let word = read_word(parser);
        if word.len() == 0 {
            return Err(ParsingError::invalid_trees_block(parser, String::from_str("unexpected delimiter")));
        }
        if word_is(word.as_slice(), kw_end().as_slice()) || word_is(word.as_slice(), kw_endblock().as_slice()) {
            match end_statement(parser) {
                Ok(true) => {},
                Ok(false) => return Err(ParsingError::invalid_trees_block(parser, String::from_str("expected ';' after END"))),
                Err(e) => return Err(e),
            }
            return Ok(Ghost(st));
        } else if word_is(word.as_slice(), kw_translate().as_slice()) {
            if trees_in_block > 0 || has_translation {
                return Err(ParsingError::invalid_trees_block(parser, String::from_str("a translation must precede the trees and come once")));
            }
            match parse_translation(parser) {
                Ok(t) => {
                    resolver = LabelResolver::new_key_to_label_to_index(t);
                    has_translation = true;
                },
                Err(e) => return Err(e),
            }
        } else if word_is(word.as_slice(), kw_tree().as_slice()) {
            match parser.skip_whitespace() {
                Ok(()) => {},
                Err(e) => return Err(e),
            }
            let _name = read_word(parser);
            match parser.skip_whitespace() {
                Ok(()) => {},
                Err(e) => return Err(e),
            }
            if !parser.consume_if(EQUALS) {
                return Err(ParsingError::invalid_trees_block(parser, String::from_str("expected '=' after tree name")));
            }
            let hint = leaf_label_map.num_labels();
            let ghost l0 = leaf_label_map.spec_labels();
            let ghost p0 = parser.pos();
            let tree = match parse_newick_with_resolver(parser, hint, &resolver, leaf_label_map) {
                Ok(t) => t,
                Err(e) => return Err(e),
            };
            let ghost toks = newick_tokens(resolver.spec_view(), parser.input(), p0);
            proof {
                lemma_trees_match_extends(trees@, st, l0, leaf_label_map.spec_labels());
                st = st.push((resolver.spec_view(), toks, newick_shape(resolver.spec_view(), parser.input(), p0)));
            }
            let ghost before = trees@;
            trees.push(tree);
            proof {
                assert forall|k: int| 0 <= k < trees@.len() implies {
                    &&& (#[trigger] trees@[k]).is_complete()
                    &&& trees@[k].labels_below(leaf_label_map.spec_labels().len())
                    &&& names_match(leaf_labels(trees@[k].spec_vertices()), st[k].1, st[k].0, leaf_label_map.spec_labels())
                    &&& shaped(trees@[k].spec_vertices(), 0, st[k].2)
                } by {
                    if k < before.len() {
                        assert(trees@[k] == before[k]);
                    }
                }
            }
            if trees_in_block < usize::MAX {
                trees_in_block = trees_in_block + 1;
            }
            let next = match &resolver {
                LabelResolver::KeyToLabelToIndex { translation } => {
                    proof {
                        let tv = translation_view(translation@);
                        assert(forall|k: int| 0 <= k < translation@.len() ==> #[trigger] tv[k] == (translation@[k].0@, translation@[k].1@));
                    }
                    match LabelResolver::new_key_to_index(translation, leaf_label_map, parser) {
                        Ok(r) => Some(r),
                        Err(e) => {
                            proof {
                                let tv = translation_view(translation@);
                                let labels = leaf_label_map.spec_labels();
                                assert(!(forall|k: int| 0 <= k < translation@.len() ==> labels.contains((#[trigger] translation@[k]).1@)));
                                let k = choose|k: int| 0 <= k < translation@.len() && !labels.contains((#[trigger] translation@[k]).1@);
                                assert(0 <= k < translation@.len());
                                assert(tv.len() == translation@.len());
                                assert(tv[k] == (translation@[k].0@, translation@[k].1@));
                                assert(!labels.contains(tv[k].1));
                                assert(!all_named(tv, labels));
                            }
                            return Err(e);
                        },
                    }
                },
                _ => None,
            };
            match next {
                Some(r) => resolver = r,
                None => {},
            }
        } else {
            return Err(ParsingError::invalid_trees_block(parser, String::from_str("unknown statement")));
        }
        assert(i < parser.pos());
    }
}

} // verus!
