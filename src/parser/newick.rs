//! Tree descriptions: a binary, parenthesised notation for one tree with
//! optional branch lengths, and the resolution of its leaf labels.
use crate::model::tree::{
    after_get_or_insert, leaf_labels, lemma_leaf_count_is_labels, lemma_leaf_labels_push, lemma_leaf_labels_with_parent, with_parent,
    LabelIndex, LeafLabelMap, Tree, TreeIndex,
};
use crate::model::vertex::{is_finite_decimal, BranchLength, Decimal, Vertex};
use crate::parser::byte_parser::{label_end, lemma_label_end_bounds, same_bytes, skip_from, ByteParser};
use crate::parser::numeral::{numeral_run_end, parse_decimal, spec_decimal};
use crate::parser::parsing_error::{lossy_text, text_of, ParsingError, ParsingErrorType};
use vstd::prelude::*;
use vstd::string::*;

verus! {

/// `(`
pub const OPEN_PAREN: u8 = 40;

/// `)`
pub const CLOSE_PAREN: u8 = 41;

/// `,`
pub const COMMA: u8 = 44;

/// `:`
pub const COLON: u8 = 58;

/// `;`
pub const SEMICOLON: u8 = 59;

/// The bytes that end a label: parentheses, comma, colon, semicolon and blanks.
pub open spec fn newick_label_delimiters() -> Seq<u8> {
    seq![40u8, 41u8, 44u8, 58u8, 59u8, 32u8, 9u8, 10u8, 13u8]
}

fn label_delimiters() -> (r: Vec<u8>)
    ensures
        r@ == newick_label_delimiters(),
{
    vec![40u8, 41u8, 44u8, 58u8, 59u8, 32u8, 9u8, 10u8, 13u8]
}

/// Whether the names `b` are the names `a` with names appended after them.
pub open spec fn extends(a: Seq<Seq<u8>>, b: Seq<Seq<u8>>) -> bool {
    &&& a.len() <= b.len()
    &&& forall|i: int| 0 <= i < a.len() ==> #[trigger] b[i] == a[i]
}

/// The errors that parsing one tree description can raise.
pub open spec fn is_tree_error(kind: ParsingErrorType) -> bool {
    kind is InvalidNewickString || kind is UnclosedComment
}

/// What holds before each step of the grammar: the cursor, tree, dictionary
/// and resolver are well formed, the tree has no root yet, and every index
/// that the tree or the resolver holds is in the dictionary.
pub open spec fn ready(p: &ByteParser, t: &Tree, res: &LabelResolver, m: &LeafLabelMap) -> bool {
    &&& p.wf()
    &&& t.wf()
    &&& t.spec_root() is None
    &&& m.wf()
    &&& res.spec_view().indices_below(m.spec_labels().len())
    &&& t.labels_below(m.spec_labels().len())
}

/// What every step keeps: the same input, a cursor that only moves forward,
/// and a dictionary that only grows.
pub open spec fn kept(before: &ByteParser, after: &ByteParser, dict_before: &LeafLabelMap, dict_after: &LeafLabelMap) -> bool {
    &&& after.wf()
    &&& after.input() == before.input()
    &&& before.pos() <= after.pos()
    &&& dict_after.wf()
    &&& extends(dict_before.spec_labels(), dict_after.spec_labels())
}

/// After a step that appended the vertices from `t0`'s length on: the tree is
/// still being built, earlier vertices are untouched, every new vertex but the
/// ones in `open` is linked, and the arena stays shorter than the input read.
pub open spec fn grown(t0: &Tree, t1: &Tree, after: &ByteParser, dict_after: &LeafLabelMap, open: Set<TreeIndex>) -> bool {
    let v0 = t0.spec_vertices();
    let v1 = t1.spec_vertices();
    &&& t1.wf()
    &&& t1.spec_root() is None
    &&& v0.len() <= v1.len()
    &&& v1.len() < after.pos()
    &&& forall|j: int| 0 <= j < v0.len() ==> #[trigger] v1[j] == v0[j]
    &&& forall|j: int|
        v0.len() <= j < v1.len() && !open.contains(j as TreeIndex) ==> (#[trigger] v1[j].spec_parent()) is Some
    &&& forall|j: TreeIndex| #[trigger] open.contains(j) ==> v0.len() <= j && t1.is_unlinked(j)
    &&& t1.labels_below(dict_after.spec_labels().len())
}

/// The text of the byte under the cursor, or "end of input".
fn found_text(parser: &ByteParser) -> String
    requires
        parser.wf(),
{
    match parser.peek() {
        Some(b) => {
            let one = vec![b];
            let mut t = String::from_str("'");
            t.append(text_of(one.as_slice()).as_str());
            t.append("'");
            t
        },
        None => String::from_str("end of input"),
    }
}

/// An invalid-tree-description error: `what` was expected at the cursor.
fn expected(parser: &ByteParser, what: &str) -> (r: ParsingError)
    requires
        parser.wf(),
    ensures
        r.spec_kind() is InvalidNewickString,
        r.taken_from(parser),
{
    let mut msg = String::from_str("Expected ");
    msg.append(what);
    msg.append(" but found ");
    msg.append(found_text(parser).as_str());
    ParsingError::invalid_newick_string(parser, msg)
}

/// Where an optional branch length that may start at `i` ends: `i` itself
/// without a `:` there; else the end of the numeral after the `:`, which must
/// denote a decimal not below zero and finite as a double (`None` otherwise).
pub open spec fn branch_end(s: Seq<u8>, i: int) -> Option<int> {
    if 0 <= i < s.len() && s[i] == COLON {
        let e = numeral_run_end(s, i + 1);
        match spec_decimal(s.subrange(i + 1, e)) {
            Some(d) => if d.is_negative() || !is_finite_decimal(d) {
                None
            } else {
                Some(e)
            },
            None => None,
        }
    } else {
        Some(i)
    }
}

/// Where the vertex that starts at `i` ends, when it follows
/// `vertex := children branch_length? | label branch_length?` and each of its
/// labels is one that `res` resolves.
pub open spec fn vertex_end(res: ResolverView, s: Seq<u8>, i: int) -> Option<int>
    decreases s.len() - i, 1nat,
{
    if 0 <= i < s.len() && s[i] == OPEN_PAREN {
        match children_end(res, s, i) {
            Some(j) => branch_end(s, j),
            None => None,
        }
    } else {
        let e = label_end(s, i, newick_label_delimiters());
        if e == i || !res.knows(s.subrange(i, e)) {
            None
        } else {
            branch_end(s, e)
        }
    }
}

/// Where `children := '(' vertex ',' vertex ')'` that starts at `i` ends.
pub open spec fn children_end(res: ResolverView, s: Seq<u8>, i: int) -> Option<int>
    decreases s.len() - i, 0nat,
{
    if !(0 <= i < s.len() && s[i] == OPEN_PAREN) {
        None
    } else {
        match vertex_end(res, s, i + 1) {
            None => None,
            Some(e1) => if !(i + 1 <= e1 < s.len() && s[e1] == COMMA) {
                None
            } else {
                match vertex_end(res, s, e1 + 1) {
                    None => None,
                    Some(e2) => if 0 <= e2 < s.len() && s[e2] == CLOSE_PAREN {
                        Some(e2 + 1)
                    } else {
                        None
                    },
                }
            },
        }
    }
}

/// The labels of the vertex that starts at `i`, in text order.
pub open spec fn vertex_tokens(res: ResolverView, s: Seq<u8>, i: int) -> Seq<Seq<u8>>
    decreases s.len() - i, 1nat,
{
    if 0 <= i < s.len() && s[i] == OPEN_PAREN {
        children_tokens(res, s, i)
    } else {
        seq![s.subrange(i, label_end(s, i, newick_label_delimiters()))]
    }
}

/// The labels of the children that start at `i`, in text order.
pub open spec fn children_tokens(res: ResolverView, s: Seq<u8>, i: int) -> Seq<Seq<u8>>
    decreases s.len() - i, 0nat,
{
    if !(0 <= i < s.len() && s[i] == OPEN_PAREN) {
        Seq::empty()
    } else {
        match vertex_end(res, s, i + 1) {
            Some(e1) => if i + 1 <= e1 < s.len() && s[e1] == COMMA {
                vertex_tokens(res, s, i + 1) + vertex_tokens(res, s, e1 + 1)
            } else {
                Seq::empty()
            },
            None => Seq::empty(),
        }
    }
}

/// The labels of the tree description that starts at `i`, after blanks and
/// comments, in text order.
pub open spec fn newick_tokens(res: ResolverView, s: Seq<u8>, i: int) -> Seq<Seq<u8>> {
    match skip_from(s, i, false) {
        Some(p) => children_tokens(res, s, p),
        None => Seq::empty(),
    }
}

/// Whether the label index `i` is what `res` resolves the label `token` to,
/// in a dictionary holding `labels`: the index of `token` itself, of the name
/// that the translation gives it, or the index that the precomputed map
/// gives it.
pub open spec fn resolves_to(res: ResolverView, token: Seq<u8>, i: LabelIndex, labels: Seq<Seq<u8>>) -> bool {
    &&& i < labels.len()
    &&& match res {
        ResolverView::Direct => labels[i as int] == token,
        ResolverView::Fresh(translation) => lookup_key(translation, token) is Some
            && labels[i as int] == lookup_key(translation, token).unwrap(),
        ResolverView::Indexed(m) => lookup_key(m, token) == Some(i),
    }
}

/// Whether the label indices `idx` are, one for one, what `res` resolves the
/// labels `tokens` to, in a dictionary holding `labels`.
pub open spec fn names_match(idx: Seq<LabelIndex>, tokens: Seq<Seq<u8>>, res: ResolverView, labels: Seq<Seq<u8>>) -> bool {
    &&& idx.len() == tokens.len()
    &&& forall|k: int| 0 <= k < idx.len() ==> resolves_to(res, tokens[k], #[trigger] idx[k], labels)
}

/// The names after get-or-inserting each of `names`, in order.
pub open spec fn insert_all(labels: Seq<Seq<u8>>, names: Seq<Seq<u8>>) -> Seq<Seq<u8>>
    decreases names.len(),
{
    if names.len() == 0 {
        labels
    } else {
        after_get_or_insert(insert_all(labels, names.drop_last()), names.last())
    }
}

/// The dictionary's names after `res` has resolved the labels `tokens`, in
/// order, starting from `labels`: resolving a label inserts the name it
/// stands for, except through a precomputed map, which inserts nothing.
pub open spec fn dictionary_after(res: ResolverView, labels: Seq<Seq<u8>>, tokens: Seq<Seq<u8>>) -> Seq<Seq<u8>> {
    match res {
        ResolverView::Direct => insert_all(labels, tokens),
        ResolverView::Fresh(translation) => insert_all(
            labels,
            translate_all(translation, tokens),
        ),
        ResolverView::Indexed(_) => labels,
    }
}

/// The names that `translation` gives `tokens`, in order.
pub open spec fn translate_all(translation: Seq<(Seq<u8>, Seq<u8>)>, tokens: Seq<Seq<u8>>) -> Seq<Seq<u8>>
    decreases tokens.len(),
{
    if tokens.len() == 0 {
        Seq::empty()
    } else {
        translate_all(translation, tokens.drop_last()).push(lookup_key(translation, tokens.last()).unwrap())
    }
}

proof fn lemma_translate_all_concat(translation: Seq<(Seq<u8>, Seq<u8>)>, a: Seq<Seq<u8>>, b: Seq<Seq<u8>>)
    ensures
        translate_all(translation, a + b) == translate_all(translation, a) + translate_all(translation, b),
    decreases b.len(),
{
    if b.len() == 0 {
        assert(a + b =~= a);
        assert(translate_all(translation, a) + translate_all(translation, b) =~= translate_all(translation, a));
    } else {
        assert((a + b).drop_last() =~= a + b.drop_last());
        assert((a + b).last() == b.last());
        lemma_translate_all_concat(translation, a, b.drop_last());
        assert(translate_all(translation, a + b) =~= translate_all(translation, a) + translate_all(translation, b));
    }
}

proof fn lemma_insert_all_concat(labels: Seq<Seq<u8>>, a: Seq<Seq<u8>>, b: Seq<Seq<u8>>)
    ensures
        insert_all(labels, a + b) == insert_all(insert_all(labels, a), b),
    decreases b.len(),
{
    if b.len() == 0 {
        assert(a + b =~= a);
    } else {
        assert((a + b).drop_last() =~= a + b.drop_last());
        assert((a + b).last() == b.last());
        lemma_insert_all_concat(labels, a, b.drop_last());
    }
}

/// Resolving two runs of labels one after the other leaves the names that
/// resolving both at once leaves.
proof fn lemma_dictionary_after_concat(res: ResolverView, labels: Seq<Seq<u8>>, a: Seq<Seq<u8>>, b: Seq<Seq<u8>>)
    ensures
        dictionary_after(res, labels, a + b) == dictionary_after(res, dictionary_after(res, labels, a), b),
{
    match res {
        ResolverView::Direct => lemma_insert_all_concat(labels, a, b),
        ResolverView::Fresh(translation) => {
            lemma_translate_all_concat(translation, a, b);
            lemma_insert_all_concat(labels, translate_all(translation, a), translate_all(translation, b));
        },
        ResolverView::Indexed(_) => {},
    }
}

/// Resolving one label leaves the names that get-or-inserting its name leaves.
proof fn lemma_dictionary_after_one(res: ResolverView, labels: Seq<Seq<u8>>, token: Seq<u8>)
    ensures
        res is Direct ==> dictionary_after(res, labels, seq![token]) == after_get_or_insert(labels, token),
        res is Fresh ==> dictionary_after(res, labels, seq![token]) == after_get_or_insert(
            labels,
            lookup_key(res->Fresh_0, token).unwrap(),
        ),
        res is Indexed ==> dictionary_after(res, labels, seq![token]) == labels,
{
    let one = seq![token];
    assert(one.drop_last() =~= Seq::<Seq<u8>>::empty());
    assert(insert_all(labels, one.drop_last()) == labels);
    assert(one.last() == token);
    if let ResolverView::Fresh(translation) = res {
        let m = translate_all(translation, one);
        assert(translate_all(translation, one.drop_last()) =~= Seq::<Seq<u8>>::empty());
        assert(m =~= seq![lookup_key(translation, token).unwrap()]);
        assert(m.drop_last() =~= Seq::<Seq<u8>>::empty());
        assert(insert_all(labels, m.drop_last()) == labels);
    }
}

/// The leaves appended from `t0` to `t1` carry label indices that name the
/// names that `res` gives `tokens`.
pub open spec fn leaves_named(t0: &Tree, t1: &Tree, tokens: Seq<Seq<u8>>, res: ResolverView, labels: Seq<Seq<u8>>) -> bool {
    let l0 = leaf_labels(t0.spec_vertices());
    let l1 = leaf_labels(t1.spec_vertices());
    &&& l0.len() <= l1.len()
    &&& l1.subrange(0, l0.len() as int) == l0
    &&& names_match(l1.subrange(l0.len() as int, l1.len() as int), tokens, res, labels)
}

/// Matches of two runs of labels join into a match of both.
proof fn lemma_names_match_concat(
    a: Seq<LabelIndex>,
    ta: Seq<Seq<u8>>,
    b: Seq<LabelIndex>,
    tb: Seq<Seq<u8>>,
    res: ResolverView,
    labels: Seq<Seq<u8>>,
)
    requires
        names_match(a, ta, res, labels),
        names_match(b, tb, res, labels),
    ensures
        names_match(a + b, ta + tb, res, labels),
{
    let idx = a + b;
    let t = ta + tb;
    assert forall|k: int| 0 <= k < idx.len() implies resolves_to(res, t[k], #[trigger] idx[k], labels) by {
        if k < a.len() {
            assert(idx[k] == a[k]);
            assert(t[k] == ta[k]);
        } else {
            assert(idx[k] == b[k - a.len()]);
            assert(t[k] == tb[k - a.len()]);
        }
    }
}

/// A match stays a match as the dictionary grows.
pub proof fn lemma_names_match_extends(
    idx: Seq<LabelIndex>,
    tokens: Seq<Seq<u8>>,
    res: ResolverView,
    a: Seq<Seq<u8>>,
    b: Seq<Seq<u8>>,
)
    requires
        names_match(idx, tokens, res, a),
        extends(a, b),
    ensures
        names_match(idx, tokens, res, b),
{
    assert forall|k: int| 0 <= k < idx.len() implies resolves_to(res, tokens[k], #[trigger] idx[k], b) by {
        assert(resolves_to(res, tokens[k], idx[k], a));
        assert(b[idx[k] as int] == a[idx[k] as int]);
    }
}

/// Where `root := children (':' branch_length)? ';'` that starts at `i`
/// ends; blanks and comments may come before the `;`.
pub open spec fn root_end(res: ResolverView, s: Seq<u8>, i: int) -> Option<int> {
    match children_end(res, s, i) {
        None => None,
        Some(j) => match branch_end(s, j) {
            None => None,
            Some(k) => match skip_from(s, k, false) {
                Some(p) => if 0 <= p < s.len() && s[p] == SEMICOLON {
                    Some(p + 1)
                } else {
                    None
                },
                None => None,
            },
        },
    }
}

/// One vertex as the text gives it: its children, or `None` for a leaf, and
/// the value of its branch length, if it has one.
pub type VertexShape = (Option<(int, int)>, Option<Decimal>);

/// The value of the branch length whose `:` may stand at `j`.
pub open spec fn branch_value(s: Seq<u8>, j: int) -> Option<Decimal> {
    if 0 <= j < s.len() && s[j] == COLON {
        spec_decimal(s.subrange(j + 1, numeral_run_end(s, j + 1)))
    } else {
        None
    }
}

/// The vertices of the subtree that starts at `i`, in the order in which
/// they are appended, when the first of them lands at arena index `base`.
pub open spec fn vertex_shape(res: ResolverView, s: Seq<u8>, i: int, base: int) -> Seq<VertexShape>
    decreases s.len() - i, 1nat,
{
    if 0 <= i < s.len() && s[i] == OPEN_PAREN {
        match children_end(res, s, i) {
            Some(j) => {
                let cs = children_shape(res, s, i, base);
                let left = base + vertex_shape(res, s, i + 1, base).len() - 1;
                cs.push((Some((left, base + cs.len() - 1)), branch_value(s, j)))
            },
            None => Seq::empty(),
        }
    } else {
        seq![(None, branch_value(s, label_end(s, i, newick_label_delimiters())))]
    }
}

/// The vertices of both subtrees of the children that start at `i`.
pub open spec fn children_shape(res: ResolverView, s: Seq<u8>, i: int, base: int) -> Seq<VertexShape>
    decreases s.len() - i, 0nat,
{
    if !(0 <= i < s.len() && s[i] == OPEN_PAREN) {
        Seq::empty()
    } else {
        match vertex_end(res, s, i + 1) {
            Some(e1) => if i + 1 <= e1 < s.len() && s[e1] == COMMA {
                let l = vertex_shape(res, s, i + 1, base);
                l + vertex_shape(res, s, e1 + 1, base + l.len())
            } else {
                Seq::empty()
            },
            None => Seq::empty(),
        }
    }
}

/// The whole arena that a tree description from `i` gives: its subtrees,
/// then the root, whose children are the two top-level vertices.
pub open spec fn newick_shape(res: ResolverView, s: Seq<u8>, i: int) -> Seq<VertexShape> {
    match skip_from(s, i, false) {
        Some(p) => root_shape(res, s, p),
        None => Seq::empty(),
    }
}

/// The arena that a root from `i` gives: its subtrees, then the root.
pub open spec fn root_shape(res: ResolverView, s: Seq<u8>, i: int) -> Seq<VertexShape> {
    let cs = children_shape(res, s, i, 0);
    let left = vertex_shape(res, s, i + 1, 0).len() - 1;
    cs.push((Some((left, cs.len() - 1)), None))
}

/// Whether vertex `x` has the children and branch length value of `shape`.
pub open spec fn has_shape(x: Vertex, shape: VertexShape) -> bool {
    &&& match shape.0 {
        Some((a, b)) => x.spec_children() == Some((a as TreeIndex, b as TreeIndex)),
        None => x is Leaf,
    }
    &&& match x.spec_branch_length() {
        Some(bl) => shape.1 == Some(bl.spec_value()),
        None => shape.1 is None,
    }
}

/// Whether the arena `v`, from index `from` to its end, follows `shape`.
pub open spec fn shaped(v: Seq<Vertex>, from: int, shape: Seq<VertexShape>) -> bool {
    &&& v.len() == from + shape.len()
    &&& forall|k: int| 0 <= k < shape.len() ==> has_shape(#[trigger] v[from + k], shape[k])
}

/// A subtree that the text describes has one vertex fewer than twice its
/// labels.
proof fn lemma_vertex_shape_size(res: ResolverView, s: Seq<u8>, i: int, base: int)
    requires
        vertex_end(res, s, i) is Some,
    ensures
        vertex_shape(res, s, i, base).len() + 1 == 2 * vertex_tokens(res, s, i).len(),
    decreases s.len() - i, 1nat,
{
    if 0 <= i < s.len() && s[i] == OPEN_PAREN {
        lemma_children_shape_size(res, s, i, base);
    }
}

/// Children that the text describes have two vertices fewer than twice their
/// labels.
proof fn lemma_children_shape_size(res: ResolverView, s: Seq<u8>, i: int, base: int)
    requires
        children_end(res, s, i) is Some,
    ensures
        children_shape(res, s, i, base).len() + 2 == 2 * children_tokens(res, s, i).len(),
    decreases s.len() - i, 0nat,
{
    let e1 = vertex_end(res, s, i + 1).unwrap();
    lemma_vertex_shape_size(res, s, i + 1, base);
    let l = vertex_shape(res, s, i + 1, base);
    lemma_vertex_shape_size(res, s, e1 + 1, base + l.len());
}

/// The label that makes the vertex from `i` fail, when the first thing
/// that goes wrong in it is a label that the resolver does not know.
pub open spec fn vertex_unknown(res: ResolverView, s: Seq<u8>, i: int) -> Option<Seq<u8>>
    decreases s.len() - i, 1nat,
{
    if 0 <= i < s.len() && s[i] == OPEN_PAREN {
        children_unknown(res, s, i)
    } else {
        let e = label_end(s, i, newick_label_delimiters());
        if e != i && !res.knows(s.subrange(i, e)) {
            Some(s.subrange(i, e))
        } else {
            None
        }
    }
}

/// The label that makes the children from `i` fail, when the first thing
/// that goes wrong in them is a label that the resolver does not know.
pub open spec fn children_unknown(res: ResolverView, s: Seq<u8>, i: int) -> Option<Seq<u8>>
    decreases s.len() - i, 0nat,
{
    if !(0 <= i < s.len() && s[i] == OPEN_PAREN) {
        None
    } else {
        match vertex_end(res, s, i + 1) {
            None => vertex_unknown(res, s, i + 1),
            Some(e1) => if i + 1 <= e1 < s.len() && s[e1] == COMMA {
                match vertex_end(res, s, e1 + 1) {
                    None => vertex_unknown(res, s, e1 + 1),
                    Some(_) => None,
                }
            } else {
                None
            },
        }
    }
}

/// The label that makes a tree description from `i` fail first, when that
/// is what goes wrong.
pub open spec fn newick_unknown(res: ResolverView, s: Seq<u8>, i: int) -> Option<Seq<u8>> {
    match skip_from(s, i, false) {
        Some(p) => children_unknown(res, s, p),
        None => None,
    }
}

/// Whether `e` is the error for the unknown label `label`: an
/// invalid-tree-description error whose message names it.
pub open spec fn names_unknown(e: &ParsingError, res: ResolverView, label: Seq<u8>) -> bool {
    &&& e.spec_kind() == ParsingErrorType::InvalidNewickString(e.spec_kind()->InvalidNewickString_0)
    &&& e.spec_kind()->InvalidNewickString_0@ == if res is Indexed {
        missing_index_message(label)
    } else {
        missing_label_message(label)
    }
}

/// Whether the root that starts at `i` reads well up to a comment that is
/// never closed before its `;`.
pub open spec fn root_unclosed(res: ResolverView, s: Seq<u8>, i: int) -> bool {
    match children_end(res, s, i) {
        Some(j) => match branch_end(s, j) {
            Some(k) => skip_from(s, k, false) is None,
            None => false,
        },
        None => false,
    }
}

/// Whether a tree description from `i` runs into a comment that is never
/// closed: before the description, or before its closing `;`.
pub open spec fn newick_unclosed(res: ResolverView, s: Seq<u8>, i: int) -> bool {
    match skip_from(s, i, false) {
        None => true,
        Some(p) => root_unclosed(res, s, p),
    }
}

/// Where a tree description that starts at `i`, after blanks and comments,
/// ends; `None` when the text is not one, or when `res` cannot resolve one of
/// its labels.
pub open spec fn newick_end(res: ResolverView, s: Seq<u8>, i: int) -> Option<int> {
    match skip_from(s, i, false) {
        Some(p) => root_end(res, s, p),
        None => None,
    }
}

/// A resolver as contracts see it: labels that are taxon names; labels that
/// a translation maps to taxon names; or labels that a precomputed map sends
/// straight to dictionary indices.
pub enum ResolverView {
    Direct,
    Fresh(Seq<(Seq<u8>, Seq<u8>)>),
    Indexed(Seq<(Seq<u8>, LabelIndex)>),
}

impl ResolverView {
    /// Whether the resolver can resolve `label`.
    pub open spec fn knows(self, label: Seq<u8>) -> bool {
        match self {
            ResolverView::Direct => true,
            ResolverView::Fresh(t) => lookup_key(t, label) is Some,
            ResolverView::Indexed(m) => lookup_key(m, label) is Some,
        }
    }

    /// Every index that the resolver hands out directly is below `n`.
    pub open spec fn indices_below(self, n: nat) -> bool {
        match self {
            ResolverView::Indexed(m) => forall|i: int| 0 <= i < m.len() ==> (#[trigger] m[i]).1 < n,
            _ => true,
        }
    }
}

/// The value that the last entry with key `key` holds.
pub open spec fn lookup_key<V>(entries: Seq<(Seq<u8>, V)>, key: Seq<u8>) -> Option<V>
    decreases entries.len(),
{
    if entries.len() == 0 {
        None
    } else if entries.last().0 == key {
        Some(entries.last().1)
    } else {
        lookup_key(entries.drop_last(), key)
    }
}

/// The index of `name` in `labels`, when the names are distinct.
pub open spec fn label_position(labels: Seq<Seq<u8>>, name: Seq<u8>) -> LabelIndex {
    (choose|i: int| 0 <= i < labels.len() && labels[i] == name) as LabelIndex
}

/// The precomputed map built from the translation `t` over the dictionary
/// `labels`: each token with the index of its name.
pub open spec fn index_entries(t: Seq<(Seq<u8>, Seq<u8>)>, labels: Seq<Seq<u8>>) -> Seq<(Seq<u8>, LabelIndex)> {
    t.map_values(|e: (Seq<u8>, Seq<u8>)| (e.0, label_position(labels, e.1)))
}

/// A translation's entries as (token, name) pairs.
pub open spec fn translation_view(t: Seq<(Vec<u8>, Vec<u8>)>) -> Seq<(Seq<u8>, Seq<u8>)> {
    t.map_values(|e: (Vec<u8>, Vec<u8>)| (e.0@, e.1@))
}

/// A precomputed map's entries as (token, index) pairs.
pub open spec fn index_view(m: Seq<(Vec<u8>, LabelIndex)>) -> Seq<(Seq<u8>, LabelIndex)> {
    m.map_values(|e: (Vec<u8>, LabelIndex)| (e.0@, e.1))
}

proof fn lemma_lookup_translation(t: Seq<(Vec<u8>, Vec<u8>)>, key: Seq<u8>)
    ensures
        lookup(t, key) is Some ==> lookup_key(translation_view(t), key) == Some(lookup(t, key).unwrap()@),
        lookup(t, key) is None ==> lookup_key(translation_view(t), key) is None,
    decreases t.len(),
{
    if t.len() > 0 {
        assert(translation_view(t).drop_last() =~= translation_view(t.drop_last()));
        assert(translation_view(t).last() == (t.last().0@, t.last().1@));
        lemma_lookup_translation(t.drop_last(), key);
    }
}

proof fn lemma_lookup_index(m: Seq<(Vec<u8>, LabelIndex)>, key: Seq<u8>)
    ensures
        lookup_key(index_view(m), key) == lookup(m, key),
    decreases m.len(),
{
    if m.len() > 0 {
        assert(index_view(m).drop_last() =~= index_view(m.drop_last()));
        assert(index_view(m).last() == (m.last().0@, m.last().1));
        lemma_lookup_index(m.drop_last(), key);
    }
}

/// The value that the last entry with key `key` holds.
pub open spec fn lookup<V>(entries: Seq<(Vec<u8>, V)>, key: Seq<u8>) -> Option<V>
    decreases entries.len(),
{
    if entries.len() == 0 {
        None
    } else if entries.last().0@ == key {
        Some(entries.last().1)
    } else {
        lookup(entries.drop_last(), key)
    }
}

/// The detail of the error raised for a token that no translation lists.
pub open spec fn missing_label_message(label: Seq<u8>) -> Seq<char> {
    "Label '"@ + lossy_text(label) + "' not found in translation map"@
}

/// The detail of the error raised for a token that a precomputed map lacks.
pub open spec fn missing_index_message(label: Seq<u8>) -> Seq<char> {
    "Label '"@ + lossy_text(label) + "' not found in index map"@
}

/// Builds the message for a token that a precomputed map lacks.
fn missing_index(label: &[u8]) -> (r: String)
    ensures
        r@ == missing_index_message(label@),
{
    let mut msg = String::from_str("Label '");
    msg.append(text_of(label).as_str());
    msg.append("' not found in index map");
    msg
}

/// Finds the position of the last entry whose key is `key`.
fn find_entry<V>(entries: &Vec<(Vec<u8>, V)>, key: &[u8]) -> (r: Option<usize>)
    ensures
        r is None <==> lookup(entries@, key@) is None,
        r is Some ==> r.unwrap() < entries@.len() && entries@[r.unwrap() as int].1 == lookup(
            entries@,
            key@,
        ).unwrap(),
{
    let mut i = entries.len();
    assert(entries@.take(i as int) =~= entries@);
    while i > 0
        invariant
            i <= entries@.len(),
            lookup(entries@, key@) == lookup(entries@.take(i as int), key@),
        decreases i,
    {
        let ghost prefix = entries@.take(i as int);
        assert(prefix.drop_last() =~= entries@.take(i - 1));
        if same_bytes(entries[i - 1].0.as_slice(), key) {
            return Some(i - 1);
        }
        i = i - 1;
    }
    None
}

/// Builds the message for a token that no translation lists.
fn missing_label(label: &[u8]) -> (r: String)
    ensures
        r@ == missing_label_message(label@),
{
    let mut msg = String::from_str("Label '");
    msg.append(text_of(label).as_str());
    msg.append("' not found in translation map");
    msg
}

/// How the labels of a tree description become dictionary indices.
#[derive(Debug)]
pub enum LabelResolver {
    /// The label is the taxon name itself.
    LabelToIndex,
    /// The label is a token that the translation (token, name) maps to a
    /// taxon name; used for the first tree after a translation table.
    KeyToLabelToIndex { translation: Vec<(Vec<u8>, Vec<u8>)> },
    /// The label is a token mapped straight to its dictionary index; used for
    /// the later trees that share a translation table.
    KeyToIndex(Vec<(Vec<u8>, LabelIndex)>),
}

impl LabelResolver {
    /// What the resolver holds, as contracts see it.
    pub open spec fn spec_view(&self) -> ResolverView {
        match *self {
            LabelResolver::LabelToIndex => ResolverView::Direct,
            LabelResolver::KeyToLabelToIndex { translation } => ResolverView::Fresh(translation_view(translation@)),
            LabelResolver::KeyToIndex(m) => ResolverView::Indexed(index_view(m@)),
        }
    }

    /// What resolving `label` does to a dictionary holding `labels`: the
    /// dictionary's names afterwards and the name resolved, or `None` when
    /// the label is unknown (the dictionary then stays as it is).
    pub open spec fn spec_resolve(&self, labels: Seq<Seq<u8>>, label: Seq<u8>) -> Option<
        (Seq<Seq<u8>>, Seq<u8>),
    > {
        match self.spec_view() {
            ResolverView::Direct => Some((after_get_or_insert(labels, label), label)),
            ResolverView::Fresh(t) => match lookup_key(t, label) {
                Some(name) => Some((after_get_or_insert(labels, name), name)),
                None => None,
            },
            ResolverView::Indexed(m) => match lookup_key(m, label) {
                Some(i) => Some((labels, labels[i as int])),
                None => None,
            },
        }
    }

    /// Resolves a label to a dictionary index: directly for
    /// `LabelToIndex`; through the translation and then get-or-insert for
    /// `KeyToLabelToIndex`; by lookup for `KeyToIndex`. A token that the
    /// resolver does not know gives an invalid-tree-description error that
    /// names it.
    pub fn resolve_label(
        &self,
        leaf_label_map: &mut LeafLabelMap,
        parsed_label: &[u8],
        parser: &ByteParser,
    ) -> (r: Result<LabelIndex, ParsingError>)
        requires
            old(leaf_label_map).wf(),
            self.spec_view().indices_below(old(leaf_label_map).spec_labels().len()),
            parser.wf(),
        ensures
            final(leaf_label_map).wf(),
            match self.spec_resolve(old(leaf_label_map).spec_labels(), parsed_label@) {
                Some((labels, name)) => {
                    &&& r is Ok
                    &&& final(leaf_label_map).spec_labels() == labels
                    &&& r->Ok_0 < labels.len()
                    &&& labels[r->Ok_0 as int] == name
                    &&& self.spec_view() is Indexed ==> lookup_key(self.spec_view()->Indexed_0, parsed_label@) == Some(r->Ok_0)
                },
                None => {
                    &&& r is Err
                    &&& r->Err_0.spec_kind() == ParsingErrorType::InvalidNewickString(r->Err_0.spec_kind()->InvalidNewickString_0)
                    &&& r->Err_0.spec_kind()->InvalidNewickString_0@ == if self is KeyToIndex {
                        missing_index_message(parsed_label@)
                    } else {
                        missing_label_message(parsed_label@)
                    }
                    &&& r->Err_0.taken_from(parser)
                    &&& final(leaf_label_map).spec_labels() == old(leaf_label_map).spec_labels()
                },
            },
    {
        match self {
            LabelResolver::LabelToIndex => Ok(leaf_label_map.get_or_insert(parsed_label)),
            LabelResolver::KeyToLabelToIndex { translation } => {
                proof {
                    lemma_lookup_translation(translation@, parsed_label@);
                }
                match find_entry(translation, parsed_label) {
                    Some(k) => Ok(leaf_label_map.get_or_insert(translation[k].1.as_slice())),
                    None => Err(ParsingError::invalid_newick_string(parser, missing_label(parsed_label))),
                }
            },
            LabelResolver::KeyToIndex(index_map) => {
                proof {
                    lemma_lookup_index(index_map@, parsed_label@);
                }
                match find_entry(index_map, parsed_label) {
                    Some(k) => {
                        assert(index_view(index_map@)[k as int].1 == index_map@[k as int].1);
                        Ok(index_map[k].1)
                    },
                    None => Err(ParsingError::invalid_newick_string(parser, missing_index(parsed_label))),
                }
            },
        }
    }

    /// A resolver for tree descriptions that name taxa directly.
    pub fn new_label_to_index() -> (r: Self)
        ensures
            r is LabelToIndex,
    {
        LabelResolver::LabelToIndex
    }

    /// A resolver that maps tokens through `translation` and inserts the
    /// names it finds; for the first tree after a translation table.
    pub fn new_key_to_label_to_index(translation: Vec<(Vec<u8>, Vec<u8>)>) -> (r: Self)
        ensures
            r == (LabelResolver::KeyToLabelToIndex { translation }),
    {
        LabelResolver::KeyToLabelToIndex { translation }
    }

    /// A resolver that maps each token of `translation` straight to the index
    /// that its name has in `leaf_label_map`; for the later trees that share a
    /// translation table. Fails with an invalid-tree-description error when a
    /// name of the translation is not in the dictionary.
    pub fn new_key_to_index(
        translation: &Vec<(Vec<u8>, Vec<u8>)>,
        leaf_label_map: &LeafLabelMap,
        parser: &ByteParser,
    ) -> (r: Result<Self, ParsingError>)
        requires
            leaf_label_map.wf(),
            parser.wf(),
        ensures
            r is Ok <==> forall|i: int|
                0 <= i < translation@.len() ==> leaf_label_map.spec_labels().contains(
                    (#[trigger] translation@[i]).1@,
                ),
            r is Ok ==> r->Ok_0 is KeyToIndex && {
                let m = r->Ok_0->KeyToIndex_0@;
                &&& m.len() == translation@.len()
                &&& forall|i: int|
                    0 <= i < m.len() ==> {
                        &&& (#[trigger] m[i]).0@ == translation@[i].0@
                        &&& m[i].1 < leaf_label_map.spec_labels().len()
                        &&& leaf_label_map.spec_labels()[m[i].1 as int] == translation@[i].1@
                    }
            },
            r is Ok ==> r->Ok_0.spec_view() == ResolverView::Indexed(
                index_entries(translation_view(translation@), leaf_label_map.spec_labels()),
            ),
            r is Err ==> r->Err_0.spec_kind() is InvalidNewickString && r->Err_0.taken_from(parser),
    {
        let mut index_map: Vec<(Vec<u8>, LabelIndex)> = Vec::with_capacity(translation.len());
        let mut i: usize = 0;
        while i < translation.len()
            invariant
                leaf_label_map.wf(),
                parser.wf(),
                0 <= i <= translation@.len(),
                index_map@.len() == i,
                forall|k: int| 0 <= k < i ==> leaf_label_map.spec_labels().contains((#[trigger] translation@[k]).1@),
                forall|k: int|
                    0 <= k < i ==> {
                        &&& (#[trigger] index_map@[k]).0@ == translation@[k].0@
                        &&& index_map@[k].1 < leaf_label_map.spec_labels().len()
                        &&& leaf_label_map.spec_labels()[index_map@[k].1 as int] == translation@[k].1@
                    },
            decreases translation@.len() - i,
        {
            let key = &translation[i].0;
            let name = &translation[i].1;
            match leaf_label_map.get_index(name.as_slice()) {
                Some(index) => {
                    index_map.push((vstd::slice::slice_to_vec(key.as_slice()), index));
                },
                None => {
                    let mut msg = String::from_str("Label '");
                    msg.append(text_of(name.as_slice()).as_str());
                    msg.append("' not found in LeafLabelMap");
                    return Err(ParsingError::invalid_newick_string(parser, msg));
                },
            }
            i = i + 1;
        }
        proof {
            let labels = leaf_label_map.spec_labels();
            let tv = translation_view(translation@);
            assert forall|k: int| 0 <= k < index_map@.len() implies #[trigger] index_view(index_map@)[k]
                == index_entries(tv, labels)[k] by {
                let j = index_map@[k].1 as int;
                let c = choose|i: int| 0 <= i < labels.len() && labels[i] == tv[k].1;
                assert(labels[j] == tv[k].1);
                assert(c == j);
            }
            assert(index_view(index_map@) =~= index_entries(tv, labels));
        }
        Ok(LabelResolver::KeyToIndex(index_map))
    }
}

/// Parses a self-contained tree description into a tree and a fresh
/// dictionary whose labels are the taxon names, in order of first
/// appearance. `num_leaves` is a size hint.
pub fn parse_newick(parser: &mut ByteParser, num_leaves: usize) -> (r: Result<(Tree, LeafLabelMap), ParsingError>)
    requires
        old(parser).wf(),
    ensures
        final(parser).wf(),
        final(parser).input() == old(parser).input(),
        old(parser).pos() <= final(parser).pos(),
        r is Ok ==> {
            &&& r->Ok_0.0.is_complete()
            &&& r->Ok_0.1.wf()
            &&& r->Ok_0.0.labels_below(r->Ok_0.1.spec_labels().len())
        },
        r is Ok <==> newick_end(ResolverView::Direct, old(parser).input(), old(parser).pos()) is Some,
        r is Ok ==> final(parser).pos() == newick_end(ResolverView::Direct, old(parser).input(), old(parser).pos()).unwrap(),
        r is Ok ==> names_match(leaf_labels(r->Ok_0.0.spec_vertices()), newick_tokens(ResolverView::Direct, old(parser).input(), old(parser).pos()), ResolverView::Direct, r->Ok_0.1.spec_labels()),
        r is Ok ==> r->Ok_0.1.spec_labels() == insert_all(Seq::empty(), newick_tokens(ResolverView::Direct, old(parser).input(), old(parser).pos())),
        r is Err ==> (r->Err_0.spec_kind() is UnclosedComment <==> newick_unclosed(ResolverView::Direct, old(parser).input(), old(parser).pos())),
        r is Ok ==> shaped(r->Ok_0.0.spec_vertices(), 0, newick_shape(ResolverView::Direct, old(parser).input(), old(parser).pos())),
        r is Ok ==> r->Ok_0.0.spec_vertices().len() + 1 == 2 * r->Ok_0.0.spec_num_leaves(),
        r is Err ==> is_tree_error(r->Err_0.spec_kind()),
{
    let mut leaf_label_map = LeafLabelMap::new(num_leaves);
    let resolver = LabelResolver::new_label_to_index();
    match parse_newick_with_resolver(parser, num_leaves, &resolver, &mut leaf_label_map) {
        Ok(tree) => Ok((tree, leaf_label_map)),
        Err(e) => Err(e),
    }
}

/// Parses one tree description, resolving its labels with `resolver` into
/// the shared dictionary `leaf_label_map`. `num_leaves` is a size hint.
/// Blanks and comments may precede the description and its closing `;`.
pub fn parse_newick_with_resolver(
    parser: &mut ByteParser,
    num_leaves: usize,
    resolver: &LabelResolver,
    leaf_label_map: &mut LeafLabelMap,
) -> (r: Result<Tree, ParsingError>)
    requires
        old(parser).wf(),
        old(leaf_label_map).wf(),
        resolver.spec_view().indices_below(old(leaf_label_map).spec_labels().len()),
    ensures
        kept(old(parser), final(parser), old(leaf_label_map), final(leaf_label_map)),
        r is Ok ==> {
            &&& r->Ok_0.is_complete()
            &&& r->Ok_0.labels_below(final(leaf_label_map).spec_labels().len())
        },
        r is Ok <==> newick_end(resolver.spec_view(), old(parser).input(), old(parser).pos()) is Some,
        r is Ok ==> final(parser).pos() == newick_end(resolver.spec_view(), old(parser).input(), old(parser).pos()).unwrap(),
        r is Ok ==> names_match(leaf_labels(r->Ok_0.spec_vertices()), newick_tokens(resolver.spec_view(), old(parser).input(), old(parser).pos()), resolver.spec_view(), final(leaf_label_map).spec_labels()),
        r is Ok ==> final(leaf_label_map).spec_labels() == dictionary_after(resolver.spec_view(), old(leaf_label_map).spec_labels(), newick_tokens(resolver.spec_view(), old(parser).input(), old(parser).pos())),
        resolver.spec_view() is Indexed ==> final(leaf_label_map).spec_labels() == old(leaf_label_map).spec_labels(),
        r is Err ==> (r->Err_0.spec_kind() is UnclosedComment <==> newick_unclosed(resolver.spec_view(), old(parser).input(), old(parser).pos())),
        r is Ok ==> shaped(r->Ok_0.spec_vertices(), 0, newick_shape(resolver.spec_view(), old(parser).input(), old(parser).pos())),
        r is Err && newick_unknown(resolver.spec_view(), old(parser).input(), old(parser).pos()) is Some ==> names_unknown(&r->Err_0, resolver.spec_view(), newick_unknown(resolver.spec_view(), old(parser).input(), old(parser).pos()).unwrap()),
        r is Ok ==> r->Ok_0.spec_vertices().len() + 1 == 2 * r->Ok_0.spec_num_leaves(),
        r is Err ==> is_tree_error(r->Err_0.spec_kind()),
{
    let mut tree = Tree::new(num_leaves);
    match parser.skip_whitespace() {
        Ok(()) => {},
        Err(e) => return Err(e),
    }
    let ghost parser_after_skip = parser.pos();
    match parse_root(parser, &mut tree, resolver, leaf_label_map) {
        Ok(()) => {
            proof {
                let p = parser_after_skip;
                lemma_children_shape_size(resolver.spec_view(), parser.input(), p, 0);
                lemma_leaf_count_is_labels(tree.spec_vertices());
            }
            Ok(tree)
        },
        Err(e) => Err(e),
    }
}

#[verifier::rlimit(100)]
/// `root := children (':' branch_length)? ';'`, blanks allowed before `;`.
/// The root's own branch length is read and dropped.
fn parse_root(
    parser: &mut ByteParser,
    tree: &mut Tree,
    resolver: &LabelResolver,
    leaf_label_map: &mut LeafLabelMap,
) -> (r: Result<(), ParsingError>)
    requires
        ready(old(parser), old(tree), resolver, old(leaf_label_map)),
        old(tree).spec_vertices().len() == 0,
    ensures
        kept(old(parser), final(parser), old(leaf_label_map), final(leaf_label_map)),
        r is Ok ==> {
            &&& final(tree).is_complete()
            &&& final(tree).labels_below(final(leaf_label_map).spec_labels().len())
        },
        r is Ok <==> root_end(resolver.spec_view(), old(parser).input(), old(parser).pos()) is Some,
        r is Ok ==> final(parser).pos() == root_end(resolver.spec_view(), old(parser).input(), old(parser).pos()).unwrap(),
        r is Ok ==> names_match(leaf_labels(final(tree).spec_vertices()), children_tokens(resolver.spec_view(), old(parser).input(), old(parser).pos()), resolver.spec_view(), final(leaf_label_map).spec_labels()),
        r is Ok ==> final(leaf_label_map).spec_labels() == dictionary_after(resolver.spec_view(), old(leaf_label_map).spec_labels(), children_tokens(resolver.spec_view(), old(parser).input(), old(parser).pos())),
        resolver.spec_view() is Indexed ==> final(leaf_label_map).spec_labels() == old(leaf_label_map).spec_labels(),
        r is Ok ==> {
            let v = final(tree).spec_vertices();
            &&& v.len() >= 3
            &&& v.last()->Root_children.1 == v.len() - 2
            &&& v.last()->Root_children.0 < v.last()->Root_children.1
        },
        r is Err ==> (r->Err_0.spec_kind() is UnclosedComment <==> root_unclosed(resolver.spec_view(), old(parser).input(), old(parser).pos())),
        r is Ok ==> shaped(final(tree).spec_vertices(), 0, root_shape(resolver.spec_view(), old(parser).input(), old(parser).pos())),
        r is Err && children_unknown(resolver.spec_view(), old(parser).input(), old(parser).pos()) is Some ==> names_unknown(&r->Err_0, resolver.spec_view(), children_unknown(resolver.spec_view(), old(parser).input(), old(parser).pos()).unwrap()),
        r is Err ==> is_tree_error(r->Err_0.spec_kind()),
{
    let ghost t0 = *tree;
    let (left, right) = match parser_children(parser, tree, resolver, leaf_label_map) {
        Ok(c) => c,
        Err(e) => return Err(e),
    };
    assert(set![left, right].contains(left));
    assert(set![left, right].contains(right));
    if parser.peek_is(COLON) {
        match parse_branch_length(parser) {
            Ok(_) => {},
            Err(e) => return Err(e),
        }
    }
    match parser.skip_whitespace() {
        Ok(()) => {},
        Err(e) => return Err(e),
    }
    if !parser.consume_if(SEMICOLON) {
        return Err(expected(parser, "';' at end of tree"));
    }
    let ghost t1 = *tree;
    tree.add_root((left, right));
    proof {
        let cs = children_shape(resolver.spec_view(), old(parser).input(), old(parser).pos(), 0);
        let rs = root_shape(resolver.spec_view(), old(parser).input(), old(parser).pos());
        let v1 = t1.spec_vertices();
        let v = tree.spec_vertices();
        assert forall|k: int| 0 <= k < rs.len() implies has_shape(#[trigger] v[0 + k], rs[k]) by {
            if k < cs.len() {
                assert(has_shape(v1[0 + k], cs[k]));
                assert(rs[k] == cs[k]);
                if k == left || k == right {
                    assert(v[k] == with_parent(v1[k], v1.len() as TreeIndex));
                } else {
                    assert(v[k] == v1[k]);
                }
            }
        }
    }
    proof {
        let v1 = t1.spec_vertices();
        let n1 = v1.len() as TreeIndex;
        let v1a = v1.update(left as int, with_parent(v1[left as int], n1));
        lemma_leaf_labels_with_parent(v1, left as int, n1);
        assert(v1a[right as int] == v1[right as int]);
        lemma_leaf_labels_with_parent(v1a, right as int, n1);
        lemma_leaf_labels_push(v1a.update(right as int, with_parent(v1a[right as int], n1)), tree.spec_vertices().last());
        assert(tree.spec_vertices() == v1a.update(right as int, with_parent(v1a[right as int], n1)).push(tree.spec_vertices().last()));
        assert(leaf_labels(tree.spec_vertices()) == leaf_labels(v1));
        assert(leaf_labels(t0.spec_vertices()) =~= Seq::<LabelIndex>::empty());
        assert(leaf_labels(v1).subrange(0, leaf_labels(v1).len() as int) =~= leaf_labels(v1));
        let v = tree.spec_vertices();
        let n = t1.spec_vertices().len();
        assert forall|i: int| 0 <= i < v.len() && !(#[trigger] v[i] is Root) implies v[i].spec_parent() is Some by {
            if i != left && i != right {
                assert(v[i] == t1.spec_vertices()[i]);
            }
        }
        assert(tree.labels_below(leaf_label_map.spec_labels().len())) by {
            assert forall|i: int| 0 <= i < v.len() && (#[trigger] v[i]) is Leaf implies v[i]->Leaf_label_index
                < leaf_label_map.spec_labels().len() by {
                if i != left && i != right && i < n {
                    assert(v[i] == t1.spec_vertices()[i]);
                }
            }
        }
    }
    Ok(())
}

#[verifier::rlimit(80)]
/// `children := '(' vertex ',' vertex ')'`; returns the two vertices.
fn parser_children(
    parser: &mut ByteParser,
    tree: &mut Tree,
    resolver: &LabelResolver,
    leaf_label_map: &mut LeafLabelMap,
) -> (r: Result<(TreeIndex, TreeIndex), ParsingError>)
    requires
        ready(old(parser), old(tree), resolver, old(leaf_label_map)),
        old(tree).spec_vertices().len() <= old(parser).pos(),
    ensures
        kept(old(parser), final(parser), old(leaf_label_map), final(leaf_label_map)),
        r is Ok ==> {
            &&& grown(old(tree), final(tree), final(parser), final(leaf_label_map), set![r->Ok_0.0, r->Ok_0.1])
            &&& r->Ok_0.0 != r->Ok_0.1
            &&& final(tree).spec_vertices().len() + 1 < final(parser).pos()
        },
        r is Ok <==> children_end(resolver.spec_view(), old(parser).input(), old(parser).pos()) is Some,
        r is Ok ==> final(parser).pos() == children_end(resolver.spec_view(), old(parser).input(), old(parser).pos()).unwrap(),
        r is Ok ==> leaves_named(old(tree), final(tree), children_tokens(resolver.spec_view(), old(parser).input(), old(parser).pos()), resolver.spec_view(), final(leaf_label_map).spec_labels()),
        r is Ok ==> final(leaf_label_map).spec_labels() == dictionary_after(resolver.spec_view(), old(leaf_label_map).spec_labels(), children_tokens(resolver.spec_view(), old(parser).input(), old(parser).pos())),
        resolver.spec_view() is Indexed ==> final(leaf_label_map).spec_labels() == old(leaf_label_map).spec_labels(),
        r is Ok ==> r->Ok_0.0 < r->Ok_0.1 && r->Ok_0.1 + 1 == final(tree).spec_vertices().len(),
        r is Err && children_unknown(resolver.spec_view(), old(parser).input(), old(parser).pos()) is Some ==> names_unknown(&r->Err_0, resolver.spec_view(), children_unknown(resolver.spec_view(), old(parser).input(), old(parser).pos()).unwrap()),
        r is Err ==> r->Err_0.spec_kind() is InvalidNewickString,
        r is Ok ==> shaped(final(tree).spec_vertices(), old(tree).spec_vertices().len() as int, children_shape(resolver.spec_view(), old(parser).input(), old(parser).pos(), old(tree).spec_vertices().len() as int)),
        r is Ok ==> r->Ok_0.0 + 1 == old(tree).spec_vertices().len() + vertex_shape(resolver.spec_view(), old(parser).input(), old(parser).pos() + 1, old(tree).spec_vertices().len() as int).len(),
    decreases old(parser).input().len() - old(parser).pos(), 0nat,
{
    if !parser.consume_if(OPEN_PAREN) {
        return Err(expected(parser, "'(' before children"));
    }
    let ghost t0 = *tree;
    let left = match parse_vertex(parser, tree, resolver, leaf_label_map) {
        Ok(i) => i,
        Err(e) => return Err(e),
    };
    assert(set![left].contains(left));
    let ghost e1 = parser.pos();
    if !parser.consume_if(COMMA) {
        return Err(expected(parser, "',' between children"));
    }
    let ghost t1 = *tree;
    let ghost m1 = leaf_label_map.spec_labels();
    let right = match parse_vertex(parser, tree, resolver, leaf_label_map) {
        Ok(i) => i,
        Err(e) => return Err(e),
    };
    assert(set![right].contains(right));
    if !parser.consume_if(CLOSE_PAREN) {
        return Err(expected(parser, "')' after children"));
    }
    proof {
        let base = t0.spec_vertices().len() as int;
        let sl = vertex_shape(resolver.spec_view(), old(parser).input(), old(parser).pos() + 1, base);
        let sr = vertex_shape(resolver.spec_view(), old(parser).input(), e1 + 1, t1.spec_vertices().len() as int);
        assert(children_shape(resolver.spec_view(), old(parser).input(), old(parser).pos(), base) == sl + sr);
        let v2 = tree.spec_vertices();
        let v1 = t1.spec_vertices();
        assert forall|k: int| 0 <= k < (sl + sr).len() implies has_shape(#[trigger] v2[base + k], (sl + sr)[k]) by {
            if k < sl.len() {
                assert(has_shape(v1[base + k], sl[k]));
                assert(v2[base + k] == v1[base + k]);
            } else {
                let k2 = k - sl.len();
                assert(has_shape(v2[v1.len() + k2], sr[k2]));
                assert(base + k == v1.len() + k2);
            }
        }
    }
    proof {
        let ghost l0 = leaf_labels(t0.spec_vertices());
        let ghost l1 = leaf_labels(t1.spec_vertices());
        let ghost l2 = leaf_labels(tree.spec_vertices());
        let a = l1.subrange(l0.len() as int, l1.len() as int);
        let b = l2.subrange(l1.len() as int, l2.len() as int);
        lemma_dictionary_after_concat(resolver.spec_view(), old(leaf_label_map).spec_labels(), vertex_tokens(resolver.spec_view(), old(parser).input(), old(parser).pos() + 1), vertex_tokens(resolver.spec_view(), old(parser).input(), e1 + 1));
        lemma_names_match_extends(a, vertex_tokens(resolver.spec_view(), old(parser).input(), old(parser).pos() + 1), resolver.spec_view(), m1, leaf_label_map.spec_labels());
        lemma_names_match_concat(a, vertex_tokens(resolver.spec_view(), old(parser).input(), old(parser).pos() + 1), b, vertex_tokens(resolver.spec_view(), old(parser).input(), e1 + 1), resolver.spec_view(), leaf_label_map.spec_labels());
        assert(l2.subrange(0, l0.len() as int) =~= l0);
        assert(l2.subrange(l0.len() as int, l2.len() as int) =~= a + b);
        let v = tree.spec_vertices();
        assert(v[left as int] == t1.spec_vertices()[left as int]);
        assert forall|j: int|
            t0.spec_vertices().len() <= j < v.len() && !set![left, right].contains(j as TreeIndex) implies (#[trigger] v[j].spec_parent()) is Some by {
            if j < t1.spec_vertices().len() {
                assert(v[j] == t1.spec_vertices()[j]);
                assert(!set![left].contains(j as TreeIndex));
            } else {
                assert(!set![right].contains(j as TreeIndex));
            }
        }
        assert forall|j: TreeIndex| #[trigger] set![left, right].contains(j) implies t0.spec_vertices().len() <= j && tree.is_unlinked(j) by {
            if j == left {
                assert(set![left].contains(j));
            } else {
                assert(set![right].contains(j));
            }
        }
    }
    Ok((left, right))
}

/// `vertex := children branch_length? | label branch_length?`
fn parse_vertex(
    parser: &mut ByteParser,
    tree: &mut Tree,
    resolver: &LabelResolver,
    leaf_label_map: &mut LeafLabelMap,
) -> (r: Result<TreeIndex, ParsingError>)
    requires
        ready(old(parser), old(tree), resolver, old(leaf_label_map)),
        old(tree).spec_vertices().len() < old(parser).pos(),
    ensures
        kept(old(parser), final(parser), old(leaf_label_map), final(leaf_label_map)),
        r is Ok ==> grown(old(tree), final(tree), final(parser), final(leaf_label_map), set![r->Ok_0]),
        r is Ok <==> vertex_end(resolver.spec_view(), old(parser).input(), old(parser).pos()) is Some,
        r is Ok ==> final(parser).pos() == vertex_end(resolver.spec_view(), old(parser).input(), old(parser).pos()).unwrap(),
        r is Ok ==> leaves_named(old(tree), final(tree), vertex_tokens(resolver.spec_view(), old(parser).input(), old(parser).pos()), resolver.spec_view(), final(leaf_label_map).spec_labels()),
        r is Ok ==> final(leaf_label_map).spec_labels() == dictionary_after(resolver.spec_view(), old(leaf_label_map).spec_labels(), vertex_tokens(resolver.spec_view(), old(parser).input(), old(parser).pos())),
        resolver.spec_view() is Indexed ==> final(leaf_label_map).spec_labels() == old(leaf_label_map).spec_labels(),
        r is Ok ==> r->Ok_0 + 1 == final(tree).spec_vertices().len(),
        r is Err && vertex_unknown(resolver.spec_view(), old(parser).input(), old(parser).pos()) is Some ==> names_unknown(&r->Err_0, resolver.spec_view(), vertex_unknown(resolver.spec_view(), old(parser).input(), old(parser).pos()).unwrap()),
        r is Err ==> r->Err_0.spec_kind() is InvalidNewickString,
        r is Ok ==> shaped(final(tree).spec_vertices(), old(tree).spec_vertices().len() as int, vertex_shape(resolver.spec_view(), old(parser).input(), old(parser).pos(), old(tree).spec_vertices().len() as int)),
    decreases old(parser).input().len() - old(parser).pos(), 2nat,
{
    if parser.peek_is(OPEN_PAREN) {
        parse_internal_vertex(parser, tree, resolver, leaf_label_map)
    } else {
        parse_leaf(parser, tree, resolver, leaf_label_map)
    }
}

#[verifier::rlimit(100)]
/// An internal vertex: its children, then an optional branch length.
fn parse_internal_vertex(
    parser: &mut ByteParser,
    tree: &mut Tree,
    resolver: &LabelResolver,
    leaf_label_map: &mut LeafLabelMap,
) -> (r: Result<TreeIndex, ParsingError>)
    requires
        ready(old(parser), old(tree), resolver, old(leaf_label_map)),
        old(parser).spec_peek() == Some(OPEN_PAREN),
        old(tree).spec_vertices().len() < old(parser).pos(),
    ensures
        kept(old(parser), final(parser), old(leaf_label_map), final(leaf_label_map)),
        r is Ok ==> grown(old(tree), final(tree), final(parser), final(leaf_label_map), set![r->Ok_0]),
        r is Ok <==> vertex_end(resolver.spec_view(), old(parser).input(), old(parser).pos()) is Some,
        r is Ok ==> final(parser).pos() == vertex_end(resolver.spec_view(), old(parser).input(), old(parser).pos()).unwrap(),
        r is Ok ==> leaves_named(old(tree), final(tree), vertex_tokens(resolver.spec_view(), old(parser).input(), old(parser).pos()), resolver.spec_view(), final(leaf_label_map).spec_labels()),
        r is Ok ==> final(leaf_label_map).spec_labels() == dictionary_after(resolver.spec_view(), old(leaf_label_map).spec_labels(), vertex_tokens(resolver.spec_view(), old(parser).input(), old(parser).pos())),
        resolver.spec_view() is Indexed ==> final(leaf_label_map).spec_labels() == old(leaf_label_map).spec_labels(),
        r is Ok ==> r->Ok_0 + 1 == final(tree).spec_vertices().len(),
        r is Err && vertex_unknown(resolver.spec_view(), old(parser).input(), old(parser).pos()) is Some ==> names_unknown(&r->Err_0, resolver.spec_view(), vertex_unknown(resolver.spec_view(), old(parser).input(), old(parser).pos()).unwrap()),
        r is Err ==> r->Err_0.spec_kind() is InvalidNewickString,
        r is Ok ==> shaped(final(tree).spec_vertices(), old(tree).spec_vertices().len() as int, vertex_shape(resolver.spec_view(), old(parser).input(), old(parser).pos(), old(tree).spec_vertices().len() as int)),
    decreases old(parser).input().len() - old(parser).pos(), 1nat,
{
    let ghost t0 = *tree;
    let (left, right) = match parser_children(parser, tree, resolver, leaf_label_map) {
        Ok(c) => c,
        Err(e) => return Err(e),
    };
    assert(set![left, right].contains(left));
    assert(set![left, right].contains(right));
    let branch_length = match parse_branch_length(parser) {
        Ok(b) => b,
        Err(e) => return Err(e),
    };
    let ghost t1 = *tree;
    let index = tree.add_internal_vertex((left, right), branch_length);
    proof {
        let v1 = t1.spec_vertices();
        let v1a = v1.update(left as int, with_parent(v1[left as int], index));
        lemma_leaf_labels_with_parent(v1, left as int, index);
        assert(v1a[right as int] == v1[right as int]);
        lemma_leaf_labels_with_parent(v1a, right as int, index);
        lemma_leaf_labels_push(v1a.update(right as int, with_parent(v1a[right as int], index)), tree.spec_vertices().last());
        assert(tree.spec_vertices() == v1a.update(right as int, with_parent(v1a[right as int], index)).push(tree.spec_vertices().last()));
        assert(leaf_labels(tree.spec_vertices()) == leaf_labels(v1));
        let v = tree.spec_vertices();
        assert forall|j: int|
            t0.spec_vertices().len() <= j < v.len() && !set![index].contains(j as TreeIndex) implies (#[trigger] v[j].spec_parent()) is Some by {
            if j != left && j != right {
                assert(v[j] == t1.spec_vertices()[j]);
                assert(!set![left, right].contains(j as TreeIndex));
            }
        }
        assert forall|j: int| 0 <= j < t0.spec_vertices().len() implies #[trigger] v[j] == t0.spec_vertices()[j] by {
            assert(v[j] == t1.spec_vertices()[j]);
        }
        assert forall|i: int| 0 <= i < v.len() && (#[trigger] v[i]) is Leaf implies v[i]->Leaf_label_index
            < leaf_label_map.spec_labels().len() by {
            if i != left && i != right && i < t1.spec_vertices().len() {
                assert(v[i] == t1.spec_vertices()[i]);
            }
        }
    }
    Ok(index)
}

#[verifier::rlimit(100)]
/// A leaf: a non-empty label, resolved to a dictionary index, then an
/// optional branch length.
fn parse_leaf(
    parser: &mut ByteParser,
    tree: &mut Tree,
    resolver: &LabelResolver,
    leaf_label_map: &mut LeafLabelMap,
) -> (r: Result<TreeIndex, ParsingError>)
    requires
        ready(old(parser), old(tree), resolver, old(leaf_label_map)),
        old(tree).spec_vertices().len() < old(parser).pos(),
        old(parser).spec_peek() != Some(OPEN_PAREN),
    ensures
        kept(old(parser), final(parser), old(leaf_label_map), final(leaf_label_map)),
        r is Ok ==> grown(old(tree), final(tree), final(parser), final(leaf_label_map), set![r->Ok_0]),
        r is Ok <==> vertex_end(resolver.spec_view(), old(parser).input(), old(parser).pos()) is Some,
        r is Ok ==> final(parser).pos() == vertex_end(resolver.spec_view(), old(parser).input(), old(parser).pos()).unwrap(),
        r is Ok ==> leaves_named(old(tree), final(tree), vertex_tokens(resolver.spec_view(), old(parser).input(), old(parser).pos()), resolver.spec_view(), final(leaf_label_map).spec_labels()),
        r is Ok ==> final(leaf_label_map).spec_labels() == dictionary_after(resolver.spec_view(), old(leaf_label_map).spec_labels(), vertex_tokens(resolver.spec_view(), old(parser).input(), old(parser).pos())),
        resolver.spec_view() is Indexed ==> final(leaf_label_map).spec_labels() == old(leaf_label_map).spec_labels(),
        r is Ok ==> r->Ok_0 + 1 == final(tree).spec_vertices().len(),
        r is Err ==> *final(tree) == *old(tree),
        r is Err && vertex_unknown(resolver.spec_view(), old(parser).input(), old(parser).pos()) is Some ==> names_unknown(&r->Err_0, resolver.spec_view(), vertex_unknown(resolver.spec_view(), old(parser).input(), old(parser).pos()).unwrap()),
        r is Err ==> r->Err_0.spec_kind() is InvalidNewickString,
        r is Ok ==> shaped(final(tree).spec_vertices(), old(tree).spec_vertices().len() as int, vertex_shape(resolver.spec_view(), old(parser).input(), old(parser).pos(), old(tree).spec_vertices().len() as int)),
{
    let delimiters = label_delimiters();
    proof {
        lemma_label_end_bounds(parser.input(), parser.pos(), delimiters@);
    }
    let label = parser.parse_label(delimiters.as_slice());
    if label.len() == 0 {
        return Err(expected(parser, "a label"));
    }
    let label_index = match resolver.resolve_label(leaf_label_map, label.as_slice(), parser) {
        Ok(i) => i,
        Err(e) => return Err(e),
    };
    let branch_length = match parse_branch_length(parser) {
        Ok(b) => b,
        Err(e) => return Err(e),
    };
    let ghost t0 = *tree;
    let index = tree.add_leaf(branch_length, label_index);
    proof {
        lemma_dictionary_after_one(resolver.spec_view(), old(leaf_label_map).spec_labels(), label@);
        let l0 = leaf_labels(t0.spec_vertices());
        lemma_leaf_labels_push(t0.spec_vertices(), tree.spec_vertices().last());
        assert(tree.spec_vertices() == t0.spec_vertices().push(tree.spec_vertices().last()));
        let l1 = leaf_labels(tree.spec_vertices());
        assert(l1.subrange(0, l0.len() as int) =~= l0);
        assert(l1.subrange(l0.len() as int, l1.len() as int) =~= seq![label_index]);
        let v = tree.spec_vertices();
        assert forall|i: int| 0 <= i < v.len() && (#[trigger] v[i]) is Leaf implies v[i]->Leaf_label_index
            < leaf_label_map.spec_labels().len() by {
            if i < t0.spec_vertices().len() {
                assert(v[i] == t0.spec_vertices()[i]);
            }
        }
        assert(set![index].contains(index));
    }
    Ok(index)
}

/// `branch_length := ':' numeral`, optional: without a `:` under the
/// cursor nothing is read and `None` is returned. The numeral is the run of
/// numeral bytes after the `:`; one that is malformed, below zero, or too
/// large to be a finite double gives an invalid-tree-description error.
pub fn parse_branch_length(parser: &mut ByteParser) -> (r: Result<Option<BranchLength>, ParsingError>)
    requires
        old(parser).wf(),
    ensures
        final(parser).wf(),
        final(parser).input() == old(parser).input(),
        old(parser).pos() <= final(parser).pos(),
        r is Ok <==> branch_end(old(parser).input(), old(parser).pos()) is Some,
        r is Ok ==> final(parser).pos() == branch_end(old(parser).input(), old(parser).pos()).unwrap(),
        old(parser).spec_peek() != Some(COLON) ==> r is Ok && r->Ok_0 is None && final(parser).pos()
            == old(parser).pos(),
        old(parser).spec_peek() == Some(COLON) ==> {
            let s = old(parser).input();
            let e = numeral_run_end(s, old(parser).pos() + 1);
            &&& final(parser).pos() == e
            &&& match spec_decimal(s.subrange(old(parser).pos() + 1, e)) {
                Some(d) => if d.is_negative() || !is_finite_decimal(d) {
                    r is Err && r->Err_0.spec_kind() == ParsingErrorType::InvalidNewickString(
                        r->Err_0.spec_kind()->InvalidNewickString_0,
                    ) && r->Err_0.spec_kind()->InvalidNewickString_0@ == "Branch length must be non-negative and finite, got "@
                        + lossy_text(s.subrange(old(parser).pos() + 1, e))
                } else {
                    r is Ok && r->Ok_0 is Some && r->Ok_0->Some_0.spec_value() == d
                },
                None => r is Err && r->Err_0.spec_kind() == ParsingErrorType::InvalidNewickString(
                    r->Err_0.spec_kind()->InvalidNewickString_0,
                ) && r->Err_0.spec_kind()->InvalidNewickString_0@ == "Invalid branch length: "@ + lossy_text(
                    s.subrange(old(parser).pos() + 1, e),
                ),
            }
        },
        r is Err ==> r->Err_0.taken_from(final(parser)),
{
    if !parser.consume_if(COLON) {
        return Ok(None);
    }
    let start = parser.position();
    loop
        invariant
            parser.wf(),
            parser.input() == old(parser).input(),
            start == old(parser).pos() + 1,
            start <= parser.pos(),
            numeral_run_end(parser.input(), parser.pos()) == numeral_run_end(parser.input(), start as int),
        ensures
            parser.wf(),
            parser.input() == old(parser).input(),
            start <= parser.pos(),
            parser.pos() == numeral_run_end(parser.input(), start as int),
        decreases parser.input().len() - parser.pos(),
    {
        match parser.peek() {
            Some(b) => {
                if (b >= 48 && b <= 57) || b == 46 || b == 45 || b == 43 || b == 101 || b == 69 {
                    parser.next();
                } else {
                    break;
                }
            },
            None => break,
        }
    }
    let text = parser.consumed_since(start);
    match parse_decimal(text) {
        Some(d) => match BranchLength::new(d) {
            Some(b) => Ok(Some(b)),
            None => {
                let mut msg = String::from_str("Branch length must be non-negative and finite, got ");
                msg.append(text_of(text).as_str());
                Err(ParsingError::invalid_newick_string(parser, msg))
            },
        },
        None => {
            let mut msg = String::from_str("Invalid branch length: ");
            msg.append(text_of(text).as_str());
            Err(ParsingError::invalid_newick_string(parser, msg))
        },
    }
}

} // verus!
