//! Arena-stored binary trees and the taxon-name dictionary that they share.
use crate::model::vertex::{BranchLength, Vertex, NO_PARENT_SET};
use crate::parser::byte_parser::same_bytes;
use vstd::prelude::*;
use vstd::slice::slice_to_vec;

verus! {

/// Position of a vertex in its tree's arena.
pub type TreeIndex = usize;

/// Position of a taxon name in the label dictionary.
pub type LabelIndex = usize;

/// Number of leaves among `v`.
pub open spec fn leaf_count(v: Seq<Vertex>) -> nat
    decreases v.len(),
{
    if v.len() == 0 {
        0
    } else {
        leaf_count(v.drop_last()) + if v.last() is Leaf {
            1nat
        } else {
            0nat
        }
    }
}

/// Appending one vertex adds one leaf exactly when that vertex is a leaf.
pub proof fn lemma_leaf_count_push(v: Seq<Vertex>, x: Vertex)
    ensures
        leaf_count(v.push(x)) == leaf_count(v) + if x is Leaf {
            1nat
        } else {
            0nat
        },
{
    assert(v.push(x).drop_last() =~= v);
}

/// Replacing a vertex by one of the same kind keeps the number of leaves.
pub proof fn lemma_leaf_count_update(v: Seq<Vertex>, i: int, x: Vertex)
    requires
        0 <= i < v.len(),
        (x is Leaf) == (v[i] is Leaf),
    ensures
        leaf_count(v.update(i, x)) == leaf_count(v),
    decreases v.len(),
{
    if i < v.len() - 1 {
        assert(v.update(i, x).drop_last() =~= v.drop_last().update(i, x));
        lemma_leaf_count_update(v.drop_last(), i, x);
    } else {
        assert(v.update(i, x).drop_last() =~= v.drop_last());
    }
}

/// There are never more leaves than vertices.
pub proof fn lemma_leaf_count_bound(v: Seq<Vertex>)
    ensures
        leaf_count(v) <= v.len(),
    decreases v.len(),
{
    if v.len() > 0 {
        lemma_leaf_count_bound(v.drop_last());
    }
}

/// The label indices of the leaves among `v`, in arena order.
pub open spec fn leaf_labels(v: Seq<Vertex>) -> Seq<LabelIndex>
    decreases v.len(),
{
    if v.len() == 0 {
        Seq::empty()
    } else {
        leaf_labels(v.drop_last()) + match v.last() {
            Vertex::Leaf { label_index, .. } => seq![label_index],
            _ => Seq::empty(),
        }
    }
}

/// The number of leaves is the number of leaf label indices.
pub proof fn lemma_leaf_count_is_labels(v: Seq<Vertex>)
    ensures
        leaf_count(v) == leaf_labels(v).len(),
    decreases v.len(),
{
    if v.len() > 0 {
        lemma_leaf_count_is_labels(v.drop_last());
    }
}

/// Appending a vertex appends its label index when it is a leaf.
pub proof fn lemma_leaf_labels_push(v: Seq<Vertex>, x: Vertex)
    ensures
        leaf_labels(v.push(x)) == leaf_labels(v) + match x {
            Vertex::Leaf { label_index, .. } => seq![label_index],
            _ => Seq::empty(),
        },
{
    assert(v.push(x).drop_last() =~= v);
}

/// Setting a parent link keeps the leaves' label indices.
pub proof fn lemma_leaf_labels_with_parent(v: Seq<Vertex>, i: int, parent: TreeIndex)
    requires
        0 <= i < v.len(),
    ensures
        leaf_labels(v.update(i, with_parent(v[i], parent))) == leaf_labels(v),
    decreases v.len(),
{
    let x = with_parent(v[i], parent);
    if i < v.len() - 1 {
        assert(v.update(i, x).drop_last() =~= v.drop_last().update(i, x));
        lemma_leaf_labels_with_parent(v.drop_last(), i, parent);
    } else {
        assert(v.update(i, x).drop_last() =~= v.drop_last());
    }
}

/// `v` with its parent link set to `parent`; a root is returned unchanged.
pub open spec fn with_parent(v: Vertex, parent: TreeIndex) -> Vertex {
    match v {
        Vertex::Internal { index, children, branch_length, .. } => Vertex::Internal {
            index,
            parent,
            children,
            branch_length,
        },
        Vertex::Leaf { index, label_index, branch_length, .. } => Vertex::Leaf {
            index,
            label_index,
            parent,
            branch_length,
        },
        Vertex::Root { .. } => v,
    }
}

/// A binary tree stored as an arena of vertices, built bottom-up: children
/// are appended before their parent, and the root comes last.
#[derive(Debug)]
pub struct Tree {
    vertices: Vec<Vertex>,
    root: Option<TreeIndex>,
    num_leaves: usize,
}

impl Tree {
    /// The arena, in order of appending.
    pub closed spec fn spec_vertices(&self) -> Seq<Vertex> {
        self.vertices@
    }

    /// The root's index, once the root has been appended.
    pub closed spec fn spec_root(&self) -> Option<TreeIndex> {
        self.root
    }

    /// The leaf count that the tree reports.
    pub closed spec fn spec_num_leaves(&self) -> nat {
        self.num_leaves as nat
    }

    /// The arena's structure while the tree is built: each vertex sits at its
    /// own index; children come before their parent, are two distinct vertices,
    /// and point back to it; a set parent link points forward to a vertex that
    /// lists the linked vertex as a child; the root, once there, is the last
    /// vertex and the only one of its kind; the leaf count is exact.
    pub open spec fn wf(&self) -> bool {
        let v = self.spec_vertices();
        &&& v.len() < usize::MAX
        &&& forall|i: int| 0 <= i < v.len() ==> #[trigger] v[i].spec_index() == i
        &&& forall|i: int|
            0 <= i < v.len() && (#[trigger] v[i].spec_children()) is Some ==> {
                let (a, b) = v[i].spec_children().unwrap();
                &&& a < i && b < i && a != b
                &&& v[a as int].spec_parent() == Some(i as TreeIndex)
                &&& v[b as int].spec_parent() == Some(i as TreeIndex)
            }
        &&& forall|j: int|
            0 <= j < v.len() && (#[trigger] v[j].spec_parent()) is Some ==> {
                let p = v[j].spec_parent().unwrap();
                &&& j < p < v.len()
                &&& v[p as int].spec_children() is Some
                &&& (v[p as int].spec_children().unwrap().0 == j || v[p as int].spec_children().unwrap().1 == j)
            }
        &&& forall|i: int| 0 <= i < v.len() && #[trigger] v[i] is Root ==> self.spec_root() == Some(i as TreeIndex)
        &&& self.spec_root() is Some ==> {
            &&& v.len() > 0
            &&& self.spec_root().unwrap() == v.len() - 1
            &&& v.last() is Root
        }
        &&& self.spec_num_leaves() == leaf_count(v)
    }

    /// Whether `i` names a vertex that can become a child of a new vertex: it
    /// exists, is not the root, and has no parent yet.
    pub open spec fn is_unlinked(&self, i: TreeIndex) -> bool {
        &&& i < self.spec_vertices().len()
        &&& !(self.spec_vertices()[i as int] is Root)
        &&& self.spec_vertices()[i as int].spec_parent() is None
    }

    /// The structural validity that [`Tree::is_valid`] checks: every non-root
    /// vertex has its parent set, every index referenced is in range, and the
    /// leaf count equals the number of leaves.
    pub open spec fn spec_is_valid(&self) -> bool {
        let v = self.spec_vertices();
        &&& forall|i: int|
            0 <= i < v.len() && !(#[trigger] v[i] is Root) ==> v[i].spec_parent() is Some
        &&& forall|i: int|
            0 <= i < v.len() && (#[trigger] v[i].spec_parent()) is Some ==> v[i].spec_parent().unwrap() < v.len()
        &&& forall|i: int|
            0 <= i < v.len() && (#[trigger] v[i].spec_children()) is Some ==> {
                &&& v[i].spec_children().unwrap().0 < v.len()
                &&& v[i].spec_children().unwrap().1 < v.len()
            }
        &&& self.spec_num_leaves() == leaf_count(v)
    }

    /// Every leaf's label index is below `n`.
    pub open spec fn labels_below(&self, n: nat) -> bool {
        forall|i: int|
            0 <= i < self.spec_vertices().len() && (#[trigger] self.spec_vertices()[i]) is Leaf
                ==> self.spec_vertices()[i]->Leaf_label_index < n
    }

    /// A finished tree: well formed, rooted, and with every parent link set.
    pub open spec fn is_complete(&self) -> bool {
        &&& self.wf()
        &&& self.spec_root() is Some
        &&& self.spec_is_valid()
    }

    /// Creates an empty tree; `num_leaves` is a hint for the room to reserve.
    pub fn new(num_leaves: usize) -> (r: Tree)
        ensures
            r.wf(),
            r.spec_vertices() == Seq::<Vertex>::empty(),
            r.spec_root() is None,
    {
        let r = Tree { vertices: Vec::with_capacity(num_leaves), root: None, num_leaves: 0 };
        assert(r.vertices@ =~= Seq::<Vertex>::empty());
        r
    }

    /// Appends a leaf whose parent is not linked yet, and returns its index.
    pub fn add_leaf(&mut self, branch_length: Option<BranchLength>, label_index: LabelIndex) -> (r:
        TreeIndex)
        requires
            old(self).wf(),
            old(self).spec_root() is None,
            old(self).spec_vertices().len() + 1 < usize::MAX,
        ensures
            final(self).wf(),
            final(self).spec_root() is None,
            r == old(self).spec_vertices().len(),
            final(self).spec_vertices() == old(self).spec_vertices().push(
                Vertex::Leaf { index: r, label_index, parent: NO_PARENT_SET, branch_length },
            ),
    {
        let index = self.vertices.len();
        let leaf = Vertex::new_leaf(index, branch_length, label_index);
        proof {
            lemma_leaf_count_bound(self.vertices@);
            lemma_leaf_count_push(self.vertices@, leaf);
        }
        self.vertices.push(leaf);
        self.num_leaves = self.num_leaves + 1;
        index
    }

    /// Appends an internal vertex over two unlinked vertices, links both to it,
    /// and returns its index.
    pub fn add_internal_vertex(
        &mut self,
        children: (TreeIndex, TreeIndex),
        branch_length: Option<BranchLength>,
    ) -> (r: TreeIndex)
        requires
            old(self).wf(),
            old(self).spec_root() is None,
            old(self).is_unlinked(children.0),
            old(self).is_unlinked(children.1),
            children.0 != children.1,
            old(self).spec_vertices().len() + 1 < usize::MAX,
        ensures
            final(self).wf(),
            final(self).spec_root() is None,
            r == old(self).spec_vertices().len(),
            final(self).spec_vertices() == old(self).spec_vertices().update(
                children.0 as int,
                with_parent(old(self).spec_vertices()[children.0 as int], r),
            ).update(
                children.1 as int,
                with_parent(old(self).spec_vertices()[children.1 as int], r),
            ).push(Vertex::Internal { index: r, parent: NO_PARENT_SET, children, branch_length }),
    {
        let index = self.vertices.len();
        let vertex = Vertex::new_internal(index, children, branch_length);
        self.link_and_push(children, vertex);
        index
    }

    /// Appends the root over two unlinked vertices and links both to it. The
    /// root is the last vertex of the tree.
    pub fn add_root(&mut self, children: (TreeIndex, TreeIndex))
        requires
            old(self).wf(),
            old(self).spec_root() is None,
            old(self).is_unlinked(children.0),
            old(self).is_unlinked(children.1),
            children.0 != children.1,
            old(self).spec_vertices().len() + 1 < usize::MAX,
        ensures
            final(self).wf(),
            final(self).spec_root() == Some(old(self).spec_vertices().len() as TreeIndex),
            final(self).spec_vertices() == old(self).spec_vertices().update(
                children.0 as int,
                with_parent(old(self).spec_vertices()[children.0 as int], old(self).spec_vertices().len() as TreeIndex),
            ).update(
                children.1 as int,
                with_parent(old(self).spec_vertices()[children.1 as int], old(self).spec_vertices().len() as TreeIndex),
            ).push(Vertex::Root { index: old(self).spec_vertices().len() as TreeIndex, children }),
    {
        let index = self.vertices.len();
        let vertex = Vertex::new_root(index, children);
        self.link_and_push(children, vertex);
        self.root = Some(index);
    }

    /// Links both children to the vertex about to be appended, then appends it.
    fn link_and_push(&mut self, children: (TreeIndex, TreeIndex), vertex: Vertex)
        requires
            old(self).wf(),
            old(self).spec_root() is None,
            old(self).is_unlinked(children.0),
            old(self).is_unlinked(children.1),
            children.0 != children.1,
            old(self).spec_vertices().len() + 1 < usize::MAX,
            vertex.spec_index() == old(self).spec_vertices().len(),
            vertex.spec_children() == Some(children),
            vertex.spec_parent() is None,
        ensures
            final(self).spec_root() == old(self).spec_root(),
            final(self).spec_num_leaves() == old(self).spec_num_leaves(),
            final(self).spec_vertices() == old(self).spec_vertices().update(
                children.0 as int,
                with_parent(old(self).spec_vertices()[children.0 as int], vertex.spec_index()),
            ).update(
                children.1 as int,
                with_parent(old(self).spec_vertices()[children.1 as int], vertex.spec_index()),
            ).push(vertex),
            vertex is Internal ==> final(self).wf(),
            vertex is Root ==> (Tree { vertices: final(self).vertices, root: Some(vertex.spec_index()), num_leaves: final(self).num_leaves }).wf(),
    {
        let ghost v0 = self.vertices@;
        let index = self.vertices.len();
        let mut left = self.vertices[children.0];
        left.set_parent(index);
        self.vertices.set(children.0, left);
        let mut right = self.vertices[children.1];
        right.set_parent(index);
        self.vertices.set(children.1, right);
        proof {
            lemma_leaf_count_update(v0, children.0 as int, left);
            lemma_leaf_count_update(v0.update(children.0 as int, left), children.1 as int, right);
            lemma_leaf_count_push(self.vertices@, vertex);
        }
        self.vertices.push(vertex);
        let ghost v = self.vertices@;
        assert forall|i: int| 0 <= i < v.len() && (#[trigger] v[i].spec_children()) is Some implies {
            let (a, b) = v[i].spec_children().unwrap();
            &&& a < i && b < i && a != b
            &&& v[a as int].spec_parent() == Some(i as TreeIndex)
            &&& v[b as int].spec_parent() == Some(i as TreeIndex)
        } by {
            if i < v.len() - 1 {
                assert(v0[i].spec_children() == v[i].spec_children());
                let (a, b) = v[i].spec_children().unwrap();
                assert(v0[a as int].spec_parent() == Some(i as TreeIndex));
                assert(v0[b as int].spec_parent() == Some(i as TreeIndex));
            }
        }
        assert forall|j: int| 0 <= j < v.len() && (#[trigger] v[j].spec_parent()) is Some implies {
            let p = v[j].spec_parent().unwrap();
            &&& j < p < v.len()
            &&& v[p as int].spec_children() is Some
            &&& (v[p as int].spec_children().unwrap().0 == j || v[p as int].spec_children().unwrap().1 == j)
        } by {
            if j != children.0 && j != children.1 {
                assert(v0[j].spec_parent() == v[j].spec_parent());
            }
        }
        assert forall|i: int| 0 <= i < v.len() implies #[trigger] v[i].spec_index() == i by {
            if i < v.len() - 1 {
                assert(v0[i].spec_index() == i);
            }
        }
        assert forall|i: int| 0 <= i < v.len() - 1 implies !(#[trigger] v[i] is Root) by {
            assert(!(v0[i] is Root));
        }
        assert(self.num_leaves == leaf_count(v));
    }

    /// Checks the tree's structure: every non-root vertex has its parent set,
    /// every index referenced is in range, and the reported leaf count equals
    /// the number of leaves.
    pub fn is_valid(&self) -> (r: bool)
        ensures
            r == self.spec_is_valid(),
    {
        let n = self.vertices.len();
        let mut leaves: usize = 0;
        let mut i: usize = 0;
        while i < n
            invariant
                n == self.vertices@.len(),
                0 <= i <= n,
                leaves == leaf_count(self.vertices@.take(i as int)),
                forall|j: int| 0 <= j < i && !(#[trigger] self.vertices@[j] is Root) ==> self.vertices@[j].spec_parent() is Some,
                forall|j: int| 0 <= j < i && (#[trigger] self.vertices@[j].spec_parent()) is Some ==> self.vertices@[j].spec_parent().unwrap() < n,
                forall|j: int| 0 <= j < i && (#[trigger] self.vertices@[j].spec_children()) is Some ==> {
                    &&& self.vertices@[j].spec_children().unwrap().0 < n
                    &&& self.vertices@[j].spec_children().unwrap().1 < n
                },
            decreases n - i,
        {
            let vertex = &self.vertices[i];
            match vertex.parent_index() {
                Some(p) => {
                    if p >= n {
                        return false;
                    }
                },
                None => {
                    if !vertex.is_root() {
                        return false;
                    }
                },
            }
            match vertex.children() {
                Some((a, b)) => {
                    if a >= n || b >= n {
                        return false;
                    }
                },
                None => {},
            }
            proof {
                lemma_leaf_count_bound(self.vertices@.take(i as int));
                assert(self.vertices@.take(i + 1) =~= self.vertices@.take(i as int).push(self.vertices@[i as int]));
                lemma_leaf_count_push(self.vertices@.take(i as int), self.vertices@[i as int]);
            }
            if vertex.is_leaf() {
                leaves = leaves + 1;
            }
            i = i + 1;
        }
        assert(self.vertices@.take(n as int) =~= self.vertices@);
        leaves == self.num_leaves
    }

    /// Number of leaves in the tree.
    pub fn num_leaves(&self) -> (r: usize)
        ensures
            r == self.spec_num_leaves(),
    {
        self.num_leaves
    }

    /// Number of vertices in the tree.
    pub fn num_vertices(&self) -> (r: usize)
        ensures
            r == self.spec_vertices().len(),
    {
        self.vertices.len()
    }

    /// Index of the root, once it has been appended.
    pub fn root_index(&self) -> (r: Option<TreeIndex>)
        ensures
            r == self.spec_root(),
    {
        self.root
    }

    /// The vertex at `index`, if there is one.
    pub fn vertex(&self, index: TreeIndex) -> (r: Option<&Vertex>)
        ensures
            index < self.spec_vertices().len() ==> r == Some(&self.spec_vertices()[index as int]),
            index >= self.spec_vertices().len() ==> r is None,
    {
        if index < self.vertices.len() {
            Some(&self.vertices[index])
        } else {
            None
        }
    }
}

/// In a finished tree exactly one vertex is the root, every other vertex has
/// its parent set, the reported leaf count equals the number of leaves, and
/// every child index is below its parent's index.
pub proof fn lemma_complete_tree_shape(t: &Tree)
    requires
        t.is_complete(),
    ensures
        exists|r: int|
            0 <= r < t.spec_vertices().len() && t.spec_vertices()[r] is Root && forall|i: int|
                0 <= i < t.spec_vertices().len() && (#[trigger] t.spec_vertices()[i]) is Root ==> i == r,
        forall|i: int|
            0 <= i < t.spec_vertices().len() && !(#[trigger] t.spec_vertices()[i] is Root)
                ==> t.spec_vertices()[i].spec_parent() is Some,
        t.spec_num_leaves() == leaf_count(t.spec_vertices()),
        forall|i: int|
            0 <= i < t.spec_vertices().len() && (#[trigger] t.spec_vertices()[i].spec_children()) is Some
                ==> t.spec_vertices()[i].spec_children().unwrap().0 < i
                && t.spec_vertices()[i].spec_children().unwrap().1 < i,
{
    let v = t.spec_vertices();
    let r = t.spec_root().unwrap() as int;
    assert(v[r] == v.last());
    assert(0 <= r < v.len() && v[r] is Root && forall|i: int|
        0 <= i < v.len() && (#[trigger] v[i]) is Root ==> i == r);
}

/// Whether no name occurs twice in `labels`.
pub open spec fn distinct_names(labels: Seq<Seq<u8>>) -> bool {
    forall|i: int, j: int|
        0 <= i < labels.len() && 0 <= j < labels.len() && i != j ==> labels[i] != labels[j]
}

/// The names after a get-or-insert of `name`: unchanged when `name` is
/// present, else with `name` appended.
pub open spec fn after_get_or_insert(labels: Seq<Seq<u8>>, name: Seq<u8>) -> Seq<Seq<u8>> {
    if labels.contains(name) {
        labels
    } else {
        labels.push(name)
    }
}

/// Get-or-insert is idempotent: a second call with the same name leaves the
/// names as the first call left them, the count grows by at most one over
/// both calls, and the name then sits at exactly one index, which both calls
/// return.
pub proof fn lemma_get_or_insert_idempotent(labels: Seq<Seq<u8>>, name: Seq<u8>)
    requires
        distinct_names(labels),
    ensures
        after_get_or_insert(after_get_or_insert(labels, name), name) == after_get_or_insert(labels, name),
        after_get_or_insert(labels, name).len() <= labels.len() + 1,
        distinct_names(after_get_or_insert(labels, name)),
        after_get_or_insert(labels, name).contains(name),
        forall|i: int, j: int|
            0 <= i < after_get_or_insert(labels, name).len() && 0 <= j < after_get_or_insert(labels, name).len()
                && after_get_or_insert(labels, name)[i] == name && after_get_or_insert(labels, name)[j] == name
                ==> i == j,
{
    let once = after_get_or_insert(labels, name);
    if !labels.contains(name) {
        assert(once[labels.len() as int] == name);
        assert forall|i: int, j: int|
            0 <= i < once.len() && 0 <= j < once.len() && i != j implies once[i] != once[j] by {
            if i < labels.len() && j < labels.len() {
                assert(once[i] == labels[i] && once[j] == labels[j]);
            } else if i < labels.len() {
                assert(once[i] == labels[i]);
            } else {
                assert(once[j] == labels[j]);
            }
        }
    }
    assert(once.contains(name));
}

/// The dictionary of taxon names shared by the trees of one file: an ordered
/// bijection between names and dense indices. Indices are handed out in order
/// of first insertion and never change.
#[derive(Debug)]
pub struct LeafLabelMap {
    labels: Vec<Vec<u8>>,
}

impl LeafLabelMap {
    /// The names, each at its index.
    pub closed spec fn spec_labels(&self) -> Seq<Seq<u8>> {
        self.labels@.map_values(|l: Vec<u8>| l@)
    }

    /// No name is held twice.
    pub open spec fn wf(&self) -> bool {
        distinct_names(self.spec_labels())
    }

    /// Creates an empty dictionary, with room reserved for `num_labels` names.
    pub fn new(num_labels: usize) -> (r: LeafLabelMap)
        ensures
            r.wf(),
            r.spec_labels() == Seq::<Seq<u8>>::empty(),
    {
        let r = LeafLabelMap { labels: Vec::with_capacity(num_labels) };
        assert(r.spec_labels() =~= Seq::<Seq<u8>>::empty());
        r
    }

    /// Number of distinct names held.
    pub fn num_labels(&self) -> (r: usize)
        ensures
            r == self.spec_labels().len(),
    {
        self.labels.len()
    }

    /// The index of `name`, if it is held.
    pub fn get_index(&self, name: &[u8]) -> (r: Option<LabelIndex>)
        requires
            self.wf(),
        ensures
            r is Some <==> self.spec_labels().contains(name@),
            r is Some ==> r.unwrap() < self.spec_labels().len() && self.spec_labels()[r.unwrap() as int]
                == name@,
    {
        let mut i: usize = 0;
        while i < self.labels.len()
            invariant
                0 <= i <= self.labels@.len(),
                forall|j: int| 0 <= j < i ==> self.spec_labels()[j] != name@,
            decreases self.labels@.len() - i,
        {
            if same_bytes(self.labels[i].as_slice(), name) {
                assert(self.spec_labels()[i as int] == name@);
                return Some(i);
            }
            i = i + 1;
        }
        proof {
            if self.spec_labels().contains(name@) {
                let k = choose|k: int| 0 <= k < self.spec_labels().len() && self.spec_labels()[k] == name@;
                assert(self.spec_labels()[k] != name@);
            }
        }
        None
    }

    /// The name at `index`, if there is one.
    pub fn get_label(&self, index: LabelIndex) -> (r: Option<&[u8]>)
        ensures
            index < self.spec_labels().len() ==> r is Some && r.unwrap()@ == self.spec_labels()[index as int],
            index >= self.spec_labels().len() ==> r is None,
    {
        if index < self.labels.len() {
            Some(self.labels[index].as_slice())
        } else {
            None
        }
    }

    /// Returns the index of `name`, appending it at the next index first if it
    /// is not held yet.
    pub fn get_or_insert(&mut self, name: &[u8]) -> (r: LabelIndex)
        requires
            old(self).wf(),
        ensures
            final(self).wf(),
            final(self).spec_labels() == after_get_or_insert(old(self).spec_labels(), name@),
            r < final(self).spec_labels().len(),
            final(self).spec_labels()[r as int] == name@,
    {
        match self.get_index(name) {
            Some(i) => i,
            None => {
                let i = self.labels.len();
                let ghost before = self.spec_labels();
                self.labels.push(slice_to_vec(name));
                assert(self.spec_labels() =~= before.push(name@));
                proof {
                    lemma_get_or_insert_idempotent(before, name@);
                }
                i
            },
        }
    }
}

} // verus!
