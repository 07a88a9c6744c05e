//! Vertices of an arena-stored binary phylogenetic tree, and branch lengths.
use crate::model::tree::{LabelIndex, TreeIndex};
use crate::parser::numeral::{lemma_pow10_mono, pow10};
use vstd::prelude::*;

verus! {

/// Marks a non-root vertex whose parent has not been linked yet.
pub const NO_PARENT_SET: usize = usize::MAX;

/// A signed decimal number `(-1)^negative * mantissa * 10^exponent`, as
/// written in a tree description (`1.25`, `-3e-2`, `0.5E+3`).
#[derive(Clone, Copy, Debug, PartialEq, Eq, Structural)]
pub struct Decimal {
    pub negative: bool,
    pub mantissa: u64,
    pub exponent: i64,
}

impl Decimal {
    /// Builds the decimal `(-1)^negative * mantissa * 10^exponent`.
    pub fn new(negative: bool, mantissa: u64, exponent: i64) -> (r: Decimal)
        ensures
            r == (Decimal { negative, mantissa, exponent }),
    {
        Decimal { negative, mantissa, exponent }
    }

    /// A decimal is below zero when it has a minus sign and a non-zero mantissa
    /// (`-0` counts as zero).
    pub open spec fn is_negative(self) -> bool {
        self.negative && self.mantissa != 0
    }
}

/// Number of decimal digits of `m` (one for zero).
pub open spec fn digit_count(m: nat) -> nat
    decreases m,
{
    if m < 10 {
        1
    } else {
        1 + digit_count(m / 10)
    }
}

/// The first twenty digits of 2^1024 - 2^970 (about 1.7976931348623158e308),
/// the bound from which a double rounds to infinity; its further digits are
/// not all zero.
pub const FLOAT_LIMIT_DIGITS: u128 = 17976931348623158079;

/// Whether the decimal's magnitude lies below 2^1024 - 2^970, so that it is
/// finite as a double: a mantissa of `k` digits and exponent `e` gives at most
/// `10^(k + e)`, and at `k + e == 309` the mantissa's digits, read to twenty
/// places, decide.
pub open spec fn is_finite_decimal(d: Decimal) -> bool {
    let k = digit_count(d.mantissa as nat);
    ||| d.mantissa == 0
    ||| k + d.exponent <= 308
    ||| (k + d.exponent == 309 && d.mantissa * pow10((20 - k) as nat) <= FLOAT_LIMIT_DIGITS)
}

proof fn lemma_digit_count_bound(m: nat, n: nat)
    requires
        n >= 1,
        m < pow10(n),
    ensures
        digit_count(m) <= n,
        m < pow10(digit_count(m)),
    decreases m,
{
    if m >= 10 {
        assert(pow10(n) == 10 * pow10((n - 1) as nat));
        assert(m / 10 < pow10((n - 1) as nat)) by (nonlinear_arith)
            requires
                m < 10 * pow10((n - 1) as nat),
        ;
        if n == 1 {
            assert(pow10(0) == 1);
        }
        lemma_digit_count_bound(m / 10, (n - 1) as nat);
        assert(m < 10 * pow10(digit_count(m / 10))) by (nonlinear_arith)
            requires
                m / 10 < pow10(digit_count(m / 10)),
        ;
    } else {
        assert(pow10(1) == 10) by {
            reveal_with_fuel(pow10, 2);
        }
    }
}

/// The number of decimal digits of `m`.
fn count_digits(m: u64) -> (k: u64)
    ensures
        k == digit_count(m as nat),
        1 <= k <= 20,
        m < pow10(k as nat),
{
    let mut q = m;
    let mut k: u64 = 1;
    proof {
        reveal_with_fuel(pow10, 21);
        lemma_digit_count_bound(m as nat, 20);
    }
    while q >= 10
        invariant
            1 <= k <= 20,
            digit_count(m as nat) == k - 1 + digit_count(q as nat),
            q <= m,
            digit_count(m as nat) <= 20,
            m < pow10(digit_count(m as nat)),
        decreases q,
    {
        q = q / 10;
        assert(digit_count(q as nat) >= 1);
        k = k + 1;
    }
    k
}

/// Distance from a vertex to its parent: a decimal that is never negative.
#[derive(Clone, Copy, Debug, PartialEq, Eq, Structural)]
pub struct BranchLength {
    value: Decimal,
}

impl BranchLength {
    /// The number held.
    pub closed spec fn spec_value(self) -> Decimal {
        self.value
    }

    #[verifier::type_invariant]
    spec fn not_negative(self) -> bool {
        !self.value.is_negative() && is_finite_decimal(self.value)
    }

    /// Builds a branch length, or `None` when `length` is below zero or too
    /// large to be a finite double.
    pub fn new(length: Decimal) -> (r: Option<BranchLength>)
        ensures
            r is Some <==> !length.is_negative() && is_finite_decimal(length),
            r is Some ==> r.unwrap().spec_value() == length,
    {
        if length.negative && length.mantissa != 0 {
            return None;
        }
        if length.mantissa == 0 {
            return Some(BranchLength { value: length });
        }
        let k = count_digits(length.mantissa);
        let e = length.exponent;
        if e <= 308 - k as i64 {
            return Some(BranchLength { value: length });
        }
        if e != 309 - k as i64 {
            return None;
        }
        let mut scaled: u128 = length.mantissa as u128;
        let mut j: u64 = k;
        proof {
            assert(pow10(0) == 1);
            assert((j - k) as nat == 0);
            assert(length.mantissa * pow10(0) == length.mantissa);
        }
        while j < 20
            invariant
                k <= j <= 20,
                1 <= k <= 20,
                scaled == length.mantissa * pow10((j - k) as nat),
                scaled < pow10(j as nat),
            decreases 20 - j,
        {
            proof {
                lemma_pow10_mono((j + 1) as nat, 20);
                reveal_with_fuel(pow10, 21);
                assert(pow10((j + 1) as nat) == 10 * pow10(j as nat));
                assert(pow10((j + 1 - k) as nat) == 10 * pow10((j - k) as nat));
                assert(scaled * 10 == length.mantissa * pow10((j + 1 - k) as nat)) by (nonlinear_arith)
                    requires
                        scaled == length.mantissa * pow10((j - k) as nat),
                        pow10((j + 1 - k) as nat) == 10 * pow10((j - k) as nat),
                ;
            }
            scaled = scaled * 10;
            j = j + 1;
        }
        if scaled <= FLOAT_LIMIT_DIGITS {
            Some(BranchLength { value: length })
        } else {
            None
        }
    }

    /// The number held, as given to [`BranchLength::new`].
    pub fn value(&self) -> (r: Decimal)
        ensures
            r == self.spec_value(),
            !r.is_negative(),
            is_finite_decimal(r),
    {
        proof {
            use_type_invariant(self);
        }
        self.value
    }
}

/// A vertex of a binary tree, identified by its position in the arena.
///
/// A root has two children and neither parent nor branch length; an internal
/// vertex has two children, an optional branch length and a parent; a leaf has
/// a label index, an optional branch length and a parent. The parent of a
/// non-root vertex is [`NO_PARENT_SET`] until its parent vertex is appended.
#[derive(Clone, Copy, Debug, PartialEq)]
pub enum Vertex {
    Root { index: TreeIndex, children: (TreeIndex, TreeIndex) },
    Internal {
        index: TreeIndex,
        parent: TreeIndex,
        children: (TreeIndex, TreeIndex),
        branch_length: Option<BranchLength>,
    },
    Leaf {
        index: TreeIndex,
        label_index: LabelIndex,
        parent: TreeIndex,
        branch_length: Option<BranchLength>,
    },
}

impl Vertex {
    /// Position of the vertex in its arena.
    pub open spec fn spec_index(self) -> TreeIndex {
        match self {
            Vertex::Root { index, .. } => index,
            Vertex::Internal { index, .. } => index,
            Vertex::Leaf { index, .. } => index,
        }
    }

    /// Children of a root or internal vertex.
    pub open spec fn spec_children(self) -> Option<(TreeIndex, TreeIndex)> {
        match self {
            Vertex::Root { children, .. } => Some(children),
            Vertex::Internal { children, .. } => Some(children),
            Vertex::Leaf { .. } => None,
        }
    }

    /// The parent link of a non-root vertex, when it has been set.
    pub open spec fn spec_parent(self) -> Option<TreeIndex> {
        match self {
            Vertex::Internal { parent, .. } | Vertex::Leaf { parent, .. } => {
                if parent == NO_PARENT_SET {
                    None
                } else {
                    Some(parent)
                }
            },
            Vertex::Root { .. } => None,
        }
    }

    /// Branch length of a non-root vertex, when one was given.
    pub open spec fn spec_branch_length(self) -> Option<BranchLength> {
        match self {
            Vertex::Root { .. } => None,
            Vertex::Internal { branch_length, .. } => branch_length,
            Vertex::Leaf { branch_length, .. } => branch_length,
        }
    }

    /// Creates a root vertex at `index` with the given children.
    pub fn new_root(index: TreeIndex, children: (TreeIndex, TreeIndex)) -> (r: Self)
        ensures
            r == (Vertex::Root { index, children }),
    {
        Vertex::Root { index, children }
    }

    /// Creates an internal vertex at `index` whose parent is not linked yet.
    pub fn new_internal(
        index: TreeIndex,
        children: (TreeIndex, TreeIndex),
        branch_length: Option<BranchLength>,
    ) -> (r: Self)
        ensures
            r == (Vertex::Internal { index, parent: NO_PARENT_SET, children, branch_length }),
    {
        Vertex::Internal { index, parent: NO_PARENT_SET, children, branch_length }
    }

    /// Creates a leaf at `index` whose parent is not linked yet.
    pub fn new_leaf(
        index: TreeIndex,
        branch_length: Option<BranchLength>,
        label_index: LabelIndex,
    ) -> (r: Self)
        ensures
            r == (Vertex::Leaf { index, label_index, parent: NO_PARENT_SET, branch_length }),
    {
        Vertex::Leaf { index, label_index, parent: NO_PARENT_SET, branch_length }
    }

    /// Returns the index of this vertex.
    pub fn index(&self) -> (r: TreeIndex)
        ensures
            r == self.spec_index(),
    {
        match self {
            Vertex::Root { index, .. } => *index,
            Vertex::Internal { index, .. } => *index,
            Vertex::Leaf { index, .. } => *index,
        }
    }

    /// Returns the branch length of a non-root vertex, if it has one.
    pub fn branch_length(&self) -> (r: Option<BranchLength>)
        ensures
            r == self.spec_branch_length(),
    {
        match self {
            Vertex::Root { .. } => None,
            Vertex::Internal { branch_length, .. } => *branch_length,
            Vertex::Leaf { branch_length, .. } => *branch_length,
        }
    }

    /// Returns the label index of a leaf, else `None`.
    pub fn label_index(&self) -> (r: Option<LabelIndex>)
        ensures
            r == (match *self {
                Vertex::Leaf { label_index, .. } => Some(label_index),
                _ => None,
            }),
    {
        match self {
            Vertex::Leaf { label_index, .. } => Some(*label_index),
            _ => None,
        }
    }

    /// Returns `true` if this vertex is a leaf.
    pub fn is_leaf(&self) -> (r: bool)
        ensures
            r == self is Leaf,
    {
        matches!(self, Vertex::Leaf { .. })
    }

    /// Returns `true` if this vertex is an internal vertex.
    pub fn is_internal(&self) -> (r: bool)
        ensures
            r == self is Internal,
    {
        matches!(self, Vertex::Internal { .. })
    }

    /// Returns `true` if this vertex is the root.
    pub fn is_root(&self) -> (r: bool)
        ensures
            r == self is Root,
    {
        matches!(self, Vertex::Root { .. })
    }

    /// Returns the children of a root or internal vertex, else `None`.
    pub fn children(&self) -> (r: Option<(TreeIndex, TreeIndex)>)
        ensures
            r == self.spec_children(),
    {
        match self {
            Vertex::Root { children, .. } => Some(*children),
            Vertex::Internal { children, .. } => Some(*children),
            Vertex::Leaf { .. } => None,
        }
    }

    /// Links a non-root vertex to its parent; every other field is kept.
    pub fn set_parent(&mut self, parent: TreeIndex)
        requires
            !(*old(self) is Root),
        ensures
            *final(self) == (match *old(self) {
                Vertex::Internal { index, children, branch_length, .. } => Vertex::Internal {
                    index,
                    parent,
                    children,
                    branch_length,
                },
                Vertex::Leaf { index, label_index, branch_length, .. } => Vertex::Leaf {
                    index,
                    label_index,
                    parent,
                    branch_length,
                },
                Vertex::Root { .. } => *old(self),
            }),
    {
        match self {
            Vertex::Root { .. } => {},
            Vertex::Internal { parent: p, .. } => *p = parent,
            Vertex::Leaf { parent: p, .. } => *p = parent,
        }
    }

    /// Returns the parent of a non-root vertex, or `None` for the root and
    /// for a vertex whose parent is not linked yet.
    pub fn parent_index(&self) -> (r: Option<TreeIndex>)
        ensures
            r == self.spec_parent(),
    {
        match self {
            Vertex::Internal { parent, .. } | Vertex::Leaf { parent, .. } => {
                if *parent == NO_PARENT_SET {
                    None
                } else {
                    Some(*parent)
                }
            },
            Vertex::Root { .. } => None,
        }
    }

    /// Returns `true` if this is a non-root vertex whose parent is linked.
    pub fn has_parent(&self) -> (r: bool)
        ensures
            r == self.spec_parent() is Some,
    {
        match self {
            Vertex::Internal { parent, .. } | Vertex::Leaf { parent, .. } => {
                *parent != NO_PARENT_SET
            },
            Vertex::Root { .. } => false,
        }
    }
}

} // verus!
