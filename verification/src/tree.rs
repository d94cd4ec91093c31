//! The slicing tree: an arena-backed strict binary tree whose internal
//! nodes carry slice directions and whose leaves reference input images,
//! together with its well-formedness invariant, structural queries, and
//! logical equality.

use vstd::prelude::*;

use crate::geometry::Dimensions;

verus! {

/// The direction in which an internal node slices its rectangle: a Vertical
/// node lays its two children side by side, a Horizontal node stacks them.
#[derive(Debug, PartialEq, Eq, Structural, Clone, Copy)]
pub enum SliceDirection {
    Vertical,
    Horizontal,
}

/// A reference to one of the caller's images: its position in the input set
/// together with its pixel dimensions, which is all the layout engine reads.
#[derive(Debug, PartialEq, Eq, Structural, Clone, Copy)]
pub struct ImageHandle {
    pub index: usize,
    pub width: u32,
    pub height: u32,
}

/// What a node of the slicing tree carries: internal nodes a slice direction,
/// leaves an image reference.
#[derive(Debug, PartialEq, Eq, Structural, Clone, Copy)]
pub enum NodeLabel {
    Internal(SliceDirection),
    Leaf(ImageHandle),
}

/// Which of an internal node's two children a node is; the first-attached
/// child is the left one.
#[derive(Debug, PartialEq, Eq, Structural, Clone, Copy)]
pub enum ChildSide {
    Left,
    Right,
}

/// One slot of the backing arena. Children and parent are arena indices.
#[derive(Debug, Clone, Copy)]
pub struct Node {
    pub label: NodeLabel,
    pub parent: Option<usize>,
    pub left: Option<usize>,
    pub right: Option<usize>,
}

/// A slicing tree together with the canvas hint used by the dimensioning
/// algebra. The tree is a strict binary tree held in a backing arena: node 0
/// is the root, internal nodes occupy a prefix of the arena and leaves the
/// suffix, and every edge points from a lower index to a higher one.
#[derive(Debug, Clone)]
pub struct Layout {
    pub canvas_dimensions: Dimensions,
    pub nodes: Vec<Node>,
}

/// The number of internal nodes of a well-formed arena: a strict binary tree
/// with N leaves has N - 1 internal nodes, 2N - 1 nodes in all.
pub open spec fn ic_of(s: Seq<Node>) -> int {
    (s.len() - 1) as int / 2
}

pub open spec fn is_internal(n: Node) -> bool {
    n.label is Internal
}

pub open spec fn dir_of(n: Node) -> SliceDirection {
    n.label->Internal_0
}

pub open spec fn leaf_handle(n: Node) -> ImageHandle {
    n.label->Leaf_0
}

pub open spec fn lchild(s: Seq<Node>, i: int) -> int {
    s[i].left->0 as int
}

pub open spec fn rchild(s: Seq<Node>, i: int) -> int {
    s[i].right->0 as int
}

/// Both children are present and point forward in the arena.
pub open spec fn has_kids(s: Seq<Node>, i: int) -> bool {
    &&& s[i].left is Some
    &&& s[i].right is Some
    &&& i < lchild(s, i) < s.len()
    &&& i < rchild(s, i) < s.len()
    &&& lchild(s, i) != rchild(s, i)
}

pub open spec fn wf_internal_at(s: Seq<Node>, i: int) -> bool {
    &&& has_kids(s, i)
    &&& s[lchild(s, i)].parent == Some(i as usize)
    &&& s[rchild(s, i)].parent == Some(i as usize)
}

pub open spec fn wf_leaf_at(s: Seq<Node>, i: int) -> bool {
    &&& s[i].left is None
    &&& s[i].right is None
    &&& leaf_handle(s[i]).width >= 1
    &&& leaf_handle(s[i]).height >= 1
}

pub open spec fn wf_parent_at(s: Seq<Node>, i: int) -> bool {
    &&& s[i].parent matches Some(p)
    &&& 0 <= (s[i].parent->0 as int) < i
    &&& is_internal(s[s[i].parent->0 as int])
    &&& (s[s[i].parent->0 as int].left == Some(i as usize) || s[s[i].parent->0 as int].right
        == Some(i as usize))
}

/// Well-formedness of the backing arena: a rooted strict binary tree with at
/// least two leaves, internal nodes first, leaves last, edges pointing
/// forward, and parent pointers consistent with child pointers.
pub open spec fn wf_arena(s: Seq<Node>) -> bool {
    let k = ic_of(s);
    &&& s.len() >= 3
    &&& s.len() % 2 == 1
    &&& forall|i: int| 0 <= i < s.len() ==> (is_internal(#[trigger] s[i]) <==> i < k)
    &&& forall|i: int| 0 <= i < k ==> wf_internal_at(s, i)
    &&& forall|i: int| k <= i < s.len() ==> wf_leaf_at(s, i)
    &&& s[0].parent is None
    &&& forall|i: int| 1 <= i < s.len() ==> wf_parent_at(s, i)
}

/// The images referenced by the leaves, in arena (creation) order.
pub open spec fn leaf_handles(s: Seq<Node>) -> Seq<ImageHandle> {
    Seq::new((s.len() - ic_of(s)) as nat, |t: int| leaf_handle(s[ic_of(s) + t]))
}

/// Structural equality of two subtrees: same labels at every position, with
/// matching left/right order. This is the comparison logical equality uses.
pub open spec fn subtrees_match(a: Seq<Node>, i: int, b: Seq<Node>, j: int) -> bool
    decreases a.len() - i,
{
    &&& 0 <= i < a.len()
    &&& 0 <= j < b.len()
    &&& a[i].label == b[j].label
    &&& match a[i].label {
        NodeLabel::Internal(_) => {
            &&& has_kids(a, i)
            &&& has_kids(b, j)
            &&& subtrees_match(a, lchild(a, i), b, lchild(b, j))
            &&& subtrees_match(a, rchild(a, i), b, rchild(b, j))
        },
        NodeLabel::Leaf(_) => true,
    }
}

/// What it means for two layouts to be logically equal: equal canvases, the
/// same number of nodes, and the same ordered label structure from the root.
pub open spec fn logical_eq_spec(a: &Layout, b: &Layout) -> bool {
    &&& a.canvas_dimensions == b.canvas_dimensions
    &&& a.nodes@.len() == b.nodes@.len()
    &&& subtrees_match(a.nodes@, 0, b.nodes@, 0)
}

/// Why two layouts compared unequal.
#[derive(Debug, Clone, Copy)]
pub enum LogicalEqError {
    DifferentCanvasDimensions,
    UnevenNumberOfNodes,
    RootNodesHaveDifferentLabels,
    ChildrenHaveDifferentLabels,
}

impl Layout {
    pub open spec fn wf(&self) -> bool {
        wf_arena(self.nodes@)
    }

    /// Number of internal nodes (spec view).
    pub open spec fn spec_internal_count(&self) -> int {
        ic_of(self.nodes@)
    }

    pub fn node_count(&self) -> (r: usize)
        ensures
            r == self.nodes@.len(),
    {
        self.nodes.len()
    }

    /// The root is the single node without a parent; in this arena it always
    /// sits at index 0.
    pub fn root_node(&self) -> (r: usize)
        requires
            self.wf(),
        ensures
            r == 0,
            self.nodes@[0].parent is None,
    {
        0
    }

    pub fn node_label(&self, index: usize) -> (r: NodeLabel)
        requires
            index < self.nodes@.len(),
        ensures
            r == self.nodes@[index as int].label,
    {
        self.nodes[index].label
    }

    /// The image referenced by a leaf node, or None for an internal node.
    pub fn image(&self, index: usize) -> (r: Option<ImageHandle>)
        requires
            index < self.nodes@.len(),
        ensures
            r is Some <==> !is_internal(self.nodes@[index as int]),
            r matches Some(h) ==> h == leaf_handle(self.nodes@[index as int]),
    {
        match self.nodes[index].label {
            NodeLabel::Leaf(h) => Some(h),
            NodeLabel::Internal(_) => None,
        }
    }

    /// The ordered (left, right) children of a node, or None for a leaf.
    pub fn children(&self, index: usize) -> (r: Option<(usize, usize)>)
        requires
            self.wf(),
            index < self.nodes@.len(),
        ensures
            r is Some <==> is_internal(self.nodes@[index as int]),
            r matches Some(c) ==> c.0 as int == lchild(self.nodes@, index as int) && c.1 as int
                == rchild(self.nodes@, index as int) && index < c.0 < self.nodes@.len() && index
                < c.1 < self.nodes@.len(),
    {
        proof {
            if is_internal(self.nodes@[index as int]) {
                assert(wf_internal_at(self.nodes@, index as int));
            } else {
                assert(wf_leaf_at(self.nodes@, index as int));
            }
        }
        match (self.nodes[index].left, self.nodes[index].right) {
            (Some(l), Some(r)) => Some((l, r)),
            _ => None,
        }
    }

    pub fn parent(&self, index: usize) -> (r: Option<usize>)
        requires
            self.wf(),
            index < self.nodes@.len(),
        ensures
            r == self.nodes@[index as int].parent,
            r is None <==> index == 0,
            r matches Some(p) ==> p < index && is_internal(self.nodes@[p as int]),
    {
        proof {
            if index > 0 {
                assert(wf_parent_at(self.nodes@, index as int));
            }
        }
        self.nodes[index].parent
    }

    /// Indices of all internal nodes, in creation order. Under the arena
    /// invariant these are exactly the first N - 1 slots.
    pub fn internal_nodes(&self) -> (r: Vec<usize>)
        requires
            self.wf(),
        ensures
            r@.len() == ic_of(self.nodes@),
            forall|t: int| 0 <= t < r@.len() ==> r@[t] == t,
    {
        let k = (self.nodes.len() - 1) / 2;
        let mut r: Vec<usize> = Vec::new();
        let mut i: usize = 0;
        while i < k
            invariant
                i <= k,
                k == ic_of(self.nodes@),
                r@.len() == i,
                forall|t: int| 0 <= t < i ==> r@[t] == t,
            decreases k - i,
        {
            r.push(i);
            i = i + 1;
        }
        r
    }

    /// Indices of all leaf nodes, in creation order: the arena suffix.
    pub fn leaf_nodes(&self) -> (r: Vec<usize>)
        requires
            self.wf(),
        ensures
            r@.len() == self.nodes@.len() - ic_of(self.nodes@),
            forall|t: int| 0 <= t < r@.len() ==> r@[t] == ic_of(self.nodes@) + t,
    {
        let k = (self.nodes.len() - 1) / 2;
        let n = self.nodes.len();
        let mut r: Vec<usize> = Vec::new();
        let mut i: usize = k;
        while i < n
            invariant
                k <= i <= n,
                k == ic_of(self.nodes@),
                n == self.nodes@.len(),
                r@.len() == i - k,
                forall|t: int| 0 <= t < r@.len() ==> r@[t] == k + t,
            decreases n - i,
        {
            r.push(i);
            i = i + 1;
        }
        r
    }

    /// Given a parent and one of its children, the sibling of that child.
    pub fn other_child(&self, parent: usize, child: usize) -> (r: Option<usize>)
        requires
            self.wf(),
            parent < self.nodes@.len(),
        ensures
            is_internal(self.nodes@[parent as int]) && child as int == lchild(
                self.nodes@,
                parent as int,
            ) ==> r == Some(rchild(self.nodes@, parent as int) as usize),
            is_internal(self.nodes@[parent as int]) && child as int == rchild(
                self.nodes@,
                parent as int,
            ) ==> r == Some(lchild(self.nodes@, parent as int) as usize),
            !is_internal(self.nodes@[parent as int]) ==> r is None,
    {
        match self.children(parent) {
            Some((l, r)) => {
                if child == l {
                    Some(r)
                } else if child == r {
                    Some(l)
                } else {
                    None
                }
            },
            None => None,
        }
    }

    /// Whether the given node is the left or the right child of the parent.
    pub fn child_side(&self, parent: usize, child: usize) -> (r: Option<ChildSide>)
        requires
            self.wf(),
            parent < self.nodes@.len(),
        ensures
            is_internal(self.nodes@[parent as int]) && child as int == lchild(
                self.nodes@,
                parent as int,
            ) ==> r == Some(ChildSide::Left),
            is_internal(self.nodes@[parent as int]) && child as int != lchild(
                self.nodes@,
                parent as int,
            ) && child as int == rchild(self.nodes@, parent as int) ==> r == Some(ChildSide::Right),
            is_internal(self.nodes@[parent as int]) && child as int != lchild(
                self.nodes@,
                parent as int,
            ) && child as int != rchild(self.nodes@, parent as int) ==> r is None,
            !is_internal(self.nodes@[parent as int]) ==> r is None,
    {
        match self.children(parent) {
            Some((l, r)) => {
                if child == l {
                    Some(ChildSide::Left)
                } else if child == r {
                    Some(ChildSide::Right)
                } else {
                    None
                }
            },
            None => None,
        }
    }
}

} // verus!

verus! {

impl Layout {
    /// Whether the subtree of self at i and the subtree of other at j carry
    /// the same labels in the same left/right order.
    fn subtree_labels_match(&self, other: &Layout, i: usize, j: usize) -> (r: bool)
        requires
            self.wf(),
            other.wf(),
            i < self.nodes@.len(),
            j < other.nodes@.len(),
        ensures
            r == subtrees_match(self.nodes@, i as int, other.nodes@, j as int),
        decreases self.nodes@.len() - i,
    {
        let a = self.nodes[i].label;
        let b = other.nodes[j].label;
        if a != b {
            return false;
        }
        match a {
            NodeLabel::Leaf(_) => true,
            NodeLabel::Internal(_) => {
                proof {
                    assert(wf_internal_at(self.nodes@, i as int));
                    assert(wf_internal_at(other.nodes@, j as int));
                }
                let (l1, r1) = match (self.nodes[i].left, self.nodes[i].right) {
                    (Some(l), Some(r)) => (l, r),
                    _ => {
                        return false;
                    },
                };
                let (l2, r2) = match (other.nodes[j].left, other.nodes[j].right) {
                    (Some(l), Some(r)) => (l, r),
                    _ => {
                        return false;
                    },
                };
                if !self.subtree_labels_match(other, l1, l2) {
                    return false;
                }
                self.subtree_labels_match(other, r1, r2)
            },
        }
    }

    /// Compares two layouts for logical equality: equal canvases and the same
    /// ordered label structure from the root. Ok exactly when they are equal,
    /// and the error names the first difference found.
    pub fn logical_eq(&self, other: &Layout) -> (r: Result<(), LogicalEqError>)
        requires
            self.wf(),
            other.wf(),
        ensures
            r is Ok <==> logical_eq_spec(self, other),
            r == Err::<(), LogicalEqError>(LogicalEqError::DifferentCanvasDimensions) <==> self.canvas_dimensions
                != other.canvas_dimensions,
            r == Err::<(), LogicalEqError>(LogicalEqError::UnevenNumberOfNodes) <==> self.canvas_dimensions
                == other.canvas_dimensions && self.nodes@.len() != other.nodes@.len(),
            r == Err::<(), LogicalEqError>(LogicalEqError::RootNodesHaveDifferentLabels) <==> self.canvas_dimensions
                == other.canvas_dimensions && self.nodes@.len() == other.nodes@.len()
                && self.nodes@[0].label != other.nodes@[0].label,
            r == Err::<(), LogicalEqError>(LogicalEqError::ChildrenHaveDifferentLabels) <==> self.canvas_dimensions
                == other.canvas_dimensions && self.nodes@.len() == other.nodes@.len()
                && self.nodes@[0].label == other.nodes@[0].label && !subtrees_match(
                self.nodes@,
                0,
                other.nodes@,
                0,
            ),
    {
        if self.canvas_dimensions != other.canvas_dimensions {
            return Err(LogicalEqError::DifferentCanvasDimensions);
        }
        if self.nodes.len() != other.nodes.len() {
            return Err(LogicalEqError::UnevenNumberOfNodes);
        }
        let a = self.nodes[0].label;
        let b = other.nodes[0].label;
        if a != b {
            proof {
                assert(!subtrees_match(self.nodes@, 0, other.nodes@, 0));
            }
            return Err(LogicalEqError::RootNodesHaveDifferentLabels);
        }
        if self.subtree_labels_match(other, 0, 0) {
            Ok(())
        } else {
            Err(LogicalEqError::ChildrenHaveDifferentLabels)
        }
    }
}

/// Logical equality is reflexive on well-formed layouts.
pub proof fn lemma_logical_eq_reflexive(a: &Layout)
    requires
        a.wf(),
    ensures
        logical_eq_spec(a, a),
{
    lemma_subtrees_match_refl(a.nodes@, 0);
}

/// Logical equality is symmetric.
pub proof fn lemma_logical_eq_symmetric(a: &Layout, b: &Layout)
    requires
        logical_eq_spec(a, b),
    ensures
        logical_eq_spec(b, a),
{
    lemma_subtrees_match_symm(a.nodes@, 0, b.nodes@, 0);
}

/// Logical equality is transitive.
pub proof fn lemma_logical_eq_transitive(a: &Layout, b: &Layout, c: &Layout)
    requires
        logical_eq_spec(a, b),
        logical_eq_spec(b, c),
    ensures
        logical_eq_spec(a, c),
{
    lemma_subtrees_match_trans(a.nodes@, 0, b.nodes@, 0, c.nodes@, 0);
}

pub proof fn lemma_subtrees_match_refl(s: Seq<Node>, i: int)
    requires
        wf_arena(s),
        0 <= i < s.len(),
    ensures
        subtrees_match(s, i, s, i),
    decreases s.len() - i,
{
    if is_internal(s[i]) {
        assert(wf_internal_at(s, i));
        lemma_subtrees_match_refl(s, lchild(s, i));
        lemma_subtrees_match_refl(s, rchild(s, i));
    }
}

pub proof fn lemma_subtrees_match_symm(a: Seq<Node>, i: int, b: Seq<Node>, j: int)
    requires
        subtrees_match(a, i, b, j),
    ensures
        subtrees_match(b, j, a, i),
    decreases a.len() - i,
{
    if is_internal(a[i]) {
        lemma_subtrees_match_symm(a, lchild(a, i), b, lchild(b, j));
        lemma_subtrees_match_symm(a, rchild(a, i), b, rchild(b, j));
    }
}

pub proof fn lemma_subtrees_match_trans(
    a: Seq<Node>,
    i: int,
    b: Seq<Node>,
    j: int,
    c: Seq<Node>,
    l: int,
)
    requires
        subtrees_match(a, i, b, j),
        subtrees_match(b, j, c, l),
    ensures
        subtrees_match(a, i, c, l),
    decreases a.len() - i,
{
    if is_internal(a[i]) {
        lemma_subtrees_match_trans(a, lchild(a, i), b, lchild(b, j), c, lchild(c, l));
        lemma_subtrees_match_trans(a, rchild(a, i), b, rchild(b, j), c, rchild(c, l));
    }
}

} // verus!

verus! {

/// The indices of the subtree rooted at i, in pre-order. The guards make the
/// definition total; on a well-formed arena they never fire.
pub open spec fn subtree_nodes(s: Seq<Node>, i: int) -> Seq<usize>
    decreases s.len() - i,
{
    if 0 <= i < s.len() {
        if is_internal(s[i]) && has_kids(s, i) {
            seq![i as usize] + subtree_nodes(s, lchild(s, i)) + subtree_nodes(s, rchild(s, i))
        } else {
            seq![i as usize]
        }
    } else {
        Seq::empty()
    }
}

/// How many leaves the subtree rooted at i holds.
pub open spec fn subtree_leaf_count(s: Seq<Node>, i: int) -> int
    decreases s.len() - i,
{
    if 0 <= i < s.len() {
        if is_internal(s[i]) && has_kids(s, i) {
            subtree_leaf_count(s, lchild(s, i)) + subtree_leaf_count(s, rchild(s, i))
        } else if is_internal(s[i]) {
            0
        } else {
            1
        }
    } else {
        0
    }
}

/// How many internal nodes the subtree rooted at i holds.
pub open spec fn subtree_internal_count(s: Seq<Node>, i: int) -> int
    decreases s.len() - i,
{
    if 0 <= i < s.len() {
        if is_internal(s[i]) && has_kids(s, i) {
            1 + subtree_internal_count(s, lchild(s, i)) + subtree_internal_count(s, rchild(s, i))
        } else if is_internal(s[i]) {
            1
        } else {
            0
        }
    } else {
        0
    }
}

/// In a well-formed arena a subtree with L leaves has L - 1 internal nodes.
pub proof fn lemma_subtree_counts(s: Seq<Node>, i: int)
    requires
        wf_arena(s),
        s.len() <= usize::MAX,
        0 <= i < s.len(),
    ensures
        is_internal(s[i]) ==> subtree_internal_count(s, i) == subtree_leaf_count(s, i) - 1
            && subtree_leaf_count(s, i) >= 2,
        !is_internal(s[i]) ==> subtree_internal_count(s, i) == 0 && subtree_leaf_count(s, i) == 1,
        subtree_nodes(s, i).len() == subtree_internal_count(s, i) + subtree_leaf_count(s, i),
        subtree_nodes(s, i).len() >= 1,
    decreases s.len() - i,
{
    if is_internal(s[i]) {
        assert(wf_internal_at(s, i));
        lemma_subtree_counts(s, lchild(s, i));
        lemma_subtree_counts(s, rchild(s, i));
    }
}

/// Every subtree member lies between the root's index and the arena's end,
/// and its parent chain stays inside the subtree.
pub proof fn lemma_subtree_range(s: Seq<Node>, i: int, t: int)
    requires
        wf_arena(s),
        s.len() <= usize::MAX,
        0 <= i < s.len(),
        0 <= t < subtree_nodes(s, i).len(),
    ensures
        i <= subtree_nodes(s, i)[t] < s.len(),
        subtree_nodes(s, i)[0] == i as usize,
    decreases s.len() - i,
{
    if is_internal(s[i]) && has_kids(s, i) {
        assert(wf_internal_at(s, i));
        let sn = subtree_nodes(s, i);
        let a = subtree_nodes(s, lchild(s, i));
        let b = subtree_nodes(s, rchild(s, i));
        assert(sn == (seq![i as usize] + a) + b);
        lemma_subtree_range(s, lchild(s, i), 0);
        lemma_subtree_range(s, rchild(s, i), 0);
        if t >= 1 {
            if t < 1 + a.len() {
                assert(sn[t] == a[t - 1]);
                lemma_subtree_range(s, lchild(s, i), t - 1);
            } else {
                assert(sn[t] == b[t - 1 - a.len()]);
                lemma_subtree_range(s, rchild(s, i), t - 1 - a.len());
            }
        } else {
            assert(sn[0] == i as usize);
        }
    } else {
        assert(subtree_nodes(s, i) =~= seq![i as usize]);
    }
}

/// The parent of every subtree member other than the root is itself in the
/// subtree.
pub proof fn lemma_subtree_parent_closed(s: Seq<Node>, i: int, x: usize)
    requires
        wf_arena(s),
        s.len() <= usize::MAX,
        0 <= i < s.len(),
        subtree_nodes(s, i).contains(x),
        x as int != i,
    ensures
        s[x as int].parent matches Some(p) && subtree_nodes(s, i).contains(p),
    decreases s.len() - i,
{
    if is_internal(s[i]) && has_kids(s, i) {
        let a = subtree_nodes(s, lchild(s, i));
        let b = subtree_nodes(s, rchild(s, i));
        let l = lchild(s, i);
        let r = rchild(s, i);
        assert(wf_internal_at(s, i));
        if a.contains(x) {
            if x as int == l {
                assert(s[x as int].parent == Some(i as usize));
                assert(subtree_nodes(s, i)[0] == i as usize);
            } else {
                lemma_subtree_parent_closed(s, l, x);
                let p = s[x as int].parent->0;
                let u = choose|u: int| 0 <= u < a.len() && a[u] == p;
                assert(subtree_nodes(s, i)[1 + u] == p);
            }
        } else {
            assert(b.contains(x));
            if x as int == r {
                assert(s[x as int].parent == Some(i as usize));
                assert(subtree_nodes(s, i)[0] == i as usize);
            } else {
                lemma_subtree_parent_closed(s, r, x);
                let p = s[x as int].parent->0;
                let u = choose|u: int| 0 <= u < b.len() && b[u] == p;
                assert(subtree_nodes(s, i)[1 + a.len() + u] == p);
            }
        }
    } else {
        assert(subtree_nodes(s, i) =~= seq![i as usize]);
        assert(false);
    }
}

/// The total weight of a sequence of indices under a per-index weight.
pub open spec fn seq_weight(x: Seq<usize>, f: spec_fn(usize) -> int) -> int
    decreases x.len(),
{
    if x.len() == 0 {
        0
    } else {
        f(x[0]) + seq_weight(x.drop_first(), f)
    }
}

proof fn lemma_seq_weight_remove(x: Seq<usize>, u: int, f: spec_fn(usize) -> int)
    requires
        0 <= u < x.len(),
    ensures
        seq_weight(x, f) == seq_weight(x.remove(u), f) + f(x[u]),
    decreases u,
{
    if u == 0 {
        assert(x.remove(0) =~= x.drop_first());
    } else {
        assert(x.remove(u).drop_first() =~= x.drop_first().remove(u - 1));
        lemma_seq_weight_remove(x.drop_first(), u - 1, f);
    }
}

/// Sequences with equal multisets have equal total weight.
pub proof fn lemma_seq_weight_permutation(x: Seq<usize>, y: Seq<usize>, f: spec_fn(usize) -> int)
    requires
        x.to_multiset() == y.to_multiset(),
    ensures
        seq_weight(x, f) == seq_weight(y, f),
    decreases x.len(),
{
    broadcast use vstd::seq_lib::group_to_multiset_ensures;

    if x.len() == 0 {
        assert(y.to_multiset().len() == 0);
        assert(y.len() == 0);
    } else {
        assert(x.to_multiset().count(x[0]) > 0) by {
            assert(x.contains(x[0]));
        }
        assert(y.to_multiset().count(x[0]) > 0);
        assert(y.contains(x[0]));
        let u = choose|u: int| 0 <= u < y.len() && y[u] == x[0];
        lemma_seq_weight_remove(y, u, f);
        assert(x.drop_first().to_multiset() =~= x.to_multiset().remove(x[0])) by {
            assert(x.remove(0) =~= x.drop_first());
        }
        assert(y.remove(u).to_multiset() =~= y.to_multiset().remove(y[u]));
        lemma_seq_weight_permutation(x.drop_first(), y.remove(u), f);
    }
}

pub(crate) proof fn lemma_seq_weight_concat(a: Seq<usize>, b: Seq<usize>, f: spec_fn(usize) -> int)
    ensures
        seq_weight(a + b, f) == seq_weight(a, f) + seq_weight(b, f),
    decreases a.len(),
{
    if a.len() == 0 {
        assert(a + b =~= b);
    } else {
        assert((a + b).drop_first() =~= a.drop_first() + b);
        lemma_seq_weight_concat(a.drop_first(), b, f);
    }
}

/// The weight that counts internal nodes.
pub open spec fn internal_weight(s: Seq<Node>) -> spec_fn(usize) -> int {
    |x: usize|
        if 0 <= x < s.len() && is_internal(s[x as int]) {
            1int
        } else {
            0int
        }
}

/// The weight that counts leaves.
pub open spec fn leaf_weight(s: Seq<Node>) -> spec_fn(usize) -> int {
    |x: usize|
        if 0 <= x < s.len() && !is_internal(s[x as int]) {
            1int
        } else {
            0int
        }
}

/// Over the subtree node list, the two weights total the subtree counts.
pub proof fn lemma_subtree_weights(s: Seq<Node>, i: int)
    requires
        wf_arena(s),
        s.len() <= usize::MAX,
        0 <= i < s.len(),
    ensures
        seq_weight(subtree_nodes(s, i), internal_weight(s)) == subtree_internal_count(s, i),
        seq_weight(subtree_nodes(s, i), leaf_weight(s)) == subtree_leaf_count(s, i),
    decreases s.len() - i,
{
    if is_internal(s[i]) && has_kids(s, i) {
        assert(wf_internal_at(s, i));
        lemma_subtree_weights(s, lchild(s, i));
        lemma_subtree_weights(s, rchild(s, i));
        let a = subtree_nodes(s, lchild(s, i));
        let b = subtree_nodes(s, rchild(s, i));
        lemma_seq_weight_concat(seq![i as usize] + a, b, internal_weight(s));
        lemma_seq_weight_concat(seq![i as usize], a, internal_weight(s));
        lemma_seq_weight_concat(seq![i as usize] + a, b, leaf_weight(s));
        lemma_seq_weight_concat(seq![i as usize], a, leaf_weight(s));
        assert(seq_weight(seq![i as usize], internal_weight(s)) == 1) by {
            assert(seq![i as usize].drop_first() =~= Seq::<usize>::empty());
            assert(seq_weight(Seq::<usize>::empty(), internal_weight(s)) == 0);
            assert((internal_weight(s))(i as usize) == 1);
        }
        assert(seq_weight(seq![i as usize], leaf_weight(s)) == 0) by {
            assert(seq![i as usize].drop_first() =~= Seq::<usize>::empty());
            assert(seq_weight(Seq::<usize>::empty(), leaf_weight(s)) == 0);
            assert((leaf_weight(s))(i as usize) == 0);
        }
    } else {
        assert(subtree_nodes(s, i) =~= seq![i as usize]);
        assert(seq![i as usize].drop_first() =~= Seq::<usize>::empty());
        assert(seq_weight(Seq::<usize>::empty(), internal_weight(s)) == 0);
        assert(seq_weight(Seq::<usize>::empty(), leaf_weight(s)) == 0);
        assert((internal_weight(s))(i as usize) == (if is_internal(s[i]) { 1int } else { 0int }));
        assert((leaf_weight(s))(i as usize) == (if is_internal(s[i]) { 0int } else { 1int }));
    }
}

} // verus!

verus! {

/// The chain of ancestors of a node, from the root down to its parent.
pub open spec fn anc_chain(s: Seq<Node>, i: int) -> Seq<usize>
    decreases i,
{
    if 0 <= i < s.len() {
        match s[i].parent {
            None => Seq::empty(),
            Some(p) => {
                if (p as int) < i {
                    anc_chain(s, p as int).push(p)
                } else {
                    Seq::empty()
                }
            },
        }
    } else {
        Seq::empty()
    }
}

impl Layout {
    /// The ancestors of a node, from the root down to its parent.
    pub fn ancestors(&self, index: usize) -> (r: Vec<usize>)
        requires
            self.wf(),
            index < self.nodes@.len(),
        ensures
            r@ == anc_chain(self.nodes@, index as int),
    {
        let mut up: Vec<usize> = Vec::new();
        let mut cur: usize = index;
        while self.nodes[cur].parent.is_some()
            invariant
                self.wf(),
                cur < self.nodes@.len(),
                forall|t: int| 0 <= t < up@.len() ==> (#[trigger] up@[t]) < self.nodes@.len(),
                anc_chain(self.nodes@, index as int) =~= anc_chain(
                    self.nodes@,
                    cur as int,
                ) + up@.reverse(),
            decreases cur,
        {
            let p = match self.nodes[cur].parent {
                Some(p) => p,
                None => {
                    proof {
                        assert(false);
                    }
                    0
                },
            };
            proof {
                assert(wf_parent_at(self.nodes@, cur as int));
                assert(anc_chain(self.nodes@, cur as int) =~= anc_chain(
                    self.nodes@,
                    p as int,
                ).push(p));
                assert((anc_chain(self.nodes@, p as int).push(p)) + up@.reverse() =~= anc_chain(
                    self.nodes@,
                    p as int,
                ) + up@.push(p).reverse());
            }
            up.push(p);
            cur = p;
        }
        proof {
            assert(anc_chain(self.nodes@, cur as int) =~= Seq::<usize>::empty());
            assert(anc_chain(self.nodes@, index as int) =~= up@.reverse());
        }
        let mut r: Vec<usize> = Vec::new();
        let mut t: usize = up.len();
        while t > 0
            invariant
                t <= up@.len(),
                r@ =~= up@.reverse().take(up@.len() - t),
            decreases t,
        {
            t = t - 1;
            r.push(up[t]);
            proof {
                assert(r@ =~= up@.reverse().take(up@.len() - t));
            }
        }
        proof {
            assert(r@ =~= up@.reverse());
        }
        r
    }

    /// The node together with its ancestors: the path from the root to the
    /// node, the node last.
    pub fn lineage(&self, index: usize) -> (r: Vec<usize>)
        requires
            self.wf(),
            index < self.nodes@.len(),
        ensures
            r@ == anc_chain(self.nodes@, index as int).push(index),
    {
        let mut r = self.ancestors(index);
        r.push(index);
        r
    }
}

} // verus!
