//! Random layout construction: a random canvas hint, a randomly grown
//! internal skeleton, and the images attached as leaves in a random order.

use vstd::prelude::*;

use rand::rngs::StdRng;

use crate::geometry::Dimensions;
use crate::rng::{rand_bool, rand_usize};
use crate::tree::{
    ic_of, is_internal, lchild, leaf_handles, rchild, wf_arena, wf_internal_at, wf_leaf_at,
    wf_parent_at, ImageHandle, Layout, Node, NodeLabel, SliceDirection,
};

verus! {

/// How many of a node's two child slots are taken.
pub open spec fn count_node(n: Node) -> int {
    (if n.left is Some {
        1int
    } else {
        0int
    }) + (if n.right is Some {
        1int
    } else {
        0int
    })
}

/// Open child slots of the nodes in [j, k).
pub open spec fn open_after(s: Seq<Node>, j: int, k: int) -> int
    decreases k - j,
{
    if j >= k {
        0
    } else {
        2 - count_node(s[j]) + open_after(s, j + 1, k)
    }
}

proof fn lemma_open_after_nonneg(s: Seq<Node>, j: int, k: int)
    ensures
        open_after(s, j, k) >= 0,
    decreases k - j,
{
    if j < k {
        lemma_open_after_nonneg(s, j + 1, k);
    }
}

proof fn lemma_open_after_congruent(s1: Seq<Node>, s2: Seq<Node>, j: int, k: int)
    requires
        0 <= j,
        k <= s1.len(),
        k <= s2.len(),
        forall|t: int| j <= t < k ==> s1[t] == s2[t],
    ensures
        open_after(s1, j, k) == open_after(s2, j, k),
    decreases k - j,
{
    if j < k {
        lemma_open_after_congruent(s1, s2, j + 1, k);
    }
}

proof fn lemma_open_after_update(s: Seq<Node>, p: int, x: Node, j: int, k: int)
    requires
        0 <= j <= p < k <= s.len(),
    ensures
        open_after(s.update(p, x), j, k) == open_after(s, j, k) + count_node(s[p]) - count_node(x),
    decreases k - j,
{
    if j < k {
        if j == p {
            lemma_open_after_congruent(s.update(p, x), s, j + 1, k);
        } else {
            lemma_open_after_update(s, p, x, j + 1, k);
        }
    }
}

/// The nodes with an open child slot, in index order.
fn nodes_with_open_slot(nodes: &Vec<Node>) -> (r: Vec<usize>)
    ensures
        forall|t: int|
            0 <= t < r@.len() ==> (#[trigger] r@[t]) < nodes@.len() && count_node(
                nodes@[r@[t] as int],
            ) < 2,
        r@.len() == 0 ==> forall|i: int|
            0 <= i < nodes@.len() ==> count_node(#[trigger] nodes@[i]) == 2,
{
    let mut r: Vec<usize> = Vec::new();
    let mut i: usize = 0;
    while i < nodes.len()
        invariant
            i <= nodes@.len(),
            forall|t: int|
                0 <= t < r@.len() ==> (#[trigger] r@[t]) < nodes@.len() && count_node(
                    nodes@[r@[t] as int],
                ) < 2,
            r@.len() == 0 ==> forall|t: int|
                0 <= t < i ==> count_node(#[trigger] nodes@[t]) == 2,
        decreases nodes@.len() - i,
    {
        if nodes[i].left.is_none() || nodes[i].right.is_none() {
            r.push(i);
        }
        i = i + 1;
    }
    r
}

/// Per-node structural facts that hold while the internal skeleton grows and
/// while leaves are attached: present children point forward and back.
pub open spec fn gkids_ok(s: Seq<Node>, i: int) -> bool {
    &&& (s[i].left is Some ==> i < lchild(s, i) < s.len() && s[lchild(s, i)].parent == Some(
        i as usize,
    ))
    &&& (s[i].right is Some ==> i < rchild(s, i) < s.len() && s[rchild(s, i)].parent == Some(
        i as usize,
    ) && s[i].left is Some && lchild(s, i) != rchild(s, i))
}

impl Layout {
    /// Builds a random layout over the given images: a random canvas hint, a
    /// randomly grown internal skeleton, and the images attached as leaves in
    /// a random order.
    ///
    /// The result is a well-formed strict binary tree with exactly one leaf
    /// per image (the leaf multiset equals the input multiset), N - 1
    /// internal nodes and 2N - 1 nodes in all.
    pub fn new(images: &Vec<ImageHandle>, rng: &mut StdRng) -> (r: Layout)
        requires
            images@.len() >= 2,
            forall|t: int|
                0 <= t < images@.len() ==> (#[trigger] images@[t]).width >= 1 && images@[t].height
                    >= 1,
        ensures
            r.wf(),
            r.nodes@.len() == 2 * images@.len() - 1,
            ic_of(r.nodes@) == images@.len() - 1,
            leaf_handles(r.nodes@).to_multiset() == images@.to_multiset(),
            r.canvas_dimensions.width >= 1,
            r.canvas_dimensions.height >= 1,
            exists|sel: Seq<ImageHandle>|
                #![auto]
                1 <= sel.len() <= images@.len() && sel.to_multiset().subset_of(
                    images@.to_multiset(),
                ) && r.canvas_dimensions.width as int == (if sum_widths(sel) > u32::MAX as int {
                    u32::MAX as int
                } else {
                    sum_widths(sel)
                }),
            exists|sel: Seq<ImageHandle>|
                #![auto]
                1 <= sel.len() <= images@.len() && sel.to_multiset().subset_of(
                    images@.to_multiset(),
                ) && r.canvas_dimensions.height as int == (if sum_heights(sel) > u32::MAX as int {
                    u32::MAX as int
                } else {
                    sum_heights(sel)
                }),
    {
        let n = images.len();
        let canvas_dimensions = random_canvas_dimensions(images, rng);
        let shuffled = shuffle_images(images, rng);
        let mut nodes: Vec<Node> = Vec::new();
        nodes.push(
            Node {
                label: NodeLabel::Internal(random_direction(rng)),
                parent: None,
                left: None,
                right: None,
            },
        );
        proof {
            assert(open_after(nodes@, 1, 1) == 0);
            assert(open_after(nodes@, 0, 1) == 2);
        }
        // Grow the internal skeleton: n - 1 internal nodes, each new one
        // attached under a uniformly chosen node with an open slot.
        let mut m: usize = 1;
        while m < n - 1
            invariant
                1 <= m <= n - 1,
                2 <= n == images@.len(),
                nodes@.len() == m,
                forall|i: int| 0 <= i < m ==> is_internal(#[trigger] nodes@[i]),
                nodes@[0].parent is None,
                forall|i: int| 1 <= i < m ==> wf_parent_at(nodes@, i),
                forall|i: int| 0 <= i < m ==> gkids_ok(nodes@, i),
                open_after(nodes@, 0, m as int) == m + 1,
            decreases n - 1 - m,
        {
            let ghost pre = nodes@;
            let candidates = nodes_with_open_slot(&nodes);
            proof {
                if candidates@.len() == 0 {
                    lemma_all_full(pre, 0, m as int);
                    assert(open_after(pre, 0, m as int) == 0);
                    assert(false);
                }
            }
            let pick = candidates[rand_usize(rng, 0, candidates.len() - 1)];
            let idx = nodes.len();
            nodes.push(
                Node {
                    label: NodeLabel::Internal(random_direction(rng)),
                    parent: Some(pick),
                    left: None,
                    right: None,
                },
            );
            let mut np = nodes[pick];
            proof {
                if np.left is Some && np.right is Some {
                    assert(count_node(pre[pick as int]) == 2);
                    assert(false);
                }
                if np.left is None && np.right is Some {
                    assert(gkids_ok(pre, pick as int));
                    assert(false);
                }
            }
            if np.left.is_none() {
                np.left = Some(idx);
            } else {
                np.right = Some(idx);
            }
            nodes.set(pick, np);
            proof {
                let s2 = nodes@;
                let mm = m as int;
                assert(s2 == pre.push(s2[mm]).update(pick as int, np));
                assert forall|x: int| 0 <= x < mm && x != pick implies #[trigger] s2[x]
                    == pre[x] by {}
                assert(count_node(np) == count_node(pre[pick as int]) + 1);
                lemma_open_after_congruent(s2, pre.update(pick as int, np), 0, mm);
                lemma_open_after_update(pre, pick as int, np, 0, mm);
                assert(open_after(s2, 0, mm) == mm);
                assert(count_node(s2[mm]) == 0);
                assert(open_after(s2, mm + 1, mm + 1) == 0);
                assert(open_after(s2, mm, mm + 1) == 2);
                lemma_open_after_append(s2, 0, mm, mm + 1);
                assert(open_after(s2, 0, mm + 1) == mm + 2);
                assert(np.parent == pre[pick as int].parent);
                assert(s2[mm].parent == Some(pick));
                assert forall|i: int| 0 <= i < mm + 1 implies gkids_ok(s2, i) by {
                    if i == mm {
                    } else if i == pick {
                        assert(gkids_ok(pre, i));
                        if pre[i].left is Some {
                            assert(lchild(pre, i) < mm && lchild(pre, i) != pick);
                            assert(s2[lchild(s2, i)] == pre[lchild(pre, i)]);
                        }
                    } else {
                        assert(gkids_ok(pre, i));
                        if pre[i].left is Some {
                            assert(lchild(pre, i) < mm);
                            if lchild(pre, i) != pick {
                                assert(s2[lchild(pre, i)] == pre[lchild(pre, i)]);
                            }
                        }
                        if pre[i].right is Some {
                            assert(rchild(pre, i) < mm);
                            if rchild(pre, i) != pick {
                                assert(s2[rchild(pre, i)] == pre[rchild(pre, i)]);
                            }
                        }
                    }
                }
                assert forall|i: int| 1 <= i < mm + 1 implies wf_parent_at(s2, i) by {
                    if i < mm {
                        assert(wf_parent_at(pre, i));
                    }
                }
            }
            m = m + 1;
        }
        // Attach the shuffled images as leaves to nodes with open slots, in
        // creation order; the slot count works out to exactly one per image.
        let k = nodes.len();
        let mut used: usize = 0;
        let mut j: usize = 0;
        proof {
            assert(open_after(nodes@, 0, k as int) == n);
        }
        while j < k
            invariant
                j <= k,
                1 <= k == n - 1,
                2 <= n == images@.len(),
                shuffled@.len() == n,
                shuffled@.to_multiset() == images@.to_multiset(),
                forall|t: int|
                    0 <= t < shuffled@.len() ==> (#[trigger] shuffled@[t]).width >= 1
                        && shuffled@[t].height >= 1,
                nodes@.len() == k + used,
                used <= n,
                used + open_after(nodes@, j as int, k as int) == n,
                forall|i: int| 0 <= i < k ==> is_internal(#[trigger] nodes@[i]),
                forall|t: int|
                    0 <= t < used ==> (#[trigger] nodes@[k + t]).label == NodeLabel::Leaf(
                        shuffled@[t],
                    ) && nodes@[k + t].left is None && nodes@[k + t].right is None,
                nodes@[0].parent is None,
                forall|i: int| 1 <= i < k + used ==> wf_parent_at(nodes@, i),
                forall|i: int| 0 <= i < k ==> gkids_ok(nodes@, i),
                forall|i: int| 0 <= i < j ==> count_node(#[trigger] nodes@[i]) == 2,
            decreases k - j,
        {
            while nodes[j].left.is_none() || nodes[j].right.is_none()
                invariant
                    j < k,
                    1 <= k == n - 1,
                    2 <= n == images@.len(),
                    shuffled@.len() == n,
                    shuffled@.to_multiset() == images@.to_multiset(),
                    forall|t: int|
                        0 <= t < shuffled@.len() ==> (#[trigger] shuffled@[t]).width >= 1
                            && shuffled@[t].height >= 1,
                    nodes@.len() == k + used,
                    used <= n,
                    used + open_after(nodes@, j as int, k as int) == n,
                    forall|i: int| 0 <= i < k ==> is_internal(#[trigger] nodes@[i]),
                    forall|t: int|
                        0 <= t < used ==> (#[trigger] nodes@[k + t]).label == NodeLabel::Leaf(
                            shuffled@[t],
                        ) && nodes@[k + t].left is None && nodes@[k + t].right is None,
                    nodes@[0].parent is None,
                    forall|i: int| 1 <= i < k + used ==> wf_parent_at(nodes@, i),
                    forall|i: int| 0 <= i < k ==> gkids_ok(nodes@, i),
                    forall|i: int| 0 <= i < j ==> count_node(#[trigger] nodes@[i]) == 2,
                decreases 2 - count_node(nodes@[j as int]),
            {
                let ghost pre = nodes@;
                let ghost jj = j as int;
                proof {
                    lemma_open_after_nonneg(pre, jj + 1, k as int);
                    assert(count_node(pre[jj]) < 2);
                    assert(open_after(pre, jj, k as int) >= 1);
                    assert(used < n);
                }
                let idx = nodes.len();
                nodes.push(
                    Node {
                        label: NodeLabel::Leaf(shuffled[used]),
                        parent: Some(j),
                        left: None,
                        right: None,
                    },
                );
                let mut np = nodes[j];
                proof {
                    if np.left is None && np.right is Some {
                        assert(gkids_ok(pre, jj));
                        assert(false);
                    }
                }
                if np.left.is_none() {
                    np.left = Some(idx);
                } else {
                    np.right = Some(idx);
                }
                nodes.set(j, np);
                used = used + 1;
                proof {
                    let s2 = nodes@;
                    assert forall|x: int| 0 <= x < pre.len() && x != jj implies #[trigger] s2[x]
                        == pre[x] by {}
                    assert(count_node(np) == count_node(pre[jj]) + 1);
                    lemma_open_after_congruent(
                        s2,
                        pre.push(s2[pre.len() as int]).update(jj, np),
                        jj,
                        k as int,
                    );
                    lemma_open_after_congruent(
                        pre.push(s2[pre.len() as int]).update(jj, np),
                        pre.update(jj, np),
                        jj,
                        k as int,
                    );
                    lemma_open_after_update(pre, jj, np, jj, k as int);
                    assert(np.parent == pre[jj].parent);
                    assert(s2[pre.len() as int].parent == Some(j));
                    assert forall|i: int| 0 <= i < k implies gkids_ok(s2, i) by {
                        if i == jj {
                            assert(gkids_ok(pre, i));
                            if pre[i].left is Some {
                                assert(lchild(pre, i) < pre.len() && lchild(pre, i) != jj);
                                assert(s2[lchild(s2, i)] == pre[lchild(pre, i)]);
                            }
                        } else {
                            assert(gkids_ok(pre, i));
                            if pre[i].left is Some {
                                assert(lchild(pre, i) < pre.len());
                                if lchild(pre, i) != jj {
                                    assert(s2[lchild(pre, i)] == pre[lchild(pre, i)]);
                                }
                            }
                            if pre[i].right is Some {
                                assert(rchild(pre, i) < pre.len());
                                if rchild(pre, i) != jj {
                                    assert(s2[rchild(pre, i)] == pre[rchild(pre, i)]);
                                }
                            }
                        }
                    }
                    assert forall|i: int| 1 <= i < s2.len() implies wf_parent_at(s2, i) by {
                        if i < pre.len() {
                            assert(wf_parent_at(pre, i));
                        }
                    }
                }
            }
            j = j + 1;
        }
        proof {
            assert(used == n);
        }
        let layout = Layout { canvas_dimensions, nodes };
        proof {
            let s = layout.nodes@;
            assert(s.len() == 2 * n - 1);
            assert(ic_of(s) == n - 1);
            assert forall|i: int| 0 <= i < s.len() implies (is_internal(s[i]) <==> i < ic_of(
                s,
            )) by {
                if i >= k {
                    let t = i - k;
                    assert(s[k + t].label == NodeLabel::Leaf(shuffled@[t]));
                }
            }
            assert forall|i: int| 0 <= i < ic_of(s) implies wf_internal_at(s, i) by {
                assert(count_node(s[i]) == 2);
                assert(gkids_ok(s, i));
            }
            assert forall|i: int| ic_of(s) <= i < s.len() implies wf_leaf_at(s, i) by {
                let t = i - k;
                assert(s[k + t].label == NodeLabel::Leaf(shuffled@[t]));
                assert(shuffled@[t].width >= 1 && shuffled@[t].height >= 1);
            }
            assert(wf_arena(s));
            assert(leaf_handles(s) =~= shuffled@);
        }
        layout
    }
}

proof fn lemma_all_full(s: Seq<Node>, j: int, k: int)
    requires
        0 <= j,
        k <= s.len(),
        forall|i: int| 0 <= i < s.len() ==> count_node(#[trigger] s[i]) == 2,
    ensures
        open_after(s, j, k) == 0,
    decreases k - j,
{
    if j < k {
        lemma_all_full(s, j + 1, k);
    }
}

proof fn lemma_open_after_append(s: Seq<Node>, j: int, m: int, k: int)
    requires
        0 <= j <= m <= k <= s.len(),
    ensures
        open_after(s, j, k) == open_after(s, j, m) + open_after(s, m, k),
    decreases m - j,
{
    if j < m {
        lemma_open_after_append(s, j + 1, m, k);
    }
}

/// A uniformly random slice direction.
fn random_direction(rng: &mut StdRng) -> SliceDirection {
    if rand_bool(rng) {
        SliceDirection::Vertical
    } else {
        SliceDirection::Horizontal
    }
}

/// The total width of a selection of images.
pub open spec fn sum_widths(sel: Seq<ImageHandle>) -> int
    decreases sel.len(),
{
    if sel.len() == 0 {
        0
    } else {
        sel[0].width + sum_widths(sel.drop_first())
    }
}

/// The total height of a selection of images.
pub open spec fn sum_heights(sel: Seq<ImageHandle>) -> int
    decreases sel.len(),
{
    if sel.len() == 0 {
        0
    } else {
        sel[0].height + sum_heights(sel.drop_first())
    }
}

proof fn lemma_sum_widths_push(sel: Seq<ImageHandle>, h: ImageHandle)
    ensures
        sum_widths(sel.push(h)) == sum_widths(sel) + h.width,
    decreases sel.len(),
{
    if sel.len() == 0 {
        assert(sel.push(h).drop_first() =~= Seq::<ImageHandle>::empty());
        assert(sum_widths(Seq::<ImageHandle>::empty()) == 0);
        assert(sel.push(h)[0] == h);
    } else {
        assert(sel.push(h).drop_first() =~= sel.drop_first().push(h));
        assert(sel.push(h)[0] == sel[0]);
        lemma_sum_widths_push(sel.drop_first(), h);
    }
}

proof fn lemma_sum_heights_push(sel: Seq<ImageHandle>, h: ImageHandle)
    ensures
        sum_heights(sel.push(h)) == sum_heights(sel) + h.height,
    decreases sel.len(),
{
    if sel.len() == 0 {
        assert(sel.push(h).drop_first() =~= Seq::<ImageHandle>::empty());
        assert(sum_heights(Seq::<ImageHandle>::empty()) == 0);
        assert(sel.push(h)[0] == h);
    } else {
        assert(sel.push(h).drop_first() =~= sel.drop_first().push(h));
        assert(sel.push(h)[0] == sel[0]);
        lemma_sum_heights_push(sel.drop_first(), h);
    }
}

/// A prefix of a sequence holds a sub-multiset of its elements.
proof fn lemma_take_submultiset(s: Seq<ImageHandle>, i: int)
    requires
        0 <= i <= s.len(),
    ensures
        s.take(i).to_multiset().subset_of(s.to_multiset()),
{
    broadcast use vstd::seq_lib::group_to_multiset_ensures;
    broadcast use vstd::multiset::group_multiset_axioms;

    assert(s =~= s.take(i) + s.skip(i));
    vstd::seq_lib::lemma_multiset_commutative(s.take(i), s.skip(i));
    assert forall|x: ImageHandle|
        s.take(i).to_multiset().count(x) <= s.to_multiset().count(x) by {
        assert(s.to_multiset().count(x) == s.take(i).to_multiset().count(x) + s.skip(
            i,
        ).to_multiset().count(x));
    }
}

/// A random permutation of the images (Fisher-Yates).
fn shuffle_images(images: &Vec<ImageHandle>, rng: &mut StdRng) -> (r: Vec<ImageHandle>)
    ensures
        r@.len() == images@.len(),
        r@.to_multiset() == images@.to_multiset(),
        (forall|t: int|
            0 <= t < images@.len() ==> (#[trigger] images@[t]).width >= 1 && images@[t].height
                >= 1) ==> (forall|t: int|
            0 <= t < r@.len() ==> (#[trigger] r@[t]).width >= 1 && r@[t].height >= 1),
{
    let mut r: Vec<ImageHandle> = Vec::new();
    let mut i: usize = 0;
    while i < images.len()
        invariant
            i <= images@.len(),
            r@ == images@.take(i as int),
        decreases images@.len() - i,
    {
        r.push(images[i]);
        proof {
            assert(r@ =~= images@.take(i as int + 1));
        }
        i = i + 1;
    }
    proof {
        assert(r@ =~= images@);
    }
    let n = r.len();
    if n <= 1 {
        return r;
    }
    let mut i: usize = n - 1;
    while i >= 1
        invariant
            i <= n - 1,
            n == r@.len(),
            r@.to_multiset() == images@.to_multiset(),
            (forall|t: int|
                0 <= t < images@.len() ==> (#[trigger] images@[t]).width >= 1 && images@[t].height
                    >= 1) ==> (forall|t: int|
                0 <= t < r@.len() ==> (#[trigger] r@[t]).width >= 1 && r@[t].height >= 1),
        decreases i,
    {
        let pick = rand_usize(rng, 0, i);
        let ghost pre = r@;
        let a = r[i];
        let b = r[pick];
        r.set(i, b);
        r.set(pick, a);
        proof {
            lemma_swap_multiset_handles(pre, r@, i as int, pick as int);
        }
        i = i - 1;
    }
    r
}

/// Swapping two positions of a sequence leaves its multiset unchanged.
pub(crate) proof fn lemma_swap_multiset_handles(s1: Seq<ImageHandle>, s2: Seq<ImageHandle>, i: int, p: int)
    requires
        s1.len() == s2.len(),
        0 <= i < s1.len(),
        0 <= p < s1.len(),
        s2 == s1.update(i, s1[p]).update(p, s1[i]),
    ensures
        s2.to_multiset() == s1.to_multiset(),
{
    broadcast use vstd::seq_lib::to_multiset_update;
    broadcast use vstd::seq_lib::group_to_multiset_ensures;
    broadcast use vstd::multiset::group_multiset_axioms;

    if i == p {
        assert(s2 =~= s1);
    } else {
        let su = s1.update(i, s1[p]);
        assert(s1.contains(s1[i]));
        assert(s1.to_multiset().count(s1[i]) > 0);
        assert(su[i] == s1[p]);
        assert(su.contains(s1[p]));
        assert(su.to_multiset().count(s1[p]) > 0);
        assert(s2.to_multiset() =~= s1.to_multiset());
    }
}

/// The random canvas hint: for each axis, the sum of that dimension over a
/// random non-empty subset of the images, clamped to the u32 range.
fn random_canvas_dimensions(images: &Vec<ImageHandle>, rng: &mut StdRng) -> (r: Dimensions)
    requires
        images@.len() >= 1,
        forall|t: int|
            0 <= t < images@.len() ==> (#[trigger] images@[t]).width >= 1 && images@[t].height
                >= 1,
    ensures
        r.width >= 1,
        r.height >= 1,
        exists|sel: Seq<ImageHandle>|
            #![auto]
            1 <= sel.len() <= images@.len() && sel.to_multiset().subset_of(images@.to_multiset())
                && r.width as int == (if sum_widths(sel) > u32::MAX as int {
                u32::MAX as int
            } else {
                sum_widths(sel)
            }),
        exists|sel: Seq<ImageHandle>|
            #![auto]
            1 <= sel.len() <= images@.len() && sel.to_multiset().subset_of(images@.to_multiset())
                && r.height as int == (if sum_heights(sel) > u32::MAX as int {
                u32::MAX as int
            } else {
                sum_heights(sel)
            }),
{
    let n = images.len();
    let for_width = rand_usize(rng, 1, n);
    let for_height = rand_usize(rng, 1, n);
    let picks_w = shuffle_images(images, rng);
    let picks_h = shuffle_images(images, rng);
    let mut wsum: u64 = 0;
    let mut i: usize = 0;
    while i < for_width
        invariant
            1 <= for_width <= n == picks_w@.len(),
            i <= for_width,
            forall|t: int|
                0 <= t < picks_w@.len() ==> (#[trigger] picks_w@[t]).width >= 1
                    && picks_w@[t].height >= 1,
            i >= 1 ==> wsum >= 1,
            wsum <= 0x2_0000_0000,
            wsum <= u32::MAX as u64 ==> wsum as int == sum_widths(picks_w@.take(i as int)),
            wsum > u32::MAX as u64 ==> sum_widths(picks_w@.take(i as int)) > u32::MAX as int,
        decreases for_width - i,
    {
        proof {
            assert(picks_w@.take(i as int + 1) =~= picks_w@.take(i as int).push(
                picks_w@[i as int],
            ));
            lemma_sum_widths_push(picks_w@.take(i as int), picks_w@[i as int]);
        }
        if wsum <= u32::MAX as u64 {
            wsum = wsum + picks_w[i].width as u64;
        }
        i = i + 1;
    }
    let mut hsum: u64 = 0;
    let mut i: usize = 0;
    while i < for_height
        invariant
            1 <= for_height <= n == picks_h@.len(),
            i <= for_height,
            forall|t: int|
                0 <= t < picks_h@.len() ==> (#[trigger] picks_h@[t]).width >= 1
                    && picks_h@[t].height >= 1,
            i >= 1 ==> hsum >= 1,
            hsum <= 0x2_0000_0000,
            hsum <= u32::MAX as u64 ==> hsum as int == sum_heights(picks_h@.take(i as int)),
            hsum > u32::MAX as u64 ==> sum_heights(picks_h@.take(i as int)) > u32::MAX as int,
        decreases for_height - i,
    {
        proof {
            assert(picks_h@.take(i as int + 1) =~= picks_h@.take(i as int).push(
                picks_h@[i as int],
            ));
            lemma_sum_heights_push(picks_h@.take(i as int), picks_h@[i as int]);
        }
        if hsum <= u32::MAX as u64 {
            hsum = hsum + picks_h[i].height as u64;
        }
        i = i + 1;
    }
    let width = if wsum > u32::MAX as u64 {
        u32::MAX
    } else {
        wsum as u32
    };
    let height = if hsum > u32::MAX as u64 {
        u32::MAX
    } else {
        hsum as u32
    };
    proof {
        broadcast use vstd::seq_lib::group_to_multiset_ensures;
        broadcast use vstd::multiset::group_multiset_axioms;

        let selw = picks_w@.take(for_width as int);
        lemma_take_submultiset(picks_w@, for_width as int);
        assert(selw.to_multiset().subset_of(images@.to_multiset())) by {
            assert forall|x: ImageHandle|
                selw.to_multiset().count(x) <= images@.to_multiset().count(x) by {
                assert(selw.to_multiset().count(x) <= picks_w@.to_multiset().count(x));
            }
        }
        assert(selw.len() == for_width);
        assert(width as int == (if sum_widths(selw) > u32::MAX as int {
            u32::MAX as int
        } else {
            sum_widths(selw)
        }));
        let selh = picks_h@.take(for_height as int);
        lemma_take_submultiset(picks_h@, for_height as int);
        assert(selh.to_multiset().subset_of(images@.to_multiset())) by {
            assert forall|x: ImageHandle|
                selh.to_multiset().count(x) <= images@.to_multiset().count(x) by {
                assert(selh.to_multiset().count(x) <= picks_h@.to_multiset().count(x));
            }
        }
        assert(height as int == (if sum_heights(selh) > u32::MAX as int {
            u32::MAX as int
        } else {
            sum_heights(selh)
        }));
    }
    Dimensions { width, height }
}

} // verus!
