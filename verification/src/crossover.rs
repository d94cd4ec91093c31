//! The crossover operator: eligible subtree enumeration, and the splice
//! that swaps two equally sized subtrees between layouts while each side
//! keeps its own leaves.

use vstd::prelude::*;

use vstd::multiset::Multiset;

use rand::rngs::StdRng;

use crate::tree::{
    dir_of, has_kids, ic_of, is_internal, lchild, leaf_handles, leaf_weight, rchild,
    subtree_leaf_count, subtree_nodes, seq_weight, wf_arena, wf_internal_at, Layout, Node,
    NodeLabel, SliceDirection,
};

verus! {

/// Whether the parent chain of x stays inside the subtree rooted at root:
/// the membership notion dual to the child recursion of subtree_nodes.
pub open spec fn in_sub(s: Seq<Node>, root: int, x: int) -> bool
    decreases x,
{
    if x == root {
        true
    } else if 0 <= x < s.len() && x > root && x > 0 {
        match s[x].parent {
            Some(p) => {
                if (p as int) < x {
                    in_sub(s, root, p as int)
                } else {
                    false
                }
            },
            None => false,
        }
    } else {
        false
    }
}

/// Everything on a parent chain lies at or above the chain's target.
proof fn lemma_in_sub_lower(s: Seq<Node>, root: int, x: int)
    requires
        in_sub(s, root, x),
    ensures
        x >= root,
    decreases x,
{
    if x != root {
        lemma_in_sub_lower(s, root, s[x].parent->0 as int);
    }
}

/// Parent chains are linear: two targets reachable from one node are
/// reachable from one another.
proof fn lemma_in_sub_linear(s: Seq<Node>, a: int, b: int, x: int)
    requires
        in_sub(s, a, x),
        in_sub(s, b, x),
    ensures
        in_sub(s, a, b) || in_sub(s, b, a),
    decreases x,
{
    if x == a {
        assert(in_sub(s, b, a));
    } else if x == b {
        assert(in_sub(s, a, b));
    } else {
        lemma_in_sub_linear(s, a, b, s[x].parent->0 as int);
    }
}

/// Chains compose: reaching m and then root is reaching root.
proof fn lemma_in_sub_trans(s: Seq<Node>, root: int, m: int, x: int)
    requires
        in_sub(s, m, x),
        in_sub(s, root, m),
    ensures
        in_sub(s, root, x),
    decreases x,
{
    if x != m {
        lemma_in_sub_trans(s, root, m, s[x].parent->0 as int);
    }
}

/// Every member of a subtree's node list reaches the subtree root by its
/// parent chain.
#[verifier::rlimit(100)]
#[verifier::spinoff_prover]
proof fn lemma_subtree_nodes_in_sub(s: Seq<Node>, i: int, t: int)
    requires
        wf_arena(s),
        s.len() <= usize::MAX,
        0 <= i < s.len(),
        0 <= t < subtree_nodes(s, i).len(),
    ensures
        in_sub(s, i, subtree_nodes(s, i)[t] as int),
    decreases s.len() - i,
{
    if is_internal(s[i]) && has_kids(s, i) {
        assert(wf_internal_at(s, i));
        let a = subtree_nodes(s, lchild(s, i));
        let b = subtree_nodes(s, rchild(s, i));
        let sn = subtree_nodes(s, i);
        assert(sn == (seq![i as usize] + a) + b);
        if t >= 1 {
            if t < 1 + a.len() {
                assert(sn[t] == a[t - 1]);
                lemma_subtree_nodes_in_sub(s, lchild(s, i), t - 1);
                crate::tree::lemma_subtree_range(s, lchild(s, i), t - 1);
                lemma_in_sub_lower(s, lchild(s, i), a[t - 1] as int);
                assert(in_sub(s, i, i));
                assert(in_sub(s, i, lchild(s, i)));
                lemma_in_sub_trans(s, i, lchild(s, i), a[t - 1] as int);
            } else {
                assert(sn[t] == b[t - 1 - a.len()]);
                lemma_subtree_nodes_in_sub(s, rchild(s, i), t - 1 - a.len());
                crate::tree::lemma_subtree_range(s, rchild(s, i), t - 1 - a.len());
                lemma_in_sub_lower(s, rchild(s, i), b[t - 1 - a.len()] as int);
                assert(in_sub(s, i, i));
                assert(in_sub(s, i, rchild(s, i)));
                lemma_in_sub_trans(s, i, rchild(s, i), b[t - 1 - a.len()] as int);
            }
        }
    } else {
        assert(subtree_nodes(s, i) =~= seq![i as usize]);
    }
}

/// The two child subtrees of an internal node share no member.
proof fn lemma_sibling_subtrees_disjoint(s: Seq<Node>, i: int, x: int)
    requires
        wf_arena(s),
        s.len() <= usize::MAX,
        0 <= i < s.len(),
        is_internal(s[i]),
    ensures
        !(in_sub(s, lchild(s, i), x) && in_sub(s, rchild(s, i), x)),
{
    assert(wf_internal_at(s, i));
    let l = lchild(s, i);
    let r = rchild(s, i);
    if in_sub(s, l, x) && in_sub(s, r, x) {
        lemma_in_sub_linear(s, l, r, x);
        if in_sub(s, l, r) {
            // One step of r's chain goes through i, which lies below l.
            if r != l {
                assert(s[r].parent == Some(i as usize));
                lemma_in_sub_lower(s, l, i);
            }
        } else {
            if l != r {
                assert(s[l].parent == Some(i as usize));
                lemma_in_sub_lower(s, r, i);
            }
        }
    }
}

/// A subtree's node list names each node at most once.
pub proof fn lemma_subtree_nodes_distinct(s: Seq<Node>, i: int)
    requires
        wf_arena(s),
        s.len() <= usize::MAX,
        0 <= i < s.len(),
    ensures
        subtree_nodes(s, i).no_duplicates(),
    decreases s.len() - i,
{
    if is_internal(s[i]) && has_kids(s, i) {
        assert(wf_internal_at(s, i));
        let l = lchild(s, i);
        let r = rchild(s, i);
        let a = subtree_nodes(s, l);
        let b = subtree_nodes(s, r);
        let sn = subtree_nodes(s, i);
        assert(sn == (seq![i as usize] + a) + b);
        lemma_subtree_nodes_distinct(s, l);
        lemma_subtree_nodes_distinct(s, r);
        assert forall|t1: int, t2: int| 0 <= t1 < t2 < sn.len() implies sn[t1] != sn[t2] by {
            crate::tree::lemma_subtree_range(s, i, t1);
            crate::tree::lemma_subtree_range(s, i, t2);
            if t1 == 0 {
                if t2 < 1 + a.len() {
                    assert(sn[t2] == a[t2 - 1]);
                    crate::tree::lemma_subtree_range(s, l, t2 - 1);
                } else {
                    assert(sn[t2] == b[t2 - 1 - a.len()]);
                    crate::tree::lemma_subtree_range(s, r, t2 - 1 - a.len());
                }
            } else if t1 < 1 + a.len() && t2 < 1 + a.len() {
                assert(sn[t1] == a[t1 - 1] && sn[t2] == a[t2 - 1]);
            } else if t1 >= 1 + a.len() && t2 >= 1 + a.len() {
                assert(sn[t1] == b[t1 - 1 - a.len()] && sn[t2] == b[t2 - 1 - a.len()]);
            } else {
                assert(sn[t1] == a[t1 - 1] && sn[t2] == b[t2 - 1 - a.len()]);
                if sn[t1] == sn[t2] {
                    lemma_subtree_nodes_in_sub(s, l, t1 - 1);
                    lemma_subtree_nodes_in_sub(s, r, t2 - 1 - a.len());
                    lemma_sibling_subtrees_disjoint(s, i, sn[t1] as int);
                }
            }
        }
    } else {
        assert(subtree_nodes(s, i) =~= seq![i as usize]);
    }
}

/// Multiset of all subtree node lists held in the queue.
pub open spec fn queue_multiset(s: Seq<Node>, q: Seq<usize>) -> Multiset<usize>
    decreases q.len(),
{
    if q.len() == 0 {
        Multiset::empty()
    } else {
        subtree_nodes(s, q[0] as int).to_multiset().add(queue_multiset(s, q.drop_first()))
    }
}

/// Total node count of the subtrees held in the queue.
pub open spec fn queue_weight(s: Seq<Node>, q: Seq<usize>) -> int
    decreases q.len(),
{
    if q.len() == 0 {
        0
    } else {
        subtree_nodes(s, q[0] as int).len() as int + queue_weight(s, q.drop_first())
    }
}

pub proof fn lemma_queue_push(s: Seq<Node>, q: Seq<usize>, x: usize)
    ensures
        queue_multiset(s, q.push(x)) == queue_multiset(s, q).add(
            subtree_nodes(s, x as int).to_multiset(),
        ),
        queue_weight(s, q.push(x)) == queue_weight(s, q) + subtree_nodes(s, x as int).len(),
    decreases q.len(),
{
    broadcast use vstd::multiset::group_multiset_axioms;

    if q.len() == 0 {
        assert(q.push(x).drop_first() =~= Seq::<usize>::empty());
        assert(q.push(x)[0] == x);
        assert(queue_multiset(s, Seq::<usize>::empty()) == Multiset::<usize>::empty());
        assert(queue_weight(s, Seq::<usize>::empty()) == 0);
        assert(queue_multiset(s, q.push(x)) =~= queue_multiset(s, q).add(
            subtree_nodes(s, x as int).to_multiset(),
        ));
        assert(queue_weight(s, q.push(x)) == queue_weight(s, q) + subtree_nodes(
            s,
            x as int,
        ).len());
    } else {
        assert(q.push(x).drop_first() =~= q.drop_first().push(x));
        assert(q.push(x)[0] == q[0]);
        lemma_queue_push(s, q.drop_first(), x);
        assert(queue_multiset(s, q.push(x)) =~= queue_multiset(s, q).add(
            subtree_nodes(s, x as int).to_multiset(),
        ));
        assert(queue_weight(s, q.push(x)) == queue_weight(s, q) + subtree_nodes(
            s,
            x as int,
        ).len());
    }
}

pub proof fn lemma_queue_weight_nonneg(s: Seq<Node>, q: Seq<usize>)
    ensures
        queue_weight(s, q) >= 0,
    decreases q.len(),
{
    if q.len() > 0 {
        lemma_queue_weight_nonneg(s, q.drop_first());
    }
}

/// The breadth-first visiting order over the arena, starting from the
/// queue's contents: pop the front, then enqueue its left child before its
/// right child. This is the order the encoder and the splice rely on.
pub open spec fn bfs_from(s: Seq<Node>, q: Seq<usize>) -> Seq<usize>
    decreases queue_weight(s, q), q.len(),
    via bfs_from_decreases
{
    if q.len() == 0 {
        Seq::empty()
    } else {
        let x = q[0];
        let rest = q.drop_first();
        if 0 <= (x as int) < s.len() && is_internal(s[x as int]) && has_kids(s, x as int) {
            seq![x] + bfs_from(
                s,
                rest.push(s[x as int].left->0).push(s[x as int].right->0),
            )
        } else {
            seq![x] + bfs_from(s, rest)
        }
    }
}

#[via_fn]
proof fn bfs_from_decreases(s: Seq<Node>, q: Seq<usize>) {
    if q.len() != 0 {
        let x = q[0];
        let rest = q.drop_first();
        lemma_queue_weight_nonneg(s, rest);
        lemma_queue_weight_nonneg(s, q);
        assert(queue_weight(s, q) == subtree_nodes(s, x as int).len() + queue_weight(s, rest));
        if 0 <= (x as int) < s.len() && is_internal(s[x as int]) && has_kids(s, x as int) {
            let l = s[x as int].left->0;
            let r = s[x as int].right->0;
            lemma_queue_push(s, rest, l);
            lemma_queue_push(s, rest.push(l), r);
            assert(subtree_nodes(s, x as int) == (seq![x] + subtree_nodes(s, l as int))
                + subtree_nodes(s, r as int));
        } else {
            if 0 <= (x as int) < s.len() {
                assert(subtree_nodes(s, x as int) =~= seq![x]);
            } else {
                assert(subtree_nodes(s, x as int) =~= Seq::<usize>::empty());
            }
        }
    }
}

/// The breadth-first order of the whole subtree rooted at start.
pub open spec fn bfs_of(s: Seq<Node>, start: usize) -> Seq<usize> {
    bfs_from(s, seq![start])
}

impl Layout {
    /// The nodes of the subtree rooted at start, in breadth-first order,
    /// left child before right child. The list names exactly the subtree's
    /// nodes, each once, with every node's parent listed before it.
    pub fn subtree_bfs(&self, start: usize) -> (r: Vec<usize>)
        requires
            self.wf(),
            start < self.nodes@.len(),
        ensures
            r@ == bfs_of(self.nodes@, start),
            r@.to_multiset() == subtree_nodes(self.nodes@, start as int).to_multiset(),
            r@.len() >= 1,
            r@[0] == start,
            r@.no_duplicates(),
            forall|t: int| 0 <= t < r@.len() ==> (#[trigger] r@[t]) < self.nodes@.len(),
            forall|t: int|
                1 <= t < r@.len() ==> (self.nodes@[(#[trigger] r@[t]) as int].parent matches Some(
                    p,
                ) && exists|u: int| 0 <= u < t && r@[u] == p),
    {
        let ghost s = self.nodes@;
        let total = self.nodes.len();
        let mut queue: Vec<usize> = Vec::new();
        queue.push(start);
        let mut r: Vec<usize> = Vec::new();
        proof {
            broadcast use vstd::seq_lib::group_to_multiset_ensures;
            broadcast use vstd::multiset::group_multiset_axioms;

            assert(queue@.drop_first() =~= Seq::<usize>::empty());
            assert(queue_multiset(s, Seq::<usize>::empty()) == Multiset::<usize>::empty());
            assert(queue_multiset(s, queue@) =~= subtree_nodes(s, start as int).to_multiset());
            assert(queue@ =~= seq![start]);
            assert(r@ + bfs_from(s, queue@) =~= bfs_of(s, start));
        }
        while queue.len() > 0
            invariant
                self.wf(),
                s == self.nodes@,
                total == s.len(),
                start < s.len(),
                forall|t: int| 0 <= t < queue@.len() ==> (#[trigger] queue@[t]) < s.len(),
                forall|t: int| 0 <= t < r@.len() ==> (#[trigger] r@[t]) < s.len(),
                r@.to_multiset().add(queue_multiset(s, queue@)) == subtree_nodes(
                    s,
                    start as int,
                ).to_multiset(),
                r@ + bfs_from(s, queue@) == bfs_of(s, start),
                r@.len() == 0 ==> queue@ =~= seq![start],
                r@.len() >= 1 ==> r@[0] == start,
                forall|t: int|
                    1 <= t < r@.len() ==> (s[(#[trigger] r@[t]) as int].parent matches Some(p)
                        && exists|u: int| 0 <= u < t && r@[u] == p),
                forall|t: int|
                    0 <= t < queue@.len() ==> ((#[trigger] queue@[t]) == start && r@.len() == 0 || (
                    s[queue@[t] as int].parent matches Some(p) && exists|u: int|
                        0 <= u < r@.len() && r@[u] == p)),
            decreases queue_weight(s, queue@),
        {
            let ghost q0 = queue@;
            let ghost r0 = r@;
            proof {
                broadcast use vstd::seq_lib::group_to_multiset_ensures;
                broadcast use vstd::multiset::group_multiset_axioms;

                lemma_queue_weight_nonneg(s, q0.drop_first());
            }
            let x = queue.remove(0);
            r.push(x);
            proof {
                assert(queue@ =~= q0.drop_first());
                assert(r@ == r0.push(x));
                if r0.len() > 0 {
                    assert(q0[0] == x);
                }
                assert forall|t: int|
                    1 <= t < r@.len() implies (s[(#[trigger] r@[t]) as int].parent matches Some(p)
                    && exists|u: int| 0 <= u < t && r@[u] == p) by {
                    if t < r0.len() {
                        assert(r@[t] == r0[t]);
                        let p0 = s[r0[t] as int].parent->0;
                        let u0 = choose|u: int| 0 <= u < t && r0[u] == p0;
                        assert(r@[u0] == p0);
                    } else {
                        let p0 = s[x as int].parent->0;
                        let u0 = choose|u: int| 0 <= u < r0.len() && r0[u] == p0;
                        assert(r@[u0] == p0);
                    }
                }
            }
            match (self.nodes[x].left, self.nodes[x].right) {
                (Some(l), Some(rr)) => {
                    proof {
                        if !is_internal(s[x as int]) {
                            assert(wf_arena(s));
                            assert(crate::tree::wf_leaf_at(s, x as int));
                            assert(false);
                        }
                        assert(wf_internal_at(s, x as int));
                    }
                    queue.push(l);
                    queue.push(rr);
                    proof {
                        broadcast use vstd::seq_lib::group_to_multiset_ensures;
                        broadcast use vstd::multiset::group_multiset_axioms;

                        lemma_queue_push(s, q0.drop_first(), l);
                        lemma_queue_push(s, q0.drop_first().push(l), rr);
                        let a = subtree_nodes(s, l as int);
                        let b = subtree_nodes(s, rr as int);
                        let sn = subtree_nodes(s, x as int);
                        assert(sn == (seq![x] + a) + b);
                        vstd::seq_lib::lemma_multiset_commutative(seq![x] + a, b);
                        vstd::seq_lib::lemma_multiset_commutative(seq![x], a);
                        assert(seq![x].to_multiset() =~= Multiset::empty().insert(x)) by {
                            assert(seq![x] =~= Seq::<usize>::empty().push(x));
                        }
                        assert(r@.to_multiset().add(queue_multiset(s, queue@)) =~= subtree_nodes(
                            s,
                            start as int,
                        ).to_multiset());
                        assert(queue@ == q0.drop_first().push(l).push(rr));
                        assert(bfs_from(s, q0) == seq![x] + bfs_from(s, queue@)) by {
                            assert(q0[0] == x);
                            assert(s[x as int].left->0 == l && s[x as int].right->0 == rr);
                        }
                        assert(r@ + bfs_from(s, queue@) =~= (r0 + bfs_from(s, q0)));
                        assert(r@[r0.len() as int] == x);
                        assert forall|t: int|
                            0 <= t < queue@.len() implies ((#[trigger] queue@[t]) == start
                            && r@.len() == 0 || (s[queue@[t] as int].parent matches Some(p)
                            && exists|u: int| 0 <= u < r@.len() && r@[u] == p)) by {
                            if t < q0.len() - 1 {
                                assert(queue@[t] == q0[t + 1]);
                                if q0[t + 1] == start && r0.len() == 0 {
                                    assert(q0 =~= seq![start]);
                                    assert(false);
                                } else {
                                    let p0 = s[q0[t + 1] as int].parent->0;
                                    let u0 = choose|u: int|
                                        0 <= u < r0.len() && r0[u] == p0;
                                    assert(r@[u0] == p0);
                                }
                            } else {
                                assert(queue@[t] == l || queue@[t] == rr);
                                assert(s[queue@[t] as int].parent == Some(x));
                                assert(r@[r0.len() as int] == x);
                            }
                        }
                    }
                },
                _ => {
                    proof {
                        broadcast use vstd::seq_lib::group_to_multiset_ensures;
                        broadcast use vstd::multiset::group_multiset_axioms;

                        if is_internal(s[x as int]) {
                            assert(wf_internal_at(s, x as int));
                            assert(false);
                        }
                        let sn = subtree_nodes(s, x as int);
                        assert(sn =~= seq![x]);
                        assert(seq![x].to_multiset() =~= Multiset::empty().insert(x)) by {
                            assert(seq![x] =~= Seq::<usize>::empty().push(x));
                        }
                        assert(r@.to_multiset().add(queue_multiset(s, queue@)) =~= subtree_nodes(
                            s,
                            start as int,
                        ).to_multiset());
                        assert(bfs_from(s, q0) == seq![x] + bfs_from(s, queue@)) by {
                            assert(q0[0] == x);
                            if is_internal(s[x as int]) {
                                assert(wf_internal_at(s, x as int));
                                assert(false);
                            }
                        }
                        assert(r@ + bfs_from(s, queue@) =~= (r0 + bfs_from(s, q0)));
                        assert forall|t: int|
                            0 <= t < queue@.len() implies ((#[trigger] queue@[t]) == start
                            && r@.len() == 0 || (s[queue@[t] as int].parent matches Some(p)
                            && exists|u: int| 0 <= u < r@.len() && r@[u] == p)) by {
                            assert(queue@[t] == q0[t + 1]);
                            if q0[t + 1] == start && r0.len() == 0 {
                                assert(q0 =~= seq![start]);
                                assert(false);
                            } else {
                                let p0 = s[q0[t + 1] as int].parent->0;
                                let u0 = choose|u: int| 0 <= u < r0.len() && r0[u] == p0;
                                assert(r@[u0] == p0);
                            }
                        }
                    }
                },
            }
        }
        proof {
            broadcast use vstd::multiset::group_multiset_axioms;

            assert(queue_multiset(s, queue@) =~= Multiset::<usize>::empty());
            assert(r@.to_multiset() =~= subtree_nodes(s, start as int).to_multiset());
            assert(queue@ =~= Seq::<usize>::empty());
            assert(bfs_from(s, queue@) =~= Seq::<usize>::empty());
            assert(r@ =~= bfs_of(s, start));
            lemma_subtree_nodes_distinct(s, start as int);
            subtree_nodes(s, start as int).lemma_multiset_has_no_duplicates();
            r@.lemma_multiset_has_no_duplicates_conv();
        }
        r
    }
}

} // verus!

verus! {

/// Children of a subtree member are subtree members.
pub proof fn lemma_subtree_child_closed_pub(s: Seq<Node>, i: int, x: usize)
    requires
        wf_arena(s),
        s.len() <= usize::MAX,
        0 <= i < s.len(),
        subtree_nodes(s, i).contains(x),
        is_internal(s[x as int]),
        0 <= x < s.len(),
    ensures
        subtree_nodes(s, i).contains(s[x as int].left->0),
        subtree_nodes(s, i).contains(s[x as int].right->0),
    decreases s.len() - i,
{
    assert(wf_internal_at(s, x as int));
    if x as int == i {
        let a = subtree_nodes(s, lchild(s, i));
        let b = subtree_nodes(s, rchild(s, i));
        assert(wf_internal_at(s, i));
        assert(subtree_nodes(s, i) == (seq![i as usize] + a) + b);
        crate::tree::lemma_subtree_range(s, lchild(s, i), 0);
        crate::tree::lemma_subtree_range(s, rchild(s, i), 0);
        assert(a[0] == s[i].left->0);
        assert(b[0] == s[i].right->0);
        assert(subtree_nodes(s, i)[1] == a[0]);
        assert(subtree_nodes(s, i)[1 + a.len() as int] == b[0]);
    } else {
        assert(is_internal(s[i]) && has_kids(s, i)) by {
            if !(is_internal(s[i]) && has_kids(s, i)) {
                assert(subtree_nodes(s, i) =~= seq![i as usize]);
            }
        }
        let a = subtree_nodes(s, lchild(s, i));
        let b = subtree_nodes(s, rchild(s, i));
        let sn = subtree_nodes(s, i);
        assert(sn == (seq![i as usize] + a) + b);
        let t = choose|t: int| 0 <= t < sn.len() && sn[t] == x;
        if t < 1 + a.len() {
            assert(sn[t] == a[t - 1]);
            assert(a.contains(x));
            lemma_subtree_child_closed_pub(s, lchild(s, i), x);
            let u1 = choose|u: int| 0 <= u < a.len() && a[u] == s[x as int].left->0;
            let u2 = choose|u: int| 0 <= u < a.len() && a[u] == s[x as int].right->0;
            assert(sn[1 + u1] == s[x as int].left->0);
            assert(sn[1 + u2] == s[x as int].right->0);
        } else {
            assert(sn[t] == b[t - 1 - a.len()]);
            assert(b.contains(x));
            lemma_subtree_child_closed_pub(s, rchild(s, i), x);
            let u1 = choose|u: int| 0 <= u < b.len() && b[u] == s[x as int].left->0;
            let u2 = choose|u: int| 0 <= u < b.len() && b[u] == s[x as int].right->0;
            assert(sn[1 + a.len() + u1] == s[x as int].left->0);
            assert(sn[1 + a.len() + u2] == s[x as int].right->0);
        }
    }
}

/// Containment transfers across equal multisets.
pub proof fn lemma_contains_via_multiset(a: Seq<usize>, b: Seq<usize>, x: usize)
    requires
        a.to_multiset() == b.to_multiset(),
        a.contains(x),
    ensures
        b.contains(x),
{
    broadcast use vstd::seq_lib::group_to_multiset_ensures;

    assert(a.to_multiset().count(x) > 0);
    assert(b.to_multiset().count(x) > 0);
}

/// Whether the vector holds the value.
fn contains_val(v: &Vec<usize>, x: usize) -> (r: bool)
    ensures
        r == v@.contains(x),
{
    let mut i: usize = 0;
    while i < v.len()
        invariant
            i <= v@.len(),
            forall|t: int| 0 <= t < i ==> v@[t] != x,
        decreases v@.len() - i,
    {
        if v[i] == x {
            return true;
        }
        i = i + 1;
    }
    proof {
        assert(!v@.contains(x));
    }
    false
}

/// The position of the value in the vector, if present.
fn position_of(v: &Vec<usize>, x: usize) -> (r: Option<usize>)
    ensures
        r matches Some(t) ==> t < v@.len() && v@[t as int] == x,
        r is None ==> !v@.contains(x),
{
    let mut i: usize = 0;
    while i < v.len()
        invariant
            i <= v@.len(),
            forall|t: int| 0 <= t < i ==> v@[t] != x,
        decreases v@.len() - i,
    {
        if v[i] == x {
            return Some(i);
        }
        i = i + 1;
    }
    proof {
        assert(!v@.contains(x));
    }
    None
}

impl Layout {
    /// A deep copy: same canvas, same arena.
    pub fn duplicate(&self) -> (r: Layout)
        ensures
            r.canvas_dimensions == self.canvas_dimensions,
            r.nodes@ == self.nodes@,
    {
        let mut nodes: Vec<Node> = Vec::new();
        let mut i: usize = 0;
        while i < self.nodes.len()
            invariant
                i <= self.nodes@.len(),
                nodes@ =~= self.nodes@.take(i as int),
            decreases self.nodes@.len() - i,
        {
            nodes.push(self.nodes[i]);
            proof {
                assert(nodes@ =~= self.nodes@.take(i as int + 1));
            }
            i = i + 1;
        }
        proof {
            assert(nodes@ =~= self.nodes@);
        }
        Layout { canvas_dimensions: self.canvas_dimensions, nodes }
    }

    /// Swaps the order of the two children of the given internal node, so
    /// that the left child becomes the right one and conversely.
    pub fn swap_order_of_children(&mut self, node_index: usize)
        requires
            old(self).wf(),
            node_index < old(self).nodes@.len(),
            is_internal(old(self).nodes@[node_index as int]),
        ensures
            final(self).wf(),
            final(self).canvas_dimensions == old(self).canvas_dimensions,
            final(self).nodes@.len() == old(self).nodes@.len(),
            final(self).nodes@[node_index as int].left == old(self).nodes@[node_index as int].right,
            final(self).nodes@[node_index as int].right == old(self).nodes@[node_index as int].left,
            final(self).nodes@[node_index as int].label == old(
                self,
            ).nodes@[node_index as int].label,
            final(self).nodes@[node_index as int].parent == old(
                self,
            ).nodes@[node_index as int].parent,
            forall|i: int|
                0 <= i < old(self).nodes@.len() && i != node_index ==> final(self).nodes@[i] == old(
                    self,
                ).nodes@[i],
            leaf_handles(final(self).nodes@) == leaf_handles(old(self).nodes@),
    {
        let ghost pre = self.nodes@;
        proof {
            assert(wf_internal_at(pre, node_index as int));
        }
        let mut n = self.nodes[node_index];
        let l = n.left;
        n.left = n.right;
        n.right = l;
        self.nodes.set(node_index, n);
        proof {
            let s2 = self.nodes@;
            assert forall|i: int| 0 <= i < s2.len() implies (is_internal(s2[i]) <==> i < ic_of(
                s2,
            )) by {
                if i != node_index {
                    assert(s2[i] == pre[i]);
                }
            }
            assert forall|i: int| 0 <= i < ic_of(s2) implies wf_internal_at(s2, i) by {
                assert(wf_internal_at(pre, i));
            }
            assert forall|i: int| ic_of(s2) <= i < s2.len() implies crate::tree::wf_leaf_at(
                s2,
                i,
            ) by {
                assert(crate::tree::wf_leaf_at(pre, i));
            }
            assert forall|i: int| 1 <= i < s2.len() implies crate::tree::wf_parent_at(s2, i) by {
                assert(crate::tree::wf_parent_at(pre, i));
            }
            assert(wf_arena(s2));
            assert(leaf_handles(s2) =~= leaf_handles(pre));
        }
    }
}

} // verus!

verus! {

/// Nothing outside the subtree rooted at root was touched: every node not
/// named by the subtree's breadth-first listing is exactly as it was.
pub open spec fn outside_subtree_unchanged(s1: Seq<Node>, s2: Seq<Node>, root: usize) -> bool {
    forall|x: int|
        0 <= x < s1.len() && !bfs_of(s1, root).contains(x as usize) ==> #[trigger] s2[x] == s1[x]
}

/// Membership in the breadth-first walk of the subtree at i.
pub open spec fn in_walk(s: Seq<Node>, i: usize) -> spec_fn(usize) -> bool {
    |v: usize| bfs_of(s, i).contains(v)
}

/// The first n arena positions, in ascending order.
pub open spec fn idx_seq(n: int) -> Seq<usize> {
    Seq::new(n as nat, |t: int| t as usize)
}

/// The internal positions of the subtree at i, in ascending order.
pub open spec fn internal_slots(s: Seq<Node>, i: usize) -> Seq<usize> {
    idx_seq(ic_of(s)).filter(in_walk(s, i))
}

/// After a splice the receiver's subtree holds the donor's directions: its
/// j-th internal slot, in ascending order, carries the label of the donor
/// subtree's j-th internal node in breadth-first order.
pub open spec fn splice_directions_ok(
    s1: Seq<Node>,
    s2: Seq<Node>,
    i: usize,
    on: Seq<Node>,
    oi: usize,
) -> bool {
    let sl = internal_slots(s1, i);
    let dord = crate::blueprint::internal_order(on, oi);
    &&& sl.len() == dord.len()
    &&& forall|j: int|
        0 <= j < sl.len() ==> (#[trigger] s2[sl[j] as int]).label == on[dord[j] as int].label
}

/// A pair of internal roots whose subtrees both hold at least three leaves,
/// equally many on each side.
pub open spec fn eligible_pair(s1: Seq<Node>, s2: Seq<Node>, a: int, b: int) -> bool {
    &&& 0 <= a < ic_of(s1)
    &&& 0 <= b < ic_of(s2)
    &&& subtree_leaf_count(s1, a) >= 3
    &&& subtree_leaf_count(s2, b) >= 3
    &&& subtree_leaf_count(s1, a) == subtree_leaf_count(s2, b)
}

/// Both sides of a subtree exchange: each layout keeps everything outside
/// its swapped subtree and takes the other's directions inside it.
pub open spec fn swapped_subtrees(
    s1: Seq<Node>,
    r1: Seq<Node>,
    s2: Seq<Node>,
    r2: Seq<Node>,
    a: usize,
    b: usize,
) -> bool {
    &&& outside_subtree_unchanged(s1, r1, a)
    &&& outside_subtree_unchanged(s2, r2, b)
    &&& splice_directions_ok(s1, r1, a, s2, b)
    &&& splice_directions_ok(s2, r2, b, s1, a)
}

/// The frozen facts about the receiver subtree listing and its split into
/// internal slots and leaves, used across the grafting phases.
spec fn graft_inputs_ok(
    s0: Seq<Node>,
    si: int,
    rb: Seq<usize>,
    slots: Seq<usize>,
    old_leaves: Seq<usize>,
) -> bool {
    let k = ic_of(s0);
    &&& wf_arena(s0)
    &&& s0.len() <= usize::MAX
    &&& 0 <= si < k
    &&& rb.to_multiset() == subtree_nodes(s0, si).to_multiset()
    &&& rb.no_duplicates()
    &&& forall|t: int| 0 <= t < rb.len() ==> si <= (#[trigger] rb[t]) < s0.len()
    &&& slots.len() >= 1
    &&& slots[0] == si as usize
    &&& forall|t: int| 0 <= t < slots.len() ==> si <= (#[trigger] slots[t]) < k && rb.contains(slots[t])
    &&& forall|t1: int, t2: int| 0 <= t1 < t2 < slots.len() ==> slots[t1] < slots[t2]
    &&& forall|x: usize| rb.contains(x) && x < k ==> slots.contains(x)
    &&& forall|t: int|
        0 <= t < old_leaves.len() ==> k <= (#[trigger] old_leaves[t]) < s0.len() && rb.contains(
            old_leaves[t],
        )
    &&& old_leaves.no_duplicates()
    &&& forall|x: usize| rb.contains(x) && x >= k ==> old_leaves.contains(x)
}

impl Layout {
    /// Replaces the subtree rooted at self_index by a copy of the donor's
    /// subtree rooted at other_index, reusing the replaced subtree's arena
    /// slots: the donor's internal skeleton is rebuilt over those slots in
    /// breadth-first order, and the replaced subtree's leaves are re-attached
    /// to the new skeleton's free child slots, in breadth-first order of the
    /// old subtree. The leaf nodes themselves, the canvas, and everything
    /// outside the subtree stay exactly as they were.
    pub fn swap_subtree(&mut self, other: &Layout, self_index: usize, other_index: usize)
        requires
            old(self).wf(),
            other.wf(),
            self_index < old(self).nodes@.len(),
            is_internal(old(self).nodes@[self_index as int]),
            other_index < other.nodes@.len(),
            is_internal(other.nodes@[other_index as int]),
            subtree_leaf_count(old(self).nodes@, self_index as int) == subtree_leaf_count(
                other.nodes@,
                other_index as int,
            ),
        ensures
            final(self).wf(),
            final(self).canvas_dimensions == old(self).canvas_dimensions,
            final(self).nodes@.len() == old(self).nodes@.len(),
            ic_of(final(self).nodes@) == ic_of(old(self).nodes@),
            forall|t: int|
                ic_of(old(self).nodes@) <= t < old(self).nodes@.len()
                    ==> (#[trigger] final(self).nodes@[t]).label == old(self).nodes@[t].label,
            leaf_handles(final(self).nodes@) == leaf_handles(old(self).nodes@),
            outside_subtree_unchanged(old(self).nodes@, final(self).nodes@, self_index),
            splice_directions_ok(
                old(self).nodes@,
                final(self).nodes@,
                self_index,
                other.nodes@,
                other_index,
            ),
    {
        let total = self.nodes.len();
        let k = (total - 1) / 2;
        let ghost s0 = self.nodes@;
        let rb = self.subtree_bfs(self_index);
        proof {
            broadcast use vstd::seq_lib::group_to_multiset_ensures;

            assert forall|t: int| 0 <= t < rb@.len() implies si_bound(
                s0,
                self_index as int,
                rb@[t],
            ) by {
                let sn = subtree_nodes(s0, self_index as int);
                assert(sn.to_multiset().count(rb@[t]) > 0);
                assert(sn.contains(rb@[t]));
                let u = choose|u: int| 0 <= u < sn.len() && sn[u] == rb@[t];
                crate::tree::lemma_subtree_range(s0, self_index as int, u);
            }
        }
        // Split the old subtree into its internal slots (ascending) and its
        // leaves (breadth-first order).
        let mut slots: Vec<usize> = Vec::new();
        let mut i: usize = 0;
        while i < k
            invariant
                i <= k,
                k == ic_of(s0),
                s0 == self.nodes@,
                self_index < s0.len(),
                rb@.len() >= 1,
                rb@[0] == self_index,
                rb@ == bfs_of(s0, self_index),
                forall|t: int| 0 <= t < rb@.len() ==> si_bound(s0, self_index as int, #[trigger] rb@[t]),
                rb@.no_duplicates(),
                slots@ == idx_seq(i as int).filter(in_walk(s0, self_index)),
                forall|t: int|
                    0 <= t < slots@.len() ==> self_index <= (#[trigger] slots@[t]) && (
                    slots@[t] as int) < i && rb@.contains(slots@[t]),
                forall|t1: int, t2: int| 0 <= t1 < t2 < slots@.len() ==> slots@[t1] < slots@[t2],
                forall|x: usize| rb@.contains(x) && (x as int) < i ==> slots@.contains(x),
                i <= self_index ==> slots@.len() == 0,
                self_index < i ==> slots@.len() >= 1 && slots@[0] == self_index,
            decreases k - i,
        {
            proof {
                assert(idx_seq(i as int + 1) =~= idx_seq(i as int) + seq![i as usize]);
                Seq::filter_distributes_over_add(
                    idx_seq(i as int),
                    seq![i as usize],
                    in_walk(s0, self_index),
                );
                lemma_filter_singleton(i as usize, in_walk(s0, self_index));
            }
            if contains_val(&rb, i) {
                proof {
                    assert((in_walk(s0, self_index))(i as usize));
                    if (i as int) < self_index {
                        let tt = choose|tt: int| 0 <= tt < rb@.len() && rb@[tt] == i;
                        assert(si_bound(s0, self_index as int, rb@[tt]));
                        assert(false);
                    }
                }
                let ghost pre_slots = slots@;
                slots.push(i);
                proof {
                    assert forall|x: usize|
                        rb@.contains(x) && (x as int) < i + 1 implies slots@.contains(x) by {
                        if (x as int) < i {
                            let u = choose|u: int| 0 <= u < pre_slots.len() && pre_slots[u] == x;
                            assert(slots@[u] == x);
                        } else {
                            assert(slots@[slots@.len() - 1] == x);
                        }
                    }
                    assert(slots@ =~= idx_seq(i as int + 1).filter(in_walk(s0, self_index)));
                }
            } else {
                proof {
                    if i == self_index {
                        assert(rb@[0] == self_index);
                        assert(rb@.contains(self_index));
                        assert(false);
                    }
                    assert(!(in_walk(s0, self_index))(i as usize));
                    assert(slots@ =~= idx_seq(i as int + 1).filter(in_walk(s0, self_index)));
                }
            }
            i = i + 1;
        }
        let mut old_leaves: Vec<usize> = Vec::new();
        let mut i: usize = 0;
        while i < rb.len()
            invariant
                i <= rb@.len(),
                k == ic_of(s0),
                s0 == self.nodes@,
                forall|t: int| 0 <= t < rb@.len() ==> si_bound(s0, self_index as int, rb@[t]),
                rb@.no_duplicates(),
                forall|t: int|
                    0 <= t < old_leaves@.len() ==> k <= (#[trigger] old_leaves@[t]) && (
                    old_leaves@[t] as int) < s0.len() && rb@.contains(old_leaves@[t]),
                forall|t: int|
                    0 <= t < old_leaves@.len() ==> exists|t2: int|
                        0 <= t2 < i && rb@[t2] == #[trigger] old_leaves@[t],
                old_leaves@.no_duplicates(),
                old_leaves@ == rb@.take(i as int).filter(at_least(k)),
                forall|t2: int|
                    0 <= t2 < i && rb@[t2] >= k ==> old_leaves@.contains(#[trigger] rb@[t2]),
            decreases rb@.len() - i,
        {
            proof {
                assert(rb@.take(i as int + 1) =~= rb@.take(i as int) + seq![rb@[i as int]]);
                Seq::filter_distributes_over_add(
                    rb@.take(i as int),
                    seq![rb@[i as int]],
                    at_least(k),
                );
                lemma_filter_singleton(rb@[i as int], at_least(k));
            }
            let v = rb[i];
            if v >= k {
                proof {
                    if old_leaves@.contains(v) {
                        let u = choose|u: int| 0 <= u < old_leaves@.len() && old_leaves@[u] == v;
                        let t2 = choose|t2: int| 0 <= t2 < i && rb@[t2] == old_leaves@[u];
                        assert(rb@[t2] == rb@[i as int]);
                        assert(false);
                    }
                }
                let ghost pre_ol = old_leaves@;
                old_leaves.push(v);
                proof {
                    assert forall|t2: int|
                        0 <= t2 < i + 1 && rb@[t2] >= k implies old_leaves@.contains(
                        #[trigger] rb@[t2],
                    ) by {
                        if t2 < i {
                            let u = choose|u: int|
                                0 <= u < pre_ol.len() && pre_ol[u] == rb@[t2];
                            assert(old_leaves@[u] == rb@[t2]);
                        } else {
                            assert(old_leaves@[old_leaves@.len() - 1] == rb@[t2]);
                        }
                    }
                    assert((at_least(k))(v));
                    assert(old_leaves@ =~= rb@.take(i as int + 1).filter(at_least(k)));
                }
            } else {
                proof {
                    assert(!(at_least(k))(rb@[i as int]));
                    assert(old_leaves@ =~= rb@.take(i as int + 1).filter(at_least(k)));
                }
            }
            i = i + 1;
        }
        proof {
            assert forall|x: usize| rb@.contains(x) && x >= k implies old_leaves@.contains(x) by {
                let t2 = choose|t2: int| 0 <= t2 < rb@.len() && rb@[t2] == x;
            }
            assert(i == rb@.len());
            assert(rb@.take(i as int) =~= rb@);
            assert(rb@.take(i as int) == rb@);
            assert(old_leaves@ == rb@.filter(at_least(k)));
        }
        proof {
            assert(graft_inputs_ok(s0, self_index as int, rb@, slots@, old_leaves@));
        }
        let total_o = other.nodes.len();
        let db = other.subtree_bfs(other_index);
        let mut donor_order: Vec<usize> = Vec::new();
        let mut i: usize = 0;
        while i < db.len()
            invariant
                i <= db@.len(),
                other.wf(),
                total_o == other.nodes@.len(),
                forall|t: int|
                    0 <= t < donor_order@.len() ==> (#[trigger] donor_order@[t]) < other.nodes@.len()
                        && is_internal(other.nodes@[donor_order@[t] as int]),
                forall|t: int| 0 <= t < db@.len() ==> (#[trigger] db@[t]) < other.nodes@.len(),
                donor_order@ == db@.take(i as int).filter(
                    crate::blueprint::internal_pred(other.nodes@),
                ),
            decreases db@.len() - i,
        {
            proof {
                assert(db@.take(i as int + 1) =~= db@.take(i as int) + seq![db@[i as int]]);
                Seq::filter_distributes_over_add(
                    db@.take(i as int),
                    seq![db@[i as int]],
                    crate::blueprint::internal_pred(other.nodes@),
                );
                lemma_filter_singleton(
                    db@[i as int],
                    crate::blueprint::internal_pred(other.nodes@),
                );
            }
            let v = db[i];
            match other.nodes[v].label {
                NodeLabel::Internal(_) => {
                    donor_order.push(v);
                    proof {
                        assert((crate::blueprint::internal_pred(other.nodes@))(v));
                        assert(donor_order@ =~= db@.take(i as int + 1).filter(
                            crate::blueprint::internal_pred(other.nodes@),
                        ));
                    }
                },
                NodeLabel::Leaf(_) => {
                    proof {
                        assert(!(crate::blueprint::internal_pred(other.nodes@))(v));
                        assert(donor_order@ =~= db@.take(i as int + 1).filter(
                            crate::blueprint::internal_pred(other.nodes@),
                        ));
                    }
                },
            }
            i = i + 1;
        }
        proof {
            broadcast use vstd::seq_lib::group_to_multiset_ensures;

            let o = other.nodes@;
            let sn = subtree_nodes(s0, self_index as int);
            let on = subtree_nodes(o, other_index as int);
            // The donor list is the filter of the donor walk by the internal
            // labels, so its length is the donor subtree's internal count.
            assert(db@.take(i as int) =~= db@);
            assert(donor_order@ == db@.filter(crate::blueprint::internal_pred(o)));
            assert forall|v: usize| #[trigger] (crate::tree::internal_weight(o))(v) == (
                if (crate::blueprint::internal_pred(o))(v) {
                    1int
                } else {
                    0int
                }) by {}
            lemma_filter_len_is_weight(
                db@,
                crate::blueprint::internal_pred(o),
                crate::tree::internal_weight(o),
            );
            crate::tree::lemma_seq_weight_permutation(db@, on, crate::tree::internal_weight(o));
            crate::tree::lemma_subtree_weights(o, other_index as int);
            assert(donor_order@.len() == crate::tree::subtree_internal_count(o, other_index as int));

            // The old leaves are the filter of the old walk by the leaf
            // region, so their number is the old subtree's leaf count.
            assert forall|v: usize| #[trigger] (ge_weight(k))(v) == (
                if (at_least(k))(v) {
                    1int
                } else {
                    0int
                }) by {}
            lemma_filter_len_is_weight(rb@, at_least(k), ge_weight(k));
            assert forall|t: int| 0 <= t < rb@.len() implies (ge_weight(k))(
                #[trigger] rb@[t],
            ) == (crate::tree::leaf_weight(s0))(rb@[t]) by {
                assert(si_bound(s0, self_index as int, rb@[t]));
                assert(is_internal(s0[rb@[t] as int]) <==> (rb@[t] as int) < ic_of(s0));
            }
            lemma_seq_weight_congruent(rb@, ge_weight(k), crate::tree::leaf_weight(s0));
            crate::tree::lemma_seq_weight_permutation(rb@, sn, crate::tree::leaf_weight(s0));
            crate::tree::lemma_subtree_weights(s0, self_index as int);
            assert(old_leaves@.len() == subtree_leaf_count(s0, self_index as int));

            // The slots hold exactly the internal nodes of the old walk, so
            // their number is the old subtree's internal count.
            let rbf = rb@.filter(below(k));
            lemma_filter_no_dup(rb@, below(k));
            assert(slots@.no_duplicates());
            assert forall|v: usize| slots@.contains(v) implies rbf.contains(v) by {
                let t = choose|t: int| 0 <= t < slots@.len() && slots@[t] == v;
                let u = choose|u: int| 0 <= u < rb@.len() && rb@[u] == v;
                assert((below(k))(rb@[u]));
                rb@.lemma_filter_contains(below(k), u);
            }
            assert forall|v: usize| rbf.contains(v) implies slots@.contains(v) by {
                rb@.lemma_filter_contains_rev(below(k), v);
                let t = choose|t: int| 0 <= t < rbf.len() && rbf[t] == v;
                rb@.lemma_filter_pred(below(k), t);
                assert((below(k))(v));
            }
            crate::blueprint::lemma_no_dup_same_elements_multiset(slots@, rbf);
            assert(slots@.to_multiset().len() == rbf.to_multiset().len());
            assert(slots@.len() == rbf.len());
            assert forall|v: usize| #[trigger] (lt_weight(k))(v) == (
                if (below(k))(v) {
                    1int
                } else {
                    0int
                }) by {}
            lemma_filter_len_is_weight(rb@, below(k), lt_weight(k));
            assert forall|t: int| 0 <= t < rb@.len() implies (lt_weight(k))(
                #[trigger] rb@[t],
            ) == (crate::tree::internal_weight(s0))(rb@[t]) by {
                assert(si_bound(s0, self_index as int, rb@[t]));
                assert(is_internal(s0[rb@[t] as int]) <==> (rb@[t] as int) < ic_of(s0));
            }
            lemma_seq_weight_congruent(rb@, lt_weight(k), crate::tree::internal_weight(s0));
            crate::tree::lemma_seq_weight_permutation(rb@, sn, crate::tree::internal_weight(s0));
            assert(slots@.len() == crate::tree::subtree_internal_count(s0, self_index as int));

            // Equal leaf counts force equal internal counts: a subtree always
            // holds one internal node fewer than it holds leaves.
            crate::tree::lemma_subtree_counts(s0, self_index as int);
            crate::tree::lemma_subtree_counts(o, other_index as int);
            assert(slots@.len() == donor_order@.len());
            assert(old_leaves@.len() == slots@.len() + 1);

            // The donor list is free of duplicates and parents-first: its
            // head is the donor walk's head, and every later entry is a
            // non-root node whose parent stands earlier in the list.
            lemma_filter_no_dup(db@, crate::blueprint::internal_pred(o));
            assert(donor_order@.no_duplicates());
            assert(db@ =~= seq![db@[0]] + db@.subrange(1, db@.len() as int));
            Seq::filter_distributes_over_add(
                seq![db@[0]],
                db@.subrange(1, db@.len() as int),
                crate::blueprint::internal_pred(o),
            );
            lemma_filter_singleton(db@[0], crate::blueprint::internal_pred(o));
            assert((crate::blueprint::internal_pred(o))(db@[0]));
            assert(donor_order@[0] == db@[0]);
            assert forall|u: int|
                1 <= u < donor_order@.len() implies donor_parent_linked(o, donor_order@, u) by {
                let d = donor_order@[u];
                assert(donor_order@.contains(d));
                db@.lemma_filter_contains_rev(crate::blueprint::internal_pred(o), d);
                let v = choose|v: int| 0 <= v < db@.len() && db@[v] == d;
                if v == 0 {
                    assert(d == donor_order@[0]);
                    assert(false);
                }
                assert(db@[v] == d);
                assert(o[d as int].parent is Some);
                let p2 = o[d as int].parent->0;
                let w = choose|w: int| 0 <= w < v && db@[w] == p2;
                assert(o[0].parent is None);
                assert(d != 0);
                assert(crate::tree::wf_parent_at(o, d as int));
                assert((crate::blueprint::internal_pred(o))(p2));
                lemma_filter_order(db@, crate::blueprint::internal_pred(o), w, v);
                let (j1, j2) = choose|j1: int, j2: int|
                    0 <= j1 < j2 < donor_order@.len() && donor_order@[j1] == db@[w]
                        && donor_order@[j2] == db@[v];
                assert(donor_order@[j2] == d);
                if j2 != u {
                    assert(donor_order@[j2] != donor_order@[u]);
                    assert(false);
                }
                assert(donor_order@[j1] == p2 && j1 < u);
                assert(donor_parent_linked(o, donor_order@, u));
            }
        }
        self.graft(other, &slots, &old_leaves, &donor_order, Ghost(s0), Ghost(rb@));
        proof {
            assert(slots@ == internal_slots(s0, self_index));
            assert(db@ == bfs_of(other.nodes@, other_index));
            assert(donor_order@ == crate::blueprint::internal_order(other.nodes@, other_index));
            assert forall|j: int|
                0 <= j < slots@.len() implies (#[trigger] self.nodes@[slots@[j] as int]).label
                == other.nodes@[donor_order@[j] as int].label by {
                assert(is_internal(other.nodes@[donor_order@[j] as int]));
                assert(self.nodes@[slots@[j] as int].label == NodeLabel::Internal(
                    dir_of(other.nodes@[donor_order@[j] as int]),
                ));
            }
            assert(splice_directions_ok(s0, self.nodes@, self_index, other.nodes@, other_index));
        }
    }
}

/// Every subtree member lies at or after the subtree root.
spec fn si_bound(s0: Seq<Node>, si: int, x: usize) -> bool {
    si <= x < s0.len()
}

} // verus!

verus! {

/// What may stand as a child of a new-skeleton slot after the first t donor
/// edges and the first li leaf attachments: an earlier-positioned slot or an
/// already-attached leaf, with its parent pointing back.
spec fn child_ok(
    s2: Seq<Node>,
    slots: Seq<usize>,
    old_leaves: Seq<usize>,
    t: int,
    li: int,
    holder: usize,
    c: usize,
) -> bool {
    &&& c > holder
    &&& (c as int) < s2.len()
    &&& s2[c as int].parent == Some(holder)
    &&& ((exists|t1: int| 1 <= t1 < t && slots[t1] == c) || (exists|v: int|
        0 <= v < li && old_leaves[v] == c))
}

impl Layout {
    /// Rebuilds the donor's internal skeleton over the receiver's subtree
    /// slots, writing the donor's directions in breadth-first order, and
    /// re-attaches the receiver's old leaves.
    #[verifier::rlimit(100)]
    fn graft(
        &mut self,
        other: &Layout,
        slots: &Vec<usize>,
        old_leaves: &Vec<usize>,
        donor_order: &Vec<usize>,
        Ghost(s0): Ghost<Seq<Node>>,
        Ghost(rb): Ghost<Seq<usize>>,
    )
        requires
            old(self).nodes@ == s0,
            other.wf(),
            graft_inputs_ok(s0, slots@[0] as int, rb, slots@, old_leaves@),
            slots@.len() == donor_order@.len(),
            forall|t: int|
                0 <= t < donor_order@.len() ==> (#[trigger] donor_order@[t]) < other.nodes@.len()
                    && is_internal(other.nodes@[donor_order@[t] as int]),
            donor_order@.no_duplicates(),
            forall|u: int|
                1 <= u < donor_order@.len() ==> donor_parent_linked(other.nodes@, donor_order@, u),
            old_leaves@.len() == slots@.len() + 1,
        ensures
            final(self).wf(),
            final(self).canvas_dimensions == old(self).canvas_dimensions,
            final(self).nodes@.len() == s0.len(),
            ic_of(final(self).nodes@) == ic_of(s0),
            forall|t: int|
                ic_of(s0) <= t < s0.len() ==> (#[trigger] final(self).nodes@[t]).label
                    == s0[t].label,
            leaf_handles(final(self).nodes@) == leaf_handles(s0),
            forall|x: int|
                0 <= x < s0.len() && !rb.contains(x as usize)
                    ==> #[trigger] final(self).nodes@[x] == s0[x],
            forall|u: int|
                0 <= u < slots@.len() ==> (#[trigger] final(self).nodes@[slots@[u] as int]).label
                    == NodeLabel::Internal(dir_of(other.nodes@[donor_order@[u] as int])),
    {
        broadcast use vstd::seq_lib::group_to_multiset_ensures;

        let total = self.nodes.len();
        let k = (total - 1) / 2;
        let m = slots.len();
        let si = slots[0];
        proof {
            assert(wf_arena(s0));
            assert(k == ic_of(s0));
        }
        // Phase one: write the donor directions over the slots and clear
        // their child pointers.
        let mut t: usize = 0;
        while t < m
            invariant
                t <= m,
                total == s0.len(),
                self.nodes@.len() == total,
                k == ic_of(s0),
                si == slots@[0],
                m == slots@.len(),
                m == donor_order@.len(),
                other.wf(),
                self.canvas_dimensions == old(self).canvas_dimensions,
                graft_inputs_ok(s0, si as int, rb, slots@, old_leaves@),
                forall|u: int|
                    0 <= u < donor_order@.len() ==> (#[trigger] donor_order@[u])
                        < other.nodes@.len() && is_internal(other.nodes@[donor_order@[u] as int]),
                forall|x: int|
                    0 <= x < total && !(exists|u: int| 0 <= u < t && slots@[u] == x) ==> (
                    #[trigger] self.nodes@[x]) == s0[x],
                forall|u: int|
                    0 <= u < t ==> (#[trigger] self.nodes@[slots@[u] as int]) == (Node {
                        label: NodeLabel::Internal(dir_of(other.nodes@[donor_order@[u] as int])),
                        parent: s0[slots@[u] as int].parent,
                        left: None,
                        right: None,
                    }),
            decreases m - t,
        {
            let slot = slots[t];
            let d = match other.nodes[donor_order[t]].label {
                NodeLabel::Internal(d) => d,
                NodeLabel::Leaf(_) => {
                    proof {
                        assert(false);
                    }
                    SliceDirection::Vertical
                },
            };
            let mut n = self.nodes[slot];
            proof {
                if exists|u: int| 0 <= u < t && slots@[u] == slot {
                    let u = choose|u: int| 0 <= u < t && slots@[u] == slot;
                    assert(false);
                }
                assert(self.nodes@[slot as int] == s0[slot as int]);
            }
            n.label = NodeLabel::Internal(d);
            n.parent = self.nodes[slot].parent;
            n.left = None;
            n.right = None;
            self.nodes.set(slot, n);
            proof {
                assert(self.nodes@[slot as int].parent == s0[slot as int].parent);
                assert forall|u: int|
                    0 <= u < t + 1 implies (#[trigger] self.nodes@[slots@[u] as int]) == (Node {
                        label: NodeLabel::Internal(dir_of(other.nodes@[donor_order@[u] as int])),
                        parent: s0[slots@[u] as int].parent,
                        left: None,
                        right: None,
                    }) by {
                    if u < t {
                        assert(slots@[u] != slot);
                    }
                }
            }
            t = t + 1;
        }
        // Phase two: add the skeleton edges, one per non-root donor internal
        // node, in donor breadth-first order, internal children canonically
        // on the left.
        proof {
            graft_edge_init(self.nodes@, s0, other.nodes@, slots@, old_leaves@, donor_order@);
            edge_claims_init(self.nodes@, other.nodes@, slots@, donor_order@);
            assert forall|u: int|
                0 <= u < slots@.len() implies (open_weight(self.nodes@))(
                #[trigger] slots@[u],
            ) == 2 by {}
            lemma_seq_weight_two(slots@, open_weight(self.nodes@));
        }
        let mut t: usize = 1;
        while t < m
            invariant
                1 <= t <= m,
                total == s0.len(),
                self.nodes@.len() == total,
                k == ic_of(s0),
                si == slots@[0],
                m == slots@.len(),
                m == donor_order@.len(),
                other.wf(),
                self.canvas_dimensions == old(self).canvas_dimensions,
                graft_inputs_ok(s0, si as int, rb, slots@, old_leaves@),
                forall|u: int|
                    0 <= u < donor_order@.len() ==> (#[trigger] donor_order@[u])
                        < other.nodes@.len() && is_internal(other.nodes@[donor_order@[u] as int]),
                donor_order@.no_duplicates(),
                forall|u: int|
                    1 <= u < donor_order@.len() ==> donor_parent_linked(
                        other.nodes@,
                        donor_order@,
                        u,
                    ),
                edge_inv(self.nodes@, s0, other.nodes@, slots@, old_leaves@, donor_order@, t as int),
                edge_claims(self.nodes@, other.nodes@, slots@, donor_order@, t as int),
                crate::tree::seq_weight(slots@, open_weight(self.nodes@)) == 2 * (m as int) - (
                t as int) + 1,
            decreases m - t,
        {
            let d = donor_order[t];
            let dp = match other.nodes[d].parent {
                Some(p) => p,
                None => {
                    proof {
                        assert(donor_parent_linked(other.nodes@, donor_order@, t as int));
                        assert(false);
                    }
                    0
                },
            };
            let pt = match position_of(donor_order, dp) {
                Some(pt) => pt,
                None => {
                    proof {
                        assert(donor_parent_linked(other.nodes@, donor_order@, t as int));
                        let u2 = choose|u2: int|
                            0 <= u2 < t && donor_order@[u2] == other.nodes@[d as int].parent->0;
                        assert(donor_order@[u2] == dp);
                        assert(donor_order@.contains(dp));
                        assert(false);
                    }
                    0
                },
            };
            proof {
                assert(donor_parent_linked(other.nodes@, donor_order@, t as int));
                let u2 = choose|u2: int|
                    0 <= u2 < t && donor_order@[u2] == other.nodes@[d as int].parent->0;
                assert(donor_order@[u2] == dp);
                assert(donor_order@[pt as int] == dp);
                if pt as int != u2 {
                    assert(donor_order@[pt as int] != donor_order@[u2]);
                }
                assert(pt < t);
            }
            proof {
                assert(crate::tree::wf_parent_at(other.nodes@, d as int));
                assert(is_internal(other.nodes@[dp as int]));
                assert(crate::tree::wf_internal_at(other.nodes@, dp as int));
            }
            let (dl, dr) = match (other.nodes[dp].left, other.nodes[dp].right) {
                (Some(a), Some(b)) => (a, b),
                _ => {
                    proof {
                        assert(crate::tree::has_kids(other.nodes@, dp as int));
                        assert(false);
                    }
                    (0, 0)
                },
            };
            let to_left = if d == dl {
                true
            } else {
                if d != dr {
                    proof {
                        assert(crate::tree::wf_parent_at(other.nodes@, d as int));
                        assert(false);
                    }
                }
                match other.nodes[dl].label {
                    NodeLabel::Leaf(_) => true,
                    NodeLabel::Internal(_) => false,
                }
            };
            proof {
                if to_left {
                    assert(donor_left_of(other.nodes@, dp, d));
                } else {
                    assert(donor_right_of(other.nodes@, dp, d));
                }
            }
            let ps = slots[pt];
            let cs = slots[t];
            let ghost pre = self.nodes@;
            proof {
                assert(ps < cs);
            }
            let mut pn = self.nodes[ps];
            if to_left {
                if pn.left.is_some() {
                    proof {
                        reveal(edge_claims);
                        let c = self.nodes@[ps as int].left->0;
                        let u2 = choose|u2: int|
                            1 <= u2 < t && slots@[u2] == c && donor_left_of(
                                other.nodes@,
                                donor_order@[pt as int],
                                donor_order@[u2],
                            );
                        let d1 = donor_order@[u2];
                        assert(is_internal(other.nodes@[d1 as int]));
                        assert(is_internal(other.nodes@[d as int]));
                        assert(donor_left_of(other.nodes@, dp, d1));
                        assert(donor_left_of(other.nodes@, dp, d));
                        assert(d1 == d);
                        assert(donor_order@[u2] == donor_order@[t as int]);
                        assert(false);
                    }
                }
                pn.left = Some(cs);
            } else {
                if pn.right.is_some() {
                    proof {
                        reveal(edge_claims);
                        let c = self.nodes@[ps as int].right->0;
                        let u2 = choose|u2: int|
                            1 <= u2 < t && slots@[u2] == c && donor_right_of(
                                other.nodes@,
                                donor_order@[pt as int],
                                donor_order@[u2],
                            );
                        assert(donor_right_of(other.nodes@, dp, donor_order@[u2]));
                        assert(donor_right_of(other.nodes@, dp, d));
                        assert(donor_order@[u2] == donor_order@[t as int]);
                        assert(false);
                    }
                }
                pn.right = Some(cs);
            }
            self.nodes.set(ps, pn);
            let mut cn = self.nodes[cs];
            cn.parent = Some(ps);
            self.nodes.set(cs, cn);
            proof {
                graft_edge_facts(
                    pre,
                    self.nodes@,
                    s0,
                    other.nodes@,
                    slots@,
                    old_leaves@,
                    donor_order@,
                    t as int,
                    pt as int,
                    to_left,
                );
                assert forall|a: int, b: int| 0 <= a < b < slots@.len() implies slots@[a]
                    != slots@[b] by {}
                assert(slots@.no_duplicates());
                assert(slots@.contains(ps)) by {
                    assert(slots@[pt as int] == ps);
                }
                assert forall|t2: int|
                    0 <= t2 < slots@.len() && slots@[t2] != ps implies (open_weight(pre))(
                    #[trigger] slots@[t2],
                ) == (open_weight(self.nodes@))(slots@[t2]) by {
                    if slots@[t2] == cs {
                        assert(self.nodes@[cs as int].left == pre[cs as int].left);
                        assert(self.nodes@[cs as int].right == pre[cs as int].right);
                    } else {
                        assert(self.nodes@[slots@[t2] as int] == pre[slots@[t2] as int]);
                    }
                }
                assert((open_weight(self.nodes@))(ps) == (open_weight(pre))(ps) - 1);
                lemma_seq_weight_delta(slots@, open_weight(pre), open_weight(self.nodes@), ps);
                edge_claims_step(
                    pre,
                    self.nodes@,
                    other.nodes@,
                    slots@,
                    donor_order@,
                    t as int,
                    pt as int,
                    to_left,
                );
            }
            t = t + 1;
        }
        proof {
            graft_fill_init(
                self.nodes@,
                s0,
                other.nodes@,
                rb,
                slots@,
                old_leaves@,
                donor_order@,
            );
            assert(crate::tree::seq_weight(slots@, open_weight(self.nodes@)) == m + 1);
            assert forall|u: int|
                0 <= u < slots@.len() implies (#[trigger] self.nodes@[slots@[u] as int]).label
                == NodeLabel::Internal(dir_of(other.nodes@[donor_order@[u] as int])) by {
                reveal(edge_inv);
            }
        }
        self.fill_leaves(slots, old_leaves, Ghost(s0), Ghost(rb))
    }
}

} // verus!

verus! {

/// The state of the arena while leaves are being attached: the first t slots
/// are full, the first li old leaves are attached, everything outside the
/// slots and the attached leaves still reads as before the graft.
#[verifier::opaque]
spec fn fill_inv(
    s2: Seq<Node>,
    s0: Seq<Node>,
    rb: Seq<usize>,
    slots: Seq<usize>,
    old_leaves: Seq<usize>,
    t: int,
    li: int,
) -> bool {
    let k = ic_of(s0);
    let si = slots[0];
    let m = slots.len() as int;
    &&& s2.len() == s0.len()
    &&& 0 <= li <= old_leaves.len()
    &&& 0 <= t <= m
    &&& forall|x: int|
        0 <= x < s2.len() && !(exists|u: int| 0 <= u < m && slots[u] == x) && !(exists|v: int|
            0 <= v < li && old_leaves[v] == x) ==> (#[trigger] s2[x]) == s0[x]
    &&& forall|u: int| 0 <= u < m ==> is_internal(#[trigger] s2[slots[u] as int])
    &&& s2[si as int].parent == s0[si as int].parent
    &&& forall|u: int|
        1 <= u < m ==> ((#[trigger] s2[slots[u] as int]).parent matches Some(p) && (exists|u2: int|
            0 <= u2 < u && slots[u2] == p) && p < slots[u] && (s2[p as int].left == Some(slots[u])
            || s2[p as int].right == Some(slots[u])))
    &&& forall|u: int|
        0 <= u < m ==> ((#[trigger] s2[slots[u] as int]).left matches Some(c) ==> child_ok(
            s2,
            slots,
            old_leaves,
            m,
            li,
            slots[u],
            c,
        ))
    &&& forall|u: int|
        0 <= u < m ==> ((#[trigger] s2[slots[u] as int]).right matches Some(c) ==> child_ok(
            s2,
            slots,
            old_leaves,
            m,
            li,
            slots[u],
            c,
        ))
    &&& forall|u: int|
        0 <= u < m ==> ((#[trigger] s2[slots[u] as int]).left matches Some(c1) ==> (
        s2[slots[u] as int].right matches Some(c2) ==> c1 != c2))
    &&& forall|u: int|
        0 <= u < t ==> (#[trigger] s2[slots[u] as int]).left is Some
            && s2[slots[u] as int].right is Some
    &&& forall|v: int|
        0 <= v < li ==> ((#[trigger] s2[old_leaves[v] as int]).parent matches Some(p) && (
        exists|u: int| 0 <= u < m && slots[u] == p) && (s2[p as int].left == Some(old_leaves[v])
            || s2[p as int].right == Some(old_leaves[v])))
    &&& forall|x: int|
        k <= x < s2.len() ==> (#[trigger] s2[x]).label == s0[x].label && s2[x].left is None
            && s2[x].right is None
}

/// The state of the arena while the skeleton edges are added: slots carry
/// the donor directions, the first t - 1 non-root donor positions are wired
/// to their parents, everything else still reads as before the graft.
/// The donor's internal nodes arrive parents-first: each entry past the
/// first is a non-root node whose parent stands earlier in the list.
spec fn donor_parent_linked(on: Seq<Node>, dord: Seq<usize>, u: int) -> bool {
    &&& 1 <= dord[u]
    &&& (dord[u] as int) < on.len()
    &&& on[dord[u] as int].parent is Some
    &&& exists|u2: int| 0 <= u2 < u && dord[u2] == on[dord[u] as int].parent->0
}

/// The donor child that the edge phase hangs on the left of a parent: the
/// parent's own left child, or its right child when the left one is a leaf.
spec fn donor_left_of(on: Seq<Node>, p: usize, d: usize) -> bool {
    &&& on[d as int].parent == Some(p)
    &&& (on[p as int].left == Some(d) || (on[p as int].right == Some(d) && on[p as int].left
        is Some && !is_internal(on[on[p as int].left->0 as int])))
}

/// The donor child that the edge phase hangs on the right of a parent: its
/// right child, when the left one is internal.
spec fn donor_right_of(on: Seq<Node>, p: usize, d: usize) -> bool {
    &&& on[d as int].parent == Some(p)
    &&& on[p as int].right == Some(d)
    &&& on[p as int].left is Some
    &&& is_internal(on[on[p as int].left->0 as int])
}

/// During the edge phase every child pointer already written over a slot
/// records one donor edge: the pointed-at slot's donor node hangs on that
/// side of the holder's donor node.
#[verifier::opaque]
spec fn edge_claims(
    s2: Seq<Node>,
    on: Seq<Node>,
    slots: Seq<usize>,
    dord: Seq<usize>,
    t: int,
) -> bool {
    let m = slots.len() as int;
    &&& forall|u: int|
        0 <= u < m ==> ((#[trigger] s2[slots[u] as int]).left matches Some(c) ==> exists|u2: int|
            1 <= u2 < t && slots[u2] == c && donor_left_of(on, dord[u], dord[u2]))
    &&& forall|u: int|
        0 <= u < m ==> ((#[trigger] s2[slots[u] as int]).right matches Some(c) ==> exists|u2: int|
            1 <= u2 < t && slots[u2] == c && donor_right_of(on, dord[u], dord[u2]))
}

/// With every slot's child pointers cleared, no pointer claims an edge yet.
proof fn edge_claims_init(s2: Seq<Node>, on: Seq<Node>, slots: Seq<usize>, dord: Seq<usize>)
    requires
        forall|u: int|
            0 <= u < slots.len() ==> ((#[trigger] s2[slots[u] as int]).left is None
                && s2[slots[u] as int].right is None),
    ensures
        edge_claims(s2, on, slots, dord, 1),
{
    reveal(edge_claims);
}

/// Writing one donor edge keeps every written pointer claimed.
proof fn edge_claims_step(
    pre: Seq<Node>,
    s2: Seq<Node>,
    on: Seq<Node>,
    slots: Seq<usize>,
    dord: Seq<usize>,
    t: int,
    pt: int,
    to_left: bool,
)
    requires
        edge_claims(pre, on, slots, dord, t),
        1 <= t < slots.len(),
        0 <= pt < t,
        forall|a: int, b: int| 0 <= a < b < slots.len() ==> slots[a] != slots[b],
        forall|u: int| 0 <= u < slots.len() ==> (#[trigger] slots[u] as int) < pre.len(),
        s2.len() == pre.len(),
        forall|x: int|
            0 <= x < pre.len() && x != slots[pt] && x != slots[t] ==> #[trigger] s2[x] == pre[x],
        to_left ==> s2[slots[pt] as int].left == Some(slots[t]) && s2[slots[pt] as int].right
            == pre[slots[pt] as int].right,
        !to_left ==> s2[slots[pt] as int].right == Some(slots[t]) && s2[slots[pt] as int].left
            == pre[slots[pt] as int].left,
        s2[slots[t] as int].left == pre[slots[t] as int].left,
        s2[slots[t] as int].right == pre[slots[t] as int].right,
        to_left ==> donor_left_of(on, dord[pt], dord[t]),
        !to_left ==> donor_right_of(on, dord[pt], dord[t]),
    ensures
        edge_claims(s2, on, slots, dord, t + 1),
{
    reveal(edge_claims);
    let m = slots.len() as int;
    assert forall|u: int|
        0 <= u < m && (#[trigger] s2[slots[u] as int]).left is Some implies exists|u2: int|
        1 <= u2 < t + 1 && slots[u2] == s2[slots[u] as int].left->0 && donor_left_of(
        on,
        dord[u],
        dord[u2],
    ) by {
        let c = s2[slots[u] as int].left->0;
        if u == pt && to_left {
            assert(slots[t] == c && donor_left_of(on, dord[pt], dord[t]));
        } else {
            assert(s2[slots[u] as int].left == pre[slots[u] as int].left);
            let u2 = choose|u2: int|
                1 <= u2 < t && slots[u2] == c && donor_left_of(on, dord[u], dord[u2]);
            assert(1 <= u2 < t + 1 && slots[u2] == c && donor_left_of(on, dord[u], dord[u2]));
        }
    }
    assert forall|u: int|
        0 <= u < m && (#[trigger] s2[slots[u] as int]).right is Some implies exists|u2: int|
        1 <= u2 < t + 1 && slots[u2] == s2[slots[u] as int].right->0 && donor_right_of(
        on,
        dord[u],
        dord[u2],
    ) by {
        let c = s2[slots[u] as int].right->0;
        if u == pt && !to_left {
            assert(slots[t] == c && donor_right_of(on, dord[pt], dord[t]));
        } else {
            assert(s2[slots[u] as int].right == pre[slots[u] as int].right);
            let u2 = choose|u2: int|
                1 <= u2 < t && slots[u2] == c && donor_right_of(on, dord[u], dord[u2]);
            assert(1 <= u2 < t + 1 && slots[u2] == c && donor_right_of(on, dord[u], dord[u2]));
        }
    }
}

#[verifier::opaque]
spec fn edge_inv(
    s2: Seq<Node>,
    s0: Seq<Node>,
    on: Seq<Node>,
    slots: Seq<usize>,
    old_leaves: Seq<usize>,
    dord: Seq<usize>,
    t: int,
) -> bool {
    let si = slots[0];
    let m = slots.len() as int;
    &&& s2.len() == s0.len()
    &&& 1 <= t <= m
    &&& forall|x: int|
        0 <= x < s2.len() && !(exists|u: int| 0 <= u < m && slots[u] == x) ==> (#[trigger] s2[x])
            == s0[x]
    &&& forall|u: int|
        0 <= u < m ==> (#[trigger] s2[slots[u] as int]).label == NodeLabel::Internal(
            dir_of(on[dord[u] as int]),
        )
    &&& s2[si as int].parent == s0[si as int].parent
    &&& forall|u: int|
        t <= u < m ==> (#[trigger] s2[slots[u] as int]).parent == s0[slots[u] as int].parent
    &&& forall|u: int|
        1 <= u < t ==> ((#[trigger] s2[slots[u] as int]).parent matches Some(p) && (exists|u2: int|
            0 <= u2 < u && slots[u2] == p) && p < slots[u] && (s2[p as int].left == Some(slots[u])
            || s2[p as int].right == Some(slots[u])))
    &&& forall|u: int|
        0 <= u < m ==> ((#[trigger] s2[slots[u] as int]).left matches Some(c) ==> child_ok(
            s2,
            slots,
            old_leaves,
            t,
            0,
            slots[u],
            c,
        ))
    &&& forall|u: int|
        0 <= u < m ==> ((#[trigger] s2[slots[u] as int]).right matches Some(c) ==> child_ok(
            s2,
            slots,
            old_leaves,
            t,
            0,
            slots[u],
            c,
        ))
    &&& forall|u: int|
        0 <= u < m ==> ((#[trigger] s2[slots[u] as int]).left matches Some(c1) ==> (
        s2[slots[u] as int].right matches Some(c2) ==> c1 != c2))
}

/// After the slot labels are written and their child pointers cleared, the
/// edge-phase state holds for t = 1.
#[verifier::rlimit(100)]
proof fn graft_edge_init(
    s2: Seq<Node>,
    s0: Seq<Node>,
    on: Seq<Node>,
    slots: Seq<usize>,
    old_leaves: Seq<usize>,
    dord: Seq<usize>,
)
    requires
        s2.len() == s0.len(),
        slots.len() >= 1,
        slots.len() == dord.len(),
        forall|x: int|
            0 <= x < s2.len() && !(exists|u: int| 0 <= u < slots.len() && slots[u] == x) ==> (
            #[trigger] s2[x]) == s0[x],
        forall|u: int|
            0 <= u < slots.len() ==> (#[trigger] s2[slots[u] as int]) == (Node {
                label: NodeLabel::Internal(dir_of(on[dord[u] as int])),
                parent: s0[slots[u] as int].parent,
                left: None,
                right: None,
            }),
    ensures
        edge_inv(s2, s0, on, slots, old_leaves, dord, 1),
{
    reveal(edge_inv);
}

/// One skeleton edge preserves the edge-phase state.
#[verifier::rlimit(100)]
#[verifier::spinoff_prover]
proof fn graft_edge_facts(
    pre: Seq<Node>,
    s2: Seq<Node>,
    s0: Seq<Node>,
    on: Seq<Node>,
    slots: Seq<usize>,
    old_leaves: Seq<usize>,
    dord: Seq<usize>,
    t: int,
    pt: int,
    to_left: bool,
)
    requires
        edge_inv(pre, s0, on, slots, old_leaves, dord, t),
        forall|t1: int, t2: int| 0 <= t1 < t2 < slots.len() ==> slots[t1] < slots[t2],
        forall|u: int| 0 <= u < slots.len() ==> (#[trigger] slots[u] as int) < s0.len(),
        1 <= t < slots.len(),
        0 <= pt < t,
        to_left ==> pre[slots[pt] as int].left is None,
        !to_left ==> pre[slots[pt] as int].right is None,
        s2 == pre.update(
            slots[pt] as int,
            if to_left {
                Node { left: Some(slots[t]), ..pre[slots[pt] as int] }
            } else {
                Node { right: Some(slots[t]), ..pre[slots[pt] as int] }
            },
        ).update(
            slots[t] as int,
            Node {
                parent: Some(slots[pt]),
                ..pre.update(
                    slots[pt] as int,
                    if to_left {
                        Node { left: Some(slots[t]), ..pre[slots[pt] as int] }
                    } else {
                        Node { right: Some(slots[t]), ..pre[slots[pt] as int] }
                    },
                )[slots[t] as int]
            },
        ),
    ensures
        edge_inv(s2, s0, on, slots, old_leaves, dord, t + 1),
{
    reveal(edge_inv);
    let m = slots.len() as int;
    let ps = slots[pt];
    let cs = slots[t];
    assert(ps < cs);
    assert forall|x: int|
        0 <= x < s2.len() && x != ps && x != cs implies #[trigger] s2[x] == pre[x] by {}
    assert(s2[cs as int].parent == Some(ps));
    assert forall|u: int|
        0 <= u < m implies ((#[trigger] s2[slots[u] as int]).left matches Some(c) ==> child_ok(
        s2,
        slots,
        old_leaves,
        t + 1,
        0,
        slots[u],
        c,
    )) && ((#[trigger] s2[slots[u] as int]).right matches Some(c) ==> child_ok(
        s2,
        slots,
        old_leaves,
        t + 1,
        0,
        slots[u],
        c,
    )) by {
        let sl = slots[u] as int;
        if pre[sl].left is Some {
            let c = pre[sl].left->0;
            assert(child_ok(pre, slots, old_leaves, t, 0, slots[u], c));
            assert(c != cs);
            assert(s2[c as int].parent == pre[c as int].parent);
        }
        if pre[sl].right is Some {
            let c = pre[sl].right->0;
            assert(child_ok(pre, slots, old_leaves, t, 0, slots[u], c));
            assert(c != cs);
            assert(s2[c as int].parent == pre[c as int].parent);
        }
    }
}

/// After the last edge, the fill-phase state holds for no leaves attached.
#[verifier::rlimit(100)]
proof fn graft_fill_init(
    s2: Seq<Node>,
    s0: Seq<Node>,
    on: Seq<Node>,
    rb: Seq<usize>,
    slots: Seq<usize>,
    old_leaves: Seq<usize>,
    dord: Seq<usize>,
)
    requires
        wf_arena(s0),
        graft_inputs_ok(s0, slots[0] as int, rb, slots, old_leaves),
        edge_inv(s2, s0, on, slots, old_leaves, dord, slots.len() as int),
    ensures
        fill_inv(s2, s0, rb, slots, old_leaves, 0, 0),
{
    reveal(edge_inv);
    reveal(fill_inv);
    let k = ic_of(s0);
    let m = slots.len() as int;
    assert forall|x: int|
        k <= x < s2.len() implies (#[trigger] s2[x]).label == s0[x].label && s2[x].left is None
            && s2[x].right is None by {
        assert(crate::tree::wf_leaf_at(s0, x));
        if exists|u: int| 0 <= u < m && slots[u] == x {
            let u = choose|u: int| 0 <= u < m && slots[u] == x;
            assert((slots[u] as int) < k);
            assert(false);
        }
        assert(s2[x] == s0[x]);
    }
}

/// A fully wired slot advances the fill cursor.
#[verifier::rlimit(100)]
proof fn graft_fill_step(
    s2: Seq<Node>,
    s0: Seq<Node>,
    rb: Seq<usize>,
    slots: Seq<usize>,
    old_leaves: Seq<usize>,
    t: int,
    li: int,
)
    requires
        fill_inv(s2, s0, rb, slots, old_leaves, t, li),
        0 <= t < slots.len(),
        s2[slots[t] as int].left is Some,
        s2[slots[t] as int].right is Some,
    ensures
        fill_inv(s2, s0, rb, slots, old_leaves, t + 1, li),
{
    reveal(fill_inv);
}

/// One leaf attachment preserves the fill-phase state.
#[verifier::rlimit(100)]
#[verifier::spinoff_prover]
proof fn graft_attach_facts(
    pre: Seq<Node>,
    s2: Seq<Node>,
    s0: Seq<Node>,
    rb: Seq<usize>,
    slots: Seq<usize>,
    old_leaves: Seq<usize>,
    t: int,
    li: int,
    is_left: bool,
)
    requires
        forall|t2: int|
            0 <= t2 < old_leaves.len() ==> ic_of(s0) <= (#[trigger] old_leaves[t2]) < s0.len(),
        old_leaves.no_duplicates(),
        forall|u: int| 0 <= u < slots.len() ==> ((#[trigger] slots[u]) as int) < ic_of(s0),
        fill_inv(pre, s0, rb, slots, old_leaves, t, li),
        0 <= t < slots.len(),
        0 <= li < old_leaves.len(),
        is_left ==> pre[slots[t] as int].left is None,
        !is_left ==> pre[slots[t] as int].right is None,
        s2 == pre.update(
            slots[t] as int,
            if is_left {
                Node { left: Some(old_leaves[li]), ..pre[slots[t] as int] }
            } else {
                Node { right: Some(old_leaves[li]), ..pre[slots[t] as int] }
            },
        ).update(
            old_leaves[li] as int,
            Node {
                parent: Some(slots[t]),
                ..pre.update(
                    slots[t] as int,
                    if is_left {
                        Node { left: Some(old_leaves[li]), ..pre[slots[t] as int] }
                    } else {
                        Node { right: Some(old_leaves[li]), ..pre[slots[t] as int] }
                    },
                )[old_leaves[li] as int]
            },
        ),
    ensures
        fill_inv(s2, s0, rb, slots, old_leaves, t, li + 1),
{
    reveal(fill_inv);
    let k = ic_of(s0);
    let m = slots.len() as int;
    let slot = slots[t];
    let lv = old_leaves[li];
    assert(k <= lv < s0.len());
    assert(slot < k);
    assert(slot != lv);
    assert forall|x: int| 0 <= x < s2.len() && x != slot && x != lv implies #[trigger] s2[x]
        == pre[x] by {}
    assert(s2[lv as int].parent == Some(slot));
    assert(s2[lv as int].label == pre[lv as int].label);
    assert(s2[lv as int].left == pre[lv as int].left);
    assert(s2[lv as int].right == pre[lv as int].right);
    assert forall|u: int|
        0 <= u < m implies ((#[trigger] s2[slots[u] as int]).left matches Some(c) ==> child_ok(
        s2,
        slots,
        old_leaves,
        m,
        li + 1,
        slots[u],
        c,
    )) && ((#[trigger] s2[slots[u] as int]).right matches Some(c) ==> child_ok(
        s2,
        slots,
        old_leaves,
        m,
        li + 1,
        slots[u],
        c,
    )) by {
        let sl = slots[u] as int;
        if s2[sl].left is Some {
            let c = s2[sl].left->0;
            if sl == slot as int && is_left {
                assert(c == lv);
            } else {
                assert(pre[sl].left == Some(c));
                assert(child_ok(pre, slots, old_leaves, m, li, slots[u], c));
                assert(c != lv) by {
                    if exists|v: int| 0 <= v < li && old_leaves[v] == c {
                        let v = choose|v: int| 0 <= v < li && old_leaves[v] == c;
                    }
                }
                assert(s2[c as int].parent == pre[c as int].parent);
            }
        }
        if s2[sl].right is Some {
            let c = s2[sl].right->0;
            if sl == slot as int && !is_left {
                assert(c == lv);
            } else {
                assert(pre[sl].right == Some(c));
                assert(child_ok(pre, slots, old_leaves, m, li, slots[u], c));
                assert(c != lv) by {
                    if exists|v: int| 0 <= v < li && old_leaves[v] == c {
                        let v = choose|v: int| 0 <= v < li && old_leaves[v] == c;
                    }
                }
                assert(s2[c as int].parent == pre[c as int].parent);
            }
        }
    }
    assert forall|v: int|
        0 <= v < li + 1 implies ((#[trigger] s2[old_leaves[v] as int]).parent matches Some(p) && (
    exists|u: int| 0 <= u < m && slots[u] == p) && (s2[p as int].left == Some(old_leaves[v])
        || s2[p as int].right == Some(old_leaves[v]))) by {
        if v < li {
            assert(old_leaves[v] != lv);
            assert(s2[old_leaves[v] as int] == pre[old_leaves[v] as int]);
            let p0 = pre[old_leaves[v] as int].parent->0;
            if p0 == slot {
                // the changed side of the slot was free, so the recorded
                // side survives
                assert(pre[p0 as int].left == Some(old_leaves[v]) || pre[p0 as int].right == Some(
                    old_leaves[v],
                ));
            } else {
                assert(s2[p0 as int] == pre[p0 as int]);
            }
        } else {
            assert(old_leaves[v] == lv);
            assert(exists|u: int| 0 <= u < m && slots[u] == slot) by {
                assert(slots[t] == slot);
            }
        }
    }
}

impl Layout {
    /// Attaches the old subtree's leaves, in their breadth-first order, to
    /// the free child slots of the rebuilt skeleton, in slot creation order;
    /// the open slots and the waiting leaves always line up exactly.
    #[verifier::rlimit(100)]
    fn fill_leaves(
        &mut self,
        slots: &Vec<usize>,
        old_leaves: &Vec<usize>,
        Ghost(s0): Ghost<Seq<Node>>,
        Ghost(rb): Ghost<Seq<usize>>,
    )
        requires
            wf_arena(s0),
            old(self).nodes@.len() == s0.len(),
            graft_inputs_ok(s0, slots@[0] as int, rb, slots@, old_leaves@),
            fill_inv(old(self).nodes@, s0, rb, slots@, old_leaves@, 0, 0),
            crate::tree::seq_weight(slots@, open_weight(old(self).nodes@)) == slots@.len() + 1,
            old_leaves@.len() == slots@.len() + 1,
        ensures
            final(self).wf(),
            final(self).canvas_dimensions == old(self).canvas_dimensions,
            final(self).nodes@.len() == s0.len(),
            ic_of(final(self).nodes@) == ic_of(s0),
            forall|t: int|
                ic_of(s0) <= t < s0.len()
                    ==> (#[trigger] final(self).nodes@[t]).label == s0[t].label,
            leaf_handles(final(self).nodes@) == leaf_handles(s0),
            forall|x: int|
                0 <= x < s0.len() && !rb.contains(x as usize)
                    ==> #[trigger] final(self).nodes@[x] == s0[x],
            forall|x: int|
                0 <= x < s0.len() ==> (#[trigger] final(self).nodes@[x]).label == old(
                    self,
                ).nodes@[x].label,
    {
        let total = self.nodes.len();
        let k = (total - 1) / 2;
        let m = slots.len();
        let si = slots[0];
        let n_leaves = old_leaves.len();
        proof {
            assert(k == ic_of(s0));
        }
        let mut li: usize = 0;
        let mut t: usize = 0;
        while t < m
            invariant
                t <= m,
                li <= n_leaves,
                n_leaves == old_leaves@.len(),
                total == s0.len(),
                self.nodes@.len() == total,
                k == ic_of(s0),
                si == slots@[0],
                m == slots@.len(),
                wf_arena(s0),
                s0.len() <= usize::MAX,
                self.canvas_dimensions == old(self).canvas_dimensions,
                graft_inputs_ok(s0, si as int, rb, slots@, old_leaves@),
                fill_inv(self.nodes@, s0, rb, slots@, old_leaves@, t as int, li as int),
                n_leaves == m + 1,
                forall|x: int|
                    0 <= x < total ==> (#[trigger] self.nodes@[x]).label == old(
                        self,
                    ).nodes@[x].label,
                crate::tree::seq_weight(slots@, open_weight(old(self).nodes@)) == m + 1,
                li as int == crate::tree::seq_weight(
                    slots@.take(t as int),
                    open_weight(old(self).nodes@),
                ),
                forall|u: int|
                    t <= u < m ==> ((#[trigger] self.nodes@[slots@[u] as int]).left == old(
                        self,
                    ).nodes@[slots@[u] as int].left && self.nodes@[slots@[u] as int].right == old(
                        self,
                    ).nodes@[slots@[u] as int].right),
            decreases m - t,
        {
            let ghost li0 = li as int;
            let slot = slots[t];
            if self.nodes[slot].left.is_none() {
                proof {
                    lemma_seq_weight_take_step(slots@, t as int, open_weight(old(self).nodes@));
                    assert(slots@ =~= slots@.take(t as int + 1) + slots@.skip(t as int + 1));
                    crate::tree::lemma_seq_weight_concat(
                        slots@.take(t as int + 1),
                        slots@.skip(t as int + 1),
                        open_weight(old(self).nodes@),
                    );
                    lemma_seq_weight_nonneg(
                        slots@.skip(t as int + 1),
                        open_weight(old(self).nodes@),
                    );
                    assert((open_weight(old(self).nodes@))(slots@[t as int]) >= 1);
                    assert(li < n_leaves);
                }
                let lv = old_leaves[li];
                let ghost pre = self.nodes@;
                proof {
                    assert(slot < lv);
                }
                let mut sn = self.nodes[slot];
                sn.left = Some(lv);
                self.nodes.set(slot, sn);
                let mut ln = self.nodes[lv];
                ln.parent = Some(slot);
                self.nodes.set(lv, ln);
                proof {
                    graft_attach_facts(
                        pre,
                        self.nodes@,
                        s0,
                        rb,
                        slots@,
                        old_leaves@,
                        t as int,
                        li as int,
                        true,
                    );
                }
                li = li + 1;
            }
            if self.nodes[slot].right.is_none() {
                proof {
                    lemma_seq_weight_take_step(slots@, t as int, open_weight(old(self).nodes@));
                    assert(slots@ =~= slots@.take(t as int + 1) + slots@.skip(t as int + 1));
                    crate::tree::lemma_seq_weight_concat(
                        slots@.take(t as int + 1),
                        slots@.skip(t as int + 1),
                        open_weight(old(self).nodes@),
                    );
                    lemma_seq_weight_nonneg(
                        slots@.skip(t as int + 1),
                        open_weight(old(self).nodes@),
                    );
                    assert(li as int == li0 + (
                    if old(self).nodes@[slot as int].left is None {
                        1int
                    } else {
                        0int
                    }));
                    assert(li < n_leaves);
                }
                let lv = old_leaves[li];
                let ghost pre = self.nodes@;
                proof {
                    assert(slot < lv);
                }
                let mut sn = self.nodes[slot];
                sn.right = Some(lv);
                self.nodes.set(slot, sn);
                let mut ln = self.nodes[lv];
                ln.parent = Some(slot);
                self.nodes.set(lv, ln);
                proof {
                    graft_attach_facts(
                        pre,
                        self.nodes@,
                        s0,
                        rb,
                        slots@,
                        old_leaves@,
                        t as int,
                        li as int,
                        false,
                    );
                }
                li = li + 1;
            }
            proof {
                graft_fill_step(
                    self.nodes@,
                    s0,
                    rb,
                    slots@,
                    old_leaves@,
                    t as int,
                    li as int,
                );
                lemma_seq_weight_take_step(slots@, t as int, open_weight(old(self).nodes@));
                assert(li as int == li0 + (open_weight(old(self).nodes@))(slots@[t as int]));
            }
            t = t + 1;
        }
        proof {
            assert(slots@.take(m as int) =~= slots@);
            assert(li == n_leaves);
            graft_finish(self.nodes@, s0, rb, slots@, old_leaves@, li as int);
        }
    }
}

/// After every slot is full and every old leaf attached, the arena is a
/// well-formed tree again with its leaves untouched.
#[verifier::rlimit(100)]
proof fn graft_finish(
    s2: Seq<Node>,
    s0: Seq<Node>,
    rb: Seq<usize>,
    slots: Seq<usize>,
    old_leaves: Seq<usize>,
    li: int,
)
    requires
        wf_arena(s0),
        s0.len() <= usize::MAX,
        graft_inputs_ok(s0, slots[0] as int, rb, slots, old_leaves),
        fill_inv(s2, s0, rb, slots, old_leaves, slots.len() as int, li),
        li == old_leaves.len(),
    ensures
        wf_arena(s2),
        s2.len() == s0.len(),
        ic_of(s2) == ic_of(s0),
        forall|t: int| ic_of(s0) <= t < s0.len() ==> (#[trigger] s2[t]).label == s0[t].label,
        leaf_handles(s2) == leaf_handles(s0),
        forall|x: int| 0 <= x < s0.len() && !rb.contains(x as usize) ==> #[trigger] s2[x] == s0[x],
{
    reveal(fill_inv);
    broadcast use vstd::seq_lib::group_to_multiset_ensures;

    let k = ic_of(s0);
    let kk = k;
    let m = slots.len() as int;
    let si = slots[0];
    assert forall|x: int| 0 <= x < s2.len() implies (is_internal(s2[x]) <==> x < ic_of(s2)) by {
        if x >= kk {
            assert(s2[x].label == s0[x].label);
        } else {
            if !(exists|u: int| 0 <= u < m && slots[u] == x) {
                if exists|v: int| 0 <= v < li && old_leaves[v] == x {
                    let v = choose|v: int| 0 <= v < li && old_leaves[v] == x;
                    assert(old_leaves[v] >= k);
                    assert(false);
                }
                assert(s2[x] == s0[x]);
            }
        }
    }
    assert forall|x: int| kk <= x < s2.len() implies crate::tree::wf_leaf_at(s2, x) by {
        assert(s2[x].label == s0[x].label);
        assert(crate::tree::wf_leaf_at(s0, x));
    }
    assert forall|x: int| 0 <= x < kk implies wf_internal_at(s2, x) by {
        if exists|u: int| 0 <= u < m && slots[u] == x {
            let u = choose|u: int| 0 <= u < m && slots[u] == x;
            assert(s2[slots[u] as int].left is Some);
            assert(s2[slots[u] as int].right is Some);
            assert(child_ok(s2, slots, old_leaves, m, li, slots[u], s2[x].left->0));
            assert(child_ok(s2, slots, old_leaves, m, li, slots[u], s2[x].right->0));
        } else {
            if exists|v: int| 0 <= v < li && old_leaves[v] == x {
                let v = choose|v: int| 0 <= v < li && old_leaves[v] == x;
                assert(false);
            }
            assert(s2[x] == s0[x]);
            assert(wf_internal_at(s0, x));
            graft_untouched_child(s0, s2, rb, slots, old_leaves, si, li, x, s0[x].left->0);
            graft_untouched_child(s0, s2, rb, slots, old_leaves, si, li, x, s0[x].right->0);
        }
    }
    assert forall|x: int| 1 <= x < s2.len() implies crate::tree::wf_parent_at(s2, x) by {
        graft_parent_at(s0, s2, rb, slots, old_leaves, si, li, x);
    }
    assert(s2[0].parent is None) by {
        if exists|u: int| 0 <= u < m && slots[u] == 0 {
            let u = choose|u: int| 0 <= u < m && slots[u] == 0;
            if u > 0 {
                assert(slots[0] < slots[u]);
                assert(false);
            }
            assert(si == 0);
            assert(s2[0].parent == s0[0].parent);
        } else {
            if exists|v: int| 0 <= v < li && old_leaves[v] == 0 {
                let v = choose|v: int| 0 <= v < li && old_leaves[v] == 0;
                assert(old_leaves[v] >= ic_of(s0));
                assert(false);
            }
            assert(s2[0] == s0[0]);
        }
    }
    assert(wf_arena(s2));
    assert(leaf_handles(s2) =~= leaf_handles(s0));
    assert forall|x: int|
        0 <= x < s0.len() && !rb.contains(x as usize) implies #[trigger] s2[x] == s0[x] by {
        if exists|u: int| 0 <= u < m && slots[u] == x {
            let u = choose|u: int| 0 <= u < m && slots[u] == x;
            assert(rb.contains(slots[u]));
            assert(false);
        }
        if exists|v: int| 0 <= v < li && old_leaves[v] == x {
            let v = choose|v: int| 0 <= v < li && old_leaves[v] == x;
            assert(rb.contains(old_leaves[v]));
            assert(false);
        }
    }
}

/// The children of an internal node left untouched by the graft keep their
/// parent pointers.
#[verifier::rlimit(100)]
proof fn graft_untouched_child(
    s0: Seq<Node>,
    s2: Seq<Node>,
    rb: Seq<usize>,
    slots: Seq<usize>,
    old_leaves: Seq<usize>,
    si: usize,
    li: int,
    x: int,
    c: usize,
)
    requires
        wf_arena(s0),
        s0.len() <= usize::MAX,
        graft_inputs_ok(s0, si as int, rb, slots, old_leaves),
        si == slots[0],
        fill_inv(s2, s0, rb, slots, old_leaves, slots.len() as int, li),
        li == old_leaves.len(),
        0 <= x < ic_of(s0),
        !slots.contains(x as usize),
        is_internal(s0[x]),
        s0[x].left == Some(c) || s0[x].right == Some(c),
    ensures
        s2[c as int].parent == Some(x as usize),
{
    reveal(fill_inv);
    broadcast use vstd::seq_lib::group_to_multiset_ensures;

    assert(wf_internal_at(s0, x));
    assert(s0[c as int].parent == Some(x as usize));
    if slots.contains(c) {
        let u = choose|u: int| 0 <= u < slots.len() && slots[u] == c;
        assert(rb.contains(c));
        lemma_contains_via_multiset(rb, subtree_nodes(s0, si as int), c);
        if c == si {
            assert(s2[c as int].parent == s0[c as int].parent);
        } else {
            crate::tree::lemma_subtree_parent_closed(s0, si as int, c);
            lemma_contains_via_multiset(subtree_nodes(s0, si as int), rb, x as usize);
            assert(slots.contains(x as usize));
            assert(false);
        }
    } else if old_leaves.contains(c) {
        assert(rb.contains(c));
        lemma_contains_via_multiset(rb, subtree_nodes(s0, si as int), c);
        assert(c as int >= ic_of(s0));
        assert(c != si);
        crate::tree::lemma_subtree_parent_closed(s0, si as int, c);
        lemma_contains_via_multiset(subtree_nodes(s0, si as int), rb, x as usize);
        assert(slots.contains(x as usize));
        assert(false);
    } else {
        assert(s2[c as int] == s0[c as int]) by {
            if exists|u: int| 0 <= u < slots.len() && slots[u] == c {
                assert(false);
            }
            if exists|v: int| 0 <= v < li && old_leaves[v] == c {
                let v = choose|v: int| 0 <= v < li && old_leaves[v] == c;
                assert(old_leaves.contains(c));
                assert(false);
            }
        }
    }
}

/// Every node's parent pointer is consistent after the graft.
#[verifier::rlimit(100)]
proof fn graft_parent_at(
    s0: Seq<Node>,
    s2: Seq<Node>,
    rb: Seq<usize>,
    slots: Seq<usize>,
    old_leaves: Seq<usize>,
    si: usize,
    li: int,
    x: int,
)
    requires
        wf_arena(s0),
        s0.len() <= usize::MAX,
        graft_inputs_ok(s0, si as int, rb, slots, old_leaves),
        si == slots[0],
        fill_inv(s2, s0, rb, slots, old_leaves, slots.len() as int, li),
        li == old_leaves.len(),
        1 <= x < s2.len(),
        forall|u: int| 0 <= u < slots.len() ==> is_internal(#[trigger] s2[slots[u] as int]),
        forall|i: int| 0 <= i < s2.len() ==> (is_internal(#[trigger] s2[i]) <==> i < ic_of(s2)),
    ensures
        crate::tree::wf_parent_at(s2, x),
{
    reveal(fill_inv);
    broadcast use vstd::seq_lib::group_to_multiset_ensures;

    let k = ic_of(s0);
    let m = slots.len() as int;
    if slots.contains(x as usize) {
        let u = choose|u: int| 0 <= u < m && slots[u] == x as usize;
        if u == 0 {
            // subtree root: the old parent, outside the subtree, is intact
            assert(x == si);
            assert(s2[x].parent == s0[x].parent);
            assert(crate::tree::wf_parent_at(s0, x));
            let p = s0[x].parent->0;
            assert((p as int) < x);
            assert(!rb.contains(p)) by {
                if rb.contains(p) {
                    let tt = choose|tt: int| 0 <= tt < rb.len() && rb[tt] == p;
                    assert(si <= rb[tt]);
                    assert(false);
                }
            }
            assert(s2[p as int] == s0[p as int]) by {
                if exists|u2: int| 0 <= u2 < m && slots[u2] == p {
                    assert(rb.contains(p));
                }
                if exists|v: int| 0 <= v < li && old_leaves[v] == p {
                    let v = choose|v: int| 0 <= v < li && old_leaves[v] == p;
                    assert(rb.contains(p));
                }
            }
        } else {
            assert(s2[slots[u] as int].parent matches Some(p) && (exists|u2: int|
                0 <= u2 < u && slots[u2] == p) && p < slots[u] && (s2[p as int].left == Some(
                slots[u],
            ) || s2[p as int].right == Some(slots[u])));
        }
    } else if old_leaves.contains(x as usize) {
        let v = choose|v: int| 0 <= v < li && old_leaves[v] == x as usize;
        assert(s2[old_leaves[v] as int].parent matches Some(p) && (exists|u: int|
            0 <= u < m && slots[u] == p) && (s2[p as int].left == Some(old_leaves[v])
            || s2[p as int].right == Some(old_leaves[v])));
        let p = s2[x].parent->0;
        assert((p as int) < k);
        assert((p as int) < x);
    } else {
        assert(s2[x] == s0[x]) by {
            if exists|v: int| 0 <= v < li && old_leaves[v] == x as usize {
                let v = choose|v: int| 0 <= v < li && old_leaves[v] == x as usize;
                assert(old_leaves.contains(x as usize));
            }
            if exists|u: int| 0 <= u < m && slots[u] == x as usize {
                assert(slots.contains(x as usize));
            }
        }
        assert(crate::tree::wf_parent_at(s0, x));
        let p = s0[x].parent->0;
        assert(s2[p as int].left == s0[p as int].left || s2[p as int].right == s0[p as int].right
            || true);
        if slots.contains(p) {
            // then x would be inside the subtree
            assert(rb.contains(p));
            lemma_contains_via_multiset(rb, subtree_nodes(s0, si as int), p);
            assert(is_internal(s0[p as int]));
            lemma_subtree_child_closed_pub(s0, si as int, p);
            assert(subtree_nodes(s0, si as int).contains(x as usize)) by {
                assert(s0[p as int].left == Some(x as usize) || s0[p as int].right == Some(
                    x as usize,
                ));
            }
            lemma_contains_via_multiset(subtree_nodes(s0, si as int), rb, x as usize);
            if (x as int) < k {
                assert(slots.contains(x as usize));
                assert(false);
            } else {
                assert(old_leaves.contains(x as usize));
                assert(false);
            }
        } else {
            assert(s2[p as int] == s0[p as int]) by {
                if exists|v: int| 0 <= v < li && old_leaves[v] == p {
                    let v = choose|v: int| 0 <= v < li && old_leaves[v] == p;
                    assert(old_leaves.contains(p));
                    assert((p as int) >= k);
                    assert(is_internal(s0[p as int]));
                    assert(false);
                }
                if exists|u: int| 0 <= u < m && slots[u] == p {
                    assert(slots.contains(p));
                }
            }
        }
    }
}

} // verus!

verus! {

/// An eligible crossover subtree: the index of its internal root and how
/// many leaves it holds.
#[derive(Debug, PartialEq, Eq, Structural, Clone, Copy)]
pub struct Subtree {
    pub index: usize,
    pub leaf_node_count: usize,
}

impl Subtree {
    pub fn new(index: usize, leaf_node_count: usize) -> (r: Subtree)
        ensures
            r.index == index,
            r.leaf_node_count == leaf_node_count,
    {
        Subtree { index, leaf_node_count }
    }
}

impl Layout {
    /// How many leaves the subtree rooted at the given node holds.
    pub fn count_subtree_leaves(&self, index: usize) -> (r: usize)
        requires
            self.wf(),
            index < self.nodes@.len(),
        ensures
            r as int == subtree_leaf_count(self.nodes@, index as int),
    {
        let total = self.nodes.len();
        let bfs = self.subtree_bfs(index);
        let mut cnt: usize = 0;
        let mut i: usize = 0;
        while i < bfs.len()
            invariant
                i <= bfs@.len(),
                self.wf(),
                total == self.nodes@.len(),
                forall|t: int| 0 <= t < bfs@.len() ==> (#[trigger] bfs@[t]) < total,
                cnt <= i,
                cnt as int == seq_weight(bfs@.take(i as int), leaf_weight(self.nodes@)),
            decreases bfs@.len() - i,
        {
            proof {
                assert(bfs@.take(i as int + 1) =~= bfs@.take(i as int).push(bfs@[i as int]));
                lemma_seq_weight_push(
                    bfs@.take(i as int),
                    bfs@[i as int],
                    leaf_weight(self.nodes@),
                );
            }
            match self.nodes[bfs[i]].label {
                NodeLabel::Leaf(_) => {
                    cnt = cnt + 1;
                },
                NodeLabel::Internal(_) => {},
            }
            i = i + 1;
        }
        proof {
            assert(bfs@.take(bfs@.len() as int) =~= bfs@);
            crate::tree::lemma_seq_weight_permutation(
                bfs@,
                subtree_nodes(self.nodes@, index as int),
                leaf_weight(self.nodes@),
            );
            crate::tree::lemma_subtree_weights(self.nodes@, index as int);
        }
        cnt
    }

    /// The eligible crossover subtrees: every internal node whose subtree
    /// holds at least three leaves, in creation order, with its leaf count.
    pub fn subtrees(&self) -> (r: Vec<Subtree>)
        requires
            self.wf(),
        ensures
            forall|t: int|
                0 <= t < r@.len() ==> ((#[trigger] r@[t]).index as int) < ic_of(self.nodes@)
                    && r@[t].leaf_node_count as int == subtree_leaf_count(
                    self.nodes@,
                    r@[t].index as int,
                ) && r@[t].leaf_node_count >= 3,
            forall|t1: int, t2: int| 0 <= t1 < t2 < r@.len() ==> r@[t1].index < r@[t2].index,
            forall|i: int|
                0 <= i < ic_of(self.nodes@) && subtree_leaf_count(self.nodes@, i) >= 3
                    ==> exists|t: int| 0 <= t < r@.len() && (#[trigger] r@[t]).index as int == i,
    {
        let k = (self.nodes.len() - 1) / 2;
        let mut r: Vec<Subtree> = Vec::new();
        let mut i: usize = 0;
        while i < k
            invariant
                i <= k,
                self.wf(),
                k == ic_of(self.nodes@),
                forall|t: int|
                    0 <= t < r@.len() ==> ((#[trigger] r@[t]).index as int) < i
                        && r@[t].leaf_node_count as int == subtree_leaf_count(
                        self.nodes@,
                        r@[t].index as int,
                    ) && r@[t].leaf_node_count >= 3,
                forall|t1: int, t2: int| 0 <= t1 < t2 < r@.len() ==> r@[t1].index < r@[t2].index,
                forall|j: int|
                    0 <= j < i && subtree_leaf_count(self.nodes@, j) >= 3 ==> exists|t: int|
                        0 <= t < r@.len() && (#[trigger] r@[t]).index as int == j,
            decreases k - i,
        {
            let c = self.count_subtree_leaves(i);
            if c >= 3 {
                let ghost pre = r@;
                r.push(Subtree { index: i, leaf_node_count: c });
                proof {
                    assert forall|j: int|
                        0 <= j < i + 1 && subtree_leaf_count(self.nodes@, j) >= 3 implies exists|
                        t: int,
                    |
                        0 <= t < r@.len() && (#[trigger] r@[t]).index as int == j by {
                        if j < i {
                            let t = choose|t: int|
                                0 <= t < pre.len() && (#[trigger] pre[t]).index as int == j;
                            assert(r@[t].index as int == j);
                        } else {
                            assert(r@[r@.len() - 1].index as int == j);
                        }
                    }
                }
            }
            i = i + 1;
        }
        r
    }

    /// All pairs of one eligible subtree from each layout with equal leaf
    /// counts: every such pair appears, enumerated with this layout's
    /// subtrees outermost, in creation order on both sides.
    #[verifier::rlimit(100)]
    pub fn subtree_pairs(&self, other: &Layout) -> (r: Vec<(Subtree, Subtree)>)
        requires
            self.wf(),
            other.wf(),
        ensures
            forall|t: int|
                0 <= t < r@.len() ==> ((#[trigger] r@[t]).0.index as int) < ic_of(self.nodes@) && (
                r@[t].1.index as int) < ic_of(other.nodes@) && r@[t].0.leaf_node_count
                    == r@[t].1.leaf_node_count && r@[t].0.leaf_node_count >= 3
                    && r@[t].0.leaf_node_count as int == subtree_leaf_count(
                    self.nodes@,
                    r@[t].0.index as int,
                ) && r@[t].1.leaf_node_count as int == subtree_leaf_count(
                    other.nodes@,
                    r@[t].1.index as int,
                ),
            forall|t1: int, t2: int|
                0 <= t1 < t2 < r@.len() ==> ((#[trigger] r@[t1]).0.index < (
                #[trigger] r@[t2]).0.index || (r@[t1].0.index == r@[t2].0.index
                    && r@[t1].1.index < r@[t2].1.index)),
            forall|a: int, b: int|
                0 <= a < ic_of(self.nodes@) && 0 <= b < ic_of(other.nodes@)
                    && #[trigger] subtree_leaf_count(self.nodes@, a) >= 3
                    && #[trigger] subtree_leaf_count(other.nodes@, b) >= 3 && subtree_leaf_count(
                    self.nodes@,
                    a,
                ) == subtree_leaf_count(other.nodes@, b) ==> exists|t: int|
                    0 <= t < r@.len() && (#[trigger] r@[t]).0.index as int == a
                        && r@[t].1.index as int == b,
    {
        let mine = self.subtrees();
        let theirs = other.subtrees();
        let mut r: Vec<(Subtree, Subtree)> = Vec::new();
        let mut i: usize = 0;
        while i < mine.len()
            invariant
                i <= mine@.len(),
                self.wf(),
                other.wf(),
                forall|t: int|
                    0 <= t < mine@.len() ==> ((#[trigger] mine@[t]).index as int) < ic_of(
                        self.nodes@,
                    ) && mine@[t].leaf_node_count as int == subtree_leaf_count(
                        self.nodes@,
                        mine@[t].index as int,
                    ) && mine@[t].leaf_node_count >= 3,
                forall|t1: int, t2: int|
                    0 <= t1 < t2 < mine@.len() ==> mine@[t1].index < mine@[t2].index,
                forall|a: int|
                    0 <= a < ic_of(self.nodes@) && subtree_leaf_count(self.nodes@, a) >= 3
                        ==> exists|t: int|
                        0 <= t < mine@.len() && (#[trigger] mine@[t]).index as int == a,
                forall|t: int|
                    0 <= t < theirs@.len() ==> ((#[trigger] theirs@[t]).index as int) < ic_of(
                        other.nodes@,
                    ) && theirs@[t].leaf_node_count as int == subtree_leaf_count(
                        other.nodes@,
                        theirs@[t].index as int,
                    ) && theirs@[t].leaf_node_count >= 3,
                forall|t1: int, t2: int|
                    0 <= t1 < t2 < theirs@.len() ==> theirs@[t1].index < theirs@[t2].index,
                forall|b: int|
                    0 <= b < ic_of(other.nodes@) && subtree_leaf_count(other.nodes@, b) >= 3
                        ==> exists|t: int|
                        0 <= t < theirs@.len() && (#[trigger] theirs@[t]).index as int == b,
                forall|t: int|
                    0 <= t < r@.len() ==> ((#[trigger] r@[t]).0.index as int) < ic_of(self.nodes@)
                        && (r@[t].1.index as int) < ic_of(other.nodes@) && r@[t].0.leaf_node_count
                        == r@[t].1.leaf_node_count && r@[t].0.leaf_node_count >= 3
                        && r@[t].0.leaf_node_count as int == subtree_leaf_count(
                        self.nodes@,
                        r@[t].0.index as int,
                    ) && r@[t].1.leaf_node_count as int == subtree_leaf_count(
                        other.nodes@,
                        r@[t].1.index as int,
                    ),
                forall|t1: int, t2: int|
                    0 <= t1 < t2 < r@.len() ==> ((#[trigger] r@[t1]).0.index < (
                    #[trigger] r@[t2]).0.index || (r@[t1].0.index == r@[t2].0.index
                        && r@[t1].1.index < r@[t2].1.index)),
                forall|t: int|
                    0 <= t < r@.len() && i < mine@.len() ==> (#[trigger] r@[t]).0.index
                        < mine@[i as int].index,
                forall|t0: int, t1: int|
                    0 <= t0 < i && 0 <= t1 < theirs@.len() && (#[trigger] mine@[t0]).leaf_node_count
                        == (#[trigger] theirs@[t1]).leaf_node_count ==> exists|t: int|
                        0 <= t < r@.len() && (#[trigger] r@[t]).0 == mine@[t0] && r@[t].1
                            == theirs@[t1],
            decreases mine@.len() - i,
        {
            let a = mine[i];
            let mut j: usize = 0;
            while j < theirs.len()
                invariant
                    j <= theirs@.len(),
                    i < mine@.len(),
                    self.wf(),
                    other.wf(),
                    a == mine@[i as int],
                    forall|t: int|
                        0 <= t < mine@.len() ==> ((#[trigger] mine@[t]).index as int) < ic_of(
                            self.nodes@,
                        ) && mine@[t].leaf_node_count as int == subtree_leaf_count(
                            self.nodes@,
                            mine@[t].index as int,
                        ) && mine@[t].leaf_node_count >= 3,
                    forall|t1: int, t2: int|
                        0 <= t1 < t2 < mine@.len() ==> mine@[t1].index < mine@[t2].index,
                    forall|aa: int|
                        0 <= aa < ic_of(self.nodes@) && subtree_leaf_count(self.nodes@, aa) >= 3
                            ==> exists|t: int|
                            0 <= t < mine@.len() && (#[trigger] mine@[t]).index as int == aa,
                    forall|t: int|
                        0 <= t < theirs@.len() ==> ((#[trigger] theirs@[t]).index as int) < ic_of(
                            other.nodes@,
                        ) && theirs@[t].leaf_node_count as int == subtree_leaf_count(
                            other.nodes@,
                            theirs@[t].index as int,
                        ) && theirs@[t].leaf_node_count >= 3,
                    forall|t1: int, t2: int|
                        0 <= t1 < t2 < theirs@.len() ==> theirs@[t1].index < theirs@[t2].index,
                    forall|bb: int|
                        0 <= bb < ic_of(other.nodes@) && subtree_leaf_count(other.nodes@, bb) >= 3
                            ==> exists|t: int|
                            0 <= t < theirs@.len() && (#[trigger] theirs@[t]).index as int == bb,
                    forall|t: int|
                        0 <= t < r@.len() ==> ((#[trigger] r@[t]).0.index as int) < ic_of(
                            self.nodes@,
                        ) && (r@[t].1.index as int) < ic_of(other.nodes@)
                            && r@[t].0.leaf_node_count == r@[t].1.leaf_node_count
                            && r@[t].0.leaf_node_count >= 3 && r@[t].0.leaf_node_count as int
                            == subtree_leaf_count(self.nodes@, r@[t].0.index as int)
                            && r@[t].1.leaf_node_count as int == subtree_leaf_count(
                            other.nodes@,
                            r@[t].1.index as int,
                        ),
                    forall|t1: int, t2: int|
                        0 <= t1 < t2 < r@.len() ==> ((#[trigger] r@[t1]).0.index < (
                        #[trigger] r@[t2]).0.index || (r@[t1].0.index == r@[t2].0.index
                            && r@[t1].1.index < r@[t2].1.index)),
                    forall|t: int|
                        0 <= t < r@.len() ==> ((#[trigger] r@[t]).0.index <= a.index && (r@[t].0.index
                            == a.index ==> j < theirs@.len() ==> r@[t].1.index
                            < theirs@[j as int].index)),
                    forall|t0: int, t1: int|
                        0 <= t0 < i && 0 <= t1 < theirs@.len() && (
                        #[trigger] mine@[t0]).leaf_node_count == (
                    #[trigger] theirs@[t1]).leaf_node_count ==> exists|t: int|
                        0 <= t < r@.len() && (#[trigger] r@[t]).0 == mine@[t0] && r@[t].1
                            == theirs@[t1],
                    forall|t1: int|
                        0 <= t1 < j && a.leaf_node_count == (
                    #[trigger] theirs@[t1]).leaf_node_count ==> exists|t: int|
                        0 <= t < r@.len() && (#[trigger] r@[t]).0 == a && r@[t].1 == theirs@[t1],
                decreases theirs@.len() - j,
            {
                let b = theirs[j];
                let ghost pre = r@;
                if a.leaf_node_count == b.leaf_node_count {
                    r.push((a, b));
                }
                proof {
                    assert forall|t0: int, t1: int|
                        0 <= t0 < i && 0 <= t1 < theirs@.len() && (
                    #[trigger] mine@[t0]).leaf_node_count == (
                    #[trigger] theirs@[t1]).leaf_node_count implies exists|t: int|
                        0 <= t < r@.len() && (#[trigger] r@[t]).0 == mine@[t0] && r@[t].1
                            == theirs@[t1] by {
                        let t = choose|t: int|
                            0 <= t < pre.len() && pre[t].0 == mine@[t0] && pre[t].1 == theirs@[t1];
                        assert(r@[t].0 == mine@[t0] && r@[t].1 == theirs@[t1]);
                    }
                    assert forall|t1: int|
                        0 <= t1 < j + 1 && a.leaf_node_count == (
                    #[trigger] theirs@[t1]).leaf_node_count implies exists|t: int|
                        0 <= t < r@.len() && (#[trigger] r@[t]).0 == a && r@[t].1
                            == theirs@[t1] by {
                        if t1 < j {
                            let t = choose|t: int|
                                0 <= t < pre.len() && pre[t].0 == a && pre[t].1 == theirs@[t1];
                            assert(r@[t].0 == a && r@[t].1 == theirs@[t1]);
                        } else {
                            assert(r@[pre.len() as int].0 == a && r@[pre.len() as int].1
                                == theirs@[j as int]);
                        }
                    }
                }
                j = j + 1;
            }
            proof {
                assert forall|t0: int, t1: int|
                    0 <= t0 < i + 1 && 0 <= t1 < theirs@.len() && (
                #[trigger] mine@[t0]).leaf_node_count == (
                #[trigger] theirs@[t1]).leaf_node_count implies exists|t: int|
                    0 <= t < r@.len() && (#[trigger] r@[t]).0 == mine@[t0] && r@[t].1
                        == theirs@[t1] by {
                    if t0 < i {
                        let t = choose|t: int|
                            0 <= t < r@.len() && r@[t].0 == mine@[t0] && r@[t].1 == theirs@[t1];
                    } else {
                        let t = choose|t: int|
                            0 <= t < r@.len() && r@[t].0 == a && r@[t].1 == theirs@[t1];
                    }
                }
            }
            i = i + 1;
        }
        proof {
            assert forall|a: int, b: int|
                0 <= a < ic_of(self.nodes@) && 0 <= b < ic_of(other.nodes@)
                    && #[trigger] subtree_leaf_count(self.nodes@, a) >= 3
                    && #[trigger] subtree_leaf_count(other.nodes@, b) >= 3 && subtree_leaf_count(
                    self.nodes@,
                    a,
                ) == subtree_leaf_count(other.nodes@, b) implies exists|t: int|
                0 <= t < r@.len() && (#[trigger] r@[t]).0.index as int == a && r@[t].1.index as int
                    == b by {
                let t0 = choose|t0: int|
                    0 <= t0 < mine@.len() && (#[trigger] mine@[t0]).index as int == a;
                let t1 = choose|t1: int|
                    0 <= t1 < theirs@.len() && (#[trigger] theirs@[t1]).index as int == b;
                assert(mine@[t0].leaf_node_count == theirs@[t1].leaf_node_count);
                let t = choose|t: int|
                    0 <= t < r@.len() && (#[trigger] r@[t]).0 == mine@[t0] && r@[t].1
                        == theirs@[t1];
                assert(r@[t].0.index as int == a && r@[t].1.index as int == b);
            }
        }
        r
    }

    /// Swaps the subtrees at the given pair of internal nodes between the
    /// two layouts: each side receives the other's internal skeleton while
    /// keeping its own leaves, canvas, and everything outside the subtree.
    pub fn crossover_subtrees(&mut self, other: &mut Layout, pair: (usize, usize))
        requires
            old(self).wf(),
            old(other).wf(),
            pair.0 < old(self).nodes@.len(),
            is_internal(old(self).nodes@[pair.0 as int]),
            pair.1 < old(other).nodes@.len(),
            is_internal(old(other).nodes@[pair.1 as int]),
            subtree_leaf_count(old(self).nodes@, pair.0 as int) == subtree_leaf_count(
                old(other).nodes@,
                pair.1 as int,
            ),
        ensures
            final(self).wf(),
            final(other).wf(),
            final(self).canvas_dimensions == old(self).canvas_dimensions,
            final(other).canvas_dimensions == old(other).canvas_dimensions,
            final(self).nodes@.len() == old(self).nodes@.len(),
            final(other).nodes@.len() == old(other).nodes@.len(),
            leaf_handles(final(self).nodes@) == leaf_handles(old(self).nodes@),
            leaf_handles(final(other).nodes@) == leaf_handles(old(other).nodes@),
            outside_subtree_unchanged(old(self).nodes@, final(self).nodes@, pair.0),
            outside_subtree_unchanged(old(other).nodes@, final(other).nodes@, pair.1),
            splice_directions_ok(
                old(self).nodes@,
                final(self).nodes@,
                pair.0,
                old(other).nodes@,
                pair.1,
            ),
            splice_directions_ok(
                old(other).nodes@,
                final(other).nodes@,
                pair.1,
                old(self).nodes@,
                pair.0,
            ),
    {
        let snapshot = self.duplicate();
        self.swap_subtree(other, pair.0, pair.1);
        other.swap_subtree(&snapshot, pair.1, pair.0);
    }

    /// Chooses uniformly at random one pair of equally sized eligible
    /// subtrees and swaps them; when no equal-count pair of subtrees with at
    /// least three leaves exists, both layouts are left exactly as they
    /// were. Either way both layouts keep their leaf sequences and canvases.
    pub fn crossover_random_subtrees(&mut self, other: &mut Layout, rng: &mut StdRng)
        requires
            old(self).wf(),
            old(other).wf(),
        ensures
            final(self).wf(),
            final(other).wf(),
            final(self).canvas_dimensions == old(self).canvas_dimensions,
            final(other).canvas_dimensions == old(other).canvas_dimensions,
            final(self).nodes@.len() == old(self).nodes@.len(),
            final(other).nodes@.len() == old(other).nodes@.len(),
            leaf_handles(final(self).nodes@) == leaf_handles(old(self).nodes@),
            leaf_handles(final(other).nodes@) == leaf_handles(old(other).nodes@),
            (forall|a: int, b: int|
                !(0 <= a < ic_of(old(self).nodes@) && 0 <= b < ic_of(old(other).nodes@)
                    && #[trigger] subtree_leaf_count(old(self).nodes@, a) >= 3
                    && #[trigger] subtree_leaf_count(old(other).nodes@, b) >= 3
                    && subtree_leaf_count(old(self).nodes@, a) == subtree_leaf_count(
                    old(other).nodes@,
                    b,
                ))) ==> final(self).nodes@ == old(self).nodes@ && final(other).nodes@ == old(
                other,
            ).nodes@,
            exists|a: usize, b: usize|
                #![auto]
                ((a as int) < ic_of(old(self).nodes@) && (b as int) < ic_of(old(other).nodes@)
                    && outside_subtree_unchanged(old(self).nodes@, final(self).nodes@, a)
                    && outside_subtree_unchanged(old(other).nodes@, final(other).nodes@, b)),
            (exists|a: int, b: int|
                #![auto]
                eligible_pair(old(self).nodes@, old(other).nodes@, a, b)) ==> (exists|
                a: usize,
                b: usize,
            |
                #![auto]
                (eligible_pair(old(self).nodes@, old(other).nodes@, a as int, b as int)
                    && swapped_subtrees(
                    old(self).nodes@,
                    final(self).nodes@,
                    old(other).nodes@,
                    final(other).nodes@,
                    a,
                    b,
                ))),
    {
        let pairs = self.subtree_pairs(other);
        if pairs.len() == 0 {
            proof {
                assert(ic_of(self.nodes@) >= 1 && ic_of(other.nodes@) >= 1);
                assert(outside_subtree_unchanged(self.nodes@, self.nodes@, 0)
                    && outside_subtree_unchanged(other.nodes@, other.nodes@, 0));
                if exists|a: int, b: int|
                    #![auto]
                    eligible_pair(self.nodes@, other.nodes@, a, b) {
                    let (a, b) = choose|a: int, b: int|
                        #![auto]
                        eligible_pair(self.nodes@, other.nodes@, a, b);
                    assert(subtree_leaf_count(self.nodes@, a) >= 3);
                    assert(subtree_leaf_count(other.nodes@, b) >= 3);
                    let t = choose|t: int|
                        0 <= t < pairs@.len() && (#[trigger] pairs@[t]).0.index as int == a
                            && pairs@[t].1.index as int == b;
                    assert(false);
                }
            }
            return ;
        }
        proof {
            assert((pairs@[0].0.index as int) < ic_of(self.nodes@));
            assert((pairs@[0].1.index as int) < ic_of(other.nodes@));
            assert(subtree_leaf_count(self.nodes@, pairs@[0].0.index as int) >= 3);
            assert(subtree_leaf_count(other.nodes@, pairs@[0].1.index as int) >= 3);
            assert(subtree_leaf_count(self.nodes@, pairs@[0].0.index as int)
                == subtree_leaf_count(other.nodes@, pairs@[0].1.index as int));
        }
        let pick = pairs[crate::rng::rand_usize(rng, 0, pairs.len() - 1)];
        proof {
            assert(is_internal(self.nodes@[pick.0.index as int]));
            assert(is_internal(other.nodes@[pick.1.index as int]));
        }
        self.crossover_subtrees(other, (pick.0.index, pick.1.index));
        proof {
            assert(outside_subtree_unchanged(
                old(self).nodes@,
                self.nodes@,
                pick.0.index,
            ) && outside_subtree_unchanged(old(other).nodes@, other.nodes@, pick.1.index));
            assert(eligible_pair(
                old(self).nodes@,
                old(other).nodes@,
                pick.0.index as int,
                pick.1.index as int,
            ));
            assert(swapped_subtrees(
                old(self).nodes@,
                self.nodes@,
                old(other).nodes@,
                other.nodes@,
                pick.0.index,
                pick.1.index,
            ));
        }
    }
}

/// The total weight of a list grows by one element's weight.
pub(crate) proof fn lemma_seq_weight_push(x: Seq<usize>, e: usize, f: spec_fn(usize) -> int)
    ensures
        crate::tree::seq_weight(x.push(e), f) == crate::tree::seq_weight(x, f) + f(e),
    decreases x.len(),
{
    if x.len() == 0 {
        assert(x.push(e).drop_first() =~= Seq::<usize>::empty());
        assert(crate::tree::seq_weight(Seq::<usize>::empty(), f) == 0);
    } else {
        assert(x.push(e).drop_first() =~= x.drop_first().push(e));
        lemma_seq_weight_push(x.drop_first(), e, f);
    }
}

} // verus!

verus! {

/// Filtering a one-element sequence keeps or drops that element.
pub proof fn lemma_filter_singleton<A>(e: A, pred: spec_fn(A) -> bool)
    ensures
        seq![e].filter(pred) == (if pred(e) {
            seq![e]
        } else {
            Seq::<A>::empty()
        }),
{
    reveal(Seq::filter);
    assert(seq![e].drop_last() =~= Seq::<A>::empty());
    assert(Seq::<A>::empty().filter(pred) =~= Seq::<A>::empty());
    if pred(e) {
        assert(seq![e].filter(pred) =~= seq![e]);
    } else {
        assert(seq![e].filter(pred) =~= Seq::<A>::empty());
    }
}

/// Selects the indices at or above a bound (the leaf region).
pub open spec fn at_least(k: usize) -> spec_fn(usize) -> bool {
    |v: usize| v >= k
}

/// Selects the indices below a bound (the internal region).
pub open spec fn below(k: usize) -> spec_fn(usize) -> bool {
    |v: usize| v < k
}

/// The indicator weight of the leaf region.
pub open spec fn ge_weight(k: usize) -> spec_fn(usize) -> int {
    |v: usize|
        if v >= k {
            1int
        } else {
            0int
        }
}

/// The indicator weight of the internal region.
pub open spec fn lt_weight(k: usize) -> spec_fn(usize) -> int {
    |v: usize|
        if v < k {
            1int
        } else {
            0int
        }
}

/// Weights that agree on a sequence's elements total the same.
pub proof fn lemma_seq_weight_congruent(
    x: Seq<usize>,
    f: spec_fn(usize) -> int,
    g: spec_fn(usize) -> int,
)
    requires
        forall|t: int| 0 <= t < x.len() ==> f(#[trigger] x[t]) == g(x[t]),
    ensures
        crate::tree::seq_weight(x, f) == crate::tree::seq_weight(x, g),
    decreases x.len(),
{
    if x.len() > 0 {
        assert(f(x[0]) == g(x[0]));
        assert forall|t: int|
            0 <= t < x.drop_first().len() implies f(#[trigger] x.drop_first()[t]) == g(
            x.drop_first()[t],
        ) by {
            assert(x.drop_first()[t] == x[t + 1]);
        }
        lemma_seq_weight_congruent(x.drop_first(), f, g);
    }
}

/// A weight that is nonnegative on a sequence's elements totals at least
/// zero.
proof fn lemma_seq_weight_nonneg(x: Seq<usize>, f: spec_fn(usize) -> int)
    requires
        forall|t: int| 0 <= t < x.len() ==> f(#[trigger] x[t]) >= 0,
    ensures
        crate::tree::seq_weight(x, f) >= 0,
    decreases x.len(),
{
    if x.len() > 0 {
        assert forall|t: int| 0 <= t < x.drop_first().len() implies f(
            #[trigger] x.drop_first()[t],
        ) >= 0 by {
            assert(x.drop_first()[t] == x[t + 1]);
        }
        lemma_seq_weight_nonneg(x.drop_first(), f);
        assert(f(x[0]) >= 0);
    }
}

/// A weight that is two on every element totals twice the length.
proof fn lemma_seq_weight_two(x: Seq<usize>, f: spec_fn(usize) -> int)
    requires
        forall|t: int| 0 <= t < x.len() ==> f(#[trigger] x[t]) == 2,
    ensures
        crate::tree::seq_weight(x, f) == 2 * x.len(),
    decreases x.len(),
{
    if x.len() > 0 {
        assert forall|t: int| 0 <= t < x.drop_first().len() implies f(
            #[trigger] x.drop_first()[t],
        ) == 2 by {
            assert(x.drop_first()[t] == x[t + 1]);
        }
        lemma_seq_weight_two(x.drop_first(), f);
        assert(f(x[0]) == 2);
    }
}

/// Changing the weight of one value that occurs once in a duplicate-free
/// sequence shifts the total by exactly that value's change.
proof fn lemma_seq_weight_delta(
    x: Seq<usize>,
    f: spec_fn(usize) -> int,
    g: spec_fn(usize) -> int,
    a: usize,
)
    requires
        x.no_duplicates(),
        x.contains(a),
        forall|t: int| 0 <= t < x.len() && x[t] != a ==> f(#[trigger] x[t]) == g(x[t]),
    ensures
        crate::tree::seq_weight(x, g) == crate::tree::seq_weight(x, f) + g(a) - f(a),
    decreases x.len(),
{
    let r = x.drop_first();
    assert(r.no_duplicates());
    if x[0] == a {
        assert forall|t: int| 0 <= t < r.len() implies f(#[trigger] r[t]) == g(r[t]) by {
            assert(r[t] == x[t + 1]);
            assert(x[t + 1] != a);
        }
        lemma_seq_weight_congruent(r, f, g);
    } else {
        let i = choose|i: int| 0 <= i < x.len() && x[i] == a;
        assert(r[i - 1] == a);
        assert(r.contains(a));
        assert forall|t: int| 0 <= t < r.len() && r[t] != a implies f(#[trigger] r[t]) == g(
            r[t],
        ) by {
            assert(r[t] == x[t + 1]);
        }
        lemma_seq_weight_delta(r, f, g, a);
        assert(f(x[0]) == g(x[0]));
    }
}

/// Extending a prefix by one element adds that element's weight.
proof fn lemma_seq_weight_take_step(x: Seq<usize>, t: int, f: spec_fn(usize) -> int)
    requires
        0 <= t < x.len(),
    ensures
        crate::tree::seq_weight(x.take(t + 1), f) == crate::tree::seq_weight(x.take(t), f) + f(
            x[t],
        ),
{
    assert(x.take(t + 1) =~= x.take(t).push(x[t]));
    lemma_seq_weight_push(x.take(t), x[t], f);
}

/// The open child pointers of a node, counted.
spec fn open_weight(s: Seq<Node>) -> spec_fn(usize) -> int {
    |v: usize|
        (if s[v as int].left is None {
            1int
        } else {
            0int
        }) + (if s[v as int].right is None {
            1int
        } else {
            0int
        })
}

/// Filtering keeps the order: two selected elements appear in the filter in
/// the order they held in the source.
pub proof fn lemma_filter_order(x: Seq<usize>, pred: spec_fn(usize) -> bool, w: int, v: int)
    requires
        0 <= w < v < x.len(),
        pred(x[w]),
        pred(x[v]),
    ensures
        exists|j1: int, j2: int|
            0 <= j1 < j2 < x.filter(pred).len() && x.filter(pred)[j1] == x[w] && x.filter(pred)[j2]
                == x[v],
{
    broadcast use vstd::seq_lib::group_filter_ensures;

    let tv = x.take(v);
    let tw = x.take(w);
    let mid = x.subrange(w + 1, v);
    let tail = x.subrange(v + 1, x.len() as int);
    assert(x =~= tv + seq![x[v]] + tail);
    assert(tv =~= tw + seq![x[w]] + mid);
    lemma_filter_singleton(x[w], pred);
    lemma_filter_singleton(x[v], pred);
    assert(x.filter(pred) == (tv + seq![x[v]]).filter(pred) + tail.filter(pred));
    assert(x.filter(pred) == tv.filter(pred) + seq![x[v]] + tail.filter(pred));
    assert(tv.filter(pred) == (tw + seq![x[w]]).filter(pred) + mid.filter(pred));
    assert(tv.filter(pred) == tw.filter(pred) + seq![x[w]] + mid.filter(pred));
    let j1 = tw.filter(pred).len() as int;
    let j2 = tv.filter(pred).len() as int;
    assert(tv.filter(pred)[j1] == x[w]);
    assert(x.filter(pred)[j1] == x[w]);
    assert(x.filter(pred)[j2] == x[v]);
    assert(j1 < j2);
}

/// Filtering keeps a duplicate-free sequence duplicate-free.
pub proof fn lemma_filter_no_dup(x: Seq<usize>, pred: spec_fn(usize) -> bool)
    requires
        x.no_duplicates(),
    ensures
        x.filter(pred).no_duplicates(),
    decreases x.len(),
{
    reveal(Seq::filter);
    if x.len() > 0 {
        let d = x.drop_last();
        assert(d.no_duplicates());
        lemma_filter_no_dup(d, pred);
        if pred(x.last()) {
            let fd = d.filter(pred);
            if fd.contains(x.last()) {
                d.lemma_filter_contains_rev(pred, x.last());
                let j = choose|j: int| 0 <= j < d.len() && d[j] == x.last();
                assert(x[j] == x[x.len() - 1]);
                assert(false);
            }
            let out = fd.push(x.last());
            assert(x.filter(pred) == out);
            assert forall|t1: int, t2: int| 0 <= t1 < t2 < out.len() implies out[t1] != out[t2] by {
                if t2 == out.len() - 1 {
                    assert(out[t1] == fd[t1]);
                    assert(fd.contains(fd[t1]));
                }
            }
        }
    }
}

/// A filter's length is the total of the predicate's indicator weight.
pub proof fn lemma_filter_len_is_weight(x: Seq<usize>, pred: spec_fn(usize) -> bool, f: spec_fn(usize) -> int)
    requires
        forall|v: usize| #[trigger] f(v) == (if pred(v) { 1int } else { 0int }),
    ensures
        x.filter(pred).len() == crate::tree::seq_weight(x, f),
    decreases x.len(),
{
    reveal(Seq::filter);
    if x.len() == 0 {
        assert(crate::tree::seq_weight(x, f) == 0);
    } else {
        lemma_filter_len_is_weight(x.drop_last(), pred, f);
        // seq_weight over drop_last vs drop_first recursions: relate by a push
        assert(x =~= x.drop_last().push(x.last()));
        crate::crossover::lemma_seq_weight_push(x.drop_last(), x.last(), f);
        assert(f(x.last()) == (if pred(x.last()) { 1int } else { 0int }));
    }
}

/// A filtered sequence keeps no duplicates and only its source's elements.
pub proof fn lemma_filter_sub_no_dup<A>(x: Seq<A>, pred: spec_fn(A) -> bool)
    requires
        x.no_duplicates(),
    ensures
        x.filter(pred).no_duplicates(),
        forall|e: A| #[trigger] x.filter(pred).contains(e) ==> x.contains(e),
    decreases x.len(),
{
    reveal(Seq::filter);
    if x.len() > 0 {
        let sub = x.drop_last();
        assert(sub.no_duplicates());
        lemma_filter_sub_no_dup(sub, pred);
        assert forall|e: A| #[trigger] x.filter(pred).contains(e) implies x.contains(e) by {
            if pred(x.last()) && e == x.last() {
                assert(x[x.len() - 1] == e);
            } else {
                assert(sub.filter(pred).contains(e)) by {
                    let i = choose|i: int|
                        0 <= i < x.filter(pred).len() && x.filter(pred)[i] == e;
                    if pred(x.last()) {
                        assert(x.filter(pred) == sub.filter(pred).push(x.last()));
                        assert(i < sub.filter(pred).len());
                        assert(sub.filter(pred)[i] == e);
                    }
                }
                assert(sub.contains(e));
                let i = choose|i: int| 0 <= i < sub.len() && sub[i] == e;
                assert(x[i] == e);
            }
        }
        if pred(x.last()) {
            if sub.filter(pred).contains(x.last()) {
                assert(sub.contains(x.last()));
                let i = choose|i: int| 0 <= i < sub.len() && sub[i] == x.last();
                assert(x[i] == x[x.len() - 1]);
                assert(false);
            }
            let out = x.filter(pred);
            assert(out == sub.filter(pred).push(x.last()));
            assert forall|i: int, j: int| 0 <= i < j < out.len() implies out[i] != out[j] by {
                if j < out.len() - 1 {
                    assert(out[i] == sub.filter(pred)[i] && out[j] == sub.filter(pred)[j]);
                } else {
                    assert(out[j] == x.last());
                    assert(out[i] == sub.filter(pred)[i]);
                    if out[i] == x.last() {
                        assert(sub.filter(pred).contains(x.last()));
                    }
                }
            }
        }
    }
}

} // verus!
