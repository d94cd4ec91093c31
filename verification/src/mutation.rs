//! The four mutation operators: the label swap with its leaf-swap
//! fallback, the two canvas stretches, and the equal-factor scaling.

use vstd::prelude::*;

use rand::rngs::StdRng;

use crate::construct::lemma_swap_multiset_handles;
use crate::rng::{rand_i64, rand_usize};
use crate::tree::{
    dir_of, ic_of, is_internal, leaf_handle, leaf_handles, wf_arena, wf_internal_at, wf_leaf_at,
    wf_parent_at, Layout, Node, NodeLabel,
};

verus! {

/// The parent and child pointers of every node are the same in both arenas:
/// a mutation edits labels and the canvas, never the tree structure.
pub open spec fn structure_unchanged(s1: Seq<Node>, s2: Seq<Node>) -> bool {
    &&& s1.len() == s2.len()
    &&& forall|i: int|
        0 <= i < s1.len() ==> (#[trigger] s2[i]).parent == s1[i].parent && s2[i].left == s1[i].left
            && s2[i].right == s1[i].right
}

/// The second arena is the first with the labels of two same-kind nodes
/// exchanged.
pub open spec fn label_swap(s1: Seq<Node>, s2: Seq<Node>, a: int, b: int) -> bool {
    &&& 0 <= a < s1.len()
    &&& 0 <= b < s1.len()
    &&& a != b
    &&& (is_internal(s1[a]) <==> is_internal(s1[b]))
    &&& s2[a].label == s1[b].label
    &&& s2[b].label == s1[a].label
    &&& forall|i: int| 0 <= i < s1.len() && i != a && i != b ==> (#[trigger] s2[i]).label == s1[i].label
}

/// All internal nodes carry the same slice direction.
pub open spec fn all_same_direction(s: Seq<Node>) -> bool {
    forall|i: int, j: int|
        0 <= i < ic_of(s) && 0 <= j < ic_of(s) ==> dir_of(#[trigger] s[i]) == dir_of(
            #[trigger] s[j],
        )
}

/// No two leaves reference the same image.
pub open spec fn distinct_leaves(s: Seq<Node>) -> bool {
    forall|i: int, j: int|
        ic_of(s) <= i < j < s.len() ==> leaf_handle(#[trigger] s[i]) != leaf_handle(
            #[trigger] s[j],
        )
}

impl Layout {
    /// Exchanges the labels of the two given same-kind nodes.
    fn swap_labels(&mut self, a: usize, b: usize)
        requires
            old(self).wf(),
            a < old(self).nodes@.len(),
            b < old(self).nodes@.len(),
            a != b,
            is_internal(old(self).nodes@[a as int]) <==> is_internal(old(self).nodes@[b as int]),
        ensures
            final(self).wf(),
            final(self).canvas_dimensions == old(self).canvas_dimensions,
            structure_unchanged(old(self).nodes@, final(self).nodes@),
            label_swap(old(self).nodes@, final(self).nodes@, a as int, b as int),
            leaf_handles(final(self).nodes@).to_multiset() == leaf_handles(
                old(self).nodes@,
            ).to_multiset(),
    {
        let ghost pre = self.nodes@;
        let la = self.nodes[a].label;
        let lb = self.nodes[b].label;
        let mut na = self.nodes[a];
        na.label = lb;
        self.nodes.set(a, na);
        let mut nb = self.nodes[b];
        nb.label = la;
        self.nodes.set(b, nb);
        proof {
            let s2 = self.nodes@;
            let k = ic_of(pre);
            assert forall|i: int| 0 <= i < s2.len() implies (is_internal(s2[i]) <==> i < ic_of(
                s2,
            )) by {
                if i != a && i != b {
                    assert(s2[i].label == pre[i].label);
                }
            }
            assert forall|i: int| 0 <= i < k implies wf_internal_at(s2, i) by {
                assert(wf_internal_at(pre, i));
            }
            assert forall|i: int| k <= i < s2.len() implies wf_leaf_at(s2, i) by {
                assert(wf_leaf_at(pre, i));
                if i == a as int {
                    assert(wf_leaf_at(pre, b as int));
                } else if i == b as int {
                    assert(wf_leaf_at(pre, a as int));
                }
            }
            assert forall|i: int| 1 <= i < s2.len() implies wf_parent_at(s2, i) by {
                assert(wf_parent_at(pre, i));
            }
            assert(wf_arena(s2));
            if is_internal(pre[a as int]) {
                assert(leaf_handles(s2) =~= leaf_handles(pre));
            } else {
                assert(leaf_handles(s2) =~= leaf_handles(pre).update(
                    a - k,
                    leaf_handle(pre[b as int]),
                ).update(b - k, leaf_handle(pre[a as int])));
                lemma_swap_multiset_handles(leaf_handles(pre), leaf_handles(s2), a - k, b - k);
            }
        }
    }

    /// Exchanges the image of the given leaf with that of another leaf,
    /// chosen uniformly among the remaining ones.
    fn swap_leaf_with_other(&mut self, rng: &mut StdRng, index: usize)
        requires
            old(self).wf(),
            index < old(self).nodes@.len(),
            !is_internal(old(self).nodes@[index as int]),
        ensures
            final(self).wf(),
            final(self).canvas_dimensions == old(self).canvas_dimensions,
            structure_unchanged(old(self).nodes@, final(self).nodes@),
            leaf_handles(final(self).nodes@).to_multiset() == leaf_handles(
                old(self).nodes@,
            ).to_multiset(),
            exists|b: int|
                #![auto]
                label_swap(old(self).nodes@, final(self).nodes@, index as int, b) && !is_internal(
                    old(self).nodes@[b],
                ),
            distinct_leaves(old(self).nodes@) ==> leaf_handles(final(self).nodes@)
                != leaf_handles(old(self).nodes@),
    {
        let len = self.nodes.len();
        let k = (len - 1) / 2;
        proof {
            assert(ic_of(self.nodes@) == k as int);
            assert(k as int <= index as int);
            assert(len - k >= 2);
        }
        let r = rand_usize(rng, k, len - 2);
        let other = if r >= index {
            r + 1
        } else {
            r
        };
        let ghost pre = self.nodes@;
        self.swap_labels(index, other);
        proof {
            assert(label_swap(pre, self.nodes@, index as int, other as int));
            if distinct_leaves(pre) {
                let ka = ic_of(pre);
                let ta = index as int - ka;
                assert(leaf_handle(pre[index as int]) != leaf_handle(pre[other as int]));
                assert(leaf_handles(self.nodes@)[ta] != leaf_handles(pre)[ta]);
            }
        }
    }

    /// Picks a node uniformly at random and exchanges its label with a
    /// differently labelled node of the same kind; if the picked node is
    /// internal and every internal node has the same direction, falls back
    /// to swapping two leaves so that the mutation always changes the tree.
    pub fn swap_with_random_node(&mut self, rng: &mut StdRng, index: usize)
        requires
            old(self).wf(),
            index < old(self).nodes@.len(),
        ensures
            final(self).wf(),
            final(self).canvas_dimensions == old(self).canvas_dimensions,
            structure_unchanged(old(self).nodes@, final(self).nodes@),
            leaf_handles(final(self).nodes@).to_multiset() == leaf_handles(
                old(self).nodes@,
            ).to_multiset(),
            exists|a: int, b: int|
                #![auto]
                label_swap(old(self).nodes@, final(self).nodes@, a, b) && (!is_internal(
                    old(self).nodes@[a],
                ) || dir_of(old(self).nodes@[a]) != dir_of(old(self).nodes@[b])),
            is_internal(old(self).nodes@[index as int]) && !all_same_direction(old(self).nodes@)
                ==> exists|b: int|
                #![auto]
                label_swap(old(self).nodes@, final(self).nodes@, index as int, b) && is_internal(
                    old(self).nodes@[b],
                ) && dir_of(old(self).nodes@[b]) != dir_of(old(self).nodes@[index as int]),
            !is_internal(old(self).nodes@[index as int]) ==> exists|b: int|
                #![auto]
                label_swap(old(self).nodes@, final(self).nodes@, index as int, b) && !is_internal(
                    old(self).nodes@[b],
                ),
            (!is_internal(old(self).nodes@[index as int]) || all_same_direction(
                old(self).nodes@,
            )) && distinct_leaves(old(self).nodes@) ==> leaf_handles(final(self).nodes@)
                != leaf_handles(old(self).nodes@),
    {
        let label = self.nodes[index].label;
        match label {
            NodeLabel::Internal(d) => {
                let k = (self.nodes.len() - 1) / 2;
                let mut cands: Vec<usize> = Vec::new();
                let mut i: usize = 0;
                while i < k
                    invariant
                        i <= k,
                        k == ic_of(self.nodes@),
                        self.wf(),
                        self == old(self),
                        forall|t: int|
                            0 <= t < cands@.len() ==> (#[trigger] cands@[t]) < k && dir_of(
                                self.nodes@[cands@[t] as int],
                            ) != d,
                        cands@.len() == 0 ==> forall|t: int|
                            0 <= t < i ==> dir_of(#[trigger] self.nodes@[t]) == d,
                    decreases k - i,
                {
                    let di = match self.nodes[i].label {
                        NodeLabel::Internal(di) => di,
                        NodeLabel::Leaf(_) => {
                            proof {
                                assert(false);
                            }
                            d
                        },
                    };
                    if di != d {
                        cands.push(i);
                    }
                    i = i + 1;
                }
                if cands.len() == 0 {
                    // Every internal node shares this direction: fall back to
                    // a leaf swap.
                    proof {
                        assert(all_same_direction(self.nodes@));
                    }
                    let len = self.nodes.len();
                    let leaf = rand_usize(rng, k, len - 1);
                    self.swap_leaf_with_other(rng, leaf);
                } else {
                    let other = cands[rand_usize(rng, 0, cands.len() - 1)];
                    let ghost pre = self.nodes@;
                    proof {
                        assert(is_internal(self.nodes@[other as int]));
                        assert(dir_of(self.nodes@[index as int]) == d);
                    }
                    self.swap_labels(index, other);
                    proof {
                        assert(label_swap(pre, self.nodes@, index as int, other as int));
                        assert(dir_of(pre[other as int]) != dir_of(pre[index as int]));
                    }
                }
            },
            NodeLabel::Leaf(_) => {
                self.swap_leaf_with_other(rng, index);
            },
        }
    }

    /// Picks any node uniformly at random and swaps its label as
    /// swap_with_random_node describes. When every internal node shares one
    /// direction and the leaves are pairwise distinct, the leaf order is
    /// guaranteed to change.
    pub fn swap_random_node_pair(&mut self, rng: &mut StdRng)
        requires
            old(self).wf(),
        ensures
            final(self).wf(),
            final(self).canvas_dimensions == old(self).canvas_dimensions,
            structure_unchanged(old(self).nodes@, final(self).nodes@),
            leaf_handles(final(self).nodes@).to_multiset() == leaf_handles(
                old(self).nodes@,
            ).to_multiset(),
            exists|a: int, b: int|
                #![auto]
                label_swap(old(self).nodes@, final(self).nodes@, a, b) && (!is_internal(
                    old(self).nodes@[a],
                ) || dir_of(old(self).nodes@[a]) != dir_of(old(self).nodes@[b])),
            all_same_direction(old(self).nodes@) && distinct_leaves(old(self).nodes@)
                ==> leaf_handles(final(self).nodes@) != leaf_handles(old(self).nodes@),
    {
        let len = self.nodes.len();
        let index = rand_usize(rng, 0, len - 1);
        self.swap_with_random_node(rng, index);
    }

    /// Draws a delta uniformly from [-(w-1), 2h] and adds it to the canvas
    /// width, clamping the result to the u32 range; the height and the tree
    /// are untouched.
    pub fn randomize_width(&mut self, rng: &mut StdRng)
        requires
            old(self).wf(),
            old(self).canvas_dimensions.width >= 1 || old(self).canvas_dimensions.height >= 1,
        ensures
            final(self).wf(),
            final(self).nodes@ == old(self).nodes@,
            final(self).canvas_dimensions.height == old(self).canvas_dimensions.height,
            1 <= final(self).canvas_dimensions.width,
            final(self).canvas_dimensions.width as int <= old(self).canvas_dimensions.width as int
                + 2 * old(self).canvas_dimensions.height as int,
    {
        let w = self.canvas_dimensions.width as i64;
        let h = self.canvas_dimensions.height as i64;
        let delta = rand_i64(rng, 1 - w, 2 * h);
        let nw = w + delta;
        self.canvas_dimensions.width = if nw > u32::MAX as i64 {
            u32::MAX
        } else {
            nw as u32
        };
    }

    /// Draws a delta uniformly from [-(h-1), 2w] and adds it to the canvas
    /// height, clamping the result to the u32 range; the width and the tree
    /// are untouched.
    pub fn randomize_height(&mut self, rng: &mut StdRng)
        requires
            old(self).wf(),
            old(self).canvas_dimensions.width >= 1 || old(self).canvas_dimensions.height >= 1,
        ensures
            final(self).wf(),
            final(self).nodes@ == old(self).nodes@,
            final(self).canvas_dimensions.width == old(self).canvas_dimensions.width,
            1 <= final(self).canvas_dimensions.height,
            final(self).canvas_dimensions.height as int <= old(
                self,
            ).canvas_dimensions.height as int + 2 * old(self).canvas_dimensions.width as int,
    {
        let w = self.canvas_dimensions.width as i64;
        let h = self.canvas_dimensions.height as i64;
        let delta = rand_i64(rng, 1 - h, 2 * w);
        let nh = h + delta;
        self.canvas_dimensions.height = if nh > u32::MAX as i64 {
            u32::MAX
        } else {
            nh as u32
        };
    }

    /// Scales both canvas dimensions by one factor drawn uniformly from
    /// [0.5, 1.5] in steps of a thousandth, clamping to the u32 range; the
    /// tree is untouched.
    pub fn randomize_dimensions_by_equal_factor(&mut self, rng: &mut StdRng)
        requires
            old(self).wf(),
        ensures
            final(self).wf(),
            final(self).nodes@ == old(self).nodes@,
            exists|q: int|
                #![auto]
                500 <= q <= 1500 && final(self).canvas_dimensions.width as int == scaled_dim(
                    old(self).canvas_dimensions.width as int,
                    q,
                ) && final(self).canvas_dimensions.height as int == scaled_dim(
                    old(self).canvas_dimensions.height as int,
                    q,
                ),
    {
        let q = rand_usize(rng, 500, 1500) as u64;
        proof {
            assert(self.canvas_dimensions.width as u64 * q <= 0xFFFF_FFFFu64 * 1500) by (nonlinear_arith)
                requires
                    self.canvas_dimensions.width <= 0xFFFF_FFFFu32,
                    q <= 1500,
            ;
            assert(self.canvas_dimensions.height as u64 * q <= 0xFFFF_FFFFu64 * 1500) by (nonlinear_arith)
                requires
                    self.canvas_dimensions.height <= 0xFFFF_FFFFu32,
                    q <= 1500,
            ;
        }
        let nw = (self.canvas_dimensions.width as u64 * q) / 1000;
        let nh = (self.canvas_dimensions.height as u64 * q) / 1000;
        self.canvas_dimensions.width = if nw > u32::MAX as u64 {
            u32::MAX
        } else {
            nw as u32
        };
        self.canvas_dimensions.height = if nh > u32::MAX as u64 {
            u32::MAX
        } else {
            nh as u32
        };
        proof {
            assert(500 <= q as int <= 1500 && self.canvas_dimensions.width as int == scaled_dim(
                old(self).canvas_dimensions.width as int,
                q as int,
            ) && self.canvas_dimensions.height as int == scaled_dim(
                old(self).canvas_dimensions.height as int,
                q as int,
            ));
        }
    }

    /// Applies one mutation chosen uniformly among the four: a label swap,
    /// a width change, a height change, or an equal-factor scaling. Each
    /// preserves the leaf multiset, the leaf count and the internal-node
    /// count; only the canvas dimensions and the labels change, and the
    /// effect of one of the four operators always holds of the result.
    pub fn random_mutation(&mut self, rng: &mut StdRng)
        requires
            old(self).wf(),
            old(self).canvas_dimensions.width >= 1 || old(self).canvas_dimensions.height >= 1,
        ensures
            final(self).wf(),
            structure_unchanged(old(self).nodes@, final(self).nodes@),
            final(self).nodes@.len() == old(self).nodes@.len(),
            ic_of(final(self).nodes@) == ic_of(old(self).nodes@),
            leaf_handles(final(self).nodes@).to_multiset() == leaf_handles(
                old(self).nodes@,
            ).to_multiset(),
            mutation_effect(
                old(self).nodes@,
                old(self).canvas_dimensions,
                final(self).nodes@,
                final(self).canvas_dimensions,
            ),
    {
        let which = rand_usize(rng, 0, 3);
        if which == 0 {
            self.swap_random_node_pair(rng);
        } else if which == 1 {
            self.randomize_width(rng);
        } else if which == 2 {
            self.randomize_height(rng);
        } else {
            self.randomize_dimensions_by_equal_factor(rng);
        }
    }
}

/// A dimension scaled by a factor of q thousandths and clamped to u32.
pub open spec fn scaled_dim(v: int, q: int) -> int {
    let scaled = v * q / 1000;
    if scaled > u32::MAX as int {
        u32::MAX as int
    } else {
        scaled
    }
}

/// The effect one of the four mutation operators leaves behind: a label
/// swap with the canvas untouched, one canvas side stretched within its
/// range, or both sides scaled by one factor.
pub open spec fn mutation_effect(
    s1: Seq<Node>,
    c1: crate::geometry::Dimensions,
    s2: Seq<Node>,
    c2: crate::geometry::Dimensions,
) -> bool {
    ||| (c2 == c1 && exists|a: int, b: int|
        #![auto]
        label_swap(s1, s2, a, b) && (!is_internal(s1[a]) || dir_of(s1[a]) != dir_of(s1[b])))
    ||| (s2 == s1 && c2.height == c1.height && 1 <= c2.width && c2.width as int <= c1.width as int
        + 2 * c1.height as int)
    ||| (s2 == s1 && c2.width == c1.width && 1 <= c2.height && c2.height as int
        <= c1.height as int + 2 * c1.width as int)
    ||| (s2 == s1 && exists|q: int|
        #![auto]
        500 <= q <= 1500 && c2.width as int == scaled_dim(c1.width as int, q)
            && c2.height as int == scaled_dim(c1.height as int, q))
}

} // verus!
