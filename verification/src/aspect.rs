//! The dimensioning algebra: exact fractional aspect ratios, the
//! rectangle each node is given inside its parent, and the per-leaf
//! rendering plan.

use vstd::prelude::*;

use crate::geometry::Dimensions;
use crate::tree::{
    has_kids, ic_of, lchild, leaf_handle, rchild, wf_internal_at, wf_leaf_at,
    wf_parent_at, ImageHandle, Layout, Node, NodeLabel, SliceDirection,
};

verus! {

/// The aspect ratio of a node as an exact fraction width/height, or None
/// where an intermediate product leaves the 128-bit range. A leaf's ratio is
/// its image's width over its height; a Vertical node adds the children's
/// ratios, a Horizontal node adds their reciprocals and inverts.
pub open spec fn spec_ar(s: Seq<Node>, i: int) -> Option<(u128, u128)>
    decreases s.len() - i,
{
    if 0 <= i < s.len() {
        match s[i].label {
            NodeLabel::Leaf(h) => Some((h.width as u128, h.height as u128)),
            NodeLabel::Internal(d) => {
                if has_kids(s, i) {
                    match (spec_ar(s, lchild(s, i)), spec_ar(s, rchild(s, i))) {
                        (Some(l), Some(r)) => match d {
                            SliceDirection::Vertical => frac_sum(l, r),
                            SliceDirection::Horizontal => frac_inv_sum(l, r),
                        },
                        _ => None,
                    }
                } else {
                    None
                }
            },
        }
    } else {
        None
    }
}

/// a/b + c/d = (ad + cb) / (bd), when the products fit.
pub open spec fn frac_sum(l: (u128, u128), r: (u128, u128)) -> Option<(u128, u128)> {
    if l.0 * r.1 + r.0 * l.1 <= u128::MAX && l.1 * r.1 <= u128::MAX {
        Some(((l.0 * r.1 + r.0 * l.1) as u128, (l.1 * r.1) as u128))
    } else {
        None
    }
}

/// 1 / (b/a + d/c) = ac / (bc + ad), when the products fit.
pub open spec fn frac_inv_sum(l: (u128, u128), r: (u128, u128)) -> Option<(u128, u128)> {
    if l.1 * r.0 + r.1 * l.0 <= u128::MAX && l.0 * r.0 <= u128::MAX {
        Some(((l.0 * r.0) as u128, (l.1 * r.0 + r.1 * l.0) as u128))
    } else {
        None
    }
}

/// The rectangle a node is given inside its parent's rectangle: the widest
/// width that fits while preserving the aspect ratio, and the height the
/// ratio then dictates, both truncated toward zero.
pub open spec fn fit_rect(pd: Dimensions, n: u128, d: u128) -> Option<Dimensions> {
    if n == 0 || d == 0 {
        None
    } else if n * pd.height > u128::MAX || pd.width * d > u128::MAX {
        None
    } else {
        let w = if pd.width * d <= n * pd.height {
            pd.width as int
        } else {
            (n as int) * (pd.height as int) / (d as int)
        };
        if w * d > u128::MAX {
            None
        } else {
            Some(Dimensions { width: w as u32, height: (w * (d as int) / (n as int)) as u32 })
        }
    }
}

/// The rectangle assigned to a node: the root fits the canvas, every other
/// node fits its parent's rectangle.
pub open spec fn spec_dims(s: Seq<Node>, canvas: Dimensions, i: int) -> Option<Dimensions>
    decreases i,
{
    if 0 <= i < s.len() {
        match spec_ar(s, i) {
            None => None,
            Some(f) => {
                match s[i].parent {
                    None => fit_rect(canvas, f.0, f.1),
                    Some(p) => {
                        if 0 <= (p as int) < i {
                            match spec_dims(s, canvas, p as int) {
                                None => None,
                                Some(pd) => fit_rect(pd, f.0, f.1),
                            }
                        } else {
                            None
                        }
                    },
                }
            },
        }
    } else {
        None
    }
}

/// The top-left corner assigned to a node: the root sits at the origin; a
/// right child is offset by its sibling's width under a Vertical parent and
/// by its sibling's height under a Horizontal one.
pub open spec fn spec_pos(s: Seq<Node>, canvas: Dimensions, i: int) -> Option<(u32, u32)>
    decreases i,
{
    if 0 <= i < s.len() {
        match s[i].parent {
            None => Some((0u32, 0u32)),
            Some(p) => {
                if 0 <= (p as int) < i {
                    match (spec_pos(s, canvas, p as int), s[p as int].label) {
                        (Some(pp), NodeLabel::Internal(dir)) => {
                            if lchild(s, p as int) == i {
                                Some(pp)
                            } else {
                                match spec_dims(s, canvas, lchild(s, p as int)) {
                                    None => None,
                                    Some(sib) => match dir {
                                        SliceDirection::Vertical => {
                                            if pp.0 + sib.width <= u32::MAX {
                                                Some(((pp.0 + sib.width) as u32, pp.1))
                                            } else {
                                                None
                                            }
                                        },
                                        SliceDirection::Horizontal => {
                                            if pp.1 + sib.height <= u32::MAX {
                                                Some((pp.0, (pp.1 + sib.height) as u32))
                                            } else {
                                                None
                                            }
                                        },
                                    },
                                }
                            }
                        },
                        _ => None,
                    }
                } else {
                    None
                }
            },
        }
    } else {
        None
    }
}

/// Where a leaf's image is drawn: its rectangle and top-left corner.
#[derive(Debug, PartialEq, Eq, Structural, Clone, Copy)]
pub struct LeafPlacement {
    pub image: ImageHandle,
    pub x: u32,
    pub y: u32,
    pub width: u32,
    pub height: u32,
}

impl Layout {
    /// The aspect ratio of a node, as an exact width/height fraction.
    pub fn node_aspect_ratio(&self, index: usize) -> (r: Option<(u128, u128)>)
        requires
            self.wf(),
            index < self.nodes@.len(),
        ensures
            r == spec_ar(self.nodes@, index as int),
        decreases self.nodes@.len() - index,
    {
        match self.nodes[index].label {
            NodeLabel::Leaf(h) => Some((h.width as u128, h.height as u128)),
            NodeLabel::Internal(d) => {
                proof {
                    assert(wf_internal_at(self.nodes@, index as int));
                }
                let (l, rr) = match (self.nodes[index].left, self.nodes[index].right) {
                    (Some(l), Some(rr)) => (l, rr),
                    _ => {
                        proof {
                            assert(false);
                        }
                        return None;
                    },
                };
                let la = self.node_aspect_ratio(l);
                let ra = self.node_aspect_ratio(rr);
                match (la, ra) {
                    (Some(lf), Some(rf)) => {
                        match d {
                            SliceDirection::Vertical => {
                                match (mul_u128(lf.0, rf.1), mul_u128(rf.0, lf.1), mul_u128(
                                    lf.1,
                                    rf.1,
                                )) {
                                    (Some(a), Some(b), Some(dd)) => {
                                        if a <= u128::MAX - b {
                                            Some((a + b, dd))
                                        } else {
                                            None
                                        }
                                    },
                                    _ => None,
                                }
                            },
                            SliceDirection::Horizontal => {
                                match (mul_u128(lf.1, rf.0), mul_u128(rf.1, lf.0), mul_u128(
                                    lf.0,
                                    rf.0,
                                )) {
                                    (Some(a), Some(b), Some(nn)) => {
                                        if a <= u128::MAX - b {
                                            Some((nn, a + b))
                                        } else {
                                            None
                                        }
                                    },
                                    _ => None,
                                }
                            },
                        }
                    },
                    _ => None,
                }
            },
        }
    }

    /// The aspect ratio of the whole layout: that of the root node.
    pub fn aspect_ratio(&self) -> (r: Option<(u128, u128)>)
        requires
            self.wf(),
        ensures
            r == spec_ar(self.nodes@, 0),
    {
        self.node_aspect_ratio(0)
    }

    /// The rectangle assigned to a node by the dimensioning algebra.
    pub fn dimensions_at(&self, index: usize) -> (r: Option<Dimensions>)
        requires
            self.wf(),
            index < self.nodes@.len(),
        ensures
            r == spec_dims(self.nodes@, self.canvas_dimensions, index as int),
        decreases index,
    {
        let f = match self.node_aspect_ratio(index) {
            Some(f) => f,
            None => {
                return None;
            },
        };
        let pd = match self.nodes[index].parent {
            None => self.canvas_dimensions,
            Some(p) => {
                proof {
                    assert(wf_parent_at(self.nodes@, index as int));
                }
                match self.dimensions_at(p) {
                    Some(pd) => pd,
                    None => {
                        return None;
                    },
                }
            },
        };
        fit_rect_exec(pd, f.0, f.1)
    }

    /// The realized rectangle of the whole layout: the root's rectangle,
    /// which is usually strictly inside the canvas hint.
    pub fn dimensions(&self) -> (r: Option<(u32, u32)>)
        requires
            self.wf(),
        ensures
            r matches Some(t) ==> spec_dims(self.nodes@, self.canvas_dimensions, 0)
                == Some(Dimensions { width: t.0, height: t.1 }),
            r is None <==> spec_dims(self.nodes@, self.canvas_dimensions, 0) is None,
    {
        match self.dimensions_at(0) {
            Some(d) => Some((d.width, d.height)),
            None => None,
        }
    }

    /// The top-left corner assigned to a node.
    pub fn position_at(&self, index: usize) -> (r: Option<(u32, u32)>)
        requires
            self.wf(),
            index < self.nodes@.len(),
        ensures
            r == spec_pos(self.nodes@, self.canvas_dimensions, index as int),
        decreases index,
    {
        let p = match self.nodes[index].parent {
            None => {
                return Some((0, 0));
            },
            Some(p) => p,
        };
        proof {
            assert(wf_parent_at(self.nodes@, index as int));
            assert(wf_internal_at(self.nodes@, p as int));
        }
        let pp = match self.position_at(p) {
            Some(pp) => pp,
            None => {
                return None;
            },
        };
        let dir = match self.nodes[p].label {
            NodeLabel::Internal(dir) => dir,
            NodeLabel::Leaf(_) => {
                proof {
                    assert(false);
                }
                return None;
            },
        };
        let l = match self.nodes[p].left {
            Some(l) => l,
            None => {
                proof {
                    assert(false);
                }
                return None;
            },
        };
        if l == index {
            return Some(pp);
        }
        let sib = match self.dimensions_at(l) {
            Some(sib) => sib,
            None => {
                return None;
            },
        };
        match dir {
            SliceDirection::Vertical => {
                if pp.0 <= u32::MAX - sib.width {
                    Some((pp.0 + sib.width, pp.1))
                } else {
                    None
                }
            },
            SliceDirection::Horizontal => {
                if pp.1 <= u32::MAX - sib.height {
                    Some((pp.0, pp.1 + sib.height))
                } else {
                    None
                }
            },
        }
    }

    /// The rendering plan: for every leaf, in creation order, its image and
    /// the rectangle it is drawn into. None when some rectangle cannot be
    /// computed within machine range.
    pub fn leaf_placements(&self) -> (r: Option<Vec<LeafPlacement>>)
        requires
            self.wf(),
        ensures
            r is None <==> exists|t: int|
                #![auto]
                ic_of(self.nodes@) <= t < self.nodes@.len() && (spec_dims(
                    self.nodes@,
                    self.canvas_dimensions,
                    t,
                ) is None || spec_pos(self.nodes@, self.canvas_dimensions, t) is None),
            r matches Some(v) ==> {
                &&& v@.len() == self.nodes@.len() - ic_of(self.nodes@)
                &&& forall|t: int|
                    0 <= t < v@.len() ==> {
                        let leaf = ic_of(self.nodes@) + t;
                        &&& (#[trigger] v@[t]).image == leaf_handle(self.nodes@[leaf])
                        &&& spec_dims(self.nodes@, self.canvas_dimensions, leaf) == Some(
                            Dimensions { width: v@[t].width, height: v@[t].height },
                        )
                        &&& spec_pos(self.nodes@, self.canvas_dimensions, leaf) == Some(
                            (v@[t].x, v@[t].y),
                        )
                    }
            },
    {
        let total = self.nodes.len();
        let k = (total - 1) / 2;
        let mut v: Vec<LeafPlacement> = Vec::new();
        let mut i: usize = k;
        while i < total
            invariant
                k <= i <= total,
                self.wf(),
                total == self.nodes@.len(),
                k == ic_of(self.nodes@),
                v@.len() == i - k,
                forall|t: int|
                    0 <= t < v@.len() ==> {
                        let leaf = ic_of(self.nodes@) + t;
                        &&& (#[trigger] v@[t]).image == leaf_handle(self.nodes@[leaf])
                        &&& spec_dims(self.nodes@, self.canvas_dimensions, leaf) == Some(
                            Dimensions { width: v@[t].width, height: v@[t].height },
                        )
                        &&& spec_pos(self.nodes@, self.canvas_dimensions, leaf) == Some(
                            (v@[t].x, v@[t].y),
                        )
                    },
            decreases total - i,
        {
            let h = match self.nodes[i].label {
                NodeLabel::Leaf(h) => h,
                NodeLabel::Internal(_) => {
                    proof {
                        assert(wf_leaf_at(self.nodes@, i as int));
                        assert(false);
                    }
                    return None;
                },
            };
            let d = match self.dimensions_at(i) {
                Some(d) => d,
                None => {
                    return None;
                },
            };
            let pos = match self.position_at(i) {
                Some(p) => p,
                None => {
                    return None;
                },
            };
            v.push(
                LeafPlacement { image: h, x: pos.0, y: pos.1, width: d.width, height: d.height },
            );
            i = i + 1;
        }
        proof {
            assert forall|t: int|
                ic_of(self.nodes@) <= t < self.nodes@.len() implies spec_dims(
                self.nodes@,
                self.canvas_dimensions,
                t,
            ) is Some && spec_pos(self.nodes@, self.canvas_dimensions, t) is Some by {
                let t2 = t - ic_of(self.nodes@);
                assert(v@[t2].image == leaf_handle(self.nodes@[ic_of(self.nodes@) + t2]));
            }
        }
        Some(v)
    }
}

/// The product of two 128-bit values, or None on overflow.
fn mul_u128(a: u128, b: u128) -> (r: Option<u128>)
    ensures
        r matches Some(v) ==> v == a * b,
        r is None <==> a * b > u128::MAX,
{
    if b == 0 {
        proof {
            assert(a * b == 0) by (nonlinear_arith)
                requires
                    b == 0,
            ;
        }
        Some(0)
    } else if a <= u128::MAX / b {
        proof {
            vstd::arithmetic::div_mod::lemma_fundamental_div_mod(u128::MAX as int, b as int);
            vstd::arithmetic::mul::lemma_mul_inequality(
                a as int,
                (u128::MAX / b) as int,
                b as int,
            );
            assert((u128::MAX / b) as int * b as int <= u128::MAX);
        }
        Some(a * b)
    } else {
        proof {
            vstd::arithmetic::div_mod::lemma_fundamental_div_mod(u128::MAX as int, b as int);
            assert(a as int >= (u128::MAX / b) as int + 1);
            vstd::arithmetic::mul::lemma_mul_inequality(
                ((u128::MAX / b) as int) + 1,
                a as int,
                b as int,
            );
            assert((((u128::MAX / b) as int) + 1) * b as int > u128::MAX) by (nonlinear_arith)
                requires
                    b >= 1,
                    (b as int) * ((u128::MAX / b) as int) + (u128::MAX as int) % (b as int)
                        == u128::MAX as int,
                    0 <= (u128::MAX as int) % (b as int) < b as int,
            ;
        }
        None
    }
}

/// The widest rectangle with ratio n/d that fits inside pd.
fn fit_rect_exec(pd: Dimensions, n: u128, d: u128) -> (r: Option<Dimensions>)
    ensures
        r == fit_rect(pd, n, d),
{
    if n == 0 || d == 0 {
        return None;
    }
    let nh = match mul_u128(n, pd.height as u128) {
        Some(v) => v,
        None => {
            return None;
        },
    };
    let wd = match mul_u128(pd.width as u128, d) {
        Some(v) => v,
        None => {
            return None;
        },
    };
    let w: u128 = if wd <= nh {
        pd.width as u128
    } else {
        proof {
            vstd::arithmetic::div_mod::lemma_fundamental_div_mod(nh as int, d as int);
            assert(nh / d < pd.width as u128) by (nonlinear_arith)
                requires
                    d >= 1,
                    (d as int) * ((nh / d) as int) + (nh as int) % (d as int) == nh as int,
                    0 <= (nh as int) % (d as int) < d as int,
                    nh < pd.width as u128 * d,
            ;
        }
        nh / d
    };
    let wdd = match mul_u128(w, d) {
        Some(v) => v,
        None => {
            return None;
        },
    };
    let h = wdd / n;
    proof {
        assert(wdd <= nh) by {
            if wd <= nh {
            } else {
                vstd::arithmetic::div_mod::lemma_fundamental_div_mod(nh as int, d as int);
                assert((nh / d) as int * d as int <= nh as int);
            }
        }
        vstd::arithmetic::div_mod::lemma_div_is_ordered(wdd as int, nh as int, n as int);
        vstd::arithmetic::div_mod::lemma_div_multiples_vanish(pd.height as int, n as int);
        assert(nh as int == n as int * pd.height as int);
        assert((nh as int) / (n as int) == pd.height as int);
        assert(h <= pd.height);
        assert(w <= pd.width);
    }
    Some(Dimensions { width: w as u32, height: h as u32 })
}

} // verus!

verus! {

/// The aspect-ratio recursion matches the rendered rectangle: for every
/// node with a defined rectangle (w, h) and ratio n/d, the ratio w/h equals
/// n/d up to the integer truncation of the height, exactly:
/// n * h <= w * d < n * (h + 1).
pub proof fn lemma_aspect_ratio_rect(s: Seq<Node>, canvas: Dimensions, i: int)
    requires
        crate::tree::wf_arena(s),
        0 <= i < s.len(),
        spec_dims(s, canvas, i) is Some,
    ensures
        spec_ar(s, i) is Some,
        ({
            let f = spec_ar(s, i)->0;
            let d = spec_dims(s, canvas, i)->0;
            f.0 * d.height <= d.width * f.1 && d.width * f.1 < f.0 * (d.height + 1)
        }),
{
    let f = spec_ar(s, i)->0;
    let n = f.0 as int;
    let dd = f.1 as int;
    let pd = if s[i].parent is None {
        canvas
    } else {
        spec_dims(s, canvas, s[i].parent->0 as int)->0
    };
    assert(spec_dims(s, canvas, i) == fit_rect(pd, f.0, f.1));
    assert(n >= 1 && dd >= 1);
    let w = if pd.width * f.1 <= f.0 * pd.height {
        pd.width as int
    } else {
        n * (pd.height as int) / dd
    };
    let rect = spec_dims(s, canvas, i)->0;
    let nh = n * (pd.height as int);
    let wd = (pd.width as int) * dd;
    if wd <= nh {
        assert(w == pd.width as int);
    } else {
        vstd::arithmetic::div_mod::lemma_fundamental_div_mod(nh, dd);
        vstd::arithmetic::div_mod::lemma_mod_bound(nh, dd);
        assert(w < pd.width as int) by (nonlinear_arith)
            requires
                dd >= 1,
                dd * (nh / dd) + nh % dd == nh,
                0 <= nh % dd < dd,
                nh < (pd.width as int) * dd,
                w == nh / dd,
        ;
        vstd::arithmetic::div_mod::lemma_div_is_ordered(0, nh, dd);
        assert(0int / dd == 0) by (nonlinear_arith)
            requires
                dd >= 1,
        ;
        assert(w >= 0);
    }
    assert(0 <= w <= u32::MAX);
    let wdd2 = w * dd;
    assert(wdd2 <= nh) by {
        if wd <= nh {
        } else {
            vstd::arithmetic::div_mod::lemma_fundamental_div_mod(nh, dd);
            vstd::arithmetic::div_mod::lemma_mod_bound(nh, dd);
            assert(wdd2 <= nh) by (nonlinear_arith)
                requires
                    dd >= 1,
                    dd * (nh / dd) + nh % dd == nh,
                    0 <= nh % dd < dd,
                    w == nh / dd,
                    wdd2 == w * dd,
            ;
        }
    }
    vstd::arithmetic::div_mod::lemma_div_is_ordered(wdd2, nh, n);
    vstd::arithmetic::div_mod::lemma_div_multiples_vanish(pd.height as int, n);
    assert(nh / n == pd.height as int);
    assert(wdd2 / n <= pd.height as int);
    vstd::arithmetic::div_mod::lemma_div_is_ordered(0, wdd2, n);
    assert(0int / n == 0) by (nonlinear_arith)
        requires
            n >= 1,
    ;
    assert(rect.width as int == w);
    assert(rect.height as int == w * dd / n);
    vstd::arithmetic::div_mod::lemma_fundamental_div_mod(w * dd, n);
    assert(w * dd == n * (w * dd / n) + (w * dd) % n);
    assert(0 <= (w * dd) % n < n) by {
        vstd::arithmetic::div_mod::lemma_mod_bound(w * dd, n);
    }
    assert(n * (rect.height as int) <= w * dd) by (nonlinear_arith)
        requires
            n >= 1,
            w * dd == n * (w * dd / n) + (w * dd) % n,
            0 <= (w * dd) % n < n,
            rect.height as int == w * dd / n,
    ;
    assert(w * dd < n * (rect.height as int + 1)) by (nonlinear_arith)
        requires
            n >= 1,
            w * dd == n * (w * dd / n) + (w * dd) % n,
            0 <= (w * dd) % n < n,
            rect.height as int == w * dd / n,
    ;
}

} // verus!
