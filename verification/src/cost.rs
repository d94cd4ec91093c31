//! The cost functional as an exact fraction: total relative scale
//! distortion plus the canvas-coverage deficit.

use vstd::prelude::*;

use crate::geometry::Dimensions;
use crate::tree::{ic_of, leaf_handle, wf_leaf_at, Layout, Node};
use crate::aspect::spec_dims;

verus! {

pub open spec fn abs_int(x: int) -> int {
    if x >= 0 {
        x
    } else {
        -x
    }
}

/// Exact fraction addition: a/b + c/d = (ad + cb) / (bd).
pub open spec fn frac_add(l: (int, int), r: (int, int)) -> (int, int) {
    (l.0 * r.1 + r.0 * l.1, l.1 * r.1)
}

/// The pixel area of the image a leaf references.
pub open spec fn leaf_original_area(s: Seq<Node>, i: int) -> int {
    leaf_handle(s[i]).width * leaf_handle(s[i]).height
}

/// The pixel area of the rectangle a leaf is rendered into; zero where the
/// rectangle is undefined.
pub open spec fn leaf_rendered_area(s: Seq<Node>, canvas: Dimensions, i: int) -> int {
    match spec_dims(s, canvas, i) {
        Some(d) => d.width * d.height,
        None => 0,
    }
}

/// The scale factor of the leaves from index j on, as an exact fraction:
/// the sum over leaves of |rendered area - original area| / original area.
pub open spec fn scale_factor_frac(s: Seq<Node>, canvas: Dimensions, j: int) -> (int, int)
    decreases s.len() - j,
{
    if ic_of(s) <= j < s.len() {
        frac_add(
            (
                abs_int(leaf_rendered_area(s, canvas, j) - leaf_original_area(s, j)),
                leaf_original_area(s, j),
            ),
            scale_factor_frac(s, canvas, j + 1),
        )
    } else {
        (0, 1)
    }
}

/// The total rendered area of the leaves from index j on.
pub open spec fn rendered_area_sum(s: Seq<Node>, canvas: Dimensions, j: int) -> int
    decreases s.len() - j,
{
    if ic_of(s) <= j < s.len() {
        leaf_rendered_area(s, canvas, j) + rendered_area_sum(s, canvas, j + 1)
    } else {
        0
    }
}

/// The cost of a layout as an exact fraction:
/// |leaves| * scale_factor + (1 - rendered area / canvas area).
/// Smaller is better; the admissible minimum is zero.
pub open spec fn cost_frac(l: &Layout) -> (int, int) {
    let s = l.nodes@;
    let n_leaves = s.len() - ic_of(s);
    let sf = scale_factor_frac(s, l.canvas_dimensions, ic_of(s));
    let ca = l.canvas_dimensions.width * l.canvas_dimensions.height;
    frac_add(
        (n_leaves * sf.0, sf.1),
        (ca - rendered_area_sum(s, l.canvas_dimensions, ic_of(s)), ca as int),
    )
}

proof fn lemma_scale_factor_zero(s: Seq<Node>, canvas: Dimensions, j: int)
    requires
        crate::tree::wf_arena(s),
        0 <= j,
        forall|t: int|
            ic_of(s) <= t < s.len() ==> leaf_rendered_area(s, canvas, t) == leaf_original_area(
                s,
                t,
            ),
    ensures
        scale_factor_frac(s, canvas, j).0 == 0,
        scale_factor_frac(s, canvas, j).1 >= 1,
    decreases s.len() - j,
{
    if ic_of(s) <= j < s.len() {
        lemma_scale_factor_zero(s, canvas, j + 1);
        assert(wf_leaf_at(s, j));
        let ao = leaf_original_area(s, j);
        assert(ao >= 1) by (nonlinear_arith)
            requires
                leaf_handle(s[j]).width >= 1,
                leaf_handle(s[j]).height >= 1,
                ao == leaf_handle(s[j]).width * leaf_handle(s[j]).height,
        ;
        let rest = scale_factor_frac(s, canvas, j + 1);
        assert(scale_factor_frac(s, canvas, j) == frac_add((0, ao), rest));
        assert(0 * rest.1 + rest.0 * ao == 0 && ao * rest.1 >= 1) by (nonlinear_arith)
            requires
                rest.0 == 0,
                rest.1 >= 1,
                ao >= 1,
        ;
    }
}

/// A layout whose leaves are all rendered exactly at their original size
/// and which together cover the canvas exactly has cost zero.
pub proof fn lemma_zero_cost(l: &Layout)
    requires
        l.wf(),
        forall|t: int|
            ic_of(l.nodes@) <= t < l.nodes@.len() ==> leaf_rendered_area(
                l.nodes@,
                l.canvas_dimensions,
                t,
            ) == leaf_original_area(l.nodes@, t),
        rendered_area_sum(l.nodes@, l.canvas_dimensions, ic_of(l.nodes@))
            == l.canvas_dimensions.width * l.canvas_dimensions.height,
        l.canvas_dimensions.width >= 1,
        l.canvas_dimensions.height >= 1,
    ensures
        cost_frac(l).0 == 0,
        cost_frac(l).1 >= 1,
{
    let s = l.nodes@;
    let k = ic_of(s);
    lemma_scale_factor_zero(s, l.canvas_dimensions, k);
    let sf = scale_factor_frac(s, l.canvas_dimensions, k);
    let n_leaves = s.len() - ic_of(s);
    let ca = l.canvas_dimensions.width * l.canvas_dimensions.height;
    assert(ca >= 1) by (nonlinear_arith)
        requires
            l.canvas_dimensions.width >= 1,
            l.canvas_dimensions.height >= 1,
            ca == l.canvas_dimensions.width * l.canvas_dimensions.height,
    ;
    assert((n_leaves * sf.0) * (ca as int) + (ca - rendered_area_sum(
        s,
        l.canvas_dimensions,
        k,
    )) * sf.1 == 0 && sf.1 * (ca as int) >= 1) by (nonlinear_arith)
        requires
            sf.0 == 0,
            sf.1 >= 1,
            ca >= 1,
            rendered_area_sum(s, l.canvas_dimensions, k) == ca,
    ;
}

} // verus!
