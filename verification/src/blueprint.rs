//! The blueprint codec: the portable serialization of a slicing tree as a
//! list of internal nodes with direction codes and child positions, with a
//! fully validated decoder and a breadth-first encoder.

use vstd::prelude::*;

use vstd::string::StrSliceExecFns;
use vstd::string::StringExecFns;

use crate::geometry::Dimensions;
use crate::tree::{dir_of, ic_of, is_internal, lchild, rchild, wf_arena, wf_internal_at,
    wf_leaf_at, wf_parent_at, ImageHandle, Layout, Node, NodeLabel, SliceDirection};

verus! {

/// Portable serialization of a slicing tree: canvas dimensions plus one entry
/// per internal node, in creation order. Each entry carries the direction
/// code ("V" or "H") and the positions, in this same list, of those children
/// that are themselves internal. Leaves are reconstructed by attaching input
/// images, in input order, to internal nodes that still have fewer than two
/// children, in list order.
#[derive(Debug, Clone, PartialEq)]
pub struct LayoutBlueprint {
    pub graph_representation: Vec<(String, Vec<usize>)>,
    pub width: u32,
    pub height: u32,
}

/// Why a blueprint was rejected.
#[derive(Debug, PartialEq, Eq, Structural, Clone, Copy)]
pub enum BlueprintError {
    /// A direction code other than "V" or "H".
    UnknownLabel,
    /// The entries do not describe a single rooted tree: an index out of
    /// range, a node referenced twice, a cycle, an unreachable entry, more
    /// than two children, or an empty list.
    MalformedStructure,
    /// The number of supplied images differs from the number of free child
    /// slots.
    ImageCountMismatch,
}

pub open spec fn code_v() -> Seq<char> {
    seq!['V']
}

pub open spec fn code_h() -> Seq<char> {
    seq!['H']
}

pub open spec fn code_ok(c: Seq<char>) -> bool {
    c == code_v() || c == code_h()
}

pub open spec fn decoded_dir(c: Seq<char>) -> SliceDirection {
    if c == code_v() {
        SliceDirection::Vertical
    } else {
        SliceDirection::Horizontal
    }
}

pub open spec fn codes_ok(g: Seq<(String, Vec<usize>)>) -> bool {
    forall|j: int| 0 <= j < g.len() ==> code_ok((#[trigger] g[j]).0@)
}

/// Every child reference of entry j points strictly forward and stays in
/// range, and an entry lists at most two children.
pub open spec fn entry_ok(g: Seq<(String, Vec<usize>)>, j: int) -> bool {
    &&& g[j].1@.len() <= 2
    &&& forall|a: int|
        0 <= a < g[j].1@.len() ==> j < (#[trigger] g[j].1@[a]) as int && (g[j].1@[a] as int) < g.len()
}

/// No internal node is referenced as a child twice.
pub open spec fn refs_unique(g: Seq<(String, Vec<usize>)>) -> bool {
    forall|j1: int, a1: int, j2: int, a2: int|
        0 <= j1 < g.len() && 0 <= a1 < g[j1].1@.len() && 0 <= j2 < g.len() && 0 <= a2
            < g[j2].1@.len() && #[trigger] g[j1].1@[a1] == #[trigger] g[j2].1@[a2] ==> j1 == j2
            && a1 == a2
}

/// Whether some entry lists internal node c as a child.
pub open spec fn referenced(g: Seq<(String, Vec<usize>)>, c: int) -> bool {
    exists|j: int, a: int|
        0 <= j < g.len() && 0 <= a < g[j].1@.len() && (#[trigger] g[j].1@[a]) as int == c
}

/// Every internal node except the first is referenced as a child somewhere.
pub open spec fn refs_complete(g: Seq<(String, Vec<usize>)>) -> bool {
    forall|c: int| 1 <= c < g.len() ==> #[trigger] referenced(g, c)
}

/// The entries describe a single rooted tree over the internal nodes, in
/// creation order: every child reference points forward, so the root is the
/// first entry.
pub open spec fn structure_ok(g: Seq<(String, Vec<usize>)>) -> bool {
    &&& g.len() >= 1
    &&& forall|j: int| 0 <= j < g.len() ==> entry_ok(g, j)
    &&& refs_unique(g)
    &&& refs_complete(g)
}

/// How many free child slots entry j leaves for images.
pub open spec fn open_slots(g: Seq<(String, Vec<usize>)>, j: int) -> int {
    2 - g[j].1@.len()
}

/// Free child slots of the entries before j, in list order.
pub open spec fn slots_before(g: Seq<(String, Vec<usize>)>, j: int) -> int
    decreases j,
{
    if j <= 0 {
        0
    } else {
        slots_before(g, j - 1) + open_slots(g, j - 1)
    }
}

/// The image count the blueprint demands: one image per free child slot.
pub open spec fn count_ok(g: Seq<(String, Vec<usize>)>, n: int) -> bool {
    n == slots_before(g, g.len() as int)
}

spec fn sum_lens(g: Seq<(String, Vec<usize>)>, j: int) -> int
    decreases j,
{
    if j <= 0 {
        0
    } else {
        sum_lens(g, j - 1) + g[j - 1].1@.len()
    }
}

spec fn count_true(s: Seq<bool>, j: int) -> int
    decreases j,
{
    if j <= 0 {
        0
    } else {
        count_true(s, j - 1) + if s[j - 1] {
            1int
        } else {
            0int
        }
    }
}

proof fn lemma_count_true_update(s: Seq<bool>, c: int, j: int)
    requires
        0 <= c < s.len(),
        !s[c],
    ensures
        j <= c ==> count_true(s.update(c, true), j) == count_true(s, j),
        c < j <= s.len() ==> count_true(s.update(c, true), j) == count_true(s, j) + 1,
    decreases j,
{
    if j > 0 {
        lemma_count_true_update(s, c, j - 1);
    }
}

proof fn lemma_count_true_full(s: Seq<bool>, j: int)
    requires
        0 <= j <= s.len(),
        forall|i: int| 1 <= i < j ==> s[i],
        j >= 1 ==> !s[0],
    ensures
        j >= 1 ==> count_true(s, j) == j - 1,
        j == 0 ==> count_true(s, j) == 0,
    decreases j,
{
    if j > 0 {
        lemma_count_true_full(s, j - 1);
    }
}

proof fn lemma_count_true_zero(s: Seq<bool>, j: int)
    requires
        0 <= j <= s.len(),
        forall|i: int| 0 <= i < j ==> !(#[trigger] s[i]),
    ensures
        count_true(s, j) == 0,
    decreases j,
{
    if j > 0 {
        lemma_count_true_zero(s, j - 1);
    }
}

proof fn lemma_count_true_le(s: Seq<bool>, j: int)
    requires
        0 <= j,
    ensures
        count_true(s, j) <= j,
    decreases j,
{
    if j > 0 {
        lemma_count_true_le(s, j - 1);
    }
}

proof fn lemma_slots_sum(g: Seq<(String, Vec<usize>)>, j: int)
    requires
        0 <= j,
    ensures
        slots_before(g, j) == 2 * j - sum_lens(g, j),
    decreases j,
{
    if j > 0 {
        lemma_slots_sum(g, j - 1);
    }
}

/// The full creation-order pin: blueprint entry j is arena node j, listed
/// children sit left before right, and the images fill the free slots in
/// entry order.
pub open spec fn creation_order_decode_ok(
    blueprint: &LayoutBlueprint,
    images: Seq<ImageHandle>,
    l: Layout,
) -> bool {
    let g = blueprint.graph_representation@;
    let k = g.len() as int;
    &&& forall|j: int|
        0 <= j < k ==> (#[trigger] l.nodes@[j]).label == NodeLabel::Internal(decoded_dir(g[j].0@))
    &&& forall|t: int|
        0 <= t < images.len() ==> (#[trigger] l.nodes@[k + t]).label == NodeLabel::Leaf(images[t])
    &&& forall|j: int|
        0 <= j < k && g[j].1@.len() >= 1 ==> lchild(l.nodes@, j) == (#[trigger] g[j].1@[0]) as int
    &&& forall|j: int|
        0 <= j < k && g[j].1@.len() == 2 ==> rchild(l.nodes@, j) == (#[trigger] g[j].1@[1]) as int
    &&& forall|j: int|
        0 <= j < k && open_slots(g, j) == 2 ==> lchild(l.nodes@, j) == k + slots_before(g, j)
            && rchild(l.nodes@, j) == k + slots_before(g, j) + 1
    &&& forall|j: int|
        0 <= j < k && open_slots(g, j) == 1 ==> rchild(l.nodes@, j) == k + slots_before(g, j)
}

impl Layout {
    /// Decodes a blueprint whose child references all point forward, so
    /// that blueprint entry i becomes arena node i.
    ///
    /// Succeeds exactly when every direction code is "V" or "H", the child
    /// indices describe a single rooted tree in creation order, and the
    /// image count equals the number of free child slots; the error says
    /// which of the three failed, in that order of precedence.
    fn from_creation_order(blueprint: &LayoutBlueprint, images: &Vec<ImageHandle>) -> (r: Result<
        Layout,
        BlueprintError,
    >)
        requires
            forall|t: int|
                0 <= t < images@.len() ==> (#[trigger] images@[t]).width >= 1 && images@[t].height
                    >= 1,
        ensures
            r matches Err(e) ==> {
                ||| (e == BlueprintError::UnknownLabel && !codes_ok(
                    blueprint.graph_representation@,
                ))
                ||| (e == BlueprintError::MalformedStructure && codes_ok(
                    blueprint.graph_representation@,
                ) && !structure_ok(blueprint.graph_representation@))
                ||| (e == BlueprintError::ImageCountMismatch && codes_ok(
                    blueprint.graph_representation@,
                ) && structure_ok(blueprint.graph_representation@) && !count_ok(
                    blueprint.graph_representation@,
                    images@.len() as int,
                ))
            },
            r is Ok <==> codes_ok(blueprint.graph_representation@) && structure_ok(
                blueprint.graph_representation@,
            ) && count_ok(blueprint.graph_representation@, images@.len() as int),
            r matches Ok(l) ==> {
                &&& l.wf()
                &&& l.canvas_dimensions == (Dimensions {
                    width: blueprint.width,
                    height: blueprint.height,
                })
                &&& ic_of(l.nodes@) == blueprint.graph_representation@.len()
                &&& l.nodes@.len() == blueprint.graph_representation@.len() + images@.len()
                &&& forall|j: int|
                    0 <= j < blueprint.graph_representation@.len() ==> (#[trigger] l.nodes@[j]).label
                        == NodeLabel::Internal(
                        decoded_dir(blueprint.graph_representation@[j].0@),
                    )
                &&& forall|t: int|
                    0 <= t < images@.len() ==> (#[trigger] l.nodes@[blueprint.graph_representation@.len() + t]).label
                        == NodeLabel::Leaf(images@[t])
                &&& forall|j: int|
                    0 <= j < blueprint.graph_representation@.len()
                        && blueprint.graph_representation@[j].1@.len() >= 1 ==> lchild(l.nodes@, j)
                        == (#[trigger] blueprint.graph_representation@[j].1@[0]) as int
                &&& forall|j: int|
                    0 <= j < blueprint.graph_representation@.len()
                        && blueprint.graph_representation@[j].1@.len() == 2 ==> rchild(l.nodes@, j)
                        == (#[trigger] blueprint.graph_representation@[j].1@[1]) as int
                &&& forall|j: int|
                    0 <= j < blueprint.graph_representation@.len() && open_slots(
                        blueprint.graph_representation@,
                        j,
                    ) == 2 ==> lchild(l.nodes@, j) == blueprint.graph_representation@.len()
                        + slots_before(blueprint.graph_representation@, j) && rchild(l.nodes@, j)
                        == blueprint.graph_representation@.len() + slots_before(
                        blueprint.graph_representation@,
                        j,
                    ) + 1
                &&& forall|j: int|
                    0 <= j < blueprint.graph_representation@.len() && open_slots(
                        blueprint.graph_representation@,
                        j,
                    ) == 1 ==> rchild(l.nodes@, j) == blueprint.graph_representation@.len()
                        + slots_before(blueprint.graph_representation@, j)
                &&& creation_order_decode_ok(blueprint, images@, l)
            },
    {
        let g = &blueprint.graph_representation;
        let k = g.len();
        let ghost gv = g@;

        if k == 0 {
            // An empty internal list cannot carry the two or more leaves a
            // layout needs.
            if !codes_ok_exec(g) {
                proof {
                    assert(gv == blueprint.graph_representation@);
                    assert(!codes_ok(blueprint.graph_representation@));
                }
                return Err(BlueprintError::UnknownLabel);
            }
            proof {
                assert(gv == blueprint.graph_representation@);
                assert(!structure_ok(blueprint.graph_representation@));
                assert(codes_ok(blueprint.graph_representation@));
            }
            return Err(BlueprintError::MalformedStructure);
        }
        // Phase 1: decode the direction codes.
        let mut nodes: Vec<Node> = Vec::new();
        let mut j: usize = 0;
        while j < k
            invariant
                j <= k,
                k == gv.len(),
                gv == g@,
                gv == blueprint.graph_representation@,
                nodes@.len() == j,
                forall|t: int| 0 <= t < j ==> code_ok(gv[t].0@),
                forall|t: int|
                    0 <= t < j ==> (#[trigger] nodes@[t]).label == NodeLabel::Internal(
                        decoded_dir(gv[t].0@),
                    ),
                forall|t: int|
                    0 <= t < j ==> (#[trigger] nodes@[t]).parent is None && nodes@[t].left is None
                        && nodes@[t].right is None,
            decreases k - j,
        {
            let code: &String = &g[j].0;
            let dir = if code.unicode_len() == 1 {
                let c = code.as_str().get_char(0);
                if c == 'V' {
                    proof {
                        assert(code@ =~= code_v());
                    }
                    SliceDirection::Vertical
                } else if c == 'H' {
                    proof {
                        assert(code@ =~= code_h());
                    }
                    SliceDirection::Horizontal
                } else {
                    proof {
                        assert(!code_ok(gv[j as int].0@));
                        assert(gv == blueprint.graph_representation@);
                        assert(!codes_ok(gv));
                        assert(!codes_ok(blueprint.graph_representation@));
                    }
                    return Err(BlueprintError::UnknownLabel);
                }
            } else {
                proof {
                    assert(gv[j as int].0@.len() != 1);
                    assert(!code_ok(gv[j as int].0@));
                    assert(gv == blueprint.graph_representation@);
                    assert(!codes_ok(blueprint.graph_representation@));
                }
                return Err(BlueprintError::UnknownLabel);
            };
            nodes.push(
                Node { label: NodeLabel::Internal(dir), parent: None, left: None, right: None },
            );
            j = j + 1;
        }
        // Phase 2: validate the child references: at most two per entry,
        // each strictly forward and in range, each target referenced once,
        // every non-root entry referenced.
        let mut seen: Vec<bool> = Vec::new();
        let mut t: usize = 0;
        while t < k
            invariant
                t <= k,
                k == gv.len(),
                gv == g@,
                gv == blueprint.graph_representation@,
                codes_ok(gv),
                seen@.len() == t,
                forall|i: int| 0 <= i < t ==> !(#[trigger] seen@[i]),
            decreases k - t,
        {
            seen.push(false);
            t = t + 1;
        }
        proof {
            lemma_count_true_zero(seen@, k as int);
        }
        let mut refs_total: usize = 0;
        let mut j: usize = 0;
        while j < k
            invariant
                j <= k,
                k >= 1,
                k == gv.len(),
                gv == g@,
                gv == blueprint.graph_representation@,
                codes_ok(gv),
                seen@.len() == k,
                refs_total == sum_lens(gv, j as int),
                refs_total == count_true(seen@, k as int),
                refs_total <= 2 * j,
                forall|t: int| 0 <= t < j ==> entry_ok(gv, t),
                forall|c: int|
                    0 <= c < k ==> (#[trigger] seen@[c] <==> exists|j1: int, a1: int|
                        0 <= j1 < j && 0 <= a1 < gv[j1].1@.len() && (#[trigger] gv[j1].1@[a1]) as int
                            == c),
                forall|j1: int, a1: int, j2: int, a2: int|
                    0 <= j1 < j && 0 <= a1 < gv[j1].1@.len() && 0 <= j2 < j && 0 <= a2
                        < gv[j2].1@.len() && #[trigger] gv[j1].1@[a1] == #[trigger] gv[j2].1@[a2]
                        ==> j1 == j2 && a1 == a2,
            decreases k - j,
        {
            let kids: &Vec<usize> = &g[j].1;
            if kids.len() > 2 {
                proof {
                    assert(!entry_ok(gv, j as int));
                    assert(gv == blueprint.graph_representation@);
                    assert(!structure_ok(blueprint.graph_representation@));
                    assert(codes_ok(blueprint.graph_representation@));
                }
                return Err(BlueprintError::MalformedStructure);
            }
            let mut a: usize = 0;
            while a < kids.len()
                invariant
                    j < k,
                    k >= 1,
                    a <= kids@.len(),
                    kids@.len() <= 2,
                    k == gv.len(),
                    gv == g@,
                    gv == blueprint.graph_representation@,
                    codes_ok(gv),
                    kids@ == gv[j as int].1@,
                    seen@.len() == k,
                    refs_total == sum_lens(gv, j as int) + a,
                    refs_total == count_true(seen@, k as int),
                    refs_total <= 2 * j + a,
                    forall|t: int| 0 <= t < j ==> entry_ok(gv, t),
                    forall|a1: int| 0 <= a1 < a ==> (j as int) < (#[trigger] kids@[a1]) as int && (kids@[a1] as int) < k,
                    forall|c: int|
                        0 <= c < k ==> (#[trigger] seen@[c] <==> exists|j1: int, a1: int|
                            (0 <= j1 < j && 0 <= a1 < gv[j1].1@.len() || j1 == j && 0 <= a1 < a)
                                && 0 <= a1 < gv[j1].1@.len() && (#[trigger] gv[j1].1@[a1]) as int
                                == c),
                    forall|j1: int, a1: int, j2: int, a2: int|
                        (0 <= j1 < j && 0 <= a1 < gv[j1].1@.len() || j1 == j && 0 <= a1 < a) && (0
                            <= j2 < j && 0 <= a2 < gv[j2].1@.len() || j2 == j && 0 <= a2 < a) && 0
                            <= a1 < gv[j1].1@.len() && 0 <= a2 < gv[j2].1@.len() && #[trigger] gv[j1].1@[a1]
                            == #[trigger] gv[j2].1@[a2] ==> j1 == j2 && a1 == a2,
                decreases kids@.len() - a,
            {
                let c = kids[a];
                if c <= j || c >= k {
                    proof {
                        assert(!entry_ok(gv, j as int));
                        assert(gv == blueprint.graph_representation@);
                        assert(!structure_ok(blueprint.graph_representation@));
                        assert(codes_ok(blueprint.graph_representation@));
                    }
                    return Err(BlueprintError::MalformedStructure);
                }
                if seen[c] {
                    proof {
                        let (j1, a1) = choose|j1: int, a1: int|
                            (0 <= j1 < j && 0 <= a1 < gv[j1].1@.len() || j1 == j && 0 <= a1 < a)
                                && 0 <= a1 < gv[j1].1@.len() && (#[trigger] gv[j1].1@[a1]) as int
                                == c as int;
                        assert(gv[j1].1@[a1] == gv[j as int].1@[a as int]);
                        assert(!refs_unique(gv));
                        assert(gv == blueprint.graph_representation@);
                        assert(!structure_ok(blueprint.graph_representation@));
                        assert(codes_ok(blueprint.graph_representation@));
                    }
                    return Err(BlueprintError::MalformedStructure);
                }
                proof {
                    lemma_count_true_update(seen@, c as int, k as int);
                }
                seen.set(c, true);
                proof {
                    lemma_count_true_le(seen@, k as int);
                }
                refs_total = refs_total + 1;
                a = a + 1;
            }
            j = j + 1;
        }
        // Every entry but the first must have been referenced exactly once.
        let mut c: usize = 1;
        while c < k
            invariant
                1 <= c <= k,
                k == gv.len(),
                gv == g@,
                gv == blueprint.graph_representation@,
                codes_ok(gv),
                seen@.len() == k,
                forall|i: int| 1 <= i < c ==> #[trigger] seen@[i],
                forall|cc: int| 0 <= cc < k ==> (#[trigger] seen@[cc] <==> referenced(gv, cc)),
                refs_total == sum_lens(gv, k as int),
                refs_total == count_true(seen@, k as int),
                forall|t: int| 0 <= t < k ==> entry_ok(gv, t),
                refs_unique(gv),
            decreases k - c,
        {
            if !seen[c] {
                proof {
                    assert(!referenced(gv, c as int));
                    assert(!refs_complete(gv));
                    assert(gv == blueprint.graph_representation@);
                    assert(!structure_ok(blueprint.graph_representation@));
                    assert(codes_ok(blueprint.graph_representation@));
                }
                return Err(BlueprintError::MalformedStructure);
            }
            c = c + 1;
        }
        proof {
            assert forall|cc: int| 1 <= cc < gv.len() implies #[trigger] referenced(gv, cc) by {
                assert(seen@[cc]);
            }
            assert(refs_complete(gv));
            assert(structure_ok(gv));
            // Node 0 is never referenced: references point strictly forward.
            assert(!seen@[0]) by {
                if seen@[0] {
                    let (j1, a1) = choose|j1: int, a1: int|
                        0 <= j1 < k && 0 <= a1 < gv[j1].1@.len() && (#[trigger] gv[j1].1@[a1]) as int
                            == 0;
                    assert(entry_ok(gv, j1));
                }
            }
            lemma_count_true_full(seen@, k as int);
            lemma_slots_sum(gv, k as int);
            assert(refs_total == k - 1);
            assert(slots_before(gv, k as int) == k + 1);
        }
        let n_imgs = images.len();
        if n_imgs < 1 || n_imgs - 1 != k {
            proof {
                assert(!count_ok(gv, images@.len() as int));
                assert(gv == blueprint.graph_representation@);
                assert(!count_ok(blueprint.graph_representation@, images@.len() as int));
                assert(codes_ok(blueprint.graph_representation@));
                assert(structure_ok(blueprint.graph_representation@));
            }
            return Err(BlueprintError::ImageCountMismatch);
        }
        // Phase 3: apply the validated edges.
        let mut j: usize = 0;
        while j < k
            invariant
                j <= k,
                k >= 1,
                k == gv.len(),
                gv == g@,
                gv == blueprint.graph_representation@,
                codes_ok(gv),
                nodes@.len() == k,
                images@.len() == k + 1,
                slots_before(gv, k as int) == k + 1,
                forall|t: int| 0 <= t < k ==> entry_ok(gv, t),
                refs_unique(gv),
                refs_complete(gv),
                forall|t: int|
                    0 <= t < k ==> (#[trigger] nodes@[t]).label == NodeLabel::Internal(
                        decoded_dir(gv[t].0@),
                    ),
                forall|t: int|
                    0 <= t < j ==> (gv[t].1@.len() >= 1 ==> (#[trigger] nodes@[t]).left == Some(
                        gv[t].1@[0],
                    )) && (gv[t].1@.len() == 0 ==> nodes@[t].left is None),
                forall|t: int|
                    0 <= t < j ==> (gv[t].1@.len() == 2 ==> (#[trigger] nodes@[t]).right == Some(
                        gv[t].1@[1],
                    )) && (gv[t].1@.len() <= 1 ==> nodes@[t].right is None),
                forall|t: int| j <= t < k ==> (#[trigger] nodes@[t]).left is None && nodes@[t].right is None,
                forall|j1: int, a1: int|
                    0 <= j1 < j && 0 <= a1 < gv[j1].1@.len() ==> (#[trigger] nodes@[gv[j1].1@[a1] as int]).parent
                        == Some(j1 as usize),
                forall|c: int|
                    0 <= c < k && !(exists|j1: int, a1: int|
                        0 <= j1 < j && 0 <= a1 < gv[j1].1@.len() && (#[trigger] gv[j1].1@[a1]) as int
                            == c) ==> (#[trigger] nodes@[c]).parent is None,
            decreases k - j,
        {
            let kids: &Vec<usize> = &g[j].1;
            let ghost pre = nodes@;
            proof {
                assert(entry_ok(gv, j as int));
            }
            if kids.len() >= 1 {
                let c0 = kids[0];
                let mut n = nodes[c0];
                n.parent = Some(j);
                nodes.set(c0, n);
                let mut nj = nodes[j];
                nj.left = Some(c0);
                nodes.set(j, nj);
            }
            if kids.len() == 2 {
                let c1 = kids[1];
                let mut n = nodes[c1];
                n.parent = Some(j);
                nodes.set(c1, n);
                let mut nj = nodes[j];
                nj.right = Some(c1);
                nodes.set(j, nj);
            }
            proof {
                let jj = j as int;
                let s2 = nodes@;
                if gv[jj].1@.len() == 2 && gv[jj].1@[0] == gv[jj].1@[1] {
                    assert(false);
                }
                assert forall|x: int| 0 <= x < k implies (#[trigger] s2[x]).parent == (if gv[jj].1@.len()
                    >= 1 && x == gv[jj].1@[0] as int {
                    Some(jj as usize)
                } else if gv[jj].1@.len() == 2 && x == gv[jj].1@[1] as int {
                    Some(jj as usize)
                } else {
                    pre[x].parent
                }) by {}
                assert forall|j1: int, a1: int|
                    0 <= j1 < jj + 1 && 0 <= a1 < gv[j1].1@.len() implies (#[trigger] s2[gv[j1].1@[a1] as int]).parent == Some(j1 as usize) by {
                    let t = gv[j1].1@[a1] as int;
                    assert(entry_ok(gv, j1));
                    assert(0 <= t < k);
                    if j1 < jj {
                        assert(pre[t].parent == Some(j1 as usize));
                        if gv[jj].1@.len() >= 1 && t == gv[jj].1@[0] as int {
                            assert(gv[j1].1@[a1] == gv[jj].1@[0]);
                            assert(false);
                        }
                        if gv[jj].1@.len() == 2 && t == gv[jj].1@[1] as int {
                            assert(gv[j1].1@[a1] == gv[jj].1@[1]);
                            assert(false);
                        }
                    }
                }
                assert forall|c: int|
                    0 <= c < k && !(exists|j1: int, a1: int|
                        0 <= j1 < jj + 1 && 0 <= a1 < gv[j1].1@.len() && (#[trigger] gv[j1].1@[a1]) as int
                            == c) implies (#[trigger] s2[c]).parent is None by {
                    assert(!(exists|j1: int, a1: int|
                        0 <= j1 < jj && 0 <= a1 < gv[j1].1@.len() && (#[trigger] gv[j1].1@[a1]) as int
                            == c));
                    assert(pre[c].parent is None);
                    if gv[jj].1@.len() >= 1 && c == gv[jj].1@[0] as int {
                        assert((gv[jj].1@[0] as int) == c);
                        assert(false);
                    }
                    if gv[jj].1@.len() == 2 && c == gv[jj].1@[1] as int {
                        assert((gv[jj].1@[1] as int) == c);
                        assert(false);
                    }
                }
            }
            j = j + 1;
        }
        // Phase 4: attach the images as leaves, in input order, to internal
        // nodes with fewer than two children, in creation order.
        let n_total = images.len();
        let mut used: usize = 0;
        let mut j: usize = 0;
        while j < k
            invariant
                j <= k,
                k >= 1,
                k == gv.len(),
                gv == g@,
                gv == blueprint.graph_representation@,
                codes_ok(gv),
                n_total == images@.len(),
                n_total == k + 1,
                used == slots_before(gv, j as int),
                used <= n_total,
                nodes@.len() == k + used,
                forall|t: int| 0 <= t < k ==> entry_ok(gv, t),
                refs_unique(gv),
                refs_complete(gv),
                slots_before(gv, k as int) == k + 1,
                forall|t: int|
                    0 <= t < images@.len() ==> (#[trigger] images@[t]).width >= 1
                        && images@[t].height >= 1,
                forall|t: int|
                    0 <= t < k ==> (#[trigger] nodes@[t]).label == NodeLabel::Internal(
                        decoded_dir(gv[t].0@),
                    ),
                forall|t: int|
                    0 <= t < k && gv[t].1@.len() >= 1 ==> (#[trigger] nodes@[t]).left == Some(
                        gv[t].1@[0],
                    ),
                forall|t: int|
                    0 <= t < k && gv[t].1@.len() == 2 ==> (#[trigger] nodes@[t]).right == Some(
                        gv[t].1@[1],
                    ),
                forall|t: int|
                    0 <= t < j && open_slots(gv, t) == 2 ==> (#[trigger] nodes@[t]).left == Some(
                        (k + slots_before(gv, t)) as usize,
                    ) && nodes@[t].right == Some((k + slots_before(gv, t) + 1) as usize),
                forall|t: int|
                    0 <= t < j && open_slots(gv, t) == 1 ==> (#[trigger] nodes@[t]).right == Some(
                        (k + slots_before(gv, t)) as usize,
                    ),
                forall|t: int|
                    j <= t < k && open_slots(gv, t) == 2 ==> (#[trigger] nodes@[t]).left is None
                        && nodes@[t].right is None,
                forall|t: int|
                    j <= t < k && open_slots(gv, t) == 1 ==> (#[trigger] nodes@[t]).right is None,
                forall|j1: int, a1: int|
                    0 <= j1 < k && 0 <= a1 < gv[j1].1@.len() ==> (#[trigger] nodes@[gv[j1].1@[a1] as int]).parent
                        == Some(j1 as usize),
                forall|t: int|
                    0 <= t < used ==> (#[trigger] nodes@[k + t]).label == NodeLabel::Leaf(
                        images@[t],
                    ) && nodes@[k + t].left is None && nodes@[k + t].right is None,
                forall|t: int|
                    0 <= t < used ==> ((#[trigger] nodes@[k + t]).parent matches Some(p) && (
                    p as int) < j && 0 <= (p as int) && (p as int) < k && ((open_slots(
                        gv,
                        p as int,
                    ) == 2 && (t == slots_before(gv, p as int) || t == slots_before(gv, p as int)
                        + 1)) || (open_slots(gv, p as int) == 1 && t == slots_before(
                        gv,
                        p as int,
                    )))),
                forall|c: int|
                    1 <= c < k && !(exists|j1: int, a1: int|
                        0 <= j1 < k && 0 <= a1 < gv[j1].1@.len() && (#[trigger] gv[j1].1@[a1]) as int
                            == c) ==> (#[trigger] nodes@[c]).parent is None,
                nodes@[0].parent is None,
                forall|t: int|
                    0 <= t < j && open_slots(gv, t) == 2 ==> (#[trigger] nodes@[k + slots_before(
                        gv,
                        t,
                    )]).parent == Some(t as usize) && nodes@[k + slots_before(gv, t) + 1].parent
                        == Some(t as usize),
                forall|t: int|
                    0 <= t < j && open_slots(gv, t) == 1 ==> (#[trigger] nodes@[k + slots_before(
                        gv,
                        t,
                    )]).parent == Some(t as usize),
            decreases k - j,
        {
            let ghost pre = nodes@;
            proof {
                assert(entry_ok(gv, j as int));
                lemma_slots_monotone(gv, j as int + 1, k as int);
            }
            let kids_listed = g[j].1.len();
            if kids_listed == 0 {
                let l0 = nodes.len();
                nodes.push(
                    Node {
                        label: NodeLabel::Leaf(images[used]),
                        parent: Some(j),
                        left: None,
                        right: None,
                    },
                );
                let l1 = nodes.len();
                nodes.push(
                    Node {
                        label: NodeLabel::Leaf(images[used + 1]),
                        parent: Some(j),
                        left: None,
                        right: None,
                    },
                );
                let mut nj = nodes[j];
                nj.left = Some(l0);
                nj.right = Some(l1);
                nodes.set(j, nj);
                proof {
                    let jj = j as int;
                    let s2 = nodes@;
                    assert forall|x: int| 0 <= x < pre.len() && x != jj implies #[trigger] s2[x]
                        == pre[x] by {}
                    assert(s2[jj].parent == pre[jj].parent);
                    assert(s2[jj].label == pre[jj].label);
                    assert forall|j1: int, a1: int|
                        0 <= j1 < k && 0 <= a1 < gv[j1].1@.len() implies (#[trigger] s2[gv[j1].1@[a1] as int]).parent
                        == Some(j1 as usize) by {
                        assert(pre[gv[j1].1@[a1] as int].parent == Some(j1 as usize));
                        assert(entry_ok(gv, j1));
                        assert((gv[j1].1@[a1] as int) < k);
                    }
                    assert forall|t: int|
                        0 <= t < jj + 1 && open_slots(gv, t) == 2 implies (#[trigger] s2[k
                        + slots_before(gv, t)]).parent == Some(t as usize) && s2[k + slots_before(
                        gv,
                        t,
                    ) + 1].parent == Some(t as usize) by {
                        if t < jj {
                            lemma_slots_monotone(gv, 0, t);
                            lemma_slots_monotone(gv, t + 1, jj);
                            assert(slots_before(gv, t + 1) == slots_before(gv, t) + open_slots(gv, t));
                            assert(slots_before(gv, t) + 2 <= slots_before(gv, jj));
                            assert(pre[k + slots_before(gv, t)].parent == Some(t as usize));
                            assert(pre[k + slots_before(gv, t) + 1].parent == Some(t as usize));
                            assert(s2[k + slots_before(gv, t)] == pre[k + slots_before(gv, t)]);
                            assert(s2[k + slots_before(gv, t) + 1] == pre[k + slots_before(gv, t) + 1]);
                        } else {
                            assert(used == slots_before(gv, jj));
                            assert(k + slots_before(gv, t) == pre.len());
                            assert(k + slots_before(gv, t) + 1 == pre.len() + 1);
                            assert(s2.len() == pre.len() + 2);
                            assert(s2[pre.len() as int].parent == Some(j));
                            assert(s2[pre.len() as int + 1].parent == Some(j));
                        }
                    }
                    assert forall|t: int|
                        0 <= t < jj + 1 && open_slots(gv, t) == 1 implies (#[trigger] s2[k
                        + slots_before(gv, t)]).parent == Some(t as usize) by {
                        if t < jj {
                            lemma_slots_monotone(gv, 0, t);
                            lemma_slots_monotone(gv, t + 1, jj);
                            assert(slots_before(gv, t) + 1 <= slots_before(gv, jj));
                            assert(pre[k + slots_before(gv, t)].parent == Some(t as usize));
                            assert(s2[k + slots_before(gv, t)] == pre[k + slots_before(gv, t)]);
                        } else {
                            assert(used == slots_before(gv, jj));
                            assert(k + slots_before(gv, t) == pre.len());
                        }
                    }
                }
                used = used + 2;
            } else if kids_listed == 1 {
                let l0 = nodes.len();
                nodes.push(
                    Node {
                        label: NodeLabel::Leaf(images[used]),
                        parent: Some(j),
                        left: None,
                        right: None,
                    },
                );
                let mut nj = nodes[j];
                nj.right = Some(l0);
                nodes.set(j, nj);
                proof {
                    let jj = j as int;
                    let s2 = nodes@;
                    assert forall|x: int| 0 <= x < pre.len() && x != jj implies #[trigger] s2[x]
                        == pre[x] by {}
                    assert(s2[jj].parent == pre[jj].parent);
                    assert(s2[jj].label == pre[jj].label);
                    assert forall|j1: int, a1: int|
                        0 <= j1 < k && 0 <= a1 < gv[j1].1@.len() implies (#[trigger] s2[gv[j1].1@[a1] as int]).parent
                        == Some(j1 as usize) by {
                        assert(pre[gv[j1].1@[a1] as int].parent == Some(j1 as usize));
                        assert(entry_ok(gv, j1));
                        assert((gv[j1].1@[a1] as int) < k);
                    }
                    assert forall|t: int|
                        0 <= t < jj + 1 && open_slots(gv, t) == 2 implies (#[trigger] s2[k
                        + slots_before(gv, t)]).parent == Some(t as usize) && s2[k + slots_before(
                        gv,
                        t,
                    ) + 1].parent == Some(t as usize) by {
                        if t < jj {
                            lemma_slots_monotone(gv, 0, t);
                            lemma_slots_monotone(gv, t + 1, jj);
                            assert(slots_before(gv, t + 1) == slots_before(gv, t) + open_slots(gv, t));
                            assert(slots_before(gv, t) + 2 <= slots_before(gv, jj));
                            assert(pre[k + slots_before(gv, t)].parent == Some(t as usize));
                            assert(pre[k + slots_before(gv, t) + 1].parent == Some(t as usize));
                            assert(s2[k + slots_before(gv, t)] == pre[k + slots_before(gv, t)]);
                            assert(s2[k + slots_before(gv, t) + 1] == pre[k + slots_before(gv, t) + 1]);
                        } else {
                            assert(used == slots_before(gv, jj));
                            assert(k + slots_before(gv, t) == pre.len());
                            assert(k + slots_before(gv, t) + 1 == pre.len() + 1);
                            assert(s2.len() == pre.len() + 2);
                            assert(s2[pre.len() as int].parent == Some(j));
                            assert(s2[pre.len() as int + 1].parent == Some(j));
                        }
                    }
                    assert forall|t: int|
                        0 <= t < jj + 1 && open_slots(gv, t) == 1 implies (#[trigger] s2[k
                        + slots_before(gv, t)]).parent == Some(t as usize) by {
                        if t < jj {
                            lemma_slots_monotone(gv, 0, t);
                            lemma_slots_monotone(gv, t + 1, jj);
                            assert(slots_before(gv, t) + 1 <= slots_before(gv, jj));
                            assert(pre[k + slots_before(gv, t)].parent == Some(t as usize));
                            assert(s2[k + slots_before(gv, t)] == pre[k + slots_before(gv, t)]);
                        } else {
                            assert(used == slots_before(gv, jj));
                            assert(k + slots_before(gv, t) == pre.len());
                        }
                    }
                }
                used = used + 1;
            }
            j = j + 1;
        }
        let total_nodes = nodes.len();
        let layout = Layout {
            canvas_dimensions: Dimensions { width: blueprint.width, height: blueprint.height },
            nodes,
        };
        proof {
            let s = layout.nodes@;
            assert(used == k + 1);
            assert(s.len() == total_nodes);
            assert(s.len() == 2 * k + 1);
            assert(ic_of(s) == k as int);
            assert forall|i: int| 0 <= i < k implies wf_internal_at(s, i) by {
                assert(entry_ok(gv, i));
                lemma_slots_monotone(gv, 0, i);
                lemma_slots_monotone(gv, i + 1, k as int);
                assert(slots_before(gv, i + 1) == slots_before(gv, i) + open_slots(gv, i));
                assert(slots_before(gv, i) + open_slots(gv, i) <= k + 1);
                if gv[i].1@.len() == 2 && gv[i].1@[0] == gv[i].1@[1] {
                    assert(false);
                }
                if gv[i].1@.len() >= 1 {
                    assert(s[gv[i].1@[0] as int].parent == Some(i as usize));
                }
                if gv[i].1@.len() == 2 {
                    assert(s[gv[i].1@[1] as int].parent == Some(i as usize));
                }
                if open_slots(gv, i) == 2 {
                    assert(s[k + slots_before(gv, i)].parent == Some(i as usize));
                    assert(s[k + slots_before(gv, i) + 1].parent == Some(i as usize));
                    assert(s[i].left == Some((k + slots_before(gv, i)) as usize));
                    assert(s[i].right == Some((k + slots_before(gv, i) + 1) as usize));
                }
                if open_slots(gv, i) == 1 {
                    assert(s[k + slots_before(gv, i)].parent == Some(i as usize));
                    assert(s[i].right == Some((k + slots_before(gv, i)) as usize));
                }
            }
            assert forall|i: int| k <= i < s.len() implies wf_leaf_at(s, i) by {
                let t = i - k;
                assert(s[k + t].label == NodeLabel::Leaf(images@[t]));
                assert(s[k + t].left is None && s[k + t].right is None);
            }
            assert forall|i: int| 1 <= i < s.len() implies wf_parent_at(s, i) by {
                if i < k {
                    assert(referenced(gv, i));
                    let (j1, a1) = choose|j1: int, a1: int|
                        0 <= j1 < gv.len() && 0 <= a1 < gv[j1].1@.len() && (#[trigger] gv[j1].1@[a1]) as int
                            == i;
                    assert(s[i].parent == Some(j1 as usize));
                    assert(entry_ok(gv, j1));
                    if a1 == 0 {
                        assert(s[j1].left == Some(i as usize));
                    } else {
                        assert(s[j1].right == Some(i as usize));
                    }
                } else {
                    let t = i - k;
                    assert(s[k + t].parent matches Some(_p));
                    let p = s[i].parent->0 as int;
                    lemma_slots_monotone(gv, 0, p);
                    lemma_slots_monotone(gv, p + 1, k as int);
                    if open_slots(gv, p) == 2 {
                        if t == slots_before(gv, p) {
                            assert(s[p].left == Some(i as usize));
                        } else {
                            assert(t == slots_before(gv, p) + 1);
                            assert(s[p].right == Some(i as usize));
                        }
                    } else {
                        assert(open_slots(gv, p) == 1);
                        assert(t == slots_before(gv, p));
                        assert(s[p].right == Some(i as usize));
                    }
                }
            }
            assert forall|i: int| 0 <= i < s.len() implies (is_internal(s[i]) <==> i < ic_of(
                s,
            )) by {
                if i < k {
                    assert(s[i].label == NodeLabel::Internal(decoded_dir(gv[i].0@)));
                } else {
                    let t = i - k;
                    assert(s[k + t].label == NodeLabel::Leaf(images@[t]));
                }
            }
            assert(wf_arena(s));
            assert forall|j2: int|
                0 <= j2 < k && open_slots(gv, j2) == 2 implies lchild(s, j2) == k + slots_before(
                gv,
                j2,
            ) && rchild(s, j2) == k + slots_before(gv, j2) + 1 by {
                lemma_slots_monotone(gv, 0, j2);
                lemma_slots_monotone(gv, j2 + 1, k as int);
                assert(slots_before(gv, j2 + 1) == slots_before(gv, j2) + open_slots(gv, j2));
                assert(s[j2].left == Some((k + slots_before(gv, j2)) as usize));
                assert(s[j2].right == Some((k + slots_before(gv, j2) + 1) as usize));
            }
            assert forall|j2: int|
                0 <= j2 < k && open_slots(gv, j2) == 1 implies rchild(s, j2) == k + slots_before(
                gv,
                j2,
            ) by {
                lemma_slots_monotone(gv, 0, j2);
                lemma_slots_monotone(gv, j2 + 1, k as int);
                assert(slots_before(gv, j2 + 1) == slots_before(gv, j2) + open_slots(gv, j2));
                assert(s[j2].right == Some((k + slots_before(gv, j2)) as usize));
            }
        }
        Ok(layout)
    }
}

/// Monotonicity of the slot count in the entry index.
proof fn lemma_slots_monotone(g: Seq<(String, Vec<usize>)>, j1: int, j2: int)
    requires
        0 <= j1 <= j2,
        forall|t: int| 0 <= t < g.len() ==> entry_ok(g, t),
        j2 <= g.len(),
    ensures
        slots_before(g, j1) <= slots_before(g, j2),
    decreases j2 - j1,
{
    if j1 < j2 {
        assert(entry_ok(g, j1));
        lemma_slots_monotone(g, j1 + 1, j2);
    }
}

fn codes_ok_exec(g: &Vec<(String, Vec<usize>)>) -> (r: bool)
    ensures
        r == codes_ok(g@),
{
    let mut j: usize = 0;
    while j < g.len()
        invariant
            j <= g@.len(),
            forall|t: int| 0 <= t < j ==> code_ok((#[trigger] g@[t]).0@),
        decreases g@.len() - j,
    {
        let code: &String = &g[j].0;
        if code.unicode_len() == 1 {
            let c = code.as_str().get_char(0);
            if c == 'V' {
                proof {
                    assert(code@ =~= code_v());
                }
            } else if c == 'H' {
                proof {
                    assert(code@ =~= code_h());
                }
            } else {
                proof {
                    assert(!code_ok(g@[j as int].0@));
                }
                return false;
            }
        } else {
            proof {
                assert(!code_ok(g@[j as int].0@));
            }
            return false;
        }
        j = j + 1;
    }
    true
}

} // verus!

verus! {

/// The predicate selecting internal nodes from a visiting order.
pub open spec fn internal_pred(s: Seq<Node>) -> spec_fn(usize) -> bool {
    |v: usize| (v as int) < s.len() && is_internal(s[v as int])
}

/// The internal nodes of the subtree rooted at start, in breadth-first
/// order: exactly the nodes the blueprint enumerates, in entry order.
pub open spec fn internal_order(s: Seq<Node>, start: usize) -> Seq<usize> {
    crate::crossover::bfs_of(s, start).filter(internal_pred(s))
}

/// The child-position list a blueprint entry carries for internal node v:
/// the positions, within the internal order, of those of v's children that
/// are themselves internal, left before right.
pub open spec fn entry_children(s: Seq<Node>, start: usize, v: usize) -> Seq<usize> {
    let ord = internal_order(s, start);
    let l = s[v as int].left->0;
    let r = s[v as int].right->0;
    if (internal_pred(s))(l) && (internal_pred(s))(r) {
        seq![ord.index_of(l) as usize, ord.index_of(r) as usize]
    } else if (internal_pred(s))(l) {
        seq![ord.index_of(l) as usize]
    } else if (internal_pred(s))(r) {
        seq![ord.index_of(r) as usize]
    } else {
        Seq::empty()
    }
}

impl Layout {
    /// Serializes the subtree rooted at the given node: one entry per
    /// internal node in breadth-first order, each carrying its direction
    /// code and the positions of its internal children within this list.
    #[verifier::rlimit(100)]
    pub fn subtree_to_blueprint(&self, index: usize) -> (r: Vec<(String, Vec<usize>)>)
        requires
            self.wf(),
            index < self.nodes@.len(),
        ensures
            codes_ok(r@),
            r@.len() == crate::tree::subtree_internal_count(self.nodes@, index as int),
            r@.len() == internal_order(self.nodes@, index).len(),
            forall|j: int|
                0 <= j < r@.len() ==> {
                    let v = internal_order(self.nodes@, index)[j];
                    &&& decoded_dir((#[trigger] r@[j]).0@) == dir_of(self.nodes@[v as int])
                    &&& r@[j].1@ == entry_children(self.nodes@, index, v)
                },
            forall|j: int| 0 <= j < r@.len() ==> (#[trigger] r@[j]).1@.len() <= 2,
    {
        broadcast use vstd::string::group_string_axioms;
        broadcast use vstd::seq_lib::group_to_multiset_ensures;

        let total = self.nodes.len();
        let db = self.subtree_bfs(index);
        let mut order: Vec<usize> = Vec::new();
        let mut i: usize = 0;
        while i < db.len()
            invariant
                i <= db@.len(),
                self.wf(),
                total == self.nodes@.len(),
                index < self.nodes@.len(),
                forall|t: int| 0 <= t < db@.len() ==> (#[trigger] db@[t]) < self.nodes@.len(),
                forall|t: int|
                    0 <= t < order@.len() ==> (#[trigger] order@[t]) < self.nodes@.len()
                        && is_internal(self.nodes@[order@[t] as int]),
                db@.len() >= 1 && db@[0] == index,
                db@ == crate::crossover::bfs_of(self.nodes@, index),
                db@.no_duplicates(),
                db@.to_multiset() == crate::tree::subtree_nodes(
                    self.nodes@,
                    index as int,
                ).to_multiset(),
                order@ == db@.take(i as int).filter(internal_pred(self.nodes@)),
                order@.len() as int == crate::tree::seq_weight(
                    db@.take(i as int),
                    crate::tree::internal_weight(self.nodes@),
                ),
            decreases db@.len() - i,
        {
            proof {
                assert(db@.take(i as int + 1) =~= db@.take(i as int) + seq![db@[i as int]]);
                assert(db@.take(i as int + 1) =~= db@.take(i as int).push(db@[i as int]));
                crate::crossover::lemma_seq_weight_push(
                    db@.take(i as int),
                    db@[i as int],
                    crate::tree::internal_weight(self.nodes@),
                );
                Seq::filter_distributes_over_add(
                    db@.take(i as int),
                    seq![db@[i as int]],
                    internal_pred(self.nodes@),
                );
                crate::crossover::lemma_filter_singleton(
                    db@[i as int],
                    internal_pred(self.nodes@),
                );
            }
            let v = db[i];
            match self.nodes[v].label {
                NodeLabel::Internal(_) => {
                    order.push(v);
                    proof {
                        assert((internal_pred(self.nodes@))(v));
                        assert(order@ =~= db@.take(i as int + 1).filter(
                            internal_pred(self.nodes@),
                        ));
                    }
                },
                NodeLabel::Leaf(_) => {
                    proof {
                        assert(!(internal_pred(self.nodes@))(v));
                        assert(order@ =~= db@.take(i as int + 1).filter(
                            internal_pred(self.nodes@),
                        ));
                    }
                },
            }
            i = i + 1;
        }
        proof {
            assert(db@.take(db@.len() as int) =~= db@);
            crate::tree::lemma_seq_weight_permutation(
                db@,
                crate::tree::subtree_nodes(self.nodes@, index as int),
                crate::tree::internal_weight(self.nodes@),
            );
            crate::tree::lemma_subtree_weights(self.nodes@, index as int);
            assert(i == db@.len());
            assert(db@.take(i as int) =~= db@);
            assert(db@.take(i as int) == db@);
            assert(order@ == db@.filter(internal_pred(self.nodes@)));
            assert(order@ == internal_order(self.nodes@, index));
            crate::crossover::lemma_filter_sub_no_dup(db@, internal_pred(self.nodes@));
            assert(order@.no_duplicates());
        }
        let mut r: Vec<(String, Vec<usize>)> = Vec::new();
        let mut t: usize = 0;
        while t < order.len()
            invariant
                t <= order@.len(),
                self.wf(),
                total == self.nodes@.len(),
                index < self.nodes@.len(),
                db@ == crate::crossover::bfs_of(self.nodes@, index),
                db@.to_multiset() == crate::tree::subtree_nodes(
                    self.nodes@,
                    index as int,
                ).to_multiset(),
                order@ == internal_order(self.nodes@, index),
                order@.no_duplicates(),
                forall|e: usize| order@.contains(e) ==> db@.contains(e),
                forall|u: int|
                    0 <= u < order@.len() ==> (#[trigger] order@[u]) < self.nodes@.len()
                        && is_internal(self.nodes@[order@[u] as int]),
                r@.len() == t,
                forall|j: int| 0 <= j < r@.len() ==> code_ok((#[trigger] r@[j]).0@),
                forall|j: int|
                    0 <= j < r@.len() ==> {
                        let v = internal_order(self.nodes@, index)[j];
                        &&& decoded_dir((#[trigger] r@[j]).0@) == dir_of(self.nodes@[v as int])
                        &&& r@[j].1@ == entry_children(self.nodes@, index, v)
                    },
                forall|j: int| 0 <= j < r@.len() ==> (#[trigger] r@[j]).1@.len() <= 2,
            decreases order@.len() - t,
        {
            broadcast use vstd::seq_lib::group_to_multiset_ensures;

            let node = order[t];
            proof {
                assert(wf_internal_at(self.nodes@, node as int));
                assert(order@.contains(node)) by {
                    assert(order@[t as int] == node);
                }
                assert(db@.contains(node));
                crate::crossover::lemma_contains_via_multiset(
                    db@,
                    crate::tree::subtree_nodes(self.nodes@, index as int),
                    node,
                );
                crate::crossover::lemma_subtree_child_closed_pub(
                    self.nodes@,
                    index as int,
                    node,
                );
            }
            let code = match self.nodes[node].label {
                NodeLabel::Internal(SliceDirection::Vertical) => {
                    let c = String::from_str("V");
                    proof {
                        reveal_strlit("V");
                        assert(c@ =~= code_v());
                    }
                    c
                },
                NodeLabel::Internal(SliceDirection::Horizontal) => {
                    let c = String::from_str("H");
                    proof {
                        reveal_strlit("H");
                        assert(c@ =~= code_h());
                        assert(c@ != code_v()) by {
                            assert(c@[0] == 'H');
                            assert(code_v()[0] == 'V');
                        }
                    }
                    c
                },
                NodeLabel::Leaf(_) => {
                    proof {
                        assert(false);
                    }
                    String::new()
                },
            };
            let mut kids: Vec<usize> = Vec::new();
            let (l, rr) = match (self.nodes[node].left, self.nodes[node].right) {
                (Some(l), Some(rr)) => (l, rr),
                _ => {
                    proof {
                        assert(false);
                    }
                    (0, 0)
                },
            };
            match self.nodes[l].label {
                NodeLabel::Internal(_) => {
                    proof {
                        assert((internal_pred(self.nodes@))(l));
                        crate::crossover::lemma_contains_via_multiset(
                            crate::tree::subtree_nodes(self.nodes@, index as int),
                            db@,
                            l,
                        );
                        assert(db@.contains(l));
                        let di = choose|di: int| 0 <= di < db@.len() && db@[di] == l;
                        Seq::lemma_filter_contains(
                            db@,
                            internal_pred(self.nodes@),
                            di,
                        );
                        assert(order@.contains(l));
                    }
                    match position_in(&order, l) {
                        Some(pos) => {
                            proof {
                                let io = order@.index_of(l);
                                assert(0 <= io < order@.len() && order@[io] == l);
                                assert(order@[pos as int] == l);
                                assert(pos as int == io);
                            }
                            kids.push(pos);
                        },
                        None => {
                            proof {
                                assert(false);
                            }
                        },
                    }
                },
                NodeLabel::Leaf(_) => {
                    proof {
                        assert(!(internal_pred(self.nodes@))(l));
                    }
                },
            }
            match self.nodes[rr].label {
                NodeLabel::Internal(_) => {
                    proof {
                        assert((internal_pred(self.nodes@))(rr));
                        crate::crossover::lemma_contains_via_multiset(
                            crate::tree::subtree_nodes(self.nodes@, index as int),
                            db@,
                            rr,
                        );
                        assert(db@.contains(rr));
                        let di = choose|di: int| 0 <= di < db@.len() && db@[di] == rr;
                        Seq::lemma_filter_contains(
                            db@,
                            internal_pred(self.nodes@),
                            di,
                        );
                        assert(order@.contains(rr));
                    }
                    match position_in(&order, rr) {
                        Some(pos) => {
                            proof {
                                let io = order@.index_of(rr);
                                assert(0 <= io < order@.len() && order@[io] == rr);
                                assert(order@[pos as int] == rr);
                                assert(pos as int == io);
                            }
                            kids.push(pos);
                        },
                        None => {
                            proof {
                                assert(false);
                            }
                        },
                    }
                },
                NodeLabel::Leaf(_) => {
                    proof {
                        assert(!(internal_pred(self.nodes@))(rr));
                    }
                },
            }
            proof {
                assert(self.nodes@[node as int].left->0 == l);
                assert(self.nodes@[node as int].right->0 == rr);
                assert(kids@ == entry_children(self.nodes@, index, node));
                assert(decoded_dir(code@) == dir_of(self.nodes@[node as int]));
            }
            r.push((code, kids));
            t = t + 1;
        }
        r
    }

    /// Serializes the whole layout: the internal nodes in breadth-first
    /// order together with the canvas dimensions.
    pub fn to_blueprint(&self) -> (r: LayoutBlueprint)
        requires
            self.wf(),
        ensures
            r.width == self.canvas_dimensions.width,
            r.height == self.canvas_dimensions.height,
            codes_ok(r.graph_representation@),
            r.graph_representation@.len() >= 1,
            r.graph_representation@.len() == internal_order(self.nodes@, 0).len(),
            r.graph_representation@.len() == crate::tree::subtree_internal_count(self.nodes@, 0),
            forall|j: int|
                0 <= j < r.graph_representation@.len() ==> {
                    let v = internal_order(self.nodes@, 0)[j];
                    &&& decoded_dir((#[trigger] r.graph_representation@[j]).0@) == dir_of(
                        self.nodes@[v as int],
                    )
                    &&& r.graph_representation@[j].1@ == entry_children(self.nodes@, 0, v)
                },
    {
        let total = self.nodes.len();
        let graph_representation = self.subtree_to_blueprint(0);
        proof {
            crate::tree::lemma_subtree_counts(self.nodes@, 0);
        }
        LayoutBlueprint {
            graph_representation,
            width: self.canvas_dimensions.width,
            height: self.canvas_dimensions.height,
        }
    }
}

/// The position of a value in the vector, if present.
fn position_in(v: &Vec<usize>, x: usize) -> (r: Option<usize>)
    ensures
        r matches Some(t) ==> t < v@.len() && v@[t as int] == x,
        r is None ==> !v@.contains(x),
{
    let mut i: usize = 0;
    while i < v.len()
        invariant
            i <= v@.len(),
            forall|t: int| 0 <= t < i ==> v@[t] != x,
        decreases v@.len() - i,
    {
        if v[i] == x {
            return Some(i);
        }
        i = i + 1;
    }
    proof {
        assert(!v@.contains(x));
    }
    None
}

} // verus!

verus! {

/// An entry's child list is small enough and stays in range; unlike the
/// creation-order form, references may point anywhere in the list.
pub open spec fn entry_sane(g: Seq<(String, Vec<usize>)>, j: int) -> bool {
    &&& g[j].1@.len() <= 2
    &&& forall|a: int| 0 <= a < g[j].1@.len() ==> ((#[trigger] g[j].1@[a]) as int) < g.len()
}

/// The unique entry listing c as a child.
pub open spec fn lists_child(g: Seq<(String, Vec<usize>)>, j: int, c: int) -> bool {
    exists|a: int| 0 <= a < g[j].1@.len() && ((#[trigger] g[j].1@[a]) as int) == c
}

pub open spec fn parent_entry(g: Seq<(String, Vec<usize>)>, c: int) -> int {
    choose|j: int| 0 <= j < g.len() && #[trigger] lists_child(g, j, c)
}

/// Whether following parents from c reaches the root within the given fuel.
pub open spec fn climbs(g: Seq<(String, Vec<usize>)>, root: int, c: int, fuel: int) -> bool
    decreases fuel,
{
    if c == root {
        true
    } else if fuel <= 0 {
        false
    } else if referenced(g, c) {
        climbs(g, root, parent_entry(g, c), fuel - 1)
    } else {
        false
    }
}

/// The entries describe a single rooted tree, with the root at any
/// position: sane entries, no node referenced twice, and one unreferenced
/// entry from which every entry hangs.
pub open spec fn tree_structure_ok(g: Seq<(String, Vec<usize>)>) -> bool {
    &&& g.len() >= 1
    &&& forall|j: int| 0 <= j < g.len() ==> entry_sane(g, j)
    &&& refs_unique(g)
    &&& exists|root: int|
        0 <= root < g.len() && !(#[trigger] referenced(g, root)) && forall|c: int|
            0 <= c < g.len() ==> climbs(g, root, c, g.len() as int)
}

/// More fuel never hurts a climb.
proof fn lemma_climbs_fuel(g: Seq<(String, Vec<usize>)>, root: int, c: int, f1: int, f2: int)
    requires
        climbs(g, root, c, f1),
        f1 <= f2,
    ensures
        climbs(g, root, c, f2),
    decreases f1,
{
    if c != root {
        lemma_climbs_fuel(g, root, parent_entry(g, c), f1 - 1, f2 - 1);
    }
}

/// In a creation-ordered list every entry climbs to entry 0.
proof fn lemma_climbs_forward(g: Seq<(String, Vec<usize>)>, c: int)
    requires
        forall|j: int| 0 <= j < g.len() ==> entry_ok(g, j),
        refs_unique(g),
        refs_complete(g),
        g.len() >= 1,
        0 <= c < g.len(),
    ensures
        climbs(g, 0, c, c + 1),
    decreases c,
{
    if c != 0 {
        assert(referenced(g, c));
        let p = parent_entry(g, c);
        assert(0 <= p < g.len() && lists_child(g, p, c)) by {
            let (j, a) = choose|j: int, a: int|
                0 <= j < g.len() && 0 <= a < g[j].1@.len() && ((#[trigger] g[j].1@[a]) as int)
                    == c;
            assert(g[j].1@[a] as int == c);
            assert(lists_child(g, j, c));
        }
        let a = choose|a: int| 0 <= a < g[p].1@.len() && ((#[trigger] g[p].1@[a]) as int) == c;
        assert(entry_ok(g, p));
        assert(p < c);
        lemma_climbs_forward(g, p);
        lemma_climbs_fuel(g, 0, p, p + 1, c);
    }
}

/// Under forward references, the two tree conditions coincide.
proof fn lemma_forward_tree_equiv(g: Seq<(String, Vec<usize>)>)
    requires
        g.len() >= 1,
        forall|j: int| 0 <= j < g.len() ==> entry_sane(g, j),
        forall|j: int, a: int|
            0 <= j < g.len() && 0 <= a < g[j].1@.len() ==> j < ((#[trigger] g[j].1@[a]) as int),
    ensures
        structure_ok(g) <==> tree_structure_ok(g),
{
    assert forall|j: int| 0 <= j < g.len() implies entry_ok(g, j) by {
        assert(entry_sane(g, j));
    }
    if structure_ok(g) {
        assert(!referenced(g, 0)) by {
            if referenced(g, 0) {
                let (j, a) = choose|j: int, a: int|
                    0 <= j < g.len() && 0 <= a < g[j].1@.len() && ((#[trigger] g[j].1@[a]) as int)
                        == 0;
            }
        }
        assert forall|c: int| 0 <= c < g.len() implies climbs(g, 0, c, g.len() as int) by {
            lemma_climbs_forward(g, c);
            lemma_climbs_fuel(g, 0, c, c + 1, g.len() as int);
        }
        assert(tree_structure_ok(g));
    }
    if tree_structure_ok(g) {
        let root = choose|root: int|
            0 <= root < g.len() && !(#[trigger] referenced(g, root)) && forall|c: int|
                0 <= c < g.len() ==> climbs(g, root, c, g.len() as int);
        assert(root == 0) by {
            if root != 0 {
                assert(climbs(g, root, 0, g.len() as int));
                assert(referenced(g, 0));
                let (j, a) = choose|j: int, a: int|
                    0 <= j < g.len() && 0 <= a < g[j].1@.len() && ((#[trigger] g[j].1@[a]) as int)
                        == 0;
            }
        }
        assert forall|c: int| 1 <= c < g.len() implies #[trigger] referenced(g, c) by {
            assert(climbs(g, 0, c, g.len() as int));
        }
        assert(structure_ok(g));
    }
}

} // verus!

verus! {

proof fn lemma_count_true_at(s: Seq<bool>, j: int, r: int)
    requires
        0 <= j <= s.len(),
        0 <= r < s.len(),
        !s[r],
        forall|i: int| 0 <= i < j && i != r ==> s[i],
    ensures
        r < j ==> count_true(s, j) == j - 1,
        j <= r ==> count_true(s, j) == j,
    decreases j,
{
    if j > 0 {
        lemma_count_true_at(s, j - 1, r);
    }
}

proof fn lemma_count_true_two(s: Seq<bool>, j: int, r1: int, r2: int)
    requires
        0 <= j <= s.len(),
        0 <= r1 < r2 < s.len(),
        !s[r1],
        !s[r2],
    ensures
        r2 < j ==> count_true(s, j) <= j - 2,
        r1 < j <= r2 ==> count_true(s, j) <= j - 1,
        j <= r1 ==> count_true(s, j) <= j,
    decreases j,
{
    if j > 0 {
        lemma_count_true_two(s, j - 1, r1, r2);
    }
}

/// Monotonicity of the slot count under the relaxed entry condition.
proof fn lemma_slots_monotone_sane(g: Seq<(String, Vec<usize>)>, j1: int, j2: int)
    requires
        0 <= j1 <= j2,
        forall|t: int| 0 <= t < g.len() ==> (#[trigger] g[t]).1@.len() <= 2,
        j2 <= g.len(),
    ensures
        slots_before(g, j1) <= slots_before(g, j2),
    decreases j2 - j1,
{
    if j1 < j2 {
        lemma_slots_monotone_sane(g, j1 + 1, j2);
    }
}

/// Two no-duplicate sequences over the same elements carry the same
/// multiset.
pub(crate) proof fn lemma_no_dup_same_elements_multiset(a: Seq<usize>, b: Seq<usize>)
    requires
        a.no_duplicates(),
        b.no_duplicates(),
        forall|v: usize| a.contains(v) <==> b.contains(v),
    ensures
        a.to_multiset() == b.to_multiset(),
{
    broadcast use vstd::seq_lib::group_to_multiset_ensures;

    a.lemma_multiset_has_no_duplicates();
    b.lemma_multiset_has_no_duplicates();
    assert forall|v: usize| true implies a.to_multiset().count(v) == b.to_multiset().count(
        v,
    ) by {
        if a.contains(v) {
            assert(a.to_multiset().count(v) == 1 && b.to_multiset().count(v) == 1);
        } else {
            assert(a.to_multiset().count(v) == 0 && b.to_multiset().count(v) == 0);
        }
    }
    assert(a.to_multiset() =~= b.to_multiset());
}

/// The per-entry child-list length, as a weight over entry indices.
pub open spec fn len_weight(g: Seq<(String, Vec<usize>)>) -> spec_fn(usize) -> int {
    |e: usize|
        if (e as int) < g.len() {
            g[e as int].1@.len() as int
        } else {
            0int
        }
}

proof fn lemma_sum_lens_is_weight(g: Seq<(String, Vec<usize>)>, j: int)
    requires
        0 <= j <= g.len(),
        g.len() <= usize::MAX,
    ensures
        crate::tree::seq_weight(Seq::new(j as nat, |i: int| i as usize), len_weight(g)) == sum_lens(
            g,
            j,
        ),
    decreases j,
{
    if j > 0 {
        lemma_sum_lens_is_weight(g, j - 1);
        let full = Seq::new(j as nat, |i: int| i as usize);
        let pre = Seq::new((j - 1) as nat, |i: int| i as usize);
        assert(full =~= pre.push((j - 1) as usize));
        crate::crossover::lemma_seq_weight_push(pre, (j - 1) as usize, len_weight(g));
        assert((len_weight(g))((j - 1) as usize) == g[j - 1].1@.len() as int);
    } else {
        assert(Seq::new(0nat, |i: int| i as usize) =~= Seq::<usize>::empty());
        assert(crate::tree::seq_weight(Seq::<usize>::empty(), len_weight(g)) == 0);
    }
}

/// Entry coverage implied by a climb: if every processed entry's children
/// are covered and the root is covered, everything that climbs is covered.
proof fn lemma_climb_covered(
    g: Seq<(String, Vec<usize>)>,
    root: int,
    c: int,
    fuel: int,
    visited: Seq<bool>,
)
    requires
        refs_unique(g),
        climbs(g, root, c, fuel),
        0 <= root < g.len(),
        0 <= c < g.len(),
        visited.len() == g.len(),
        visited[root],
        forall|j: int, a: int|
            0 <= j < g.len() && visited[j] && 0 <= a < g[j].1@.len() && ((
            #[trigger] g[j].1@[a]) as int) < g.len() ==> visited[g[j].1@[a] as int],
    ensures
        visited[c],
    decreases fuel,
{
    if c != root {
        let p = parent_entry(g, c);
        assert(referenced(g, c));
        let (j, a) = choose|j: int, a: int|
            0 <= j < g.len() && 0 <= a < g[j].1@.len() && ((#[trigger] g[j].1@[a]) as int) == c;
        assert(lists_child(g, j, c));
        assert(0 <= p < g.len() && lists_child(g, p, c)) by {
            assert(exists|j2: int| 0 <= j2 < g.len() && #[trigger] lists_child(g, j2, c));
        }
        lemma_climb_covered(g, root, p, fuel - 1, visited);
        let a2 = choose|a2: int|
            0 <= a2 < g[p].1@.len() && ((#[trigger] g[p].1@[a2]) as int) == c;
        assert(visited[c]);
    }
}

} // verus!

verus! {

proof fn lemma_count_true_all(s: Seq<bool>, j: int)
    requires
        0 <= j <= s.len(),
        forall|i: int| 0 <= i < j ==> s[i],
    ensures
        count_true(s, j) == j,
    decreases j,
{
    if j > 0 {
        lemma_count_true_all(s, j - 1);
    }
}

impl Layout {
    /// Reconstructs a layout from a blueprint and the caller's images.
    ///
    /// Succeeds exactly when every direction code is "V" or "H", the child
    /// indices describe a single rooted tree over the entries (the root may
    /// sit at any position), and the image count equals the number of free
    /// child slots; the error says which of the three failed, in that order
    /// of precedence. When the references are in creation order, blueprint
    /// entry i becomes arena node i and the whole arena is pinned below;
    /// otherwise the internal nodes are laid out in breadth-first order,
    /// with the leaves still attached by entry creation order.
    #[verifier::rlimit(100)]
    pub fn from_blueprint(blueprint: &LayoutBlueprint, images: &Vec<ImageHandle>) -> (r: Result<
        Layout,
        BlueprintError,
    >)
        requires
            forall|t: int|
                0 <= t < images@.len() ==> (#[trigger] images@[t]).width >= 1 && images@[t].height
                    >= 1,
        ensures
            r matches Err(e) ==> {
                ||| (e == BlueprintError::UnknownLabel && !codes_ok(
                    blueprint.graph_representation@,
                ))
                ||| (e == BlueprintError::MalformedStructure && codes_ok(
                    blueprint.graph_representation@,
                ) && !tree_structure_ok(blueprint.graph_representation@))
                ||| (e == BlueprintError::ImageCountMismatch && codes_ok(
                    blueprint.graph_representation@,
                ) && tree_structure_ok(blueprint.graph_representation@) && !count_ok(
                    blueprint.graph_representation@,
                    images@.len() as int,
                ))
            },
            r is Ok <==> codes_ok(blueprint.graph_representation@) && tree_structure_ok(
                blueprint.graph_representation@,
            ) && count_ok(blueprint.graph_representation@, images@.len() as int),
            r matches Ok(l) ==> {
                &&& l.wf()
                &&& l.canvas_dimensions == (Dimensions {
                    width: blueprint.width,
                    height: blueprint.height,
                })
                &&& ic_of(l.nodes@) == blueprint.graph_representation@.len()
                &&& l.nodes@.len() == blueprint.graph_representation@.len() + images@.len()
                &&& structure_ok(blueprint.graph_representation@) ==> creation_order_decode_ok(
                    blueprint,
                    images@,
                    l,
                )
            },
    {
        let g = &blueprint.graph_representation;
        let k = g.len();
        let ghost gv = g@;
        // Decide the route: creation-order references decode directly so
        // that entry i becomes node i; anything else is first checked as a
        // general tree and laid out in breadth-first order.
        let mut sane = true;
        let mut forward = true;
        let mut j: usize = 0;
        while j < k
            invariant
                j <= k,
                k == gv.len(),
                gv == g@,
                gv == blueprint.graph_representation@,
                sane <==> (forall|t: int| 0 <= t < j ==> entry_sane(gv, t)),
                forward <==> (forall|t: int, a: int|
                    0 <= t < j && 0 <= a < gv[t].1@.len() ==> t < ((#[trigger] gv[t].1@[a]) as int)),
            decreases k - j,
        {
            let kids: &Vec<usize> = &g[j].1;
            if kids.len() > 2 {
                sane = false;
            }
            let mut a: usize = 0;
            while a < kids.len()
                invariant
                    j < k,
                    a <= kids@.len(),
                    k == gv.len(),
                    gv == g@,
                gv == blueprint.graph_representation@,
                    kids@ == gv[j as int].1@,
                    sane ==> (forall|t: int| 0 <= t < j ==> entry_sane(gv, t)),
                    sane ==> gv[j as int].1@.len() <= 2,
                    sane ==> (forall|a1: int|
                        0 <= a1 < a ==> ((#[trigger] kids@[a1]) as int) < k),
                    !sane ==> !(forall|t: int| 0 <= t < j ==> entry_sane(gv, t)) || !entry_sane(
                        gv,
                        j as int,
                    ),
                    forward ==> (forall|t: int, a1: int|
                        0 <= t < j && 0 <= a1 < gv[t].1@.len() ==> t < ((
                        #[trigger] gv[t].1@[a1]) as int)),
                    forward ==> (forall|a1: int|
                        0 <= a1 < a ==> (j as int) < ((#[trigger] kids@[a1]) as int)),
                    !forward ==> !(forall|t: int, a1: int|
                        0 <= t < j && 0 <= a1 < gv[t].1@.len() ==> t < ((
                        #[trigger] gv[t].1@[a1]) as int)) || exists|a1: int|
                        0 <= a1 < a && ((#[trigger] kids@[a1]) as int) <= j,
                decreases kids@.len() - a,
            {
                let c = kids[a];
                if c >= k {
                    sane = false;
                }
                if c <= j {
                    forward = false;
                }
                a = a + 1;
            }
            j = j + 1;
        }
        if !sane || forward {
            proof {
                if sane && forward && k >= 1 {
                    lemma_forward_tree_equiv(gv);
                }
                if !sane {
                    assert(!tree_structure_ok(gv)) by {
                        if tree_structure_ok(gv) {
                        }
                    }
                    assert(!structure_ok(gv)) by {
                        if structure_ok(gv) {
                            let t = choose|t: int| 0 <= t < k && !entry_sane(gv, t);
                            assert(entry_ok(gv, t));
                        }
                    }
                }
                if k == 0 {
                    assert(!tree_structure_ok(gv));
                    assert(!structure_ok(gv));
                }
            }
            return Self::from_creation_order(blueprint, images);
        }
        // From here the references are sane but not all forward, so the
        // creation-order layout is ruled out.
        proof {
            assert(k >= 1);
            assert(!structure_ok(gv)) by {
                let a1 = choose|a1: int|
                    0 <= a1 < gv[0].1@.len() && ((#[trigger] gv[0].1@[a1]) as int) <= 0;
                if structure_ok(gv) {
                    let (t, a1) = choose|t: int, a1: int|
                        0 <= t < k && 0 <= a1 < gv[t].1@.len() && ((#[trigger] gv[t].1@[a1]) as int)
                            <= t;
                    assert(entry_ok(gv, t));
                }
            }
        }
        if !codes_ok_exec(g) {
            return Err(BlueprintError::UnknownLabel);
        }
        // No entry may be referenced twice.
        let mut seen: Vec<bool> = Vec::new();
        let mut t: usize = 0;
        while t < k
            invariant
                t <= k,
                seen@.len() == t,
                forall|i: int| 0 <= i < t ==> !(#[trigger] seen@[i]),
            decreases k - t,
        {
            seen.push(false);
            t = t + 1;
        }
        proof {
            lemma_count_true_zero(seen@, k as int);
        }
        let mut refs_total: usize = 0;
        let mut j: usize = 0;
        while j < k
            invariant
                j <= k,
                k >= 1,
                k == gv.len(),
                gv == g@,
                gv == blueprint.graph_representation@,
                codes_ok(gv),
                forall|t: int| 0 <= t < k ==> entry_sane(gv, t),
                seen@.len() == k,
                refs_total == sum_lens(gv, j as int),
                refs_total == count_true(seen@, k as int),
                forall|c: int|
                    0 <= c < k ==> (#[trigger] seen@[c] <==> exists|j1: int, a1: int|
                        0 <= j1 < j && 0 <= a1 < gv[j1].1@.len() && (#[trigger] gv[j1].1@[a1]) as int
                            == c),
                forall|j1: int, a1: int, j2: int, a2: int|
                    0 <= j1 < j && 0 <= a1 < gv[j1].1@.len() && 0 <= j2 < j && 0 <= a2
                        < gv[j2].1@.len() && #[trigger] gv[j1].1@[a1] == #[trigger] gv[j2].1@[a2]
                        ==> j1 == j2 && a1 == a2,
            decreases k - j,
        {
            let kids: &Vec<usize> = &g[j].1;
            proof {
                assert(entry_sane(gv, j as int));
            }
            let mut a: usize = 0;
            while a < kids.len()
                invariant
                    j < k,
                    k >= 1,
                    a <= kids@.len(),
                    kids@.len() <= 2,
                    k == gv.len(),
                    gv == g@,
                gv == blueprint.graph_representation@,
                    codes_ok(gv),
                    forall|t: int| 0 <= t < k ==> entry_sane(gv, t),
                    kids@ == gv[j as int].1@,
                    seen@.len() == k,
                    refs_total == sum_lens(gv, j as int) + a,
                    refs_total == count_true(seen@, k as int),
                    forall|c: int|
                        0 <= c < k ==> (#[trigger] seen@[c] <==> exists|j1: int, a1: int|
                            (0 <= j1 < j && 0 <= a1 < gv[j1].1@.len() || j1 == j && 0 <= a1 < a)
                                && 0 <= a1 < gv[j1].1@.len() && (#[trigger] gv[j1].1@[a1]) as int
                                == c),
                    forall|j1: int, a1: int, j2: int, a2: int|
                        (0 <= j1 < j && 0 <= a1 < gv[j1].1@.len() || j1 == j && 0 <= a1 < a) && (0
                            <= j2 < j && 0 <= a2 < gv[j2].1@.len() || j2 == j && 0 <= a2 < a) && 0
                            <= a1 < gv[j1].1@.len() && 0 <= a2 < gv[j2].1@.len() && #[trigger] gv[j1].1@[a1]
                            == #[trigger] gv[j2].1@[a2] ==> j1 == j2 && a1 == a2,
                decreases kids@.len() - a,
            {
                let c = kids[a];
                proof {
                    assert(entry_sane(gv, j as int));
                    assert((c as int) < k);
                }
                if seen[c] {
                    proof {
                        let (j1, a1) = choose|j1: int, a1: int|
                            (0 <= j1 < j && 0 <= a1 < gv[j1].1@.len() || j1 == j && 0 <= a1 < a)
                                && 0 <= a1 < gv[j1].1@.len() && (#[trigger] gv[j1].1@[a1]) as int
                                == c as int;
                        assert(gv[j1].1@[a1] == gv[j as int].1@[a as int]);
                        assert(!refs_unique(gv));
                        assert(!tree_structure_ok(gv));
                        assert(gv == blueprint.graph_representation@);
                    }
                    return Err(BlueprintError::MalformedStructure);
                }
                proof {
                    lemma_count_true_update(seen@, c as int, k as int);
                }
                seen.set(c, true);
                proof {
                    lemma_count_true_le(seen@, k as int);
                }
                refs_total = refs_total + 1;
                a = a + 1;
            }
            j = j + 1;
        }
        proof {
            assert(refs_unique(gv));
        }
        // A single rooted tree has exactly one unreferenced entry.
        if refs_total != k - 1 {
            proof {
                assert(!tree_structure_ok(gv)) by {
                    if tree_structure_ok(gv) {
                        let root = choose|root: int|
                            0 <= root < gv.len() && !(#[trigger] referenced(gv, root)) && forall|
                                c: int,
                            | 0 <= c < gv.len() ==> climbs(gv, root, c, gv.len() as int);
                        assert(!seen@[root]) by {
                            if seen@[root] {
                                let (j1, a1) = choose|j1: int, a1: int|
                                    0 <= j1 < k && 0 <= a1 < gv[j1].1@.len() && (
                                    #[trigger] gv[j1].1@[a1]) as int == root;
                                assert(referenced(gv, root));
                            }
                        }
                        assert forall|c: int| 0 <= c < k && c != root implies #[trigger] seen@[c] by {
                            assert(climbs(gv, root, c, gv.len() as int));
                            assert(referenced(gv, c));
                            let (j1, a1) = choose|j1: int, a1: int|
                                0 <= j1 < gv.len() && 0 <= a1 < gv[j1].1@.len() && (
                                #[trigger] gv[j1].1@[a1]) as int == c;
                        }
                        lemma_count_true_at(seen@, k as int, root);
                        assert(refs_total == k - 1);
                    }
                }
                assert(gv == blueprint.graph_representation@);
            }
            return Err(BlueprintError::MalformedStructure);
        }
        let mut root: usize = 0;
        let mut found = false;
        let mut c: usize = 0;
        while c < k
            invariant
                c <= k,
                k == gv.len(),
                seen@.len() == k,
                !found ==> (forall|i: int| 0 <= i < c ==> #[trigger] seen@[i]),
                found ==> (root as int) < k && !seen@[root as int],
            decreases k - c,
        {
            if !found && !seen[c] {
                root = c;
                found = true;
            }
            c = c + 1;
        }
        if !found {
            proof {
                lemma_count_true_all(seen@, k as int);
                assert(false);
            }
        }
        proof {
            assert forall|i: int| 0 <= i < k && i != root implies #[trigger] seen@[i] by {
                if !seen@[i] {
                    if i < root {
                        lemma_count_true_two(seen@, k as int, i, root as int);
                    } else {
                        lemma_count_true_two(seen@, k as int, root as int, i);
                    }
                    assert(count_true(seen@, k as int) <= k - 2);
                }
            }
        }
        Self::from_general_tree(blueprint, images, root, Ghost(seen@))
    }
}

} // verus!

verus! {

proof fn lemma_sum_lens_congruent(a: Seq<(String, Vec<usize>)>, b: Seq<(String, Vec<usize>)>, j: int)
    requires
        0 <= j <= a.len(),
        j <= b.len(),
        forall|t: int| 0 <= t < j ==> (#[trigger] a[t]).1@ == b[t].1@,
    ensures
        sum_lens(a, j) == sum_lens(b, j),
    decreases j,
{
    if j > 0 {
        lemma_sum_lens_congruent(a, b, j - 1);
    }
}

proof fn lemma_count_true_lt(s: Seq<bool>, j: int, r: int)
    requires
        0 <= j <= s.len(),
        0 <= r < j,
        !s[r],
    ensures
        count_true(s, j) <= j - 1,
    decreases j,
{
    if r < j - 1 {
        lemma_count_true_lt(s, j - 1, r);
    } else {
        lemma_count_true_le(s, j - 1);
    }
}

/// Every entry on a breadth-first listing climbs back to the first one.
proof fn lemma_ord_climbs(g: Seq<(String, Vec<usize>)>, ord: Seq<usize>, root: int, t: int)
    requires
        refs_unique(g),
        0 <= t < ord.len(),
        0 <= root < g.len(),
        ord[0] as int == root,
        parent_linked(g, ord),
        forall|t2: int| 0 <= t2 < ord.len() ==> ((#[trigger] ord[t2]) as int) < g.len(),
    ensures
        climbs(g, root, ord[t] as int, t + 1),
    decreases t,
{
    reveal(parent_linked);
    if t > 0 {
        assert(ord[t] == ord[t]);
        assert(1 <= t < ord.len());
        assert(listed_by_earlier(g, ord, t));
        let u = choose|u: int| 0 <= u < t && #[trigger] lists_child(g, ord[u] as int, ord[t] as int);
        lemma_ord_climbs(g, ord, root, u);
        lemma_climbs_fuel(g, root, ord[u] as int, u + 1, t);
        let a2 = choose|a2: int|
            0 <= a2 < g[ord[u] as int].1@.len() && ((
            #[trigger] g[ord[u] as int].1@[a2]) as int) == ord[t] as int;
        assert(referenced(g, ord[t] as int));
        let p = parent_entry(g, ord[t] as int);
        assert(0 <= p < g.len() && lists_child(g, p, ord[t] as int)) by {
            assert(lists_child(g, ord[u] as int, ord[t] as int));
            assert(exists|j2: int|
                0 <= j2 < g.len() && #[trigger] lists_child(g, j2, ord[t] as int));
        }
        assert(p == ord[u] as int) by {
            let a3 = choose|a3: int|
                0 <= a3 < g[p].1@.len() && ((#[trigger] g[p].1@[a3]) as int) == ord[t] as int;
            assert(g[p].1@[a3] == g[ord[u] as int].1@[a2]);
        }
    }
}

/// The open child-slot count of an entry, as a weight over entry indices.
pub open spec fn open_weight(g: Seq<(String, Vec<usize>)>) -> spec_fn(usize) -> int {
    |e: usize|
        if (e as int) < g.len() {
            2 - g[e as int].1@.len()
        } else {
            0int
        }
}

proof fn lemma_slots_is_weight(g: Seq<(String, Vec<usize>)>, j: int)
    requires
        0 <= j <= g.len(),
        g.len() <= usize::MAX,
    ensures
        crate::tree::seq_weight(Seq::new(j as nat, |i: int| i as usize), open_weight(g))
            == slots_before(g, j),
    decreases j,
{
    if j > 0 {
        lemma_slots_is_weight(g, j - 1);
        let pre = Seq::new((j - 1) as nat, |i: int| i as usize);
        assert(Seq::new(j as nat, |i: int| i as usize) =~= pre.push((j - 1) as usize));
        crate::crossover::lemma_seq_weight_push(pre, (j - 1) as usize, open_weight(g));
        assert((open_weight(g))((j - 1) as usize) == 2 - g[j - 1].1@.len());
    } else {
        assert(Seq::new(0nat, |i: int| i as usize) =~= Seq::<usize>::empty());
        assert(crate::tree::seq_weight(Seq::<usize>::empty(), open_weight(g)) == 0);
    }
}

/// The breadth-first listing's defining facts: each later entry is listed
/// as a child of an earlier one.
/// Position t2's entry is listed as a child by an earlier position's entry.
pub open spec fn listed_by_earlier(g: Seq<(String, Vec<usize>)>, ord: Seq<usize>, t2: int) -> bool {
    exists|u: int| 0 <= u < t2 && #[trigger] lists_child(g, ord[u] as int, ord[t2] as int)
}

#[verifier::opaque]
pub open spec fn parent_linked(g: Seq<(String, Vec<usize>)>, ord: Seq<usize>) -> bool {
    forall|t2: int|
        #![trigger listed_by_earlier(g, ord, t2)]
        1 <= t2 < ord.len() ==> listed_by_earlier(g, ord, t2)
}

/// Queue elements are listed by an already-emitted entry, except for the
/// initial root.
/// The value is listed as a child by one of the first upto emitted entries.
spec fn listed_by_emitted(g: Seq<(String, Vec<usize>)>, ord: Seq<usize>, upto: int, v: usize) -> bool {
    exists|u: int| 0 <= u < upto && #[trigger] lists_child(g, ord[u] as int, v as int)
}

/// The value is one of the current entry's first a children.
spec fn listed_by_current(g: Seq<(String, Vec<usize>)>, cur: usize, a: int, v: usize) -> bool {
    exists|a2: int| 0 <= a2 < a && ((#[trigger] g[cur as int].1@[a2]) as int) == v as int
}

#[verifier::opaque]
spec fn queue_linked(
    g: Seq<(String, Vec<usize>)>,
    ord: Seq<usize>,
    queue: Seq<usize>,
    root: usize,
) -> bool {
    forall|qi: int|
        #![trigger queue[qi]]
        0 <= qi < queue.len() ==> (queue[qi] == root && ord.len() == 0 || listed_by_emitted(
            g,
            ord,
            ord.len() as int,
            queue[qi],
        ))
}

/// A marking is exactly the emitted and queued entries.
#[verifier::opaque]
spec fn mark_is_membership(visited: Seq<bool>, ord: Seq<usize>, queue: Seq<usize>, k: int) -> bool {
    forall|c: int|
        0 <= c < k ==> ((#[trigger] visited[c]) <==> (ord.contains(c as usize) || queue.contains(
            c as usize,
        )))
}

/// All children of emitted entries are marked.
#[verifier::opaque]
spec fn emitted_children_marked(
    g: Seq<(String, Vec<usize>)>,
    ord: Seq<usize>,
    visited: Seq<bool>,
    upto: int,
) -> bool {
    forall|u: int, a2: int|
        0 <= u < upto && 0 <= a2 < g[ord[u] as int].1@.len() ==> visited[(
        #[trigger] g[ord[u] as int].1@[a2]) as int]
}

impl Layout {
    /// Decodes a blueprint whose sane, duplicate-free references place the
    /// single root anywhere in the list: the internal nodes are renumbered
    /// breadth-first, the leaves still fill the entries' free slots in
    /// creation order.
    #[verifier::rlimit(100)]
    fn from_general_tree(
        blueprint: &LayoutBlueprint,
        images: &Vec<ImageHandle>,
        root: usize,
        Ghost(seen): Ghost<Seq<bool>>,
    ) -> (r: Result<Layout, BlueprintError>)
        requires
            forall|t: int|
                0 <= t < images@.len() ==> (#[trigger] images@[t]).width >= 1 && images@[t].height
                    >= 1,
            blueprint.graph_representation@.len() >= 1,
            codes_ok(blueprint.graph_representation@),
            forall|t: int|
                0 <= t < blueprint.graph_representation@.len() ==> entry_sane(
                    blueprint.graph_representation@,
                    t,
                ),
            refs_unique(blueprint.graph_representation@),
            seen.len() == blueprint.graph_representation@.len(),
            forall|c: int|
                0 <= c < blueprint.graph_representation@.len() ==> (#[trigger] seen[c]
                    <==> referenced(blueprint.graph_representation@, c)),
            (root as int) < blueprint.graph_representation@.len(),
            !seen[root as int],
            forall|i: int|
                0 <= i < blueprint.graph_representation@.len() && i != root
                    ==> #[trigger] seen[i],
            sum_lens(
                blueprint.graph_representation@,
                blueprint.graph_representation@.len() as int,
            ) == blueprint.graph_representation@.len() - 1,
            !structure_ok(blueprint.graph_representation@),
        ensures
            r matches Err(e) ==> {
                ||| (e == BlueprintError::MalformedStructure && codes_ok(
                    blueprint.graph_representation@,
                ) && !tree_structure_ok(blueprint.graph_representation@))
                ||| (e == BlueprintError::ImageCountMismatch && codes_ok(
                    blueprint.graph_representation@,
                ) && tree_structure_ok(blueprint.graph_representation@) && !count_ok(
                    blueprint.graph_representation@,
                    images@.len() as int,
                ))
            },
            r is Ok <==> tree_structure_ok(blueprint.graph_representation@) && count_ok(
                blueprint.graph_representation@,
                images@.len() as int,
            ),
            r matches Ok(l) ==> {
                &&& l.wf()
                &&& l.canvas_dimensions == (Dimensions {
                    width: blueprint.width,
                    height: blueprint.height,
                })
                &&& ic_of(l.nodes@) == blueprint.graph_representation@.len()
                &&& l.nodes@.len() == blueprint.graph_representation@.len() + images@.len()
            },
    {
        let g = &blueprint.graph_representation;
        let k = g.len();
        let ghost gv = g@;
        // Breadth-first walk over the entries from the root; every entry of
        // a single rooted tree is reached exactly once.
        let mut visited: Vec<bool> = Vec::new();
        let mut t: usize = 0;
        while t < k
            invariant
                t <= k,
                visited@.len() == t,
                forall|i: int| 0 <= i < t ==> !(#[trigger] visited@[i]),
            decreases k - t,
        {
            visited.push(false);
            t = t + 1;
        }
        let ghost all_false = visited@;
        proof {
                reveal(parent_linked);
                reveal(queue_linked);
                reveal(queue_linked_mid);
                reveal(mark_is_membership);
                reveal(emitted_children_marked);
            lemma_count_true_zero(visited@, k as int);
        }
        let mut queue: Vec<usize> = Vec::new();
        queue.push(root);
        visited.set(root, true);
        let mut vis_count: usize = 1;
        let mut ord: Vec<usize> = Vec::new();
        proof {
                reveal(parent_linked);
                reveal(queue_linked);
                reveal(queue_linked_mid);
                reveal(mark_is_membership);
                reveal(emitted_children_marked);
            lemma_count_true_update(all_false, root as int, k as int);
            assert(visited@ =~= all_false.update(root as int, true));
            assert(count_true(visited@, k as int) == 1);
            assert(mark_is_membership(visited@, ord@, queue@, k as int)) by {
                        reveal(parent_linked);
                        reveal(queue_linked);
                        reveal(queue_linked_mid);
                        reveal(mark_is_membership);
                        reveal(emitted_children_marked);
                assert forall|c: int|
                    0 <= c < k implies ((#[trigger] visited@[c]) <==> (ord@.contains(c as usize)
                        || queue@.contains(c as usize))) by {
                        reveal(parent_linked);
                        reveal(queue_linked);
                        reveal(queue_linked_mid);
                        reveal(mark_is_membership);
                        reveal(emitted_children_marked);
                    if c == root as int {
                        assert(queue@[0] == root);
                    } else {
                        if queue@.contains(c as usize) {
                            let qi = choose|qi: int|
                                0 <= qi < queue@.len() && queue@[qi] == c as usize;
                            assert(false);
                        }
                        if ord@.contains(c as usize) {
                            let oi = choose|oi: int|
                                0 <= oi < ord@.len() && ord@[oi] == c as usize;
                            assert(false);
                        }
                    }
                }
            }
        }
        while queue.len() > 0
            invariant
                k >= 1,
                k == gv.len(),
                gv == g@,
                gv == blueprint.graph_representation@,
                codes_ok(gv),
                forall|t2: int| 0 <= t2 < k ==> entry_sane(gv, t2),
                refs_unique(gv),
                (root as int) < k,
                !seen[root as int],
                forall|c: int| 0 <= c < k ==> (#[trigger] seen[c] <==> referenced(gv, c)),
                visited@.len() == k,
                vis_count <= k,
                vis_count as int == count_true(visited@, k as int),
                vis_count == ord@.len() + queue@.len(),
                forall|t2: int| 0 <= t2 < ord@.len() ==> ((#[trigger] ord@[t2]) as int) < k,
                forall|t2: int| 0 <= t2 < queue@.len() ==> ((#[trigger] queue@[t2]) as int) < k,
                ord@.no_duplicates(),
                queue@.no_duplicates(),
                forall|c: usize| !(ord@.contains(c) && queue@.contains(c)),
                mark_is_membership(visited@, ord@, queue@, k as int),
                ord@.len() > 0 ==> ord@[0] == root,
                ord@.len() == 0 ==> queue@ =~= seq![root],
                parent_linked(gv, ord@),
                queue_linked(gv, ord@, queue@, root),
                emitted_children_marked(gv, ord@, visited@, ord@.len() as int),
            decreases k as int - vis_count as int, queue@.len(),
        {
            let ghost q0 = queue@;
            let ghost ord0 = ord@;
            let ghost vis0 = visited@;
            let cur = queue.remove(0);
            ord.push(cur);
            proof {
                assert(queue@ =~= q0.drop_first());
                assert(entry_sane(gv, cur as int));
                assert(ord@ == ord0.push(cur));
                assert(cur == q0[0]);
                if ord0.len() == 0 {
                    lemma_parent_linked_push(gv, ord0, cur, 0);
                } else {
                    assert(listed_by_emitted(gv, ord0, ord0.len() as int, q0[0])) by {
                        reveal(queue_linked);
                    }
                    let u = choose|u: int|
                        0 <= u < ord0.len() && #[trigger] lists_child(
                            gv,
                            ord0[u] as int,
                            q0[0] as int,
                        );
                    lemma_parent_linked_push(gv, ord0, cur, u);
                }
                lemma_mark_shift(vis0, ord0, q0, k as int);
                lemma_queue_linked_start(gv, ord0, q0, root);
                lemma_emitted_push_prefix(gv, ord0, visited@, cur);
                assert(ord@.no_duplicates()) by {
                    if ord0.contains(cur) {
                        assert(q0.contains(cur)) by {
                            assert(q0[0] == cur);
                        }
                        assert(false);
                    }
                    assert forall|i1: int, i2: int|
                        0 <= i1 < i2 < ord@.len() implies ord@[i1] != ord@[i2] by {
                        if i2 < ord0.len() {
                            assert(ord@[i1] == ord0[i1] && ord@[i2] == ord0[i2]);
                        } else {
                            assert(ord@[i2] == cur);
                            if ord@[i1] == cur {
                                assert(ord0[i1] == cur);
                                assert(ord0.contains(cur));
                                assert(false);
                            }
                        }
                    }
                }
                assert(queue@.no_duplicates()) by {
                    assert forall|i1: int, i2: int|
                        0 <= i1 < i2 < queue@.len() implies queue@[i1] != queue@[i2] by {
                        assert(queue@[i1] == q0[i1 + 1] && queue@[i2] == q0[i2 + 1]);
                    }
                }
                assert forall|c2: usize| !(ord@.contains(c2) && queue@.contains(c2)) by {
                    if ord@.contains(c2) && queue@.contains(c2) {
                        let qi = choose|qi: int|
                            0 <= qi < queue@.len() && queue@[qi] == c2;
                        assert(q0[qi + 1] == c2);
                        let oi = choose|oi: int| 0 <= oi < ord@.len() && ord@[oi] == c2;
                        if oi < ord0.len() {
                            assert(ord0[oi] == c2);
                            assert(ord0.contains(c2) && q0.contains(c2));
                            assert(false);
                        } else {
                            assert(c2 == cur);
                            assert(q0[qi + 1] == q0[0]);
                            assert(false);
                        }
                    }
                }
            }
            let kids_len = g[cur].1.len();
            let mut a: usize = 0;
            while a < kids_len
                invariant
                    a <= kids_len,
                    kids_len == gv[cur as int].1@.len(),
                    (cur as int) < k,
                    k >= 1,
                    k == gv.len(),
                    gv == g@,
                    gv == blueprint.graph_representation@,
                    codes_ok(gv),
                    forall|t2: int| 0 <= t2 < k ==> entry_sane(gv, t2),
                    refs_unique(gv),
                    (root as int) < k,
                    !seen[root as int],
                    forall|c: int| 0 <= c < k ==> (#[trigger] seen[c] <==> referenced(gv, c)),
                    visited@.len() == k,
                    vis_count <= k,
                    vis_count as int == count_true(visited@, k as int),
                    vis_count == ord@.len() + queue@.len(),
                    ord@ == ord0.push(cur),
                    ord@.len() == ord0.len() + 1,
                    vis_count >= ord0.len() + q0.len(),
                    ord@.len() >= 1,
                    ord@[ord@.len() - 1] == cur,
                    ord@[0] == root,
                    forall|t2: int| 0 <= t2 < ord@.len() ==> ((#[trigger] ord@[t2]) as int) < k,
                    forall|t2: int|
                        0 <= t2 < queue@.len() ==> ((#[trigger] queue@[t2]) as int) < k,
                    ord@.no_duplicates(),
                    queue@.no_duplicates(),
                    forall|c: usize| !(ord@.contains(c) && queue@.contains(c)),
                    mark_is_membership(visited@, ord@, queue@, k as int),
                    parent_linked(gv, ord@),
                    queue_linked_mid(gv, ord@, queue@, cur, a as int),
                    emitted_children_marked(gv, ord@, visited@, ord@.len() - 1),
                    forall|a2: int|
                        0 <= a2 < a ==> visited@[(#[trigger] gv[cur as int].1@[a2]) as int],
                decreases kids_len - a,
            {
                let c = g[cur].1[a];
                proof {
                    assert(entry_sane(gv, cur as int));
                    assert((c as int) < k);
                }
                if visited[c] {
                    proof {
                        reveal(parent_linked);
                        reveal(queue_linked_mid);
                        reveal(mark_is_membership);
                        assert(lists_child(gv, cur as int, c as int)) by {
                            assert(gv[cur as int].1@[a as int] == c);
                        }
                        if c == root {
                            assert(referenced(gv, root as int)) by {
                                assert(gv[cur as int].1@[a as int] as int == root as int);
                            }
                            assert(seen[root as int]);
                            assert(false);
                        }
                        if ord@.contains(c) {
                            let t2 = choose|t2: int| 0 <= t2 < ord@.len() && ord@[t2] == c;
                            if t2 == 0 {
                                assert(false);
                            } else {
                                assert(listed_by_earlier(gv, ord@, t2));
                                let u = choose|u: int|
                                    0 <= u < t2 && #[trigger] lists_child(
                                        gv,
                                        ord@[u] as int,
                                        ord@[t2] as int,
                                    );
                                let a3 = choose|a3: int|
                                    0 <= a3 < gv[ord@[u] as int].1@.len() && ((
                                    #[trigger] gv[ord@[u] as int].1@[a3]) as int) == c as int;
                                assert(gv[ord@[u] as int].1@[a3] == gv[cur as int].1@[a as int]);
                                assert(ord@[u] as int == cur as int && a3 == a as int);
                                assert(ord@[u] == ord@[ord@.len() - 1]);
                                assert(u == ord@.len() - 1);
                                assert(u < t2 && t2 < ord@.len());
                                assert(false);
                            }
                        } else {
                            assert(queue@.contains(c));
                            let qi = choose|qi: int| 0 <= qi < queue@.len() && queue@[qi] == c;
                            if listed_by_emitted(gv, ord@, ord@.len() - 1, queue@[qi]) {
                                let u = choose|u: int|
                                    0 <= u < ord@.len() - 1 && #[trigger] lists_child(
                                        gv,
                                        ord@[u] as int,
                                        queue@[qi] as int,
                                    );
                                let a3 = choose|a3: int|
                                    0 <= a3 < gv[ord@[u] as int].1@.len() && ((
                                    #[trigger] gv[ord@[u] as int].1@[a3]) as int) == c as int;
                                assert(gv[ord@[u] as int].1@[a3] == gv[cur as int].1@[a as int]);
                                assert(ord@[u] as int == cur as int && a3 == a as int);
                                assert(ord@[u] == ord@[ord@.len() - 1]);
                                assert(u == ord@.len() - 1);
                                assert(false);
                            } else {
                                assert(listed_by_current(gv, cur, a as int, queue@[qi]));
                                let a2 = choose|a2: int|
                                    0 <= a2 < a && ((#[trigger] gv[cur as int].1@[a2]) as int)
                                        == queue@[qi] as int;
                                assert(gv[cur as int].1@[a2] == gv[cur as int].1@[a as int]);
                                assert(a2 == a as int);
                                assert(false);
                            }
                        }
                    }
                }
                let ghost pre_vis = visited@;
                let ghost pre_q = queue@;
                proof {
                    lemma_count_true_update(visited@, c as int, k as int);
                }
                visited.set(c, true);
                proof {
                    lemma_count_true_le(visited@, k as int);
                }
                queue.push(c);
                vis_count = vis_count + 1;
                proof {
                    assert(visited@ == pre_vis.update(c as int, true));
                    assert(queue@ == pre_q.push(c));
                    assert(!ord@.contains(c) && !pre_q.contains(c)) by {
                        reveal(mark_is_membership);
                        assert(!pre_vis[c as int]);
                    }
                    lemma_mark_push(pre_vis, ord@, pre_q, k as int, c);
                    lemma_queue_linked_mid_push(gv, ord@, pre_q, cur, a as int, c);
                    assert(queue@.no_duplicates()) by {
                        assert forall|i1: int, i2: int|
                            0 <= i1 < i2 < queue@.len() implies queue@[i1] != queue@[i2] by {
                            if i2 < pre_q.len() {
                                assert(queue@[i1] == pre_q[i1] && queue@[i2] == pre_q[i2]);
                            } else {
                                assert(queue@[i2] == c);
                                if queue@[i1] == c {
                                    assert(pre_q[i1] == c);
                                    assert(pre_q.contains(c));
                                    assert(false);
                                }
                            }
                        }
                    }
                    assert forall|c2: usize| !(ord@.contains(c2) && queue@.contains(c2)) by {
                        if ord@.contains(c2) && queue@.contains(c2) {
                            let qi = choose|qi: int|
                                0 <= qi < queue@.len() && queue@[qi] == c2;
                            if qi < pre_q.len() {
                                assert(pre_q[qi] == c2);
                                assert(pre_q.contains(c2));
                                assert(false);
                            } else {
                                assert(c2 == c);
                                assert(false);
                            }
                        }
                    }
                    assert forall|u: int, a2: int|
                        0 <= u < ord@.len() - 1 && 0 <= a2 < gv[ord@[u] as int].1@.len() implies 0
                        <= ((#[trigger] gv[ord@[u] as int].1@[a2]) as int) < pre_vis.len() by {
                        assert(entry_sane(gv, ord@[u] as int));
                    }
                    lemma_emitted_grow(gv, ord@, pre_vis, visited@, ord@.len() - 1);
                }
                a = a + 1;
            }
            proof {
                lemma_queue_linked_finish(gv, ord@, queue@, cur, root, kids_len as int);
                lemma_emitted_finish(gv, ord@, visited@, cur);
            }
        }
        // Every entry must be reachable from the root.
        if vis_count != k {
            proof {
                reveal(parent_linked);
                reveal(queue_linked);
                reveal(queue_linked_mid);
                reveal(mark_is_membership);
                reveal(emitted_children_marked);
                assert(!tree_structure_ok(gv)) by {
                        reveal(parent_linked);
                        reveal(queue_linked);
                        reveal(queue_linked_mid);
                        reveal(mark_is_membership);
                        reveal(emitted_children_marked);
                    if tree_structure_ok(gv) {
                        let r2 = choose|r2: int|
                            0 <= r2 < gv.len() && !(#[trigger] referenced(gv, r2)) && forall|
                                c: int,
                            | 0 <= c < gv.len() ==> climbs(gv, r2, c, gv.len() as int);
                        assert(r2 == root as int) by {
                        reveal(parent_linked);
                        reveal(queue_linked);
                        reveal(queue_linked_mid);
                        reveal(mark_is_membership);
                        reveal(emitted_children_marked);
                            if r2 != root {
                                assert(seen[r2]);
                            }
                        }
                        assert(exists|c: int| 0 <= c < k && !(#[trigger] visited@[c])) by {
                        reveal(parent_linked);
                        reveal(queue_linked);
                        reveal(queue_linked_mid);
                        reveal(mark_is_membership);
                        reveal(emitted_children_marked);
                            if forall|c: int| 0 <= c < k ==> #[trigger] visited@[c] {
                                lemma_count_true_all(visited@, k as int);
                            }
                        }
                        let c = choose|c: int| 0 <= c < k && !(#[trigger] visited@[c]);
                        assert(climbs(gv, root as int, c, gv.len() as int));
                        assert forall|j2: int, a2: int|
                            0 <= j2 < gv.len() && visited@[j2] && 0 <= a2 < gv[j2].1@.len() && ((
                            #[trigger] gv[j2].1@[a2]) as int) < gv.len() implies visited@[gv[j2].1@[a2] as int] by {
                        reveal(parent_linked);
                        reveal(queue_linked);
                        reveal(queue_linked_mid);
                        reveal(mark_is_membership);
                        reveal(emitted_children_marked);
                            assert(ord@.contains(j2 as usize));
                            let u = choose|u: int| 0 <= u < ord@.len() && ord@[u] == j2 as usize;
                        }
                        lemma_climb_covered(gv, root as int, c, gv.len() as int, visited@);
                        assert(false);
                    }
                }
                assert(gv == blueprint.graph_representation@);
            }
            return Err(BlueprintError::MalformedStructure);
        }
        proof {
                reveal(parent_linked);
                reveal(queue_linked);
                reveal(queue_linked_mid);
                reveal(mark_is_membership);
                reveal(emitted_children_marked);
            // The walk covered everything: the entries do form a tree.
            assert forall|c: int| 0 <= c < k implies #[trigger] visited@[c] by {
                        reveal(parent_linked);
                        reveal(queue_linked);
                        reveal(queue_linked_mid);
                        reveal(mark_is_membership);
                        reveal(emitted_children_marked);
                if !visited@[c] {
                    lemma_count_true_lt(visited@, k as int, c);
                }
            }
            assert(ord@.len() == k);
            assert forall|c: int| 0 <= c < gv.len() implies climbs(
                gv,
                root as int,
                c,
                gv.len() as int,
            ) by {
                        reveal(parent_linked);
                        reveal(queue_linked);
                        reveal(queue_linked_mid);
                        reveal(mark_is_membership);
                        reveal(emitted_children_marked);
                assert(visited@[c]);
                assert(ord@.contains(c as usize));
                let t2 = choose|t2: int| 0 <= t2 < ord@.len() && ord@[t2] == c as usize;
                lemma_ord_climbs(gv, ord@, root as int, t2);
                lemma_climbs_fuel(gv, root as int, c, t2 + 1, gv.len() as int);
            }
            assert(!referenced(gv, root as int));
            assert(tree_structure_ok(gv));
        }
        let n_imgs = images.len();
        if n_imgs < 1 || n_imgs - 1 != k {
            proof {
                reveal(parent_linked);
                reveal(queue_linked);
                reveal(queue_linked_mid);
                reveal(mark_is_membership);
                reveal(emitted_children_marked);
                lemma_slots_sum(gv, k as int);
                assert(slots_before(gv, k as int) == k + 1);
                assert(!count_ok(gv, images@.len() as int));
                assert(gv == blueprint.graph_representation@);
            }
            return Err(BlueprintError::ImageCountMismatch);
        }
        proof {
                reveal(parent_linked);
                reveal(queue_linked);
                reveal(queue_linked_mid);
                reveal(mark_is_membership);
                reveal(emitted_children_marked);
            lemma_slots_sum(gv, k as int);
            assert(slots_before(gv, k as int) == k + 1);
            assert(count_ok(gv, images@.len() as int));
            assert(!referenced(gv, root as int)) by {
                        reveal(parent_linked);
                        reveal(queue_linked);
                        reveal(queue_linked_mid);
                        reveal(mark_is_membership);
                        reveal(emitted_children_marked);
                assert(!seen[root as int]);
            }
            assert forall|c: int| 0 <= c < gv.len() implies ord@.contains(
                (#[trigger] (c as usize)),
            ) by {
                        reveal(parent_linked);
                        reveal(queue_linked);
                        reveal(queue_linked_mid);
                        reveal(mark_is_membership);
                        reveal(emitted_children_marked);
                assert(visited@[c]);
            }
        }
        Self::decode_reordered(blueprint, images, Ghost(root), &ord)
    }
}

/// Queue elements mid-entry: listed by a fully-processed entry, or by the
/// current one among its first a children.
#[verifier::opaque]
spec fn queue_linked_mid(
    g: Seq<(String, Vec<usize>)>,
    ord: Seq<usize>,
    queue: Seq<usize>,
    cur: usize,
    a: int,
) -> bool {
    forall|qi: int|
        #![trigger queue[qi]]
        0 <= qi < queue.len() ==> (listed_by_emitted(g, ord, ord.len() - 1, queue[qi])
            || listed_by_current(g, cur, a, queue[qi]))
}

/// Surfaces the parent link of a breadth-first position for instantiation.
proof fn proof_parent_link(g: Seq<(String, Vec<usize>)>, ord: Seq<usize>, t2: int)
    requires
        parent_linked(g, ord),
        1 <= t2 < ord.len(),
    ensures
        exists|u: int| 0 <= u < t2 && #[trigger] lists_child(g, ord[u] as int, ord[t2] as int),
{
    reveal(parent_linked);
    assert(listed_by_earlier(g, ord, t2));
}

impl Layout {
    /// Renumbers the entries of a validated general tree into breadth-first
    /// order, permutes the images to keep the entry-order leaf attachment,
    /// and decodes through the creation-order core.
    #[verifier::rlimit(100)]
    fn decode_reordered(
        blueprint: &LayoutBlueprint,
        images: &Vec<ImageHandle>,
        Ghost(root): Ghost<usize>,
        ord: &Vec<usize>,
    ) -> (r: Result<Layout, BlueprintError>)
        requires
            forall|t: int|
                0 <= t < images@.len() ==> (#[trigger] images@[t]).width >= 1 && images@[t].height
                    >= 1,
            blueprint.graph_representation@.len() >= 1,
            codes_ok(blueprint.graph_representation@),
            forall|t: int|
                0 <= t < blueprint.graph_representation@.len() ==> entry_sane(
                    blueprint.graph_representation@,
                    t,
                ),
            refs_unique(blueprint.graph_representation@),
            tree_structure_ok(blueprint.graph_representation@),
            images@.len() == blueprint.graph_representation@.len() + 1,
            slots_before(
                blueprint.graph_representation@,
                blueprint.graph_representation@.len() as int,
            ) == blueprint.graph_representation@.len() + 1,
            ord@.len() == blueprint.graph_representation@.len(),
            ord@.no_duplicates(),
            forall|t: int|
                0 <= t < ord@.len() ==> ((#[trigger] ord@[t]) as int)
                    < blueprint.graph_representation@.len(),
            ord@[0] == root,
            !referenced(blueprint.graph_representation@, root as int),
            parent_linked(blueprint.graph_representation@, ord@),
            forall|c: int|
                0 <= c < blueprint.graph_representation@.len() ==> ord@.contains(
                    (#[trigger] (c as usize)),
                ),
        ensures
            r is Ok,
            r matches Ok(l) ==> {
                &&& l.wf()
                &&& l.canvas_dimensions == (Dimensions {
                    width: blueprint.width,
                    height: blueprint.height,
                })
                &&& ic_of(l.nodes@) == blueprint.graph_representation@.len()
                &&& l.nodes@.len() == blueprint.graph_representation@.len() + images@.len()
            },
    {
        broadcast use vstd::seq_lib::group_to_multiset_ensures;

        let g = &blueprint.graph_representation;
        let k = g.len();
        let ghost gv = g@;
        let mut rangev: Vec<usize> = Vec::new();
        let mut t: usize = 0;
        while t < k
            invariant
                t <= k,
                rangev@.len() == t,
                forall|i2: int| 0 <= i2 < t ==> (#[trigger] rangev@[i2]) as int == i2,
            decreases k - t,
        {
            rangev.push(t);
            t = t + 1;
        }
        proof {
                reveal(parent_linked);
                reveal(queue_linked);
                reveal(queue_linked_mid);
                reveal(mark_is_membership);
                reveal(emitted_children_marked);
            assert(rangev@ =~= Seq::new(k as nat, |i: int| i as usize));
        }
        let ghost rng_seq = rangev@;
        // The inverse of the breadth-first listing.
        let mut pos: Vec<usize> = Vec::new();
        let mut t: usize = 0;
        while t < k
            invariant
                t <= k,
                pos@.len() == t,
            decreases k - t,
        {
            pos.push(0);
            t = t + 1;
        }
        let mut t: usize = 0;
        while t < k
            invariant
                t <= k,
                k == gv.len(),
                gv == g@,
                gv == blueprint.graph_representation@,
                pos@.len() == k,
                ord@.len() == k,
                ord@.no_duplicates(),
                forall|t2: int| 0 <= t2 < k ==> ((#[trigger] ord@[t2]) as int) < k,
                forall|t2: int| 0 <= t2 < t ==> (#[trigger] pos@[ord@[t2] as int]) as int == t2,
            decreases k - t,
        {
            pos.set(ord[t], t);
            proof {
                reveal(parent_linked);
                reveal(queue_linked);
                reveal(queue_linked_mid);
                reveal(mark_is_membership);
                reveal(emitted_children_marked);
                assert forall|t2: int|
                    0 <= t2 < t + 1 implies (#[trigger] pos@[ord@[t2] as int]) as int == t2 by {
                        reveal(parent_linked);
                        reveal(queue_linked);
                        reveal(queue_linked_mid);
                        reveal(mark_is_membership);
                        reveal(emitted_children_marked);
                    if t2 < t {
                        assert(ord@[t2] != ord@[t as int]);
                    }
                }
            }
            t = t + 1;
        }
        proof {
                reveal(parent_linked);
                reveal(queue_linked);
                reveal(queue_linked_mid);
                reveal(mark_is_membership);
                reveal(emitted_children_marked);
            assert forall|c: int| 0 <= c < k implies ord@[(#[trigger] pos@[c]) as int] as int == c
                && (pos@[c] as int) < k by {
                        reveal(parent_linked);
                        reveal(queue_linked);
                        reveal(queue_linked_mid);
                        reveal(mark_is_membership);
                        reveal(emitted_children_marked);
                assert(ord@.contains(c as usize));
                let t2 = choose|t2: int| 0 <= t2 < ord@.len() && ord@[t2] == c as usize;
                assert(pos@[ord@[t2] as int] as int == t2);
            }
        }
        // The entries in breadth-first order, with references renumbered.
        let mut g2: Vec<(String, Vec<usize>)> = Vec::new();
        let mut t: usize = 0;
        while t < k
            invariant
                t <= k,
                k >= 1,
                k == gv.len(),
                gv == g@,
                gv == blueprint.graph_representation@,
                codes_ok(gv),
                forall|t2: int| 0 <= t2 < k ==> entry_sane(gv, t2),
                pos@.len() == k,
                ord@.len() == k,
                ord@.no_duplicates(),
                forall|t2: int| 0 <= t2 < k ==> ((#[trigger] ord@[t2]) as int) < k,
                forall|t2: int| 0 <= t2 < k ==> (#[trigger] pos@[ord@[t2] as int]) as int == t2,
                forall|c: int|
                    0 <= c < k ==> ord@[(#[trigger] pos@[c]) as int] as int == c && (
                    pos@[c] as int) < k,
                g2@.len() == t,
                forall|t2: int|
                    0 <= t2 < t ==> (#[trigger] g2@[t2]).0@ == gv[ord@[t2] as int].0@,
                forall|t2: int|
                    0 <= t2 < t ==> (#[trigger] g2@[t2]).1@.len() == gv[ord@[t2] as int].1@.len(),
                forall|t2: int, a: int|
                    0 <= t2 < t && 0 <= a < g2@[t2].1@.len() ==> (#[trigger] g2@[t2].1@[a])
                        == pos@[gv[ord@[t2] as int].1@[a] as int],
                sum_lens(g2@, t as int) == crate::tree::seq_weight(
                    ord@.take(t as int),
                    len_weight(gv),
                ),
            decreases k - t,
        {
            let e = ord[t];
            let code = g[e].0.clone();
            let mut kids2: Vec<usize> = Vec::new();
            let mut a: usize = 0;
            while a < g[e].1.len()
                invariant
                    a <= gv[e as int].1@.len(),
                    (e as int) < k,
                    k == gv.len(),
                    gv == g@,
                gv == blueprint.graph_representation@,
                    pos@.len() == k,
                    forall|t2: int| 0 <= t2 < k ==> entry_sane(gv, t2),
                    kids2@.len() == a,
                    forall|a2: int|
                        0 <= a2 < a ==> (#[trigger] kids2@[a2]) == pos@[gv[e as int].1@[a2] as int],
                decreases gv[e as int].1@.len() - a,
            {
                proof {
                reveal(parent_linked);
                reveal(queue_linked);
                reveal(queue_linked_mid);
                reveal(mark_is_membership);
                reveal(emitted_children_marked);
                    assert(entry_sane(gv, e as int));
                }
                kids2.push(pos[g[e].1[a]]);
                a = a + 1;
            }
            let ghost pre_g2 = g2@;
            g2.push((code, kids2));
            proof {
                reveal(parent_linked);
                reveal(queue_linked);
                reveal(queue_linked_mid);
                reveal(mark_is_membership);
                reveal(emitted_children_marked);
                assert(g2@[t as int].0@ == gv[e as int].0@);
                assert(ord@.take(t as int + 1) =~= ord@.take(t as int).push(ord@[t as int]));
                crate::crossover::lemma_seq_weight_push(
                    ord@.take(t as int),
                    ord@[t as int],
                    len_weight(gv),
                );
                lemma_sum_lens_congruent(pre_g2, g2@, t as int);
                assert(sum_lens(g2@, t as int + 1) == sum_lens(g2@, t as int) + g2@[t as int].1@.len());
            }
            t = t + 1;
        }
        let ghost g2v = g2@;
        proof {
                reveal(parent_linked);
                reveal(queue_linked);
                reveal(queue_linked_mid);
                reveal(mark_is_membership);
                reveal(emitted_children_marked);
            // The renumbered entries are a creation-ordered single tree.
            assert(codes_ok(g2v)) by {
                        reveal(parent_linked);
                        reveal(queue_linked);
                        reveal(queue_linked_mid);
                        reveal(mark_is_membership);
                        reveal(emitted_children_marked);
                assert forall|j: int| 0 <= j < g2v.len() implies code_ok(
                    (#[trigger] g2v[j]).0@,
                ) by {
                        reveal(parent_linked);
                        reveal(queue_linked);
                        reveal(queue_linked_mid);
                        reveal(mark_is_membership);
                        reveal(emitted_children_marked);
                    assert(code_ok(gv[ord@[j] as int].0@));
                }
            }
            assert forall|j: int| 0 <= j < g2v.len() implies entry_ok(g2v, j) by {
                        reveal(parent_linked);
                        reveal(queue_linked);
                        reveal(queue_linked_mid);
                        reveal(mark_is_membership);
                        reveal(emitted_children_marked);
                assert(entry_sane(gv, ord@[j] as int));
                assert forall|a: int|
                    0 <= a < g2v[j].1@.len() implies j < ((#[trigger] g2v[j].1@[a]) as int) && ((
                g2v[j].1@[a]) as int) < g2v.len() by {
                        reveal(parent_linked);
                        reveal(queue_linked);
                        reveal(queue_linked_mid);
                        reveal(mark_is_membership);
                        reveal(emitted_children_marked);
                    let child = gv[ord@[j] as int].1@[a] as int;
                    assert(g2v[j].1@[a] == pos@[child]);
                    let t2 = pos@[child] as int;
                    assert(ord@[t2] as int == child);
                    if t2 == 0 {
                        assert(lists_child(gv, ord@[j] as int, child)) by {
                        reveal(parent_linked);
                        reveal(queue_linked);
                        reveal(queue_linked_mid);
                        reveal(mark_is_membership);
                        reveal(emitted_children_marked);
                            assert(gv[ord@[j] as int].1@[a] as int == child);
                        }
                        assert(referenced(gv, root as int)) by {
                        reveal(parent_linked);
                        reveal(queue_linked);
                        reveal(queue_linked_mid);
                        reveal(mark_is_membership);
                        reveal(emitted_children_marked);
                            let (jj, aa) = (ord@[j] as int, a);
                            assert(gv[jj].1@[aa] as int == root as int);
                        }
                        assert(false);
                    } else {
                        proof_parent_link(gv, ord@, t2);
                        let u = choose|u: int|
                            0 <= u < t2 && #[trigger] lists_child(
                                gv,
                                ord@[u] as int,
                                ord@[t2] as int,
                            );
                        let a3 = choose|a3: int|
                            0 <= a3 < gv[ord@[u] as int].1@.len() && ((
                            #[trigger] gv[ord@[u] as int].1@[a3]) as int) == child;
                        assert(gv[ord@[u] as int].1@[a3] == gv[ord@[j] as int].1@[a]);
                        assert(ord@[u] as int == ord@[j] as int && a3 == a);
                        assert(u == j);
                    }
                }
            }
            assert(refs_unique(g2v)) by {
                        reveal(parent_linked);
                        reveal(queue_linked);
                        reveal(queue_linked_mid);
                        reveal(mark_is_membership);
                        reveal(emitted_children_marked);
                assert forall|j1: int, a1: int, j2: int, a2: int|
                    0 <= j1 < g2v.len() && 0 <= a1 < g2v[j1].1@.len() && 0 <= j2 < g2v.len() && 0
                        <= a2 < g2v[j2].1@.len() && #[trigger] g2v[j1].1@[a1]
                        == #[trigger] g2v[j2].1@[a2] implies j1 == j2 && a1 == a2 by {
                        reveal(parent_linked);
                        reveal(queue_linked);
                        reveal(queue_linked_mid);
                        reveal(mark_is_membership);
                        reveal(emitted_children_marked);
                    let c1 = gv[ord@[j1] as int].1@[a1] as int;
                    let c2 = gv[ord@[j2] as int].1@[a2] as int;
                    assert(entry_sane(gv, ord@[j1] as int));
                    assert(entry_sane(gv, ord@[j2] as int));
                    assert(g2v[j1].1@[a1] == pos@[c1] && g2v[j2].1@[a2] == pos@[c2]);
                    assert(ord@[pos@[c1] as int] as int == c1 && ord@[pos@[c2] as int] as int
                        == c2);
                    assert(c1 == c2);
                    assert(gv[ord@[j1] as int].1@[a1] == gv[ord@[j2] as int].1@[a2]);
                    assert(ord@[j1] as int == ord@[j2] as int && a1 == a2);
                }
            }
            assert(refs_complete(g2v)) by {
                        reveal(parent_linked);
                        reveal(queue_linked);
                        reveal(queue_linked_mid);
                        reveal(mark_is_membership);
                        reveal(emitted_children_marked);
                assert forall|c: int| 1 <= c < g2v.len() implies #[trigger] referenced(
                    g2v,
                    c,
                ) by {
                        reveal(parent_linked);
                        reveal(queue_linked);
                        reveal(queue_linked_mid);
                        reveal(mark_is_membership);
                        reveal(emitted_children_marked);
                    proof_parent_link(gv, ord@, c);
                    let u = choose|u: int|
                        0 <= u < c && #[trigger] lists_child(gv, ord@[u] as int, ord@[c] as int);
                    let a3 = choose|a3: int|
                        0 <= a3 < gv[ord@[u] as int].1@.len() && ((
                        #[trigger] gv[ord@[u] as int].1@[a3]) as int) == ord@[c] as int;
                    assert(g2v[u].1@[a3] == pos@[ord@[c] as int]);
                    assert((pos@[ord@[c] as int]) as int == c);
                    assert((g2v[u].1@[a3]) as int == c);
                }
            }
            assert(structure_ok(g2v));
            // Entry lengths are only permuted, so the slot count is kept.
            assert forall|v: usize| ord@.contains(v) <==> rng_seq.contains(v) by {
                        reveal(parent_linked);
                        reveal(queue_linked);
                        reveal(queue_linked_mid);
                        reveal(mark_is_membership);
                        reveal(emitted_children_marked);
                if ord@.contains(v) {
                    let t2 = choose|t2: int| 0 <= t2 < ord@.len() && ord@[t2] == v;
                    assert(rng_seq[v as int] == v);
                }
                if rng_seq.contains(v) {
                    let i2 = choose|i2: int| 0 <= i2 < rng_seq.len() && rng_seq[i2] == v;
                    assert((v as int) < k);
                    assert(ord@.contains(((v as int) as usize)));
                }
            }
            assert(rng_seq.no_duplicates());
            lemma_no_dup_same_elements_multiset(ord@, rng_seq);
            crate::tree::lemma_seq_weight_permutation(ord@, rng_seq, len_weight(gv));
            lemma_sum_lens_is_weight(gv, k as int);
            assert(rng_seq == Seq::new(k as nat, |i: int| i as usize));
            assert(ord@.take(k as int) =~= ord@);
            assert(sum_lens(g2v, k as int) == sum_lens(gv, k as int));
            lemma_slots_sum(gv, k as int);
            lemma_slots_sum(g2v, k as int);
            assert(slots_before(g2v, k as int) == k + 1);
            assert(count_ok(g2v, images@.len() as int));
        }
        // Where each entry's free slots start, counting in creation order.
        let n_bound = images.len();
        proof {
                reveal(parent_linked);
                reveal(queue_linked);
                reveal(queue_linked_mid);
                reveal(mark_is_membership);
                reveal(emitted_children_marked);
            assert(n_bound == k + 1);
        }
        let mut starts: Vec<usize> = Vec::new();
        let mut acc: usize = 0;
        let mut e: usize = 0;
        while e < k
            invariant
                e <= k,
                k == gv.len(),
                gv == g@,
                gv == blueprint.graph_representation@,
                forall|t2: int| 0 <= t2 < k ==> entry_sane(gv, t2),
                slots_before(gv, k as int) == k + 1,
                images@.len() == k + 1,
                n_bound == images@.len(),
                starts@.len() == e,
                acc as int == slots_before(gv, e as int),
                acc <= k + 1,
                forall|e2: int|
                    0 <= e2 < e ==> (#[trigger] starts@[e2]) as int == slots_before(gv, e2),
            decreases k - e,
        {
            proof {
                reveal(parent_linked);
                reveal(queue_linked);
                reveal(queue_linked_mid);
                reveal(mark_is_membership);
                reveal(emitted_children_marked);
                assert(entry_sane(gv, e as int));
                assert(gv[e as int].1@.len() <= 2);
                assert forall|t2: int|
                    0 <= t2 < gv.len() implies (#[trigger] gv[t2]).1@.len() <= 2 by {
                        reveal(parent_linked);
                        reveal(queue_linked);
                        reveal(queue_linked_mid);
                        reveal(mark_is_membership);
                        reveal(emitted_children_marked);
                    assert(entry_sane(gv, t2));
                }
                lemma_slots_monotone_sane(gv, e as int + 1, k as int);
                assert(acc as int + (2 - gv[e as int].1@.len()) <= k + 1);
            }
            starts.push(acc);
            acc = acc + (2 - g[e].1.len());
            e = e + 1;
        }
        // The images, reordered so that each still lands in the slot the
        // creation-order attachment gives it.
        let mut images2: Vec<ImageHandle> = Vec::new();
        let mut t: usize = 0;
        while t < k
            invariant
                t <= k,
                k >= 1,
                k == gv.len(),
                gv == g@,
                gv == blueprint.graph_representation@,
                images@.len() == k + 1,
                forall|t2: int| 0 <= t2 < k ==> entry_sane(gv, t2),
                slots_before(gv, k as int) == k + 1,
                starts@.len() == k,
                forall|e2: int|
                    0 <= e2 < k ==> (#[trigger] starts@[e2]) as int == slots_before(gv, e2),
                ord@.len() == k,
                forall|t2: int| 0 <= t2 < k ==> ((#[trigger] ord@[t2]) as int) < k,
                forall|t2: int|
                    0 <= t2 < images@.len() ==> (#[trigger] images@[t2]).width >= 1
                        && images@[t2].height >= 1,
                images2@.len() as int == crate::tree::seq_weight(
                    ord@.take(t as int),
                    open_weight(gv),
                ),
                forall|t2: int|
                    0 <= t2 < images2@.len() ==> (#[trigger] images2@[t2]).width >= 1
                        && images2@[t2].height >= 1,
            decreases k - t,
        {
            let e = ord[t];
            proof {
                reveal(parent_linked);
                reveal(queue_linked);
                reveal(queue_linked_mid);
                reveal(mark_is_membership);
                reveal(emitted_children_marked);
                assert(entry_sane(gv, e as int));
                assert forall|t2: int|
                    0 <= t2 < gv.len() implies (#[trigger] gv[t2]).1@.len() <= 2 by {
                        reveal(parent_linked);
                        reveal(queue_linked);
                        reveal(queue_linked_mid);
                        reveal(mark_is_membership);
                        reveal(emitted_children_marked);
                    assert(entry_sane(gv, t2));
                }
                lemma_slots_monotone_sane(gv, 0, e as int);
                lemma_slots_monotone_sane(gv, e as int + 1, k as int);
                assert(ord@.take(t as int + 1) =~= ord@.take(t as int).push(ord@[t as int]));
                crate::crossover::lemma_seq_weight_push(
                    ord@.take(t as int),
                    ord@[t as int],
                    open_weight(gv),
                );
            }
            let open = 2 - g[e].1.len();
            let start = starts[e];
            let mut off: usize = 0;
            while off < open
                invariant
                    off <= open,
                    open == 2 - gv[e as int].1@.len(),
                    (e as int) < k,
                    k == gv.len(),
                    gv == g@,
                gv == blueprint.graph_representation@,
                    images@.len() == k + 1,
                    start as int == slots_before(gv, e as int),
                    start as int + open <= k + 1,
                    forall|t2: int|
                        0 <= t2 < images@.len() ==> (#[trigger] images@[t2]).width >= 1
                            && images@[t2].height >= 1,
                    images2@.len() as int == crate::tree::seq_weight(
                        ord@.take(t as int),
                        open_weight(gv),
                    ) + off,
                    forall|t2: int|
                        0 <= t2 < images2@.len() ==> (#[trigger] images2@[t2]).width >= 1
                            && images2@[t2].height >= 1,
                decreases open - off,
            {
                images2.push(images[start + off]);
                off = off + 1;
            }
            t = t + 1;
        }
        proof {
                reveal(parent_linked);
                reveal(queue_linked);
                reveal(queue_linked_mid);
                reveal(mark_is_membership);
                reveal(emitted_children_marked);
            assert(ord@.take(k as int) =~= ord@);
            assert forall|v: usize| ord@.contains(v) <==> rng_seq.contains(v) by {
                        reveal(parent_linked);
                        reveal(queue_linked);
                        reveal(queue_linked_mid);
                        reveal(mark_is_membership);
                        reveal(emitted_children_marked);
                if ord@.contains(v) {
                    let t2 = choose|t2: int| 0 <= t2 < ord@.len() && ord@[t2] == v;
                    assert(rng_seq[v as int] == v);
                }
                if rng_seq.contains(v) {
                    let i2 = choose|i2: int| 0 <= i2 < rng_seq.len() && rng_seq[i2] == v;
                    assert((v as int) < k);
                    assert(ord@.contains(((v as int) as usize)));
                }
            }
            assert(rng_seq.no_duplicates());
            lemma_no_dup_same_elements_multiset(ord@, rng_seq);
            crate::tree::lemma_seq_weight_permutation(ord@, rng_seq, open_weight(gv));
            lemma_slots_is_weight(gv, k as int);
            assert(rng_seq == Seq::new(k as nat, |i: int| i as usize));
            assert(images2@.len() == k + 1);
        }
        let bp2 = LayoutBlueprint {
            graph_representation: g2,
            width: blueprint.width,
            height: blueprint.height,
        };
        let rr = Self::from_creation_order(&bp2, &images2);
        match rr {
            Ok(l) => {
                proof {
                reveal(parent_linked);
                reveal(queue_linked);
                reveal(queue_linked_mid);
                reveal(mark_is_membership);
                reveal(emitted_children_marked);
                    assert(l.nodes@.len() == k + images2@.len());
                    assert(l.nodes@.len() == k + images@.len());
                }
                Ok(l)
            },
            Err(_) => {
                proof {
                reveal(parent_linked);
                reveal(queue_linked);
                reveal(queue_linked_mid);
                reveal(mark_is_membership);
                reveal(emitted_children_marked);
                    assert(codes_ok(g2v) && structure_ok(g2v) && count_ok(
                        g2v,
                        images2@.len() as int,
                    ));
                    assert(false);
                }
                Err(BlueprintError::MalformedStructure)
            },
        }
    }
}

} // verus!

verus! {

proof fn lemma_parent_linked_push(
    g: Seq<(String, Vec<usize>)>,
    ord0: Seq<usize>,
    cur: usize,
    u: int,
)
    requires
        parent_linked(g, ord0),
        ord0.len() == 0 || (0 <= u < ord0.len() && lists_child(g, ord0[u] as int, cur as int)),
    ensures
        parent_linked(g, ord0.push(cur)),
{
    reveal(parent_linked);
    let ord = ord0.push(cur);
    assert forall|t2: int|
        #![trigger listed_by_earlier(g, ord, t2)]
        1 <= t2 < ord.len() implies listed_by_earlier(g, ord, t2) by {
        if t2 < ord0.len() {
            assert(ord0[t2] == ord[t2]);
            assert(listed_by_earlier(g, ord0, t2));
            let u2 = choose|u2: int|
                0 <= u2 < t2 && #[trigger] lists_child(g, ord0[u2] as int, ord0[t2] as int);
            assert(lists_child(g, ord[u2] as int, ord[t2] as int));
            assert(listed_by_earlier(g, ord, t2));
        } else {
            assert(t2 == ord0.len());
            assert(ord0.len() >= 1);
            assert(ord[t2] == cur);
            assert(ord[u] == ord0[u]);
            assert(lists_child(g, ord[u] as int, ord[t2] as int));
            assert(listed_by_earlier(g, ord, t2));
        }
    }
    assert(parent_linked(g, ord));
}

proof fn lemma_mark_shift(visited: Seq<bool>, ord0: Seq<usize>, q0: Seq<usize>, k: int)
    requires
        mark_is_membership(visited, ord0, q0, k),
        q0.len() >= 1,
        k <= usize::MAX,
    ensures
        mark_is_membership(visited, ord0.push(q0[0]), q0.drop_first(), k),
{
    reveal(mark_is_membership);
    let ord = ord0.push(q0[0]);
    let q = q0.drop_first();
    assert forall|c: int|
        0 <= c < k implies ((#[trigger] visited[c]) <==> (ord.contains(c as usize) || q.contains(
        c as usize,
    ))) by {
        if visited[c] {
            if ord0.contains(c as usize) {
                let oi = choose|oi: int| 0 <= oi < ord0.len() && ord0[oi] == c as usize;
                assert(ord[oi] == c as usize);
            } else {
                let qi = choose|qi: int| 0 <= qi < q0.len() && q0[qi] == c as usize;
                if qi == 0 {
                    assert(ord[ord.len() - 1] == c as usize);
                } else {
                    assert(q[qi - 1] == c as usize);
                }
            }
        } else {
            if ord.contains(c as usize) {
                let oi = choose|oi: int| 0 <= oi < ord.len() && ord[oi] == c as usize;
                if oi < ord0.len() {
                    assert(ord0[oi] == c as usize);
                } else {
                    assert(q0[0] == c as usize);
                }
                assert(false);
            }
            if q.contains(c as usize) {
                let qi = choose|qi: int| 0 <= qi < q.len() && q[qi] == c as usize;
                assert(q0[qi + 1] == c as usize);
                assert(false);
            }
        }
    }
}

proof fn lemma_mark_push(
    visited: Seq<bool>,
    ord: Seq<usize>,
    q: Seq<usize>,
    k: int,
    c: usize,
)
    requires
        mark_is_membership(visited, ord, q, k),
        0 <= (c as int) < k,
        k <= visited.len(),
        k <= usize::MAX,
    ensures
        mark_is_membership(visited.update(c as int, true), ord, q.push(c), k),
{
    reveal(mark_is_membership);
    let vis2 = visited.update(c as int, true);
    let q2 = q.push(c);
    assert forall|cc: int|
        0 <= cc < k implies ((#[trigger] vis2[cc]) <==> (ord.contains(cc as usize) || q2.contains(
        cc as usize,
    ))) by {
        if cc == c as int {
            assert(q2[q2.len() - 1] == c);
        } else {
            if q.contains(cc as usize) {
                let qi = choose|qi: int| 0 <= qi < q.len() && q[qi] == cc as usize;
                assert(q2[qi] == cc as usize);
            }
            if q2.contains(cc as usize) {
                let qi = choose|qi: int| 0 <= qi < q2.len() && q2[qi] == cc as usize;
                if qi == q.len() {
                    assert(q2[qi] == c);
                    assert(false);
                }
                assert(q[qi] == cc as usize);
            }
        }
    }
}

proof fn lemma_queue_linked_start(
    g: Seq<(String, Vec<usize>)>,
    ord0: Seq<usize>,
    q0: Seq<usize>,
    root: usize,
)
    requires
        queue_linked(g, ord0, q0, root),
        q0.len() >= 1,
        ord0.len() == 0 ==> q0 =~= seq![root],
    ensures
        queue_linked_mid(g, ord0.push(q0[0]), q0.drop_first(), q0[0], 0),
{
    reveal(queue_linked);
    reveal(queue_linked_mid);
    let ord = ord0.push(q0[0]);
    let q = q0.drop_first();
    let cur = q0[0];
    assert forall|qi: int|
        #![trigger q[qi]]
        0 <= qi < q.len() implies (listed_by_emitted(g, ord, ord.len() - 1, q[qi])
        || listed_by_current(g, cur, 0, q[qi])) by {
        assert(q[qi] == q0[qi + 1]);
        if ord0.len() == 0 {
            assert(q0.len() == 1);
            assert(false);
        } else {
            assert(listed_by_emitted(g, ord0, ord0.len() as int, q0[qi + 1]));
            let u = choose|u: int|
                0 <= u < ord0.len() && #[trigger] lists_child(g, ord0[u] as int, q0[qi + 1] as int);
            assert(ord[u] == ord0[u]);
            assert(lists_child(g, ord[u] as int, q[qi] as int));
            assert(listed_by_emitted(g, ord, ord.len() - 1, q[qi]));
        }
    }
}

proof fn lemma_queue_linked_mid_push(
    g: Seq<(String, Vec<usize>)>,
    ord: Seq<usize>,
    q: Seq<usize>,
    cur: usize,
    a: int,
    c: usize,
)
    requires
        queue_linked_mid(g, ord, q, cur, a),
        0 <= a < g[cur as int].1@.len(),
        (g[cur as int].1@[a] as int) == c as int,
        (cur as int) < g.len(),
    ensures
        queue_linked_mid(g, ord, q.push(c), cur, a + 1),
{
    reveal(queue_linked_mid);
    let q2 = q.push(c);
    assert forall|qi: int|
        #![trigger q2[qi]]
        0 <= qi < q2.len() implies (listed_by_emitted(g, ord, ord.len() - 1, q2[qi])
        || listed_by_current(g, cur, a + 1, q2[qi])) by {
        if qi < q.len() {
            assert(q2[qi] == q[qi]);
            if listed_by_current(g, cur, a, q[qi]) {
                let a2 = choose|a2: int|
                    0 <= a2 < a && ((#[trigger] g[cur as int].1@[a2]) as int) == q[qi] as int;
                assert(listed_by_current(g, cur, a + 1, q2[qi]));
            }
        } else {
            assert(q2[qi] == c);
            assert((g[cur as int].1@[a]) as int == c as int);
            assert(listed_by_current(g, cur, a + 1, q2[qi]));
        }
    }
}

proof fn lemma_queue_linked_finish(
    g: Seq<(String, Vec<usize>)>,
    ord: Seq<usize>,
    q: Seq<usize>,
    cur: usize,
    root: usize,
    a: int,
)
    requires
        queue_linked_mid(g, ord, q, cur, a),
        ord.len() >= 1,
        ord[ord.len() - 1] == cur,
        (cur as int) < g.len(),
        a <= g[cur as int].1@.len(),
    ensures
        queue_linked(g, ord, q, root),
{
    reveal(queue_linked);
    reveal(queue_linked_mid);
    assert forall|qi: int|
        #![trigger q[qi]]
        0 <= qi < q.len() implies (q[qi] == root && ord.len() == 0 || listed_by_emitted(
        g,
        ord,
        ord.len() as int,
        q[qi],
    )) by {
        if listed_by_emitted(g, ord, ord.len() - 1, q[qi]) {
            let u = choose|u: int|
                0 <= u < ord.len() - 1 && #[trigger] lists_child(g, ord[u] as int, q[qi] as int);
            assert(listed_by_emitted(g, ord, ord.len() as int, q[qi]));
        } else {
            assert(listed_by_current(g, cur, a, q[qi]));
            let a2 = choose|a2: int|
                0 <= a2 < a && ((#[trigger] g[cur as int].1@[a2]) as int) == q[qi] as int;
            assert(lists_child(g, ord[ord.len() - 1] as int, q[qi] as int));
            assert(listed_by_emitted(g, ord, ord.len() as int, q[qi]));
        }
    }
}

proof fn lemma_emitted_push_prefix(
    g: Seq<(String, Vec<usize>)>,
    ord0: Seq<usize>,
    visited: Seq<bool>,
    cur: usize,
)
    requires
        emitted_children_marked(g, ord0, visited, ord0.len() as int),
    ensures
        emitted_children_marked(g, ord0.push(cur), visited, ord0.len() as int),
{
    reveal(emitted_children_marked);
    let ord = ord0.push(cur);
    assert forall|u: int, a2: int|
        0 <= u < ord0.len() && 0 <= a2 < g[ord[u] as int].1@.len() implies visited[(
        #[trigger] g[ord[u] as int].1@[a2]) as int] by {
        assert(ord[u] == ord0[u]);
    }
}

proof fn lemma_emitted_grow(
    g: Seq<(String, Vec<usize>)>,
    ord: Seq<usize>,
    vis1: Seq<bool>,
    vis2: Seq<bool>,
    upto: int,
)
    requires
        emitted_children_marked(g, ord, vis1, upto),
        vis1.len() == vis2.len(),
        forall|i: int| 0 <= i < vis1.len() ==> (vis1[i] ==> #[trigger] vis2[i]),
        forall|u: int, a2: int|
            0 <= u < upto && 0 <= a2 < g[ord[u] as int].1@.len() ==> 0 <= ((
            #[trigger] g[ord[u] as int].1@[a2]) as int) < vis1.len(),
    ensures
        emitted_children_marked(g, ord, vis2, upto),
{
    reveal(emitted_children_marked);
}

proof fn lemma_emitted_finish(
    g: Seq<(String, Vec<usize>)>,
    ord: Seq<usize>,
    visited: Seq<bool>,
    cur: usize,
)
    requires
        emitted_children_marked(g, ord, visited, ord.len() - 1),
        ord.len() >= 1,
        ord[ord.len() - 1] == cur,
        (cur as int) < g.len(),
        forall|a2: int|
            0 <= a2 < g[cur as int].1@.len() ==> visited[(#[trigger] g[cur as int].1@[a2]) as int],
    ensures
        emitted_children_marked(g, ord, visited, ord.len() as int),
{
    reveal(emitted_children_marked);
    assert forall|u: int, a2: int|
        0 <= u < ord.len() && 0 <= a2 < g[ord[u] as int].1@.len() implies visited[(
        #[trigger] g[ord[u] as int].1@[a2]) as int] by {
        if u == ord.len() - 1 {
            assert(ord[u] == cur);
        }
    }
}

} // verus!
