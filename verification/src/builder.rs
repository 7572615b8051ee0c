use vstd::prelude::*;
use vstd::seq_lib::lemma_multiset_commutative;

use crate::bounds::{box_inside, spec_empty_box, spec_from_faces, BoundingBox};
use crate::split::{lemma_spec_sorted_ensures, spec_choose_axis, spec_sorted, split_triangles};
use crate::types::Triangle;

verus! {

/// One node of the array-encoded tree.
///
/// `face_count == 0` marks an interior node: `index` is the position of its
/// left child in the node array and the right child sits immediately after,
/// at `index + 1`. `face_count > 0` marks a leaf: `index` is the offset into
/// the face array where its `face_count` triangles lie contiguously.
#[derive(Clone, Copy, PartialEq, Eq, Debug)]
pub struct BvhNode {
    pub bounds: BoundingBox,
    pub index: u32,
    pub face_count: u32,
}

/// A built hierarchy for one mesh: the reordered flat face array and the
/// node array. The node at position 0 is the root.
#[derive(Debug)]
pub struct Bvh {
    pub faces: Vec<Triangle>,
    pub nodes: Vec<BvhNode>,
}

/// The node a build writes for an empty input: a degenerate leaf holding no
/// faces, bounded by the inverted sentinel box. Well-formed but unusable
/// for traversal; callers that care check for an empty mesh beforehand.
pub open spec fn empty_input_node(fs: int) -> BvhNode {
    BvhNode { bounds: spec_empty_box(), index: fs as u32, face_count: 0 }
}

/// How many descendant slots a build appends for a run of `len` faces with
/// the given leaf threshold and depth budget. A leaf appends none; a split
/// appends two child slots plus the descendants of each half. The builder
/// is deterministic, so this pins the node count of every subtree.
pub open spec fn region_size(len: int, threshold: int, depth: int) -> int
    decreases depth,
{
    if len <= threshold || depth <= 0 {
        0
    } else {
        2 + region_size(len / 2, threshold, depth - 1) + region_size(
            len - len / 2,
            threshold,
            depth - 1,
        )
    }
}

/// The order in which a build lays the faces of `tris` into the flat face
/// array: a run small enough for a leaf (or out of depth budget) stays as
/// it is; otherwise the run is sorted by centroid along its widest axis
/// and each half is laid out in turn, left first. The builder is
/// deterministic, so this pins the face array exactly.
pub open spec fn spec_built_faces(tris: Seq<Triangle>, threshold: int, depth: int) -> Seq<
    Triangle,
>
    decreases depth,
{
    if tris.len() <= threshold || depth <= 0 {
        tris
    } else {
        let srt = spec_sorted(tris, spec_choose_axis(spec_from_faces(tris)));
        let mid = tris.len() as int / 2;
        spec_built_faces(srt.subrange(0, mid), threshold, depth - 1) + spec_built_faces(
            srt.subrange(mid, tris.len() as int),
            threshold,
            depth - 1,
        )
    }
}

/// The subtree rooted at position `i` of `nodes` is a well-formed
/// hierarchy over `faces[fs..fe]`, built with the given leaf threshold and
/// remaining depth budget, its descendants filling `nodes[ns..ne]`:
///
/// - a leaf is taken exactly when the run is small enough or the budget is
///   spent; its faces are the run itself and its box is their exact bound;
/// - an interior node splits its run at the midpoint; its box is the exact
///   bound of its whole run, its children sit contiguously at `ns` and
///   `ns + 1`, the left child's descendants come first and the right
///   child's fill the rest of the span, and each child's box lies within
///   the parent's.
pub open spec fn subtree_ok(
    nodes: Seq<BvhNode>,
    faces: Seq<Triangle>,
    i: int,
    threshold: int,
    depth: int,
    fs: int,
    fe: int,
    ns: int,
    ne: int,
) -> bool
    decreases depth,
{
    &&& 0 <= i < nodes.len()
    &&& 0 <= fs <= fe <= faces.len()
    &&& if nodes[i].face_count > 0 {
        // leaf
        &&& ns == ne
        &&& (fe - fs <= threshold || depth == 0)
        &&& nodes[i].index as int == fs
        &&& fs + nodes[i].face_count as int == fe
        &&& nodes[i].bounds == spec_from_faces(faces.subrange(fs, fe))
    } else {
        // interior
        &&& depth > 0
        &&& fe - fs > threshold
        &&& i < ns
        &&& ns + 2 <= ne <= nodes.len()
        &&& nodes[i].index as int == ns
        &&& nodes[i].bounds == spec_from_faces(faces.subrange(fs, fe))
        &&& box_inside(nodes[ns].bounds, nodes[i].bounds)
        &&& box_inside(nodes[ns + 1].bounds, nodes[i].bounds)
        &&& subtree_ok(
            nodes,
            faces,
            ns,
            threshold,
            depth - 1,
            fs,
            fs + (fe - fs) / 2,
            ns + 2,
            ns + 2 + region_size((fe - fs) / 2, threshold, depth - 1),
        )
        &&& subtree_ok(
            nodes,
            faces,
            ns + 1,
            threshold,
            depth - 1,
            fs + (fe - fs) / 2,
            fe,
            ns + 2 + region_size((fe - fs) / 2, threshold, depth - 1),
            ne,
        )
    }
}

/// A built hierarchy is well formed over its input: the root sits at
/// position 0 and its subtree spans the whole face and node arrays.
pub open spec fn bvh_wf(b: Bvh, threshold: int, depth: int) -> bool {
    &&& b.nodes@.len() >= 1
    &&& subtree_ok(
        b.nodes@,
        b.faces@,
        0,
        threshold,
        depth,
        0,
        b.faces@.len() as int,
        1,
        b.nodes@.len() as int,
    )
}

/// A build never removes slots: every region size is non-negative.
pub proof fn lemma_region_size_nonneg(len: int, threshold: int, depth: int)
    ensures
        region_size(len, threshold, depth) >= 0,
    decreases depth,
{
    if !(len <= threshold || depth <= 0) {
        lemma_region_size_nonneg(len / 2, threshold, depth - 1);
        lemma_region_size_nonneg(len - len / 2, threshold, depth - 1);
    }
}

/// The node span of a well-formed subtree has exactly the size the
/// deterministic build assigns to its face run.
pub proof fn lemma_subtree_region_size(
    nodes: Seq<BvhNode>,
    faces: Seq<Triangle>,
    i: int,
    threshold: int,
    depth: int,
    fs: int,
    fe: int,
    ns: int,
    ne: int,
)
    requires
        subtree_ok(nodes, faces, i, threshold, depth, fs, fe, ns, ne),
    ensures
        ne - ns == region_size(fe - fs, threshold, depth),
    decreases depth,
{
    if nodes[i].face_count > 0 {
    } else {
        let mid = (fe - fs) / 2;
        let m = ns + 2 + region_size(mid, threshold, depth - 1);
        lemma_subtree_region_size(
            nodes,
            faces,
            ns,
            threshold,
            depth - 1,
            fs,
            fs + mid,
            ns + 2,
            m,
        );
        lemma_subtree_region_size(
            nodes,
            faces,
            ns + 1,
            threshold,
            depth - 1,
            fs + mid,
            fe,
            m,
            ne,
        );
    }
}

/// A well-formed subtree stays well formed when the arrays only grow or
/// change outside of it: its root entry, its node span and its face run
/// are all that it reads.
pub proof fn lemma_subtree_frame(
    n1: Seq<BvhNode>,
    f1: Seq<Triangle>,
    n2: Seq<BvhNode>,
    f2: Seq<Triangle>,
    i: int,
    threshold: int,
    depth: int,
    fs: int,
    fe: int,
    ns: int,
    ne: int,
)
    requires
        subtree_ok(n1, f1, i, threshold, depth, fs, fe, ns, ne),
        n1.len() <= n2.len(),
        f1.len() <= f2.len(),
        n2[i] == n1[i],
        forall|k: int| ns <= k < ne ==> n2[k] == n1[k],
        forall|k: int| fs <= k < fe ==> f2[k] == f1[k],
    ensures
        subtree_ok(n2, f2, i, threshold, depth, fs, fe, ns, ne),
    decreases depth,
{
    assert(f2.subrange(fs, fe) =~= f1.subrange(fs, fe));
    if n1[i].face_count > 0 {
    } else {
        let mid = (fe - fs) / 2;
        let m = ns + 2 + region_size(mid, threshold, depth - 1);
        lemma_region_size_nonneg(mid, threshold, depth - 1);
        lemma_subtree_region_size(n1, f1, ns + 1, threshold, depth - 1, fs + mid, fe, m, ne);
        lemma_region_size_nonneg(fe - fs - mid, threshold, depth - 1);
        lemma_subtree_frame(n1, f1, n2, f2, ns, threshold, depth - 1, fs, fs + mid, ns + 2, m);
        lemma_subtree_frame(n1, f1, n2, f2, ns + 1, threshold, depth - 1, fs + mid, fe, m, ne);
    }
}

/// How far the node array can grow while building a run of `len` faces
/// with `d` depth budget left: the two placeholder pushes per split stay
/// under `4 * len * d`.
proof fn lemma_growth(len: int, mid: int, d: int)
    requires
        0 <= mid <= len,
        1 <= len,
        1 <= d,
    ensures
        2 + 4 * mid * (d - 1) + 4 * (len - mid) * (d - 1) <= 4 * len * d,
        0 <= 4 * mid * (d - 1),
        0 <= 4 * (len - mid) * (d - 1),
{
    assert(2 + 4 * mid * (d - 1) + 4 * (len - mid) * (d - 1) <= 4 * len * d) by (nonlinear_arith)
        requires
            0 <= mid <= len,
            1 <= len,
            1 <= d,
    ;
    assert(0 <= 4 * mid * (d - 1)) by (nonlinear_arith)
        requires
            0 <= mid,
            1 <= d,
    ;
    assert(0 <= 4 * (len - mid) * (d - 1)) by (nonlinear_arith)
        requires
            mid <= len,
            1 <= d,
    ;
}

/// The growth bound is never negative, and an empty run never grows the
/// node array.
proof fn lemma_growth_nonneg(len: int, d: int)
    requires
        0 <= len,
        0 <= d,
    ensures
        0 <= 4 * len * d,
        len == 0 ==> 4 * len * d == 0,
{
    assert(0 <= 4 * len * d) by (nonlinear_arith)
        requires
            0 <= len,
            0 <= d,
    ;
    if len == 0 {
        assert(4 * len * d == 0) by (nonlinear_arith)
            requires
                len == 0,
        ;
    }
}

/// An owned copy of a triangle list.
fn copy_triangles(v: &Vec<Triangle>) -> (r: Vec<Triangle>)
    ensures
        r@ == v@,
{
    let mut r: Vec<Triangle> = Vec::new();
    let mut i: usize = 0;
    while i < v.len()
        invariant
            0 <= i <= v@.len(),
            r@ =~= v@.subrange(0, i as int),
        decreases v@.len() - i,
    {
        r.push(v[i]);
        proof {
            assert(r@ =~= v@.subrange(0, i + 1));
        }
        i = i + 1;
    }
    proof {
        assert(r@ =~= v@);
    }
    r
}

/// Fill the reserved `slot` with the node covering `triangles`, appending
/// its descendants to `nodes` and its faces to `faces`.
///
/// Small runs and a spent depth budget make a leaf: the run goes to the
/// face array and the node records where. Otherwise two contiguous child
/// slots are reserved at the end of the node array, the slot is filled
/// with an interior node pointing at them, and the two halves of the
/// midpoint split are built into the reserved slots, left first.
fn build_into(
    nodes: &mut Vec<BvhNode>,
    faces: &mut Vec<Triangle>,
    slot: usize,
    triangles: Vec<Triangle>,
    threshold: usize,
    depth: u32,
)
    requires
        slot < old(nodes)@.len(),
        old(nodes)@.len() + 4 * (triangles@.len() as int) * (depth as int) <= u32::MAX,
        old(faces)@.len() + triangles@.len() <= u32::MAX,
    ensures
        final(nodes)@.len() >= old(nodes)@.len(),
        final(nodes)@.len() <= old(nodes)@.len() + 4 * (triangles@.len() as int) * (depth as int),
        forall|k: int|
            0 <= k < old(nodes)@.len() && k != slot ==> final(nodes)@[k] == old(nodes)@[k],
        final(faces)@.len() == old(faces)@.len() + triangles@.len(),
        final(faces)@.subrange(0, old(faces)@.len() as int) == old(faces)@,
        final(faces)@.subrange(
            old(faces)@.len() as int,
            final(faces)@.len() as int,
        ).to_multiset() == triangles@.to_multiset(),
        final(faces)@.subrange(old(faces)@.len() as int, final(faces)@.len() as int)
            == spec_built_faces(triangles@, threshold as int, depth as int),
        final(nodes)@[slot as int].bounds == spec_from_faces(triangles@),
        triangles@.len() == 0 ==> final(nodes)@[slot as int] == empty_input_node(
            old(faces)@.len() as int,
        ),
        threshold >= 1 && triangles@.len() > 0 ==> subtree_ok(
            final(nodes)@,
            final(faces)@,
            slot as int,
            threshold as int,
            depth as int,
            old(faces)@.len() as int,
            final(faces)@.len() as int,
            old(nodes)@.len() as int,
            final(nodes)@.len() as int,
        ),
    decreases depth,
{
    let ghost fs = faces@.len() as int;
    let ghost ns = nodes@.len() as int;
    let bounds = BoundingBox::from_faces(&triangles);
    if triangles.len() <= threshold || depth == 0 {
        let index = faces.len() as u32;
        let face_count = triangles.len() as u32;
        let mut k: usize = 0;
        while k < triangles.len()
            invariant
                0 <= k <= triangles@.len(),
                faces@ =~= old(faces)@ + triangles@.subrange(0, k as int),
            decreases triangles@.len() - k,
        {
            faces.push(triangles[k]);
            proof {
                assert(faces@ =~= old(faces)@ + triangles@.subrange(0, k + 1));
            }
            k = k + 1;
        }
        proof {
            assert(faces@ =~= old(faces)@ + triangles@);
        }
        nodes[slot] = BvhNode { bounds, index, face_count };
        proof {
            lemma_growth_nonneg(triangles@.len() as int, depth as int);
            assert(faces@.subrange(0, fs) =~= old(faces)@);
            assert(faces@.subrange(fs, faces@.len() as int) =~= triangles@);
            if threshold >= 1 && triangles@.len() > 0 {
                assert(subtree_ok(
                    nodes@,
                    faces@,
                    slot as int,
                    threshold as int,
                    depth as int,
                    fs,
                    faces@.len() as int,
                    ns,
                    nodes@.len() as int,
                ));
            }
        }
    } else {
        let left_slot = nodes.len();
        let ghost len = triangles@.len() as int;
        let ghost d = depth as int;
        proof {
            lemma_growth(len, len / 2, d);
        }
        let placeholder = BvhNode { bounds, index: 0, face_count: 0 };
        nodes.push(placeholder);
        nodes.push(placeholder);
        nodes[slot] = BvhNode { bounds, index: left_slot as u32, face_count: 0 };
        let (left, right) = split_triangles(&triangles);
        let ghost srt = spec_sorted(triangles@, spec_choose_axis(spec_from_faces(triangles@)));
        let ghost mid = len / 2;
        let ghost nodes_pre = nodes@;
        let ghost faces_pre = faces@;
        build_into(nodes, faces, left_slot, left, threshold, depth - 1);
        let ghost nodes_l = nodes@;
        let ghost faces_l = faces@;
        let ghost m = nodes@.len() as int;
        let ghost fm = faces@.len() as int;
        build_into(nodes, faces, left_slot + 1, right, threshold, depth - 1);
        proof {
            let fe = faces@.len() as int;
            let ne = nodes@.len() as int;
            lemma_spec_sorted_ensures(triangles@, spec_choose_axis(spec_from_faces(triangles@)));
            // the two halves are drawn from the input, so their boxes nest
            // inside the box of the whole run
            assert forall|k: int| 0 <= k < srt.subrange(0, mid).len() implies triangles@.contains(
                #[trigger] srt.subrange(0, mid)[k],
            ) by {
                assert(srt.subrange(0, mid)[k] == srt[k]);
            }
            assert forall|k: int|
                0 <= k < srt.subrange(mid, len).len() implies triangles@.contains(
                #[trigger] srt.subrange(mid, len)[k],
            ) by {
                assert(srt.subrange(mid, len)[k] == srt[mid + k]);
            }
            crate::bounds::lemma_from_faces_mono(srt.subrange(0, mid), triangles@);
            crate::bounds::lemma_from_faces_mono(srt.subrange(mid, len), triangles@);
            // the faces of the run are the faces of the two halves in order
            assert(faces@.subrange(0, fs) =~= old(faces)@) by {
                assert forall|k: int| 0 <= k < fs implies faces@[k] == old(faces)@[k] by {
                    assert(faces@.subrange(0, fm)[k] == faces_l[k]);
                    assert(faces_l.subrange(0, fs)[k] == old(faces)@[k]);
                }
            }
            assert(faces@.subrange(fs, fm) =~= faces_l.subrange(fs, fm)) by {
                assert forall|k: int| fs <= k < fm implies faces@[k] == faces_l[k] by {
                    assert(faces@.subrange(0, fm)[k] == faces_l[k]);
                }
            }
            assert(faces@.subrange(fs, fe) =~= faces@.subrange(fs, fm) + faces@.subrange(fm, fe));
            lemma_multiset_commutative(faces@.subrange(fs, fm), faces@.subrange(fm, fe));
            lemma_multiset_commutative(srt.subrange(0, mid), srt.subrange(mid, len));
            assert(srt.subrange(0, mid) + srt.subrange(mid, len) =~= srt);
            assert(faces@.subrange(fs, fe).to_multiset() == triangles@.to_multiset());
            // the laid-out faces are the deterministic build order of the run
            assert(faces@.subrange(fs, fm) == spec_built_faces(
                srt.subrange(0, mid),
                threshold as int,
                d - 1,
            ));
            assert(faces@.subrange(fm, fe) == spec_built_faces(
                srt.subrange(mid, len),
                threshold as int,
                d - 1,
            ));
            assert(faces@.subrange(fs, fe) == spec_built_faces(triangles@, threshold as int, d));
            // every node's box is the exact bound of its face run, however
            // the run was reordered on the way in
            crate::bounds::lemma_from_faces_multiset_eq(faces@.subrange(fs, fe), triangles@);
            // the interior node itself survived both child builds
            assert(nodes@[slot as int] == nodes_pre[slot as int]) by {
                assert(nodes_l[slot as int] == nodes_pre[slot as int]);
            }
            if threshold >= 1 {
                // both halves are non-empty, so both children report a
                // well-formed subtree; carry the left one over the right
                // build with the frame lemma and assemble the parent
                assert(len >= 2);
                assert(mid >= 1 && len - mid >= 1);
                assert(subtree_ok(nodes_l, faces_l, ns, threshold as int, d - 1, fs, fm, ns + 2, m));
                lemma_subtree_region_size(
                    nodes_l,
                    faces_l,
                    ns,
                    threshold as int,
                    d - 1,
                    fs,
                    fm,
                    ns + 2,
                    m,
                );
                assert(m == ns + 2 + region_size(mid, threshold as int, d - 1));
                lemma_subtree_frame(
                    nodes_l,
                    faces_l,
                    nodes@,
                    faces@,
                    ns,
                    threshold as int,
                    d - 1,
                    fs,
                    fm,
                    ns + 2,
                    m,
                );
                assert(subtree_ok(nodes@, faces@, ns + 1, threshold as int, d - 1, fm, fe, m, ne));
                assert(fm - fs == (fe - fs) / 2);
                assert(subtree_ok(nodes@, faces@, slot as int, threshold as int, d, fs, fe, ns, ne));
            }
        }
    }
}

impl Bvh {
    /// Build a hierarchy over `triangles` with the given leaf threshold
    /// and depth budget.
    ///
    /// The faces of the result are a reordering of the input; the node at
    /// position 0 is the root and its box is the exact bound of the whole
    /// input. With a threshold of at least 1 and a non-empty input the
    /// whole tree is well formed in the sense of [`subtree_ok`]. An empty
    /// input yields the single degenerate sentinel leaf.
    pub fn build(triangles: &Vec<Triangle>, leaf_threshold: usize, max_depth: u32) -> (r: Bvh)
        requires
            1 + 4 * (triangles@.len() as int) * (max_depth as int) <= u32::MAX,
            triangles@.len() <= u32::MAX,
        ensures
            r.nodes@.len() >= 1,
            r.faces@.len() == triangles@.len(),
            r.faces@.to_multiset() == triangles@.to_multiset(),
            r.faces@ == spec_built_faces(triangles@, leaf_threshold as int, max_depth as int),
            r.nodes@[0].bounds == spec_from_faces(triangles@),
            triangles@.len() == 0 ==> r.nodes@.len() == 1 && r.nodes@[0] == empty_input_node(0),
            leaf_threshold >= 1 && triangles@.len() > 0 ==> bvh_wf(
                r,
                leaf_threshold as int,
                max_depth as int,
            ),
    {
        let mut faces: Vec<Triangle> = Vec::new();
        let mut nodes: Vec<BvhNode> = Vec::new();
        nodes.push(BvhNode { bounds: BoundingBox::empty(), index: 0, face_count: 0 });
        let tris = copy_triangles(triangles);
        build_into(&mut nodes, &mut faces, 0, tris, leaf_threshold, max_depth);
        proof {
            lemma_growth_nonneg(triangles@.len() as int, max_depth as int);
            assert(faces@.subrange(0, faces@.len() as int) =~= faces@);
        }
        Bvh { faces, nodes }
    }

    /// Build a hierarchy with the default tuning: leaves hold at most two
    /// faces and the depth budget is 32.
    pub fn from_mesh(triangles: &Vec<Triangle>) -> (r: Bvh)
        requires
            triangles@.len() <= 0x01FF_FFFF,
        ensures
            r.nodes@.len() >= 1,
            r.faces@.len() == triangles@.len(),
            r.faces@.to_multiset() == triangles@.to_multiset(),
            r.faces@ == spec_built_faces(triangles@, 2, 32),
            r.nodes@[0].bounds == spec_from_faces(triangles@),
            triangles@.len() == 0 ==> r.nodes@.len() == 1 && r.nodes@[0] == empty_input_node(0),
            triangles@.len() > 0 ==> bvh_wf(r, 2, 32),
    {
        Bvh::build(triangles, 2, 32)
    }
}

} // verus!
