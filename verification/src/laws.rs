use vstd::prelude::*;
use vstd::multiset::Multiset;
use vstd::seq_lib::lemma_multiset_commutative;

use crate::bounds::box_inside;
use crate::builder::{
    bvh_wf, lemma_region_size_nonneg, lemma_subtree_region_size, region_size, subtree_ok, Bvh,
    BvhNode,
};
use crate::scene::{mesh_added, Scene};
use crate::types::Triangle;

verus! {

/// The triangles reached by walking the subtree rooted at position `i`:
/// a leaf contributes its face run, an interior node the walks of its two
/// children. Malformed references contribute nothing.
pub open spec fn subtree_faces(nodes: Seq<BvhNode>, faces: Seq<Triangle>, i: int) -> Multiset<
    Triangle,
>
    decreases nodes.len() - i,
{
    if 0 <= i < nodes.len() {
        if nodes[i].face_count > 0 {
            if nodes[i].index as int + nodes[i].face_count as int <= faces.len() {
                faces.subrange(
                    nodes[i].index as int,
                    nodes[i].index as int + nodes[i].face_count as int,
                ).to_multiset()
            } else {
                Multiset::empty()
            }
        } else {
            if i < nodes[i].index as int && nodes[i].index as int + 1 < nodes.len() {
                subtree_faces(nodes, faces, nodes[i].index as int).add(
                    subtree_faces(nodes, faces, nodes[i].index as int + 1),
                )
            } else {
                Multiset::empty()
            }
        }
    } else {
        Multiset::empty()
    }
}

/// How many nodes the longest path from position `i` down to a leaf
/// visits, the ends included. Malformed references count as leaves.
pub open spec fn subtree_height(nodes: Seq<BvhNode>, i: int) -> int
    decreases nodes.len() - i,
{
    if 0 <= i < nodes.len() {
        if nodes[i].face_count > 0 {
            1
        } else {
            if i < nodes[i].index as int && nodes[i].index as int + 1 < nodes.len() {
                let left = subtree_height(nodes, nodes[i].index as int);
                let right = subtree_height(nodes, nodes[i].index as int + 1);
                1 + if left >= right {
                    left
                } else {
                    right
                }
            } else {
                1
            }
        }
    } else {
        0
    }
}

/// The node at position `j` is structurally sound on its own: if it is
/// interior, its left child sits after it, the right child exists right
/// next to the left one, and both children's boxes lie within its own.
pub open spec fn node_ok(nodes: Seq<BvhNode>, j: int) -> bool {
    nodes[j].face_count == 0 ==> {
        &&& j < nodes[j].index as int
        &&& nodes[j].index as int + 1 < nodes.len()
        &&& box_inside(nodes[nodes[j].index as int].bounds, nodes[j].bounds)
        &&& box_inside(nodes[nodes[j].index as int + 1].bounds, nodes[j].bounds)
    }
}

/// Walking a well-formed subtree yields exactly the triangles of its face
/// run.
pub proof fn lemma_subtree_faces(
    nodes: Seq<BvhNode>,
    faces: Seq<Triangle>,
    i: int,
    threshold: int,
    depth: int,
    fs: int,
    fe: int,
    ns: int,
    ne: int,
)
    requires
        subtree_ok(nodes, faces, i, threshold, depth, fs, fe, ns, ne),
    ensures
        subtree_faces(nodes, faces, i) == faces.subrange(fs, fe).to_multiset(),
    decreases depth,
{
    if nodes[i].face_count > 0 {
    } else {
        let mid = (fe - fs) / 2;
        let m = ns + 2 + region_size(mid, threshold, depth - 1);
        lemma_subtree_faces(nodes, faces, ns, threshold, depth - 1, fs, fs + mid, ns + 2, m);
        lemma_subtree_faces(nodes, faces, ns + 1, threshold, depth - 1, fs + mid, fe, m, ne);
        assert(faces.subrange(fs, fe) =~= faces.subrange(fs, fs + mid) + faces.subrange(
            fs + mid,
            fe,
        ));
        lemma_multiset_commutative(faces.subrange(fs, fs + mid), faces.subrange(fs + mid, fe));
    }
}

/// Every node of a well-formed subtree — the root and everything in its
/// span — is structurally sound on its own.
pub proof fn lemma_subtree_nodes_ok(
    nodes: Seq<BvhNode>,
    faces: Seq<Triangle>,
    i: int,
    threshold: int,
    depth: int,
    fs: int,
    fe: int,
    ns: int,
    ne: int,
)
    requires
        subtree_ok(nodes, faces, i, threshold, depth, fs, fe, ns, ne),
    ensures
        forall|j: int| j == i || ns <= j < ne ==> node_ok(nodes, j),
    decreases depth,
{
    if nodes[i].face_count > 0 {
    } else {
        let mid = (fe - fs) / 2;
        let m = ns + 2 + region_size(mid, threshold, depth - 1);
        lemma_region_size_nonneg(mid, threshold, depth - 1);
        lemma_subtree_region_size(nodes, faces, ns + 1, threshold, depth - 1, fs + mid, fe, m, ne);
        lemma_region_size_nonneg(fe - fs - mid, threshold, depth - 1);
        lemma_subtree_nodes_ok(nodes, faces, ns, threshold, depth - 1, fs, fs + mid, ns + 2, m);
        lemma_subtree_nodes_ok(nodes, faces, ns + 1, threshold, depth - 1, fs + mid, fe, m, ne);
        assert(node_ok(nodes, i));
    }
}

/// No path of a well-formed subtree visits more nodes than the depth
/// budget plus one.
pub proof fn lemma_subtree_height(
    nodes: Seq<BvhNode>,
    faces: Seq<Triangle>,
    i: int,
    threshold: int,
    depth: int,
    fs: int,
    fe: int,
    ns: int,
    ne: int,
)
    requires
        0 <= depth,
        subtree_ok(nodes, faces, i, threshold, depth, fs, fe, ns, ne),
    ensures
        subtree_height(nodes, i) <= depth + 1,
    decreases depth,
{
    if nodes[i].face_count > 0 {
    } else {
        let mid = (fe - fs) / 2;
        let m = ns + 2 + region_size(mid, threshold, depth - 1);
        lemma_subtree_height(nodes, faces, ns, threshold, depth - 1, fs, fs + mid, ns + 2, m);
        lemma_subtree_height(nodes, faces, ns + 1, threshold, depth - 1, fs + mid, fe, m, ne);
        assert(i < nodes[i].index as int && nodes[i].index as int + 1 < nodes.len());
        let left = subtree_height(nodes, ns);
        let right = subtree_height(nodes, ns + 1);
        assert(subtree_height(nodes, i) == 1 + if left >= right {
            left
        } else {
            right
        });
    }
}

/// Completeness: for a non-empty input, the triangles reached by walking
/// every leaf from the root are exactly the input triangles as a multiset
/// — none dropped, none duplicated.
pub proof fn lemma_completeness(b: Bvh, input: Seq<Triangle>, threshold: int, depth: int)
    requires
        threshold >= 1,
        input.len() > 0,
        bvh_wf(b, threshold, depth),
        b.faces@.to_multiset() == input.to_multiset(),
    ensures
        subtree_faces(b.nodes@, b.faces@, 0) == input.to_multiset(),
{
    lemma_subtree_faces(
        b.nodes@,
        b.faces@,
        0,
        threshold,
        depth,
        0,
        b.faces@.len() as int,
        1,
        b.nodes@.len() as int,
    );
    assert(b.faces@.subrange(0, b.faces@.len() as int) =~= b.faces@);
}

/// Containment: every interior node's children carry boxes that lie
/// within the parent's box, componentwise.
pub proof fn lemma_containment(b: Bvh, threshold: int, depth: int)
    requires
        bvh_wf(b, threshold, depth),
    ensures
        forall|j: int|
            0 <= j < b.nodes@.len() && b.nodes@[j].face_count == 0 ==> {
                &&& box_inside(
                    b.nodes@[b.nodes@[j].index as int].bounds,
                    b.nodes@[j].bounds,
                )
                &&& box_inside(
                    b.nodes@[b.nodes@[j].index as int + 1].bounds,
                    b.nodes@[j].bounds,
                )
            },
{
    lemma_subtree_nodes_ok(
        b.nodes@,
        b.faces@,
        0,
        threshold,
        depth,
        0,
        b.faces@.len() as int,
        1,
        b.nodes@.len() as int,
    );
    assert forall|j: int|
        0 <= j < b.nodes@.len() && b.nodes@[j].face_count == 0 implies {
        &&& box_inside(b.nodes@[b.nodes@[j].index as int].bounds, b.nodes@[j].bounds)
        &&& box_inside(b.nodes@[b.nodes@[j].index as int + 1].bounds, b.nodes@[j].bounds)
    } by {
        assert(j == 0 || 1 <= j < b.nodes@.len());
        assert(node_ok(b.nodes@, j));
    }
}

/// Sibling contiguity: every interior node with child index `l` has its
/// left child after itself at `l` and its right child at `l + 1`, inside
/// the node array.
pub proof fn lemma_sibling_contiguity(b: Bvh, threshold: int, depth: int)
    requires
        bvh_wf(b, threshold, depth),
    ensures
        forall|j: int|
            0 <= j < b.nodes@.len() && b.nodes@[j].face_count == 0 ==> {
                &&& j < b.nodes@[j].index as int
                &&& b.nodes@[j].index as int + 1 < b.nodes@.len()
            },
{
    lemma_subtree_nodes_ok(
        b.nodes@,
        b.faces@,
        0,
        threshold,
        depth,
        0,
        b.faces@.len() as int,
        1,
        b.nodes@.len() as int,
    );
    assert forall|j: int|
        0 <= j < b.nodes@.len() && b.nodes@[j].face_count == 0 implies {
        &&& j < b.nodes@[j].index as int
        &&& b.nodes@[j].index as int + 1 < b.nodes@.len()
    } by {
        assert(j == 0 || 1 <= j < b.nodes@.len());
        assert(node_ok(b.nodes@, j));
    }
}

/// Depth bound: no path from the root to a leaf visits more than
/// `depth + 1` nodes.
pub proof fn lemma_depth_bound(b: Bvh, threshold: int, depth: int)
    requires
        0 <= depth,
        bvh_wf(b, threshold, depth),
    ensures
        subtree_height(b.nodes@, 0) <= depth + 1,
{
    lemma_subtree_height(
        b.nodes@,
        b.faces@,
        0,
        threshold,
        depth,
        0,
        b.faces@.len() as int,
        1,
        b.nodes@.len() as int,
    );
}

/// Offset correctness: loading two meshes into a fresh scene leaves a
/// global face array as long as the two inputs together, and the second
/// model's face offset names exactly where the first mesh's faces end.
pub proof fn lemma_offset_correctness(
    s0: Scene,
    s1: Scene,
    s2: Scene,
    t1: Seq<Triangle>,
    t2: Seq<Triangle>,
)
    requires
        s0.faces@.len() == 0,
        s0.models@.len() == 0,
        mesh_added(s0, s1, t1),
        mesh_added(s1, s2, t2),
    ensures
        s2.faces@.len() == t1.len() + t2.len(),
        s2.models@.len() == 2,
        s2.models@[1].face_offset as int == t1.len(),
        s2.models@[0].face_offset as int == 0,
{
    assert(s2.models@[1] == s2.models@.last());
}

} // verus!
