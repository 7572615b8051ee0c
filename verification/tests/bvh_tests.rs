use bvh_core::bounds::BoundingBox;
use bvh_core::builder::{Bvh, BvhNode};
use bvh_core::split::{centroid_key, choose_axis, partition, split_triangles, Axis};
use bvh_core::types::{Triangle, Vec3};

fn v(x: i32, y: i32, z: i32) -> Vec3 {
    Vec3 { x, y, z }
}

/// A triangle whose centroid (sum of vertices / 3) sits at `(cx, cy, cz)`.
fn tri_at(cx: i32, cy: i32, cz: i32) -> Triangle {
    let zero = v(0, 0, 0);
    Triangle {
        v0: v(cx - 1, cy - 1, cz),
        v1: v(cx + 1, cy + 1, cz),
        v2: v(cx, cy, cz),
        n0: zero,
        n1: zero,
        n2: zero,
    }
}

fn count_in(haystack: &[Triangle], needle: &Triangle) -> usize {
    haystack.iter().filter(|t| *t == needle).count()
}

/// Walk the tree from `i`, collecting the faces of every leaf.
fn collect_leaves(nodes: &[BvhNode], faces: &[Triangle], i: usize, out: &mut Vec<Triangle>) {
    let n = &nodes[i];
    if n.face_count > 0 {
        for k in 0..n.face_count as usize {
            out.push(faces[n.index as usize + k]);
        }
    } else {
        collect_leaves(nodes, faces, n.index as usize, out);
        collect_leaves(nodes, faces, n.index as usize + 1, out);
    }
}

fn box_within(inner: &BoundingBox, outer: &BoundingBox) -> bool {
    outer.min.x <= inner.min.x
        && inner.max.x <= outer.max.x
        && outer.min.y <= inner.min.y
        && inner.max.y <= outer.max.y
        && outer.min.z <= inner.min.z
        && inner.max.z <= outer.max.z
}

fn tree_height(nodes: &[BvhNode], i: usize) -> u32 {
    let n = &nodes[i];
    if n.face_count > 0 {
        1
    } else {
        let l = tree_height(nodes, n.index as usize);
        let r = tree_height(nodes, n.index as usize + 1);
        1 + l.max(r)
    }
}

#[test]
fn from_faces_accumulates_componentwise() {
    let t1 = Triangle {
        v0: v(-3, 0, 5),
        v1: v(2, -7, 1),
        v2: v(0, 4, -2),
        n0: v(0, 0, 0),
        n1: v(0, 0, 0),
        n2: v(0, 0, 0),
    };
    let t2 = tri_at(10, 10, 10);
    let b = BoundingBox::from_faces(&vec![t1, t2]);
    assert_eq!(b.min, v(-3, -7, -2));
    assert_eq!(b.max, v(11, 11, 10));
}

#[test]
fn from_faces_empty_is_sentinel() {
    let b = BoundingBox::from_faces(&vec![]);
    assert_eq!(b.min, v(i32::MAX, i32::MAX, i32::MAX));
    assert_eq!(b.max, v(i32::MIN, i32::MIN, i32::MIN));
}

#[test]
fn choose_axis_prefers_widest_with_x_y_z_ties() {
    let cube = BoundingBox { min: v(0, 0, 0), max: v(4, 4, 4) };
    assert_eq!(choose_axis(&cube), Axis::Z);
    let wide_x = BoundingBox { min: v(0, 0, 0), max: v(9, 4, 4) };
    assert_eq!(choose_axis(&wide_x), Axis::X);
    let wide_y = BoundingBox { min: v(0, 0, 0), max: v(4, 9, 4) };
    assert_eq!(choose_axis(&wide_y), Axis::Y);
    let x_ties_y = BoundingBox { min: v(0, 0, 0), max: v(9, 9, 4) };
    assert_eq!(choose_axis(&x_ties_y), Axis::Y);
    let y_ties_z = BoundingBox { min: v(0, 0, 0), max: v(4, 9, 9) };
    assert_eq!(choose_axis(&y_ties_z), Axis::Z);
}

#[test]
fn centroid_key_is_vertex_sum() {
    let t = tri_at(5, -2, 7);
    assert_eq!(centroid_key(&t, Axis::X), 15);
    assert_eq!(centroid_key(&t, Axis::Y), -6);
    assert_eq!(centroid_key(&t, Axis::Z), 21);
}

#[test]
fn one_triangle_makes_a_single_leaf() {
    let t = tri_at(3, 4, 5);
    let bvh = Bvh::from_mesh(&vec![t]);
    assert_eq!(bvh.faces, vec![t]);
    assert_eq!(bvh.nodes.len(), 1);
    let root = &bvh.nodes[0];
    assert_eq!(root.index, 0);
    assert_eq!(root.face_count, 1);
    assert_eq!(root.bounds, BoundingBox::from_faces(&vec![t]));
}

#[test]
fn two_spread_triangles_split_on_x_lower_first() {
    let near = tri_at(-10, 0, 0);
    let far = tri_at(10, 0, 0);
    // given in the opposite order, the sort moves the lower centroid first
    let tris = vec![far, near];
    assert_eq!(choose_axis(&BoundingBox::from_faces(&tris)), Axis::X);
    let bvh = Bvh::build(&tris, 1, 32);
    assert_eq!(bvh.nodes.len(), 3);
    let root = &bvh.nodes[0];
    assert_eq!(root.face_count, 0);
    assert_eq!(root.index, 1);
    let left = &bvh.nodes[1];
    let right = &bvh.nodes[2];
    assert_eq!(left.face_count, 1);
    assert_eq!(right.face_count, 1);
    // the triangle nearer the low end of the axis lands in node 1
    assert_eq!(bvh.faces[left.index as usize], near);
    assert_eq!(bvh.faces[right.index as usize], far);
}

#[test]
fn empty_input_yields_sentinel_leaf() {
    let bvh = Bvh::from_mesh(&vec![]);
    assert!(bvh.faces.is_empty());
    assert_eq!(bvh.nodes.len(), 1);
    let root = &bvh.nodes[0];
    assert_eq!(root.index, 0);
    assert_eq!(root.face_count, 0);
    assert_eq!(root.bounds.min, v(i32::MAX, i32::MAX, i32::MAX));
    assert_eq!(root.bounds.max, v(i32::MIN, i32::MIN, i32::MIN));
}

#[test]
fn identical_centroids_still_split_at_mid_in_input_order() {
    let a = tri_at(1, 1, 1);
    let b = tri_at(1, 1, 1);
    let c = tri_at(1, 1, 1);
    let (left, right) = split_triangles(&vec![a, b, c]);
    assert_eq!(left.len(), 1);
    assert_eq!(right.len(), 2);
    // equal centroids keep input order: the first triangle goes left
    assert_eq!(left, vec![a]);
    assert_eq!(right, vec![b, c]);
}

#[test]
fn split_orders_by_centroid_ascending() {
    let lo = tri_at(-50, 0, 0);
    let mid = tri_at(0, 0, 0);
    let hi = tri_at(50, 0, 0);
    let hi2 = tri_at(60, 0, 0);
    let (left, right) = split_triangles(&vec![hi, lo, hi2, mid]);
    assert_eq!(left, vec![lo, mid]);
    assert_eq!(right, vec![hi, hi2]);
}

#[test]
fn partition_follows_the_given_axis() {
    // spread on x, but partitioned along y
    let a = tri_at(100, 1, 0);
    let b = tri_at(-100, 2, 0);
    let c = tri_at(0, 3, 0);
    let d = tri_at(50, 4, 0);
    let (left, right) = partition(&vec![d, b, c, a], Axis::Y);
    assert_eq!(left, vec![a, b]);
    assert_eq!(right, vec![c, d]);
}

#[test]
fn walk_reaches_every_input_triangle_once() {
    let mut tris = Vec::new();
    for i in 0..37 {
        tris.push(tri_at(i * 7 % 13, i * 5 % 11, i % 3));
    }
    let bvh = Bvh::from_mesh(&tris);
    let mut walked = Vec::new();
    collect_leaves(&bvh.nodes, &bvh.faces, 0, &mut walked);
    assert_eq!(walked.len(), tris.len());
    for t in &tris {
        assert_eq!(count_in(&walked, t), count_in(&tris, t));
    }
}

#[test]
fn children_stay_inside_parents() {
    let mut tris = Vec::new();
    for i in 0..64 {
        tris.push(tri_at(i * 31 % 101 - 50, i * 17 % 97 - 48, i * 13 % 89 - 44));
    }
    let bvh = Bvh::from_mesh(&tris);
    for (j, n) in bvh.nodes.iter().enumerate() {
        if n.face_count == 0 {
            let l = n.index as usize;
            assert!(j < l);
            assert!(l + 1 < bvh.nodes.len());
            assert!(box_within(&bvh.nodes[l].bounds, &n.bounds));
            assert!(box_within(&bvh.nodes[l + 1].bounds, &n.bounds));
        }
    }
}

#[test]
fn root_bounds_are_exactly_the_input_bounds() {
    let mut tris = Vec::new();
    for i in 0..23 {
        tris.push(tri_at(i * 9 - 100, 200 - i * 8, i));
    }
    let bvh = Bvh::from_mesh(&tris);
    assert_eq!(bvh.nodes[0].bounds, BoundingBox::from_faces(&tris));
}

#[test]
fn depth_budget_caps_the_tree() {
    // forty spread triangles would split a dozen levels deep; the budget
    // stops the recursion and the rest lands in wide leaves
    let mut tris = Vec::new();
    for i in 0..40 {
        tris.push(tri_at(i, 0, 0));
    }
    let bvh = Bvh::build(&tris, 1, 3);
    assert_eq!(bvh.faces.len(), 40);
    assert!(tree_height(&bvh.nodes, 0) <= 4);

    let deep = Bvh::from_mesh(&tris);
    assert!(tree_height(&deep.nodes, 0) <= 33);
}

#[test]
fn threshold_zero_terminates_and_keeps_faces() {
    let tris = vec![tri_at(2, 2, 2), tri_at(2, 2, 2), tri_at(2, 2, 2)];
    let bvh = Bvh::build(&tris, 0, 32);
    assert_eq!(bvh.faces.len(), 3);
    for t in &tris {
        assert_eq!(count_in(&bvh.faces, t), count_in(&tris, t));
    }
}
