use vstd::prelude::*;

use crate::types::{Triangle, Vec3};

verus! {

/// An axis-aligned bounding box. When it covers at least one point,
/// `min[i] <= max[i]` holds on each axis; the empty accumulator is the
/// inverted sentinel box (`min` at the top of the grid, `max` at the
/// bottom), which no point satisfies.
#[derive(Clone, Copy, PartialEq, Eq, Debug)]
pub struct BoundingBox {
    pub min: Vec3,
    pub max: Vec3,
}

/// The smaller of two coordinates.
pub open spec fn min32(a: i32, b: i32) -> i32 {
    if a <= b {
        a
    } else {
        b
    }
}

/// The larger of two coordinates.
pub open spec fn max32(a: i32, b: i32) -> i32 {
    if a >= b {
        a
    } else {
        b
    }
}

/// The point `p` lies inside `b`.
pub open spec fn point_in(b: BoundingBox, p: Vec3) -> bool {
    &&& b.min.x <= p.x && p.x <= b.max.x
    &&& b.min.y <= p.y && p.y <= b.max.y
    &&& b.min.z <= p.z && p.z <= b.max.z
}

/// All three vertices of `t` lie inside `b`.
pub open spec fn tri_in(b: BoundingBox, t: Triangle) -> bool {
    point_in(b, t.v0) && point_in(b, t.v1) && point_in(b, t.v2)
}

/// `a` lies within `b`: componentwise `a.min >= b.min` and `a.max <= b.max`.
pub open spec fn box_inside(a: BoundingBox, b: BoundingBox) -> bool {
    &&& b.min.x <= a.min.x && a.max.x <= b.max.x
    &&& b.min.y <= a.min.y && a.max.y <= b.max.y
    &&& b.min.z <= a.min.z && a.max.z <= b.max.z
}

/// The inverted sentinel box: the accumulator before any triangle is seen.
pub open spec fn spec_empty_box() -> BoundingBox {
    BoundingBox {
        min: Vec3 { x: i32::MAX, y: i32::MAX, z: i32::MAX },
        max: Vec3 { x: i32::MIN, y: i32::MIN, z: i32::MIN },
    }
}

/// `b` grown to cover the point `p`.
pub open spec fn grow_point(b: BoundingBox, p: Vec3) -> BoundingBox {
    BoundingBox {
        min: Vec3 { x: min32(b.min.x, p.x), y: min32(b.min.y, p.y), z: min32(b.min.z, p.z) },
        max: Vec3 { x: max32(b.max.x, p.x), y: max32(b.max.y, p.y), z: max32(b.max.z, p.z) },
    }
}

/// `b` grown to cover all three vertices of `t`.
pub open spec fn grow_tri(b: BoundingBox, t: Triangle) -> BoundingBox {
    grow_point(grow_point(grow_point(b, t.v0), t.v1), t.v2)
}

/// The componentwise min/max accumulation over every vertex of every
/// triangle of `s`, starting from the sentinel box. This is the box
/// `BoundingBox::from_faces` computes; it is the unique smallest box that
/// covers every triangle of `s`.
pub open spec fn spec_from_faces(s: Seq<Triangle>) -> BoundingBox
    decreases s.len(),
{
    if s.len() == 0 {
        spec_empty_box()
    } else {
        grow_tri(spec_from_faces(s.drop_last()), s.last())
    }
}

/// Growing a box only enlarges it.
pub proof fn lemma_grow_tri_grows(b: BoundingBox, t: Triangle)
    ensures
        box_inside(b, grow_tri(b, t)),
        tri_in(grow_tri(b, t), t),
{
}

/// The accumulated box covers every triangle that went into it.
pub proof fn lemma_from_faces_contains(s: Seq<Triangle>)
    ensures
        forall|k: int| 0 <= k < s.len() ==> tri_in(spec_from_faces(s), #[trigger] s[k]),
    decreases s.len(),
{
    if s.len() > 0 {
        lemma_from_faces_contains(s.drop_last());
        assert forall|k: int| 0 <= k < s.len() implies tri_in(
            spec_from_faces(s),
            #[trigger] s[k],
        ) by {
            let prev = spec_from_faces(s.drop_last());
            lemma_grow_tri_grows(prev, s.last());
            if k < s.len() - 1 {
                assert(s.drop_last()[k] == s[k]);
                assert(tri_in(prev, s[k]));
            }
        }
    }
}

/// The accumulated box is the smallest: it lies within every box that
/// covers all the triangles of `s`.
pub proof fn lemma_from_faces_minimal(s: Seq<Triangle>, b: BoundingBox)
    requires
        forall|k: int| 0 <= k < s.len() ==> tri_in(b, #[trigger] s[k]),
    ensures
        box_inside(spec_from_faces(s), b),
    decreases s.len(),
{
    if s.len() > 0 {
        assert forall|k: int| 0 <= k < s.drop_last().len() implies tri_in(
            b,
            #[trigger] s.drop_last()[k],
        ) by {
            assert(s.drop_last()[k] == s[k]);
        }
        lemma_from_faces_minimal(s.drop_last(), b);
        assert(tri_in(b, s.last()));
    }
}

/// A box that covers every triangle of a longer run covers every triangle
/// of any selection from it, so accumulated boxes nest.
pub proof fn lemma_from_faces_mono(sub: Seq<Triangle>, sup: Seq<Triangle>)
    requires
        forall|k: int| 0 <= k < sub.len() ==> sup.contains(#[trigger] sub[k]),
    ensures
        box_inside(spec_from_faces(sub), spec_from_faces(sup)),
{
    lemma_from_faces_contains(sup);
    assert forall|k: int| 0 <= k < sub.len() implies tri_in(
        spec_from_faces(sup),
        #[trigger] sub[k],
    ) by {
        let j = choose|j: int| 0 <= j < sup.len() && sup[j] == sub[k];
        assert(tri_in(spec_from_faces(sup), sup[j]));
    }
    lemma_from_faces_minimal(sub, spec_from_faces(sup));
}

/// The accumulated box depends only on which triangles went in, however
/// they are ordered: reordering the input leaves it unchanged.
pub proof fn lemma_from_faces_multiset_eq(s1: Seq<Triangle>, s2: Seq<Triangle>)
    requires
        s1.to_multiset() == s2.to_multiset(),
    ensures
        spec_from_faces(s1) == spec_from_faces(s2),
{
    broadcast use vstd::seq_lib::group_to_multiset_ensures;

    assert forall|k: int| 0 <= k < s1.len() implies s2.contains(#[trigger] s1[k]) by {
        assert(s1.contains(s1[k]));
        assert(s1.to_multiset().count(s1[k]) > 0);
    }
    assert forall|k: int| 0 <= k < s2.len() implies s1.contains(#[trigger] s2[k]) by {
        assert(s2.contains(s2[k]));
        assert(s2.to_multiset().count(s2[k]) > 0);
    }
    lemma_from_faces_mono(s1, s2);
    lemma_from_faces_mono(s2, s1);
}

/// The smaller of two coordinates.
pub fn coord_min(a: i32, b: i32) -> (r: i32)
    ensures
        r == min32(a, b),
{
    if a <= b {
        a
    } else {
        b
    }
}

/// The larger of two coordinates.
pub fn coord_max(a: i32, b: i32) -> (r: i32)
    ensures
        r == max32(a, b),
{
    if a >= b {
        a
    } else {
        b
    }
}

impl BoundingBox {
    /// The inverted sentinel box.
    pub fn empty() -> (r: BoundingBox)
        ensures
            r == spec_empty_box(),
    {
        BoundingBox {
            min: Vec3 { x: i32::MAX, y: i32::MAX, z: i32::MAX },
            max: Vec3 { x: i32::MIN, y: i32::MIN, z: i32::MIN },
        }
    }

    /// This box grown to cover the point `p`.
    pub fn grown_point(self, p: Vec3) -> (r: BoundingBox)
        ensures
            r == grow_point(self, p),
    {
        BoundingBox {
            min: Vec3 {
                x: coord_min(self.min.x, p.x),
                y: coord_min(self.min.y, p.y),
                z: coord_min(self.min.z, p.z),
            },
            max: Vec3 {
                x: coord_max(self.max.x, p.x),
                y: coord_max(self.max.y, p.y),
                z: coord_max(self.max.z, p.z),
            },
        }
    }

    /// This box grown to cover all three vertices of `t`.
    pub fn grown(self, t: &Triangle) -> (r: BoundingBox)
        ensures
            r == grow_tri(self, *t),
    {
        self.grown_point(t.v0).grown_point(t.v1).grown_point(t.v2)
    }

    /// Accumulate the componentwise min and max over every vertex of every
    /// input triangle, starting from the sentinel box. An empty input
    /// returns the sentinel box unchanged: a degenerate but well-defined
    /// result, not an error.
    pub fn from_faces(faces: &Vec<Triangle>) -> (r: BoundingBox)
        ensures
            r == spec_from_faces(faces@),
    {
        let mut r = BoundingBox::empty();
        let mut i: usize = 0;
        while i < faces.len()
            invariant
                0 <= i <= faces@.len(),
                r == spec_from_faces(faces@.subrange(0, i as int)),
            decreases faces@.len() - i,
        {
            r = r.grown(&faces[i]);
            proof {
                let pre = faces@.subrange(0, i as int);
                let post = faces@.subrange(0, i + 1);
                assert(post.drop_last() =~= pre);
                assert(post.last() == faces@[i as int]);
            }
            i = i + 1;
        }
        proof {
            assert(faces@.subrange(0, faces@.len() as int) =~= faces@);
        }
        r
    }
}

} // verus!
