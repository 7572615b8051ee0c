use vstd::prelude::*;
use vstd::relations::{sorted_by, total_ordering};
use vstd::seq_lib::lemma_sorted_unique;

use crate::bounds::{spec_from_faces, BoundingBox};
use crate::types::Triangle;

verus! {

/// The coordinate axis along which a split separates the triangles.
#[derive(Clone, Copy, PartialEq, Eq, Debug)]
pub enum Axis {
    X,
    Y,
    Z,
}

/// Extent of `b` along the x axis.
pub open spec fn extent_x(b: BoundingBox) -> int {
    b.max.x - b.min.x
}

/// Extent of `b` along the y axis.
pub open spec fn extent_y(b: BoundingBox) -> int {
    b.max.y - b.min.y
}

/// Extent of `b` along the z axis.
pub open spec fn extent_z(b: BoundingBox) -> int {
    b.max.z - b.min.z
}

/// The axis on which `b` is widest. Ties go by axis priority x, y, z:
/// x only when its extent is strictly greatest, y when it strictly beats z.
pub open spec fn spec_choose_axis(b: BoundingBox) -> Axis {
    if extent_x(b) > extent_y(b) && extent_x(b) > extent_z(b) {
        Axis::X
    } else if extent_y(b) > extent_z(b) {
        Axis::Y
    } else {
        Axis::Z
    }
}

/// Pick the axis along which `b.max - b.min` is largest.
pub fn choose_axis(b: &BoundingBox) -> (r: Axis)
    ensures
        r == spec_choose_axis(*b),
{
    let ex: i64 = b.max.x as i64 - b.min.x as i64;
    let ey: i64 = b.max.y as i64 - b.min.y as i64;
    let ez: i64 = b.max.z as i64 - b.min.z as i64;
    if ex > ey && ex > ez {
        Axis::X
    } else if ey > ez {
        Axis::Y
    } else {
        Axis::Z
    }
}

/// Three times the centroid coordinate of `t` on `axis`: the plain sum of
/// the three vertex coordinates. The centroid is the mean of the three
/// vertices, so ordering by this sum is exactly ordering by the centroid,
/// with no division to round.
pub open spec fn centroid3(t: Triangle, axis: Axis) -> int {
    match axis {
        Axis::X => t.v0.x + t.v1.x + t.v2.x,
        Axis::Y => t.v0.y + t.v1.y + t.v2.y,
        Axis::Z => t.v0.z + t.v1.z + t.v2.z,
    }
}

/// Three times the centroid coordinate of `t` on `axis`.
pub fn centroid_key(t: &Triangle, axis: Axis) -> (r: i64)
    ensures
        r as int == centroid3(*t, axis),
{
    match axis {
        Axis::X => t.v0.x as i64 + t.v1.x as i64 + t.v2.x as i64,
        Axis::Y => t.v0.y as i64 + t.v1.y as i64 + t.v2.y as i64,
        Axis::Z => t.v0.z as i64 + t.v1.z as i64 + t.v2.z as i64,
    }
}

/// Input position `a` sorts no later than position `b`: ascending centroid
/// on the split axis, equal centroids kept in input order. The secondary
/// key makes the sort deterministic.
pub open spec fn idx_le(tris: Seq<Triangle>, axis: Axis, a: usize, b: usize) -> bool {
    ||| centroid3(tris[a as int], axis) < centroid3(tris[b as int], axis)
    ||| (centroid3(tris[a as int], axis) == centroid3(tris[b as int], axis) && a <= b)
}

/// The ordering above as a relation value, for the sorting lemmas.
pub open spec fn idx_leq(tris: Seq<Triangle>, axis: Axis) -> spec_fn(usize, usize) -> bool {
    |a: usize, b: usize| idx_le(tris, axis, a, b)
}

/// The input positions 0..n in input order.
pub open spec fn index_seq(n: int) -> Seq<usize> {
    Seq::new(n as nat, |i: int| i as usize)
}

/// The input positions ordered as the sort leaves them.
pub open spec fn spec_order(tris: Seq<Triangle>, axis: Axis) -> Seq<usize> {
    index_seq(tris.len() as int).sort_by(idx_leq(tris, axis))
}

/// The triangles of `tris` in ascending centroid order on `axis`, equal
/// centroids kept in input order.
pub open spec fn spec_sorted(tris: Seq<Triangle>, axis: Axis) -> Seq<Triangle> {
    spec_order(tris, axis).map_values(|u: usize| tris[u as int])
}

/// The position ordering is a total ordering, for any triangle list.
pub proof fn lemma_idx_leq_total(tris: Seq<Triangle>, axis: Axis)
    ensures
        total_ordering(idx_leq(tris, axis)),
{
    let r = idx_leq(tris, axis);
    assert forall|a: usize| #[trigger] r(a, a) by {}
    assert forall|a: usize, b: usize| #[trigger] r(a, b) && #[trigger] r(b, a) implies a == b by {}
    assert forall|a: usize, b: usize, c: usize|
        #[trigger] r(a, b) && #[trigger] r(b, c) implies #[trigger] r(a, c) by {}
    assert forall|a: usize, b: usize| !(#[trigger] r(a, b)) implies #[trigger] r(b, a) by {}
}

/// A list whose contents are the positions 0..n holds only values below n.
pub proof fn lemma_index_multiset_range(p: Seq<usize>, n: int)
    requires
        0 <= n <= usize::MAX,
        p.to_multiset() == index_seq(n).to_multiset(),
    ensures
        p.len() == n,
        forall|k: int| 0 <= k < p.len() ==> (#[trigger] p[k]) < n,
{
    broadcast use vstd::seq_lib::group_to_multiset_ensures;

    assert(index_seq(n).len() == n);
    assert(p.len() == p.to_multiset().len());
    assert(index_seq(n).len() == index_seq(n).to_multiset().len());
    assert forall|k: int| 0 <= k < p.len() implies (#[trigger] p[k]) < n by {
        assert(p.contains(p[k]));
        assert(p.to_multiset().count(p[k]) > 0);
        assert(index_seq(n).contains(p[k]));
        let j = choose|j: int| 0 <= j < index_seq(n).len() && index_seq(n)[j] == p[k];
        assert(index_seq(n)[j] == j as usize);
        assert(j as usize as int == j);
    }
}

/// Reordering a list of positions of `s` reorders the selected elements:
/// the selection keeps the same multiset.
pub proof fn lemma_perm_map(s: Seq<Triangle>, p: Seq<usize>)
    requires
        s.len() <= usize::MAX,
        p.to_multiset() == index_seq(s.len() as int).to_multiset(),
    ensures
        p.map_values(|u: usize| s[u as int]).to_multiset() == s.to_multiset(),
    decreases s.len(),
{
    broadcast use vstd::seq_lib::group_to_multiset_ensures;
    broadcast use vstd::multiset::group_multiset_axioms;

    let n = s.len() as int;
    let f = |u: usize| s[u as int];
    lemma_index_multiset_range(p, n);
    if n == 0 {
        assert(p.map_values(f) =~= Seq::<Triangle>::empty());
        assert(s =~= Seq::<Triangle>::empty());
        assert(p.map_values(f).to_multiset() =~= s.to_multiset());
    } else {
        let last: usize = (n - 1) as usize;
        assert(last as int == n - 1);
        assert(index_seq(n) =~= index_seq(n - 1).push(last));
        assert(index_seq(n).to_multiset() == index_seq(n - 1).to_multiset().insert(last));
        assert(index_seq(n).contains(last)) by {
            assert(index_seq(n)[n - 1] == last);
        }
        assert(p.to_multiset().count(last) > 0);
        assert(p.contains(last));
        let j = choose|j: int| 0 <= j < p.len() && p[j] == last;
        let q = p.remove(j);
        assert(q.to_multiset() == p.to_multiset().remove(last));
        assert(q.to_multiset() =~= index_seq(n - 1).to_multiset());

        let s1 = s.drop_last();
        let f1 = |u: usize| s1[u as int];
        lemma_perm_map(s1, q);
        lemma_index_multiset_range(q, n - 1);
        assert(q.map_values(f1) =~= q.map_values(f)) by {
            assert forall|k: int| 0 <= k < q.len() implies q.map_values(f1)[k] == q.map_values(
                f,
            )[k] by {
                assert(q[k] < n - 1);
                assert(s1[q[k] as int] == s[q[k] as int]);
            }
        }
        assert(p.map_values(f).remove(j) =~= q.map_values(f)) by {
            assert forall|k: int| 0 <= k < q.len() implies p.map_values(f).remove(j)[k]
                == q.map_values(f)[k] by {
                if k < j {
                    assert(q[k] == p[k]);
                } else {
                    assert(q[k] == p[k + 1]);
                }
            }
        }
        assert(p.map_values(f).remove(j).to_multiset() == p.map_values(f).to_multiset().remove(
            p.map_values(f)[j],
        ));
        assert(p.map_values(f)[j] == s.last()) by {
            assert(p.map_values(f)[j] == f(p[j]));
            assert(p[j] == last);
            assert(f(last) == s[n - 1]);
        }
        assert(q.map_values(f).to_multiset() == p.map_values(f).to_multiset().remove(s.last()));
        assert(s =~= s1.push(s.last()));
        assert(s.to_multiset() == s1.to_multiset().insert(s.last()));
        assert(p.map_values(f).to_multiset().count(s.last()) > 0) by {
            assert(p.map_values(f)[j] == s.last());
            assert(p.map_values(f).contains(s.last()));
        }
        assert(p.map_values(f).to_multiset() =~= q.map_values(f).to_multiset().insert(s.last()));
        assert(q.map_values(f).to_multiset() == s1.to_multiset());
        assert(p.map_values(f).to_multiset() =~= s.to_multiset());
    }
}

/// What the sort hands back: same length, same triangle multiset, every
/// element drawn from the input.
pub proof fn lemma_spec_sorted_ensures(tris: Seq<Triangle>, axis: Axis)
    requires
        tris.len() <= usize::MAX,
    ensures
        spec_sorted(tris, axis).len() == tris.len(),
        spec_sorted(tris, axis).to_multiset() == tris.to_multiset(),
        forall|k: int|
            0 <= k < tris.len() ==> tris.contains(#[trigger] spec_sorted(tris, axis)[k]),
{
    broadcast use vstd::seq_lib::group_to_multiset_ensures;

    let n = tris.len() as int;
    let leq = idx_leq(tris, axis);
    lemma_idx_leq_total(tris, axis);
    index_seq(n).lemma_sort_by_ensures(leq);
    let ord = spec_order(tris, axis);
    assert(ord.to_multiset() == index_seq(n).to_multiset());
    lemma_index_multiset_range(ord, n);
    lemma_perm_map(tris, ord);
    assert forall|k: int| 0 <= k < tris.len() implies tris.contains(
        #[trigger] spec_sorted(tris, axis)[k],
    ) by {
        assert(spec_sorted(tris, axis)[k] == tris[ord[k] as int]);
    }
}

/// The elements of `s` up to position `hi`, leaving aside the one at `j`,
/// stand in sorted order.
spec fn sorted_except(s: Seq<usize>, leq: spec_fn(usize, usize) -> bool, hi: int, j: int) -> bool {
    forall|a: int, b: int|
        #![trigger leq(s[a], s[b])]
        0 <= a < b <= hi && a != j && b != j ==> leq(s[a], s[b])
}

/// The element of `s` at `j` sorts no later than every element after it,
/// up to position `hi`.
spec fn le_rest(s: Seq<usize>, leq: spec_fn(usize, usize) -> bool, hi: int, j: int) -> bool {
    forall|b: int| #![trigger leq(s[j], s[b])] j < b <= hi ==> leq(s[j], s[b])
}

/// The pair of positions at `j - 1` and `j` of `order` stands in the wrong
/// order and the sort has to swap it.
fn out_of_order(tris: &Vec<Triangle>, axis: Axis, order: &Vec<usize>, j: usize) -> (r: bool)
    requires
        1 <= j < order@.len(),
        (order@[j - 1] as int) < tris@.len(),
        (order@[j as int] as int) < tris@.len(),
    ensures
        r == !idx_le(tris@, axis, order@[j - 1], order@[j as int]),
{
    let a: usize = order[j - 1];
    let b: usize = order[j];
    let ka: i64 = centroid_key(&tris[a], axis);
    let kb: i64 = centroid_key(&tris[b], axis);
    ka > kb || (ka == kb && a > b)
}

/// Sort the input positions of `tris` by ascending centroid on `axis`,
/// equal centroids kept in input order.
fn sort_indices(tris: &Vec<Triangle>, axis: Axis) -> (order: Vec<usize>)
    ensures
        order@ == spec_order(tris@, axis),
        order@.len() == tris@.len(),
        forall|k: int| 0 <= k < order@.len() ==> (#[trigger] order@[k]) < tris@.len(),
{
    broadcast use vstd::seq_lib::group_to_multiset_ensures;

    let n = tris.len();
    let ghost leq = idx_leq(tris@, axis);
    let mut order: Vec<usize> = Vec::new();
    let mut i: usize = 0;
    while i < n
        invariant
            0 <= i <= n,
            n == tris@.len(),
            order@ =~= index_seq(i as int),
        decreases n - i,
    {
        order.push(i);
        proof {
            assert(order@ =~= index_seq(i as int).push(i));
            assert(index_seq(i + 1) =~= index_seq(i as int).push(i));
        }
        i = i + 1;
    }
    proof {
        assert(order@.to_multiset() == index_seq(n as int).to_multiset());
        lemma_index_multiset_range(order@, n as int);
    }
    proof {
        lemma_idx_leq_total(tris@, axis);
    }
    if n > 1 {
        let mut i: usize = 1;
        while i < n
            invariant
                1 <= i <= n,
                n == tris@.len(),
                order@.len() == n,
                leq == idx_leq(tris@, axis),
                total_ordering(leq),
                order@.to_multiset() == index_seq(n as int).to_multiset(),
                forall|k: int| 0 <= k < order@.len() ==> (#[trigger] order@[k]) < n,
                sorted_by(order@.subrange(0, i as int), leq),
            decreases n - i,
        {
            proof {
                assert(sorted_except(order@, leq, i as int, i as int)) by {
                    assert forall|a: int, b: int|
                        #![trigger leq(order@[a], order@[b])]
                        0 <= a < b <= i && a != i && b != i implies leq(order@[a], order@[b]) by {
                        assert(order@.subrange(0, i as int)[a] == order@[a]);
                        assert(order@.subrange(0, i as int)[b] == order@[b]);
                        assert(leq(
                            order@.subrange(0, i as int)[a],
                            order@.subrange(0, i as int)[b],
                        ));
                    }
                }
            }
            let mut j: usize = i;
            while j > 0 && out_of_order(tris, axis, &order, j)
                invariant
                    0 <= j <= i < n,
                    n == tris@.len(),
                    order@.len() == n,
                    leq == idx_leq(tris@, axis),
                    total_ordering(leq),
                    order@.to_multiset() == index_seq(n as int).to_multiset(),
                    forall|k: int| 0 <= k < order@.len() ==> (#[trigger] order@[k]) < n,
                    sorted_except(order@, leq, i as int, j as int),
                    le_rest(order@, leq, i as int, j as int),
                decreases j,
            {
                let a: usize = order[j - 1];
                let b: usize = order[j];
                let ghost pre = order@;
                order[j - 1] = b;
                order[j] = a;
                proof {
                    assert(order@ =~= pre.update(j - 1, b).update(j as int, a));
                    lemma_swap_multiset(pre, j - 1, j as int);
                    assert(!leq(pre[j - 1], pre[j as int]));
                    assert(leq(pre[j as int], pre[j - 1]));
                    assert(sorted_except(order@, leq, i as int, j - 1)) by {
                        assert forall|x: int, y: int|
                            #![trigger leq(order@[x], order@[y])]
                            0 <= x < y <= i && x != j - 1 && y != j - 1 implies leq(
                            order@[x],
                            order@[y],
                        ) by {
                            if y == j {
                                // the old predecessor now sits at j; x comes
                                // before j - 1 in the sorted remainder
                                assert(order@[y] == pre[j - 1]);
                                assert(order@[x] == pre[x]);
                                assert(leq(pre[x], pre[j - 1]));
                            } else if x == j {
                                assert(order@[x] == pre[j - 1]);
                                assert(order@[y] == pre[y]);
                                assert(leq(pre[j - 1], pre[y]));
                            } else {
                                assert(order@[x] == pre[x]);
                                assert(order@[y] == pre[y]);
                                assert(leq(pre[x], pre[y]));
                            }
                        }
                    }
                    assert(le_rest(order@, leq, i as int, j - 1)) by {
                        assert forall|y: int| #![trigger leq(order@[j - 1], order@[y])] j - 1 < y
                            <= i implies leq(order@[j - 1], order@[y]) by {
                            assert(order@[j - 1] == pre[j as int]);
                            if y == j {
                                assert(order@[y] == pre[j - 1]);
                            } else {
                                assert(order@[y] == pre[y]);
                                assert(leq(pre[j as int], pre[y]));
                            }
                        }
                    }
                }
                j = j - 1;
            }
            proof {
                assert forall|x: int, y: int|
                    #![trigger leq(order@[x], order@[y])]
                    0 <= x < y <= i implies leq(order@[x], order@[y]) by {
                    if x != j && y != j {
                        assert(leq(order@[x], order@[y]));
                    } else if x == j {
                        assert(leq(order@[j as int], order@[y]));
                    } else {
                        // the walk stopped with j > 0 and the pair at j - 1,
                        // j in order; everything before j - 1 is below it
                        assert(leq(order@[j - 1], order@[j as int]));
                        if x < j - 1 {
                            assert(leq(order@[x], order@[j - 1]));
                        }
                        assert(leq(order@[x], order@[j as int]));
                    }
                }
                assert(sorted_by(order@.subrange(0, i + 1), leq)) by {
                    assert forall|x: int, y: int| 0 <= x < y < i + 1 implies #[trigger] leq(
                        order@.subrange(0, i + 1)[x],
                        order@.subrange(0, i + 1)[y],
                    ) by {
                        assert(order@.subrange(0, i + 1)[x] == order@[x]);
                        assert(order@.subrange(0, i + 1)[y] == order@[y]);
                        assert(leq(order@[x], order@[y]));
                    }
                }
            }
            i = i + 1;
        }
        proof {
            assert(order@.subrange(0, n as int) =~= order@);
        }
    }
    proof {
        assert(sorted_by(order@, leq)) by {
            if n <= 1 {
                assert(order@.len() <= 1);
            } else {
                assert(order@.subrange(0, n as int) =~= order@);
            }
        }
        index_seq(n as int).lemma_sort_by_ensures(leq);
        lemma_sorted_unique(order@, spec_order(tris@, axis), leq);
    }
    order
}

/// Swapping two elements keeps the multiset.
proof fn lemma_swap_multiset(s: Seq<usize>, x: int, y: int)
    requires
        0 <= x < s.len(),
        0 <= y < s.len(),
    ensures
        s.update(x, s[y]).update(y, s[x]).to_multiset() == s.to_multiset(),
{
    broadcast use vstd::seq_lib::group_to_multiset_ensures;
    broadcast use vstd::multiset::group_multiset_axioms;

    let t = s.update(x, s[y]).update(y, s[x]);
    if x == y {
        assert(t =~= s);
    } else {
        assert forall|e: usize| #[trigger] t.to_multiset().count(e) == s.to_multiset().count(
            e,
        ) by {
            lemma_count_update(s, x, s[y], e);
            lemma_count_update(s.update(x, s[y]), y, s[x], e);
        }
        assert(t.to_multiset() =~= s.to_multiset());
    }
}

/// How one update changes one element's count.
proof fn lemma_count_update(s: Seq<usize>, x: int, v: usize, e: usize)
    requires
        0 <= x < s.len(),
    ensures
        s.update(x, v).to_multiset().count(e) == s.to_multiset().count(e) + (
        if v == e {
            1int
        } else {
            0int
        }) - (
        if s[x] == e {
            1int
        } else {
            0int
        }),
    decreases s.len(),
{
    broadcast use vstd::seq_lib::group_to_multiset_ensures;
    broadcast use vstd::multiset::group_multiset_axioms;

    let t = s.update(x, v);
    if x == s.len() - 1 {
        assert(s =~= s.drop_last().push(s.last()));
        assert(t =~= s.drop_last().push(v));
        assert(s.to_multiset() == s.drop_last().to_multiset().insert(s.last()));
        assert(t.to_multiset() == s.drop_last().to_multiset().insert(v));
    } else {
        assert(t.drop_last() =~= s.drop_last().update(x, v));
        assert(t.last() == s.last());
        lemma_count_update(s.drop_last(), x, v, e);
        assert(s =~= s.drop_last().push(s.last()));
        assert(t =~= t.drop_last().push(s.last()));
        assert(s.to_multiset() == s.drop_last().to_multiset().insert(s.last()));
        assert(t.to_multiset() == t.drop_last().to_multiset().insert(s.last()));
    }
}

/// Sort the triangles ascending by centroid on `axis` (ties in input
/// order) and split the run at its midpoint: the lower-centroid half and
/// the upper half, in that order.
pub fn partition(triangles: &Vec<Triangle>, axis: Axis) -> (r: (Vec<Triangle>, Vec<Triangle>))
    ensures
        r.0@ == spec_sorted(triangles@, axis).subrange(0, triangles@.len() as int / 2),
        r.1@ == spec_sorted(triangles@, axis).subrange(
            triangles@.len() as int / 2,
            triangles@.len() as int,
        ),
        r.0@.len() == triangles@.len() / 2,
        r.0@.len() + r.1@.len() == triangles@.len(),
        (r.0@ + r.1@).to_multiset() == triangles@.to_multiset(),
{
    let n = triangles.len();
    let order = sort_indices(triangles, axis);
    let mid = n / 2;
    let mut left: Vec<Triangle> = Vec::new();
    let mut right: Vec<Triangle> = Vec::new();
    let mut k: usize = 0;
    while k < mid
        invariant
            0 <= k <= mid,
            mid == n / 2,
            n == triangles@.len(),
            order@ == spec_order(triangles@, axis),
            order@.len() == n,
            forall|t: int| 0 <= t < order@.len() ==> (#[trigger] order@[t]) < n,
            left@ =~= spec_sorted(triangles@, axis).subrange(0, k as int),
        decreases mid - k,
    {
        left.push(triangles[order[k]]);
        proof {
            let srt = spec_sorted(triangles@, axis);
            assert(srt[k as int] == triangles@[order@[k as int] as int]);
            assert(srt.subrange(0, k + 1) =~= srt.subrange(0, k as int).push(srt[k as int]));
        }
        k = k + 1;
    }
    let mut k: usize = mid;
    while k < n
        invariant
            mid <= k <= n,
            mid == n / 2,
            n == triangles@.len(),
            order@ == spec_order(triangles@, axis),
            order@.len() == n,
            forall|t: int| 0 <= t < order@.len() ==> (#[trigger] order@[t]) < n,
            right@ =~= spec_sorted(triangles@, axis).subrange(mid as int, k as int),
        decreases n - k,
    {
        right.push(triangles[order[k]]);
        proof {
            let srt = spec_sorted(triangles@, axis);
            assert(srt[k as int] == triangles@[order@[k as int] as int]);
            assert(srt.subrange(mid as int, k + 1) =~= srt.subrange(mid as int, k as int).push(
                srt[k as int],
            ));
        }
        k = k + 1;
    }
    proof {
        let srt = spec_sorted(triangles@, axis);
        lemma_spec_sorted_ensures(triangles@, axis);
        assert(left@ + right@ =~= srt);
    }
    (left, right)
}

/// Compute the bounds of the whole set, pick the widest axis, sort by
/// centroid along it and split at the midpoint index.
pub fn split_triangles(triangles: &Vec<Triangle>) -> (r: (Vec<Triangle>, Vec<Triangle>))
    ensures
        ({
            let axis = spec_choose_axis(spec_from_faces(triangles@));
            &&& r.0@ == spec_sorted(triangles@, axis).subrange(0, triangles@.len() as int / 2)
            &&& r.1@ == spec_sorted(triangles@, axis).subrange(
                triangles@.len() as int / 2,
                triangles@.len() as int,
            )
        }),
        r.0@.len() == triangles@.len() / 2,
        r.0@.len() + r.1@.len() == triangles@.len(),
        (r.0@ + r.1@).to_multiset() == triangles@.to_multiset(),
{
    let bounds = BoundingBox::from_faces(triangles);
    let axis = choose_axis(&bounds);
    partition(triangles, axis)
}

} // verus!
