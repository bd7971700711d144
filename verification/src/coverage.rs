//! How the boxes of a conversion cover its mesh.
use crate::axes::law_best_axes_are_bounded;
use crate::binary32::{absolute, Binary32};
use crate::bounds::{
    bounded_basis, bounded_triangle, bounded_triangles, law_bounded_corners_are_measurable,
    law_cut_keeps_bounds, lemma_looser_triangle,
};
use crate::cluster::{fitted, ClusterView};
use crate::conversion::{error_limit, leads_to, may_give, start, ConversionView};
use crate::exact::{
    best_basis, holds, law_cluster_box_holds_every_corner, law_cut_is_in_the_middle, slip, Exact3,
};
use crate::fitting::BoxTransform;
use crate::laws::{
    cut_into, finished_triangles, lemma_finished_clusters_stand_behind, one_cut, stand_behind,
};
use crate::rounding::SIGNIFICAND_LIMIT;
use crate::triangle::{halves, Triangle};
use crate::vector::Vec3;
use vstd::arithmetic::power2::{lemma2_to64, lemma_pow2_pos, lemma_pow2_unfold, pow2};
use vstd::multiset::Multiset;
use vstd::prelude::*;

verus! {

/// Whether a triangle is left of another one after so many cuts.
pub open spec fn cut_out_of(t: Triangle, from: Triangle, cuts: nat) -> bool
    decreases cuts,
{
    if cuts == 0 {
        t == from
    } else {
        exists|parent: Triangle|
            (t == (#[trigger] halves(parent)).0 || t == halves(parent).1) && cut_out_of(
                parent,
                from,
                (cuts - 1) as nat,
            )
    }
}

/// Whether a triangle is left of one of some triangles.
pub open spec fn stems_from(t: Triangle, triangles: Multiset<Triangle>) -> bool {
    exists|from: Triangle, cuts: nat| #[trigger]
        cut_out_of(t, from, cuts) && triangles.contains(from)
}

/// What cutting leaves stems from what was cut.
pub proof fn law_cut_triangles_stem_from_the_mesh(
    from: Multiset<Triangle>,
    to: Multiset<Triangle>,
    cuts: nat,
    t: Triangle,
)
    requires
        cut_into(from, to, cuts),
        to.contains(t),
    ensures
        stems_from(t, from),
    decreases cuts,
{
    if cuts == 0 {
        assert(cut_out_of(t, t, 0));
    } else {
        let before = choose|before: Multiset<Triangle>| #[trigger]
            one_cut(before, to) && cut_into(from, before, (cuts - 1) as nat);
        let parent = choose|parent: Triangle| #[trigger]
            before.contains(parent) && to == before.remove(parent).insert(halves(parent).0).insert(
                halves(parent).1,
            );
        if t == halves(parent).0 || t == halves(parent).1 {
            law_cut_triangles_stem_from_the_mesh(from, before, (cuts - 1) as nat, parent);
            let (root, count) = choose|root: Triangle, count: nat| #[trigger]
                cut_out_of(parent, root, count) && from.contains(root);
            assert(cut_out_of(t, root, count + 1));
        } else {
            assert(before.contains(t));
            law_cut_triangles_stem_from_the_mesh(from, before, (cuts - 1) as nat, t);
        }
    }
}

/// Whether a coordinate is a blend of three others up to what so many cuts slip
/// by: half a unit and six parts in two to the twenty-fifth of the bound `s` for
/// each cut.
pub open spec fn blends(
    x: int,
    a: int,
    b: int,
    c: int,
    u: int,
    v: int,
    w: int,
    cuts: nat,
    s: nat,
) -> bool {
    2 * (SIGNIFICAND_LIMIT * absolute(pow2(cuts) * x - (u * a + v * b + w * c))) <= pow2(cuts) * (
    cuts * (SIGNIFICAND_LIMIT + 6 * s))
}

/// Whether a point has weights of the corners of a triangle, in parts of two to
/// the power of `cuts`, up to what so many cuts slip by.
pub open spec fn lies_with(
    point: Vec3,
    from: Triangle,
    u: int,
    v: int,
    w: int,
    cuts: nat,
    s: nat,
) -> bool {
    let (p, a, b, c) = (
        Exact3::of(point),
        Exact3::of(from.a),
        Exact3::of(from.b),
        Exact3::of(from.c),
    );
    &&& u >= 0
    &&& v >= 0
    &&& w >= 0
    &&& u + v + w == pow2(cuts)
    &&& blends(p.x, a.x, b.x, c.x, u, v, w, cuts, s)
    &&& blends(p.y, a.y, b.y, c.y, u, v, w, cuts, s)
    &&& blends(p.z, a.z, b.z, c.z, u, v, w, cuts, s)
}

/// Whether a point lies on a triangle, up to what so many cuts slip by.
pub open spec fn lies_on(point: Vec3, from: Triangle, cuts: nat, s: nat) -> bool {
    exists|u: int, v: int, w: int| lies_with(point, from, u, v, w, cuts, s)
}

proof fn lemma_corner_lies_on(t: Triangle, s: nat)
    ensures
        lies_on(t.a, t, 0, s),
        lies_on(t.b, t, 0, s),
        lies_on(t.c, t, 0, s),
{
    lemma2_to64();
    assert(0 * (SIGNIFICAND_LIMIT + 6 * s) == 0);
    assert(lies_with(t.a, t, 1, 0, 0, 0, s));
    assert(lies_with(t.b, t, 0, 1, 0, 0, s));
    assert(lies_with(t.c, t, 0, 0, 1, 0, s));
}

/// A corner that a cut keeps.
proof fn lemma_kept_coordinate(
    x: int,
    a: int,
    b: int,
    c: int,
    u: int,
    v: int,
    w: int,
    cuts: nat,
    s: nat,
)
    requires
        blends(x, a, b, c, u, v, w, cuts, s),
    ensures
        blends(x, a, b, c, 2 * u, 2 * v, 2 * w, cuts + 1, s),
{
    lemma_pow2_unfold(cuts + 1);
    lemma_pow2_pos(cuts);
    let p = pow2(cuts);
    let each = SIGNIFICAND_LIMIT + 6 * s;
    let d = p * x - (u * a + v * b + w * c);
    assert((2 * p) * x - ((2 * u) * a + (2 * v) * b + (2 * w) * c) == 2 * d) by (nonlinear_arith)
        requires
            d == p * x - (u * a + v * b + w * c),
    ;
    assert((2 * p) * ((cuts + 1) * each) == 2 * (p * (cuts * each)) + 2 * (p * each))
        by (nonlinear_arith);
    assert(p * each >= 0) by (nonlinear_arith)
        requires
            p >= 0,
            each >= 0,
    ;
}

/// The middle of an edge that is cut.
proof fn lemma_middle_coordinate(
    m: int,
    x: int,
    y: int,
    a: int,
    b: int,
    c: int,
    u: int,
    v: int,
    w: int,
    i: int,
    j: int,
    k: int,
    cuts: nat,
    s: nat,
)
    requires
        blends(x, a, b, c, u, v, w, cuts, s),
        blends(y, a, b, c, i, j, k, cuts, s),
        SIGNIFICAND_LIMIT * absolute(2 * m - (x + y)) <= SIGNIFICAND_LIMIT + 6 * s,
    ensures
        blends(m, a, b, c, u + i, v + j, w + k, cuts + 1, s),
{
    lemma_pow2_unfold(cuts + 1);
    lemma_pow2_pos(cuts);
    let p = pow2(cuts);
    let each = SIGNIFICAND_LIMIT + 6 * s;
    let d = p * x - (u * a + v * b + w * c);
    let e = p * y - (i * a + j * b + k * c);
    let off = 2 * m - (x + y);
    assert((2 * p) * m == p * x + p * y + p * off) by (nonlinear_arith)
        requires
            off == 2 * m - (x + y),
    ;
    assert((u + i) * a == u * a + i * a) by (nonlinear_arith);
    assert((v + j) * b == v * b + j * b) by (nonlinear_arith);
    assert((w + k) * c == w * c + k * c) by (nonlinear_arith);
    assert((2 * p) * m - ((u + i) * a + (v + j) * b + (w + k) * c) == d + e + p * off);
    assert(absolute(p * off) == p * absolute(off)) by (nonlinear_arith)
        requires
            p >= 0,
    ;
    assert(SIGNIFICAND_LIMIT * (p * absolute(off)) <= p * each) by (nonlinear_arith)
        requires
            SIGNIFICAND_LIMIT * absolute(off) <= each,
            p >= 0,
    ;
    assert((2 * p) * ((cuts + 1) * each) == 2 * (p * (cuts * each)) + 2 * (p * each))
        by (nonlinear_arith);
}

proof fn lemma_kept_corner(point: Vec3, from: Triangle, cuts: nat, s: nat)
    requires
        lies_on(point, from, cuts, s),
    ensures
        lies_on(point, from, cuts + 1, s),
{
    let (u, v, w) = choose|u: int, v: int, w: int| lies_with(point, from, u, v, w, cuts, s);
    let (p, a, b, c) = (
        Exact3::of(point),
        Exact3::of(from.a),
        Exact3::of(from.b),
        Exact3::of(from.c),
    );
    lemma_pow2_unfold(cuts + 1);
    lemma_kept_coordinate(p.x, a.x, b.x, c.x, u, v, w, cuts, s);
    lemma_kept_coordinate(p.y, a.y, b.y, c.y, u, v, w, cuts, s);
    lemma_kept_coordinate(p.z, a.z, b.z, c.z, u, v, w, cuts, s);
    assert(lies_with(point, from, 2 * u, 2 * v, 2 * w, cuts + 1, s));
}

proof fn lemma_middle_corner(
    middle: Vec3,
    p: Vec3,
    q: Vec3,
    from: Triangle,
    cuts: nat,
    s: nat,
)
    requires
        lies_on(p, from, cuts, s),
        lies_on(q, from, cuts, s),
        SIGNIFICAND_LIMIT * absolute(slip(p, q, middle).x) <= SIGNIFICAND_LIMIT + 6 * s,
        SIGNIFICAND_LIMIT * absolute(slip(p, q, middle).y) <= SIGNIFICAND_LIMIT + 6 * s,
        SIGNIFICAND_LIMIT * absolute(slip(p, q, middle).z) <= SIGNIFICAND_LIMIT + 6 * s,
    ensures
        lies_on(middle, from, cuts + 1, s),
{
    let (u, v, w) = choose|u: int, v: int, w: int| lies_with(p, from, u, v, w, cuts, s);
    let (i, j, k) = choose|u: int, v: int, w: int| lies_with(q, from, u, v, w, cuts, s);
    let (a, b, c) = (Exact3::of(from.a), Exact3::of(from.b), Exact3::of(from.c));
    let (m, x, y) = (Exact3::of(middle), Exact3::of(p), Exact3::of(q));
    lemma_pow2_unfold(cuts + 1);
    lemma_middle_coordinate(m.x, x.x, y.x, a.x, b.x, c.x, u, v, w, i, j, k, cuts, s);
    lemma_middle_coordinate(m.y, x.y, y.y, a.y, b.y, c.y, u, v, w, i, j, k, cuts, s);
    lemma_middle_coordinate(m.z, x.z, y.z, a.z, b.z, c.z, u, v, w, i, j, k, cuts, s);
    assert(lies_with(middle, from, u + i, v + j, w + k, cuts + 1, s));
}

/// Every corner of what is left of a triangle lies on that triangle, up to what
/// the cuts slip by, and within its bounds.
pub proof fn law_cut_corners_lie_on_the_mesh(t: Triangle, from: Triangle, cuts: nat, e: nat)
    requires
        bounded_triangle(from, e),
        e < 276,
        cut_out_of(t, from, cuts),
    ensures
        bounded_triangle(t, e),
        lies_on(t.a, from, cuts, pow2(e)),
        lies_on(t.b, from, cuts, pow2(e)),
        lies_on(t.c, from, cuts, pow2(e)),
    decreases cuts,
{
    let s = pow2(e);
    if cuts == 0 {
        lemma_corner_lies_on(t, s);
    } else {
        let before = (cuts - 1) as nat;
        let parent = choose|parent: Triangle|
            (t == (#[trigger] halves(parent)).0 || t == halves(parent).1) && cut_out_of(
                parent,
                from,
                before,
            );
        law_cut_corners_lie_on_the_mesh(parent, from, before, e);
        law_cut_keeps_bounds(parent, e);
        law_cut_is_in_the_middle(parent);
        reveal(halves);
        let (p, q, r) = parent.from_longest_edge();
        let middle = halves(parent).0.b;
        lemma_kept_corner(p, from, before, s);
        lemma_kept_corner(q, from, before, s);
        lemma_kept_corner(r, from, before, s);
        lemma_middle_corner(middle, p, q, from, before, s);
    }
}

/// Whether no cluster has more than so many triangles.
spec fn no_larger(state: ConversionView, count: nat) -> bool {
    &&& forall|i: int| #[trigger] state.waits(i) ==> state.places[i]->0.triangles.len() <= count
    &&& forall|i: int|
        0 <= i < state.finished.len() ==> (#[trigger] state.finished[i]).triangles.len() <= count
}

/// Splitting makes no cluster larger.
proof fn lemma_clusters_shrink(
    triangles: Seq<Triangle>,
    max_relative_diagonal: Binary32,
    state: ConversionView,
    steps: nat,
)
    requires
        leads_to(start(triangles, max_relative_diagonal), state, steps),
    ensures
        no_larger(state, triangles.len()),
    decreases steps,
{
    let begin = start(triangles, max_relative_diagonal);
    if steps > 0 {
        let before = choose|before: ConversionView| #[trigger]
            before.steps_to(state) && leads_to(begin, before, (steps - 1) as nat);
        lemma_clusters_shrink(triangles, max_relative_diagonal, before, (steps - 1) as nat);
        let i = choose|i: int| before.steps_by(i, state);
        assert(before.waits(i));
        assert forall|j: int| #[trigger] state.waits(j) implies state.places[j]->0.triangles.len()
            <= triangles.len() by {
            if j < before.places.len() {
                assert(before.waits(j));
            }
        }
    }
}

proof fn lemma_finished_holds(finished: Seq<ClusterView>, i: int, t: Triangle)
    requires
        0 <= i < finished.len(),
        finished[i].triangles.to_multiset().contains(t),
    ensures
        finished_triangles(finished).contains(t),
    decreases finished.len(),
{
    if i < finished.len() - 1 {
        lemma_finished_holds(finished.drop_last(), i, t);
    }
}

/// Whether a triangle of a cluster lies on a mesh, up to what cuts slip by, and
/// is held by the box of the cluster, up to rounding.
pub open spec fn covered(
    t: Triangle,
    cluster: Seq<Triangle>,
    obb: BoxTransform,
    mesh: Seq<Triangle>,
    e: nat,
) -> bool {
    &&& bounded_triangle(t, e)
    &&& exists|from: Triangle, cuts: nat| #[trigger]
        cut_out_of(t, from, cuts) && mesh.contains(from) && lies_on(t.a, from, cuts, pow2(e))
            && lies_on(t.b, from, cuts, pow2(e)) && lies_on(t.c, from, cuts, pow2(e))
    &&& e <= 169 || bounded_basis(best_basis(cluster), 152) ==> {
        &&& holds(obb, cluster, best_basis(cluster), t.a)
        &&& holds(obb, cluster, best_basis(cluster), t.b)
        &&& holds(obb, cluster, best_basis(cluster), t.c)
    }
}

/// The boxes of a mesh cover it: the clusters behind them share out its
/// triangles, some of them cut. Every corner of every such triangle lies on the
/// mesh, up to what the cuts slip by, and is held up to rounding by the box of
/// its cluster. Coordinates may be as great as two to the twentieth, and to the
/// ninetieth where no axis of the box is longer than eight.
pub proof fn law_boxes_cover_the_mesh(
    triangles: Seq<Triangle>,
    max_relative_diagonal: Binary32,
    boxes: Seq<BoxTransform>,
    e: nat,
)
    requires
        may_give(start(triangles, max_relative_diagonal), boxes),
        triangles.len() * 3 <= u64::MAX,
        bounded_triangles(triangles, e),
        e <= 239,
    ensures
        exists|clusters: Seq<ClusterView>| #[trigger]
            stand_behind(
                clusters,
                boxes,
                triangles,
                error_limit(triangles, max_relative_diagonal),
            ) && forall|i: int, j: int|
                0 <= i < clusters.len() && 0 <= j < clusters[i].triangles.len() ==> covered(
                    #[trigger] clusters[i].triangles[j],
                    clusters[i].triangles,
                    boxes[i],
                    triangles,
                    e,
                ),
{
    let begin = start(triangles, max_relative_diagonal);
    let limit = error_limit(triangles, max_relative_diagonal);
    let (end, steps) = choose|end: ConversionView, steps: nat| #[trigger]
        leads_to(begin, end, steps) && end.done() && end.boxes() == boxes;
    let clusters = end.finished;
    lemma_finished_clusters_stand_behind(triangles, max_relative_diagonal, end, steps);
    lemma_clusters_shrink(triangles, max_relative_diagonal, end, steps);
    assert forall|i: int, j: int|
        0 <= i < clusters.len() && 0 <= j < clusters[i].triangles.len() implies covered(
        #[trigger] clusters[i].triangles[j],
        clusters[i].triangles,
        boxes[i],
        triangles,
        e,
    ) by {
        lemma_finished_triangle_is_covered(triangles, limit, boxes, clusters, i, j, e);
    }
}

/// Every triangle of a finished cluster stems from the mesh.
proof fn lemma_finished_triangle_stems(
    mesh: Seq<Triangle>,
    clusters: Seq<ClusterView>,
    i: int,
    j: int,
    e: nat,
) -> (root: (Triangle, nat))
    requires
        exists|cuts: nat| cut_into(mesh.to_multiset(), finished_triangles(clusters), cuts),
        0 <= i < clusters.len(),
        0 <= j < clusters[i].triangles.len(),
        bounded_triangles(mesh, e),
        e < 276,
    ensures
        ({
            let t = clusters[i].triangles[j];
            let (from, cuts) = root;
            &&& cut_out_of(t, from, cuts)
            &&& mesh.contains(from)
            &&& bounded_triangle(t, e)
            &&& lies_on(t.a, from, cuts, pow2(e))
            &&& lies_on(t.b, from, cuts, pow2(e))
            &&& lies_on(t.c, from, cuts, pow2(e))
        }),
{
    let t = clusters[i].triangles[j];
    let cuts = choose|cuts: nat| cut_into(mesh.to_multiset(), finished_triangles(clusters), cuts);
    clusters[i].triangles.to_multiset_ensures();
    assert(clusters[i].triangles.contains(t));
    assert(clusters[i].triangles.to_multiset().contains(t));
    lemma_finished_holds(clusters, i, t);
    law_cut_triangles_stem_from_the_mesh(mesh.to_multiset(), finished_triangles(clusters), cuts, t);
    let (from, count) = choose|from: Triangle, count: nat| #[trigger]
        cut_out_of(t, from, count) && mesh.to_multiset().contains(from);
    mesh.to_multiset_ensures();
    assert(mesh.to_multiset().count(from) > 0);
    assert(mesh.contains(from));
    let k = choose|k: int| 0 <= k < mesh.len() && mesh[k] == from;
    assert(bounded_triangle(mesh[k], e));
    law_cut_corners_lie_on_the_mesh(t, from, count, e);
    (from, count)
}

proof fn lemma_finished_triangle_is_covered(
    mesh: Seq<Triangle>,
    limit: Binary32,
    boxes: Seq<BoxTransform>,
    clusters: Seq<ClusterView>,
    i: int,
    j: int,
    e: nat,
)
    requires
        stand_behind(clusters, boxes, mesh, limit),
        forall|k: int|
            0 <= k < clusters.len() ==> (#[trigger] clusters[k]).triangles.len() <= mesh.len(),
        0 <= i < clusters.len(),
        0 <= j < clusters[i].triangles.len(),
        mesh.len() * 3 <= u64::MAX,
        bounded_triangles(mesh, e),
        e <= 239,
    ensures
        covered(clusters[i].triangles[j], clusters[i].triangles, boxes[i], mesh, e),
{
    let cluster = clusters[i].triangles;
    let t = cluster[j];
    let (from, cuts) = lemma_finished_triangle_stems(mesh, clusters, i, j, e);
    assert(cut_out_of(t, from, cuts));
    if e <= 169 {
        assert forall|k: int| 0 <= k < cluster.len() implies bounded_triangle(
            #[trigger] cluster[k],
            169,
        ) by {
            lemma_finished_triangle_stems(mesh, clusters, i, k, e);
            lemma_looser_triangle(cluster[k], e, 169);
        }
        law_best_axes_are_bounded(cluster);
    }
    if bounded_basis(best_basis(cluster), 152) {
        assert forall|k: int| 0 <= k < cluster.len() implies bounded_triangle(
            #[trigger] cluster[k],
            239,
        ) by {
            lemma_finished_triangle_stems(mesh, clusters, i, k, e);
            lemma_looser_triangle(cluster[k], e, 239);
        }
        law_bounded_corners_are_measurable(cluster, best_basis(cluster));
        law_cluster_box_holds_every_corner(cluster, j, t.a);
        law_cluster_box_holds_every_corner(cluster, j, t.b);
        law_cluster_box_holds_every_corner(cluster, j, t.c);
        assert(boxes[i] == fitted(cluster).obb);
    }
}

} // verus!
