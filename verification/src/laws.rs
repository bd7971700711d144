//! What holds of every conversion.
use crate::arithmetic::{law_product_keeps_order, law_root_has_no_sign};
use crate::binary32::{law_rank_orders_numbers, Binary32, ZERO};
use crate::cluster::{best_box, fitted, splits_into, ClusterView};
use crate::conversion::{error_limit, leads_to, may_give, start, ConversionView};
use crate::fitting::{law_surface_error_is_a_number, surface_error, BoxTransform};
use crate::triangle::{halves, Triangle, VANISHED};
use vstd::arithmetic::power2::{lemma_pow2_unfold, pow2};
use vstd::multiset::Multiset;
use vstd::prelude::*;

verus! {

/// Whether a cluster is one of some triangles with the box that is best for
/// them.
pub open spec fn proper(cluster: ClusterView) -> bool {
    cluster.triangles.len() > 0 && cluster == fitted(cluster.triangles)
}

/// Whether all clusters are proper, and the finished ones close enough.
pub open spec fn sound(state: ConversionView) -> bool {
    &&& forall|i: int| #[trigger] state.waits(i) ==> proper(state.places[i]->0)
    &&& forall|i: int|
        0 <= i < state.finished.len() ==> proper(#[trigger] state.finished[i])
            && state.finished[i].surface_error.le(state.limit)
}

/// The parts of a split cluster are proper.
proof fn lemma_parts_are_proper(cluster: ClusterView, a: ClusterView, b: ClusterView)
    requires
        proper(cluster),
        splits_into(cluster, a, b),
    ensures
        proper(a),
        proper(b),
{
}

/// A step keeps clusters proper and finished boxes close enough.
pub proof fn law_step_keeps_soundness(state: ConversionView, next: ConversionView)
    requires
        sound(state),
        state.steps_to(next),
    ensures
        sound(next),
        next.limit == state.limit,
{
    let i = choose|i: int| state.steps_by(i, next);
    let cluster = state.places[i]->0;
    assert(state.waits(i));
    if cluster.surface_error.le(state.limit) {
        assert forall|j: int| #[trigger] next.waits(j) implies proper(next.places[j]->0) by {
            assert(state.waits(j));
        }
    } else {
        let (a, b) = choose|a: ClusterView, b: ClusterView| #[trigger]
            splits_into(cluster, a, b) && next.places == state.places.update(i, None).push(
                Some(a),
            ).push(Some(b)) && next.finished == state.finished;
        lemma_parts_are_proper(cluster, a, b);
        assert forall|j: int| #[trigger] next.waits(j) implies proper(next.places[j]->0) by {
            if j < state.places.len() {
                assert(state.waits(j));
            }
        }
    }
}

/// Every state that a conversion may reach is sound.
pub proof fn law_reached_states_are_sound(
    triangles: Seq<Triangle>,
    max_relative_diagonal: Binary32,
    state: ConversionView,
    steps: nat,
)
    requires
        leads_to(start(triangles, max_relative_diagonal), state, steps),
    ensures
        sound(state),
        state.limit == error_limit(triangles, max_relative_diagonal),
    decreases steps,
{
    let begin = start(triangles, max_relative_diagonal);
    if steps > 0 {
        let before = choose|before: ConversionView| #[trigger]
            before.steps_to(state) && leads_to(begin, before, (steps - 1) as nat);
        law_reached_states_are_sound(
            triangles,
            max_relative_diagonal,
            before,
            (steps - 1) as nat,
        );
        law_step_keeps_soundness(before, state);
    }
}

/// The limit rises with the tolerance. Where the diagonal of the first box is
/// not a number, neither is the limit.
pub proof fn law_error_limit_follows_the_tolerance(
    triangles: Seq<Triangle>,
    lower: Binary32,
    higher: Binary32,
)
    requires
        lower.is_finite(),
        higher.is_finite(),
        Binary32::of(ZERO).lt(lower),
        lower.le(higher),
    ensures
        error_limit(triangles, lower).le(error_limit(triangles, higher)) || error_limit(
            triangles,
            lower,
        ).is_nan(),
{
    let diagonal = fitted(triangles).obb.scale.length();
    law_root_has_no_sign(fitted(triangles).obb.scale.dot(fitted(triangles).obb.scale));
    law_product_keeps_order(diagonal, lower, higher);
}

/// No two clusters lead: which one is taken is settled.
pub proof fn law_leader_is_unique(state: ConversionView, i: int, j: int)
    requires
        state.leads(i),
        state.leads(j),
    ensures
        i == j,
{
    assert(state.waits(i) && state.waits(j));
}

/// The cluster that is taken is one with the greatest surface error.
pub proof fn law_leader_has_the_greatest_error(state: ConversionView, i: int, j: int)
    requires
        sound(state),
        state.leads(i),
        state.waits(j),
    ensures
        state.places[j]->0.surface_error.le(state.places[i]->0.surface_error),
{
    let a = state.places[i]->0;
    let b = state.places[j]->0;
    assert(state.waits(i));
    law_surface_error_is_a_number(a.triangles, best_box(a.triangles));
    law_surface_error_is_a_number(b.triangles, best_box(b.triangles));
    law_rank_orders_numbers(b.surface_error, a.surface_error);
}

proof fn lemma_some_leader(state: ConversionView, count: int) -> (leader: int)
    requires
        0 <= count <= state.places.len(),
    ensures
        (exists|i: int| #[trigger] state.waits(i) && i < count) ==> {
            &&& state.waits(leader)
            &&& leader < count
            &&& forall|j: int|
                #[trigger] state.waits(j) && j < count && j != leader ==> state.rank(leader)
                    > state.rank(j) || (state.rank(leader) == state.rank(j) && leader < j)
        },
    decreases count,
{
    if count == 0 {
        0
    } else {
        let before = lemma_some_leader(state, count - 1);
        let last = count - 1;
        if !state.waits(last) {
            before
        } else if exists|i: int| #[trigger] state.waits(i) && i < last {
            if state.rank(last) > state.rank(before) {
                last
            } else {
                before
            }
        } else {
            last
        }
    }
}

/// While a cluster waits, some cluster leads, so that a step can be taken.
pub proof fn law_some_cluster_leads(state: ConversionView)
    requires
        !state.done(),
    ensures
        exists|i: int| state.leads(i),
{
    let leader = lemma_some_leader(state, state.places.len() as int);
    let waiting = choose|i: int| #[trigger] state.waits(i);
    assert(state.waits(waiting) && waiting < state.places.len());
    assert(state.leads(leader));
}

/// The number of clusters that wait in the given places.
pub open spec fn waiting(places: Seq<Option<ClusterView>>) -> nat
    decreases places.len(),
{
    if places.len() == 0 {
        0
    } else {
        waiting(places.drop_last()) + if places.last() is Some {
            1nat
        } else {
            0nat
        }
    }
}

proof fn lemma_waiting_taken(places: Seq<Option<ClusterView>>, i: int)
    requires
        0 <= i < places.len(),
        places[i] is Some,
    ensures
        waiting(places.update(i, None)) + 1 == waiting(places),
    decreases places.len(),
{
    let updated = places.update(i, None);
    if i == places.len() - 1 {
        assert(updated.drop_last() =~= places.drop_last());
    } else {
        assert(updated.drop_last() =~= places.drop_last().update(i, None));
        lemma_waiting_taken(places.drop_last(), i);
    }
}

proof fn lemma_waiting_pushed(places: Seq<Option<ClusterView>>, cluster: ClusterView)
    ensures
        waiting(places.push(Some(cluster))) == waiting(places) + 1,
{
    assert(places.push(Some(cluster)).drop_last() =~= places);
}

/// Every cluster but the first came with another one out of a cluster that was
/// split: with `n` clusters made, `(n + 1) / 2` wait or are finished.
pub proof fn law_every_split_adds_one_box(
    triangles: Seq<Triangle>,
    max_relative_diagonal: Binary32,
    state: ConversionView,
    steps: nat,
)
    requires
        triangles.len() > 0,
        leads_to(start(triangles, max_relative_diagonal), state, steps),
    ensures
        state.places.len() + 1 == 2 * (waiting(state.places) + state.finished.len()),
    decreases steps,
{
    let begin = start(triangles, max_relative_diagonal);
    if steps == 0 {
        let none: Seq<Option<ClusterView>> = seq![];
        lemma_waiting_pushed(none, fitted(triangles));
        assert(begin.places =~= none.push(Some(fitted(triangles))));
    } else {
        let before = choose|before: ConversionView| #[trigger]
            before.steps_to(state) && leads_to(begin, before, (steps - 1) as nat);
        law_every_split_adds_one_box(
            triangles,
            max_relative_diagonal,
            before,
            (steps - 1) as nat,
        );
        let i = choose|i: int| before.steps_by(i, state);
        assert(before.waits(i));
        lemma_waiting_taken(before.places, i);
        let cluster = before.places[i]->0;
        let emptied = before.places.update(i, None);
        if !cluster.surface_error.le(before.limit) {
            let (a, b) = choose|a: ClusterView, b: ClusterView| #[trigger]
                splits_into(cluster, a, b) && state.places == emptied.push(Some(a)).push(Some(b))
                    && state.finished == before.finished;
            lemma_waiting_pushed(emptied, a);
            lemma_waiting_pushed(emptied.push(Some(a)), b);
        }
    }
}

/// The first step of a conversion of some triangles.
proof fn lemma_first_step(
    triangles: Seq<Triangle>,
    max_relative_diagonal: Binary32,
    next: ConversionView,
)
    requires
        triangles.len() > 0,
        start(triangles, max_relative_diagonal).steps_to(next),
    ensures
        fitted(triangles).surface_error.le(error_limit(triangles, max_relative_diagonal)) ==> next
            == (ConversionView {
            places: seq![None],
            finished: seq![fitted(triangles)],
            limit: error_limit(triangles, max_relative_diagonal),
        }),
        !fitted(triangles).surface_error.le(error_limit(triangles, max_relative_diagonal)) ==> {
            next.places.len() == 3 && next.finished.len() == 0
        },
{
    let begin = start(triangles, max_relative_diagonal);
    let i = choose|i: int| begin.steps_by(i, next);
    assert(begin.waits(i));
    assert(i == 0);
    if fitted(triangles).surface_error.le(begin.limit) {
        assert(next.places =~= seq![None]);
        assert(next.finished =~= seq![fitted(triangles)]);
    }
}

/// A mesh without triangles is converted at once, into no boxes.
pub proof fn law_empty_mesh_gives_no_boxes(
    max_relative_diagonal: Binary32,
    boxes: Seq<BoxTransform>,
)
    ensures
        start(seq![], max_relative_diagonal).ends_within(0),
        may_give(start(seq![], max_relative_diagonal), boxes) ==> boxes == Seq::<
            BoxTransform,
        >::empty(),
{
    let begin = start(seq![], max_relative_diagonal);
    assert(begin.done());
    if may_give(begin, boxes) {
        let (end, steps) = choose|end: ConversionView, steps: nat| #[trigger]
            leads_to(begin, end, steps) && end.done() && end.boxes() == boxes;
        lemma_nothing_follows_an_end(begin, end, steps);
        assert(boxes =~= Seq::<BoxTransform>::empty());
    }
}

/// A state in which no cluster waits is the last one.
pub(crate) proof fn lemma_nothing_follows_an_end(from: ConversionView, to: ConversionView, steps: nat)
    requires
        from.done(),
        leads_to(from, to, steps),
    ensures
        to == from,
    decreases steps,
{
    if steps > 0 {
        let before = choose|before: ConversionView| #[trigger]
            before.steps_to(to) && leads_to(from, before, (steps - 1) as nat);
        lemma_nothing_follows_an_end(from, before, (steps - 1) as nat);
        let i = choose|i: int| before.steps_by(i, to);
        assert(before.waits(i));
    }
}

/// What a run does after its first step.
pub(crate) proof fn lemma_after_first_step(from: ConversionView, to: ConversionView, steps: nat) -> (next:
    ConversionView)
    requires
        leads_to(from, to, steps),
        steps > 0,
    ensures
        from.steps_to(next),
        leads_to(next, to, (steps - 1) as nat),
    decreases steps,
{
    let before = choose|before: ConversionView| #[trigger]
        before.steps_to(to) && leads_to(from, before, (steps - 1) as nat);
    if steps == 1 {
        to
    } else {
        let next = lemma_after_first_step(from, before, (steps - 1) as nat);
        assert(leads_to(next, before, (steps - 2) as nat));
        next
    }
}

/// A mesh that one box follows within the tolerance stays one part: its
/// conversion ends after one step, with that box.
pub proof fn law_close_mesh_stays_one_box(
    triangles: Seq<Triangle>,
    max_relative_diagonal: Binary32,
    boxes: Seq<BoxTransform>,
)
    requires
        triangles.len() > 0,
        fitted(triangles).surface_error.le(error_limit(triangles, max_relative_diagonal)),
    ensures
        start(triangles, max_relative_diagonal).ends_within(1),
        may_give(start(triangles, max_relative_diagonal), boxes) ==> boxes == seq![
            best_box(triangles),
        ],
{
    let begin = start(triangles, max_relative_diagonal);
    assert forall|next: ConversionView| #[trigger] begin.steps_to(next) implies next.ends_within(
        0,
    ) by {
        lemma_first_step(triangles, max_relative_diagonal, next);
        assert(next.done());
    }
    assert(begin.waits(0));
    if may_give(begin, boxes) {
        let (end, steps) = choose|end: ConversionView, steps: nat| #[trigger]
            leads_to(begin, end, steps) && end.done() && end.boxes() == boxes;
        let next = lemma_after_first_step(begin, end, steps);
        lemma_first_step(triangles, max_relative_diagonal, next);
        assert(next.done());
        lemma_nothing_follows_an_end(next, end, (steps - 1) as nat);
        assert(boxes =~= seq![best_box(triangles)]);
    }
}

/// A mesh that its first box does not follow within the tolerance is
/// subdivided: it gives two boxes or more.
pub proof fn law_poorly_fitting_mesh_is_subdivided(
    triangles: Seq<Triangle>,
    max_relative_diagonal: Binary32,
    boxes: Seq<BoxTransform>,
)
    requires
        triangles.len() > 0,
        !fitted(triangles).surface_error.le(error_limit(triangles, max_relative_diagonal)),
        may_give(start(triangles, max_relative_diagonal), boxes),
    ensures
        boxes.len() >= 2,
{
    let begin = start(triangles, max_relative_diagonal);
    let (end, steps) = choose|end: ConversionView, steps: nat| #[trigger]
        leads_to(begin, end, steps) && end.done() && end.boxes() == boxes;
    assert(begin.waits(0));
    let next = lemma_after_first_step(begin, end, steps);
    lemma_first_step(triangles, max_relative_diagonal, next);
    lemma_places_are_kept(next, end, (steps - 1) as nat);
    law_every_split_adds_one_box(triangles, max_relative_diagonal, end, steps);
    lemma_nothing_waits(end);
}

proof fn lemma_places_are_kept(from: ConversionView, to: ConversionView, steps: nat)
    requires
        leads_to(from, to, steps),
    ensures
        to.places.len() >= from.places.len(),
    decreases steps,
{
    if steps > 0 {
        let before = choose|before: ConversionView| #[trigger]
            before.steps_to(to) && leads_to(from, before, (steps - 1) as nat);
        lemma_places_are_kept(from, before, (steps - 1) as nat);
    }
}

/// The triangles of the clusters that wait in the given places.
pub open spec fn waiting_triangles(places: Seq<Option<ClusterView>>) -> Multiset<Triangle>
    decreases places.len(),
{
    if places.len() == 0 {
        Multiset::empty()
    } else {
        let before = waiting_triangles(places.drop_last());
        match places.last() {
            Some(cluster) => before.add(cluster.triangles.to_multiset()),
            None => before,
        }
    }
}

/// The triangles of some finished clusters.
pub open spec fn finished_triangles(finished: Seq<ClusterView>) -> Multiset<Triangle>
    decreases finished.len(),
{
    if finished.len() == 0 {
        Multiset::empty()
    } else {
        finished_triangles(finished.drop_last()).add(finished.last().triangles.to_multiset())
    }
}

/// All triangles that a conversion holds.
pub open spec fn held(state: ConversionView) -> Multiset<Triangle> {
    waiting_triangles(state.places).add(finished_triangles(state.finished))
}

/// Whether one collection of triangles is another with one triangle cut.
pub open spec fn one_cut(before: Multiset<Triangle>, after: Multiset<Triangle>) -> bool {
    exists|t: Triangle| #[trigger]
        before.contains(t) && after == before.remove(t).insert(halves(t).0).insert(halves(t).1)
}

proof fn lemma_triangles_taken(places: Seq<Option<ClusterView>>, i: int)
    requires
        0 <= i < places.len(),
        places[i] is Some,
    ensures
        waiting_triangles(places.update(i, None)).add(places[i]->0.triangles.to_multiset())
            == waiting_triangles(places),
    decreases places.len(),
{
    let updated = places.update(i, None);
    if i == places.len() - 1 {
        assert(updated.drop_last() =~= places.drop_last());
    } else {
        assert(updated.drop_last() =~= places.drop_last().update(i, None));
        lemma_triangles_taken(places.drop_last(), i);
        assert(waiting_triangles(updated).add(places[i]->0.triangles.to_multiset())
            =~= waiting_triangles(places));
    }
}

proof fn lemma_triangles_pushed(places: Seq<Option<ClusterView>>, cluster: ClusterView)
    ensures
        waiting_triangles(places.push(Some(cluster))) == waiting_triangles(places).add(
            cluster.triangles.to_multiset(),
        ),
{
    assert(places.push(Some(cluster)).drop_last() =~= places);
}

proof fn lemma_singleton_multiset(t: Triangle)
    ensures
        seq![t].to_multiset() == Multiset::singleton(t),
{
    let none: Seq<Triangle> = seq![];
    none.to_multiset_ensures();
    assert(none.push(t) =~= seq![t]);
    assert(none.to_multiset() =~= Multiset::empty());
    assert(seq![t].to_multiset() =~= Multiset::singleton(t));
}

/// A step loses no triangle and adds none: it moves them, or cuts one in two.
pub proof fn law_step_keeps_the_triangles(state: ConversionView, next: ConversionView)
    requires
        state.steps_to(next),
    ensures
        held(next) == held(state) || one_cut(held(state), held(next)),
{
    let i = choose|i: int| state.steps_by(i, next);
    assert(state.waits(i));
    let cluster = state.places[i]->0;
    let emptied = state.places.update(i, None);
    lemma_triangles_taken(state.places, i);
    if cluster.surface_error.le(state.limit) {
        assert(next.finished.drop_last() =~= state.finished);
        assert(held(next) =~= held(state));
    } else {
        let (a, b) = choose|a: ClusterView, b: ClusterView| #[trigger]
            splits_into(cluster, a, b) && next.places == emptied.push(Some(a)).push(Some(b))
                && next.finished == state.finished;
        lemma_triangles_pushed(emptied, a);
        lemma_triangles_pushed(emptied.push(Some(a)), b);
        if cluster.triangles.len() == 1 {
            let t = cluster.triangles[0];
            assert(cluster.triangles =~= seq![t]);
            lemma_singleton_multiset(t);
            lemma_singleton_multiset(halves(t).0);
            lemma_singleton_multiset(halves(t).1);
            assert(held(state).contains(t));
            assert(held(next) =~= held(state).remove(t).insert(halves(t).0).insert(halves(t).1));
        } else {
            vstd::seq_lib::lemma_multiset_commutative(a.triangles, b.triangles);
            assert(held(next) =~= held(state));
        }
    }
}

/// Whether one collection of triangles becomes another by so many cuts.
pub open spec fn cut_into(from: Multiset<Triangle>, to: Multiset<Triangle>, cuts: nat) -> bool
    decreases cuts,
{
    if cuts == 0 {
        to == from
    } else {
        exists|before: Multiset<Triangle>| #[trigger]
            one_cut(before, to) && cut_into(from, before, (cuts - 1) as nat)
    }
}

/// What a conversion holds comes from the mesh by cutting triangles alone.
pub proof fn law_held_triangles_come_from_the_mesh(
    triangles: Seq<Triangle>,
    max_relative_diagonal: Binary32,
    state: ConversionView,
    steps: nat,
)
    requires
        leads_to(start(triangles, max_relative_diagonal), state, steps),
    ensures
        exists|cuts: nat| cut_into(triangles.to_multiset(), held(state), cuts),
    decreases steps,
{
    let begin = start(triangles, max_relative_diagonal);
    let all = triangles.to_multiset();
    if steps == 0 {
        let none: Seq<Option<ClusterView>> = seq![];
        if triangles.len() > 0 {
            assert(begin.places =~= none.push(Some(fitted(triangles))));
            lemma_triangles_pushed(none, fitted(triangles));
        } else {
            triangles.to_multiset_ensures();
        }
        assert(held(state) =~= all);
        assert(cut_into(all, held(state), 0));
    } else {
        let before = choose|before: ConversionView| #[trigger]
            before.steps_to(state) && leads_to(begin, before, (steps - 1) as nat);
        law_held_triangles_come_from_the_mesh(
            triangles,
            max_relative_diagonal,
            before,
            (steps - 1) as nat,
        );
        let cuts = choose|cuts: nat| cut_into(all, held(before), cuts);
        law_step_keeps_the_triangles(before, state);
        if held(state) == held(before) {
            assert(cut_into(all, held(state), cuts));
        } else {
            assert(cut_into(all, held(state), cuts + 1));
        }
    }
}

/// Whether clusters, one to a box, stand behind the boxes of a mesh: each has
/// triangles, its box is the best one for them and follows them within a
/// limit, and all together they are the mesh, some of its triangles cut.
pub open spec fn stand_behind(
    clusters: Seq<ClusterView>,
    boxes: Seq<BoxTransform>,
    triangles: Seq<Triangle>,
    limit: Binary32,
) -> bool {
    &&& clusters.len() == boxes.len()
    &&& forall|i: int|
        0 <= i < boxes.len() ==> {
            &&& (#[trigger] clusters[i]).triangles.len() > 0
            &&& boxes[i] == best_box(clusters[i].triangles)
            &&& surface_error(clusters[i].triangles, boxes[i]).le(limit)
        }
    &&& exists|cuts: nat|
        cut_into(triangles.to_multiset(), finished_triangles(clusters), cuts)
}

/// The finished clusters of a conversion that has ended stand behind its boxes.
pub(crate) proof fn lemma_finished_clusters_stand_behind(
    triangles: Seq<Triangle>,
    max_relative_diagonal: Binary32,
    end: ConversionView,
    steps: nat,
)
    requires
        leads_to(start(triangles, max_relative_diagonal), end, steps),
        end.done(),
    ensures
        stand_behind(
            end.finished,
            end.boxes(),
            triangles,
            error_limit(triangles, max_relative_diagonal),
        ),
{
    let boxes = end.boxes();
    law_reached_states_are_sound(triangles, max_relative_diagonal, end, steps);
    law_held_triangles_come_from_the_mesh(triangles, max_relative_diagonal, end, steps);
    lemma_nothing_waits(end);
    assert(held(end) =~= finished_triangles(end.finished));
    assert forall|i: int| 0 <= i < boxes.len() implies {
        &&& (#[trigger] end.finished[i]).triangles.len() > 0
        &&& boxes[i] == best_box(end.finished[i].triangles)
        &&& surface_error(end.finished[i].triangles, boxes[i]).le(end.limit)
    } by {
        assert(proper(end.finished[i]));
    }
}

/// The boxes of a mesh share out its triangles, some of them cut, and each box
/// is the best one for its own and follows them within the tolerance.
pub proof fn law_boxes_are_within_tolerance(
    triangles: Seq<Triangle>,
    max_relative_diagonal: Binary32,
    boxes: Seq<BoxTransform>,
)
    requires
        may_give(start(triangles, max_relative_diagonal), boxes),
    ensures
        exists|clusters: Seq<ClusterView>|
            stand_behind(
                clusters,
                boxes,
                triangles,
                error_limit(triangles, max_relative_diagonal),
            ),
{
    let begin = start(triangles, max_relative_diagonal);
    let (end, steps) = choose|end: ConversionView, steps: nat| #[trigger]
        leads_to(begin, end, steps) && end.done() && end.boxes() == boxes;
    lemma_finished_clusters_stand_behind(triangles, max_relative_diagonal, end, steps);
}

/// The share of an input triangle that a triangle stands for, counted in the
/// smallest share that does not vanish.
pub open spec fn share(t: Triangle) -> nat {
    if t.halvings < VANISHED {
        pow2((VANISHED - 1 - t.halvings) as nat)
    } else {
        0
    }
}

/// The two halves of a triangle together stand for what the triangle stands
/// for, but where the cut makes its share vanish.
pub proof fn law_halves_share_the_whole(t: Triangle)
    requires
        t.halvings + 1 != VANISHED,
    ensures
        share(halves(t).0) + share(halves(t).1) == share(t),
        share(halves(t).0) == share(halves(t).1),
{
    reveal(halves);
    if t.halvings < VANISHED {
        lemma_pow2_unfold((VANISHED - 1 - t.halvings) as nat);
    }
}

/// The shares of some triangles together.
pub open spec fn total_share(triangles: Seq<Triangle>) -> nat
    decreases triangles.len(),
{
    if triangles.len() == 0 {
        0
    } else {
        total_share(triangles.drop_last()) + share(triangles.last())
    }
}

/// The shares of the clusters that wait in the given places.
pub open spec fn waiting_share(places: Seq<Option<ClusterView>>) -> nat
    decreases places.len(),
{
    if places.len() == 0 {
        0
    } else {
        waiting_share(places.drop_last()) + match places.last() {
            Some(cluster) => total_share(cluster.triangles),
            None => 0,
        }
    }
}

/// The shares of some finished clusters.
pub open spec fn finished_share(finished: Seq<ClusterView>) -> nat
    decreases finished.len(),
{
    if finished.len() == 0 {
        0
    } else {
        finished_share(finished.drop_last()) + total_share(finished.last().triangles)
    }
}

/// Whether a step does not cut a triangle at the very point where its halves
/// vanish.
pub open spec fn cuts_nothing_vanishing(state: ConversionView) -> bool {
    forall|i: int|
        #[trigger] state.leads(i) && state.places[i]->0.triangles.len() == 1
            ==> state.places[i]->0.triangles[0].halvings + 1 != VANISHED
}

proof fn lemma_share_without(triangles: Seq<Triangle>, i: int)
    requires
        0 <= i < triangles.len(),
    ensures
        total_share(triangles) == total_share(triangles.remove(i)) + share(triangles[i]),
    decreases triangles.len(),
{
    let removed = triangles.remove(i);
    if i == triangles.len() - 1 {
        assert(removed =~= triangles.drop_last());
    } else {
        assert(removed.drop_last() =~= triangles.drop_last().remove(i));
        lemma_share_without(triangles.drop_last(), i);
    }
}

/// The order of triangles does not matter to what they stand for together.
proof fn lemma_share_of_reordered(a: Seq<Triangle>, b: Seq<Triangle>)
    requires
        a.to_multiset() == b.to_multiset(),
    ensures
        total_share(a) == total_share(b),
    decreases a.len(),
{
    a.to_multiset_ensures();
    b.to_multiset_ensures();
    if a.len() > 0 {
        let t = a.last();
        assert(a.contains(t));
        assert(a.to_multiset().count(t) > 0);
        assert(b.to_multiset().count(t) > 0);
        assert(b.contains(t));
        let k = b.index_of(t);
        assert(a.drop_last() =~= a.remove(a.len() - 1));
        lemma_share_without(b, k);
        lemma_share_of_reordered(a.drop_last(), b.remove(k));
    }
}

proof fn lemma_share_of_joined(a: Seq<Triangle>, b: Seq<Triangle>)
    ensures
        total_share(a + b) == total_share(a) + total_share(b),
    decreases b.len(),
{
    if b.len() == 0 {
        assert(a + b =~= a);
    } else {
        assert((a + b).drop_last() =~= a + b.drop_last());
        lemma_share_of_joined(a, b.drop_last());
    }
}

proof fn lemma_share_taken(places: Seq<Option<ClusterView>>, i: int)
    requires
        0 <= i < places.len(),
        places[i] is Some,
    ensures
        waiting_share(places.update(i, None)) + total_share(places[i]->0.triangles)
            == waiting_share(places),
    decreases places.len(),
{
    let updated = places.update(i, None);
    if i == places.len() - 1 {
        assert(updated.drop_last() =~= places.drop_last());
    } else {
        assert(updated.drop_last() =~= places.drop_last().update(i, None));
        lemma_share_taken(places.drop_last(), i);
    }
}

proof fn lemma_share_pushed(places: Seq<Option<ClusterView>>, cluster: ClusterView)
    ensures
        waiting_share(places.push(Some(cluster))) == waiting_share(places) + total_share(
            cluster.triangles,
        ),
{
    assert(places.push(Some(cluster)).drop_last() =~= places);
}

proof fn lemma_share_of_one(t: Triangle)
    ensures
        total_share(seq![t]) == share(t),
{
    let none: Seq<Triangle> = seq![];
    assert(seq![t].drop_last() =~= none);
    assert(total_share(none) == 0);
}

/// What the boxes that wait and the finished ones stand for together does not
/// change, so that progress can be measured by what is finished.
pub proof fn law_step_keeps_the_share(state: ConversionView, next: ConversionView)
    requires
        state.steps_to(next),
        cuts_nothing_vanishing(state),
    ensures
        waiting_share(next.places) + finished_share(next.finished) == waiting_share(state.places)
            + finished_share(state.finished),
        finished_share(next.finished) >= finished_share(state.finished),
{
    let i = choose|i: int| state.steps_by(i, next);
    assert(state.leads(i));
    assert(state.waits(i));
    let cluster = state.places[i]->0;
    let emptied = state.places.update(i, None);
    lemma_share_taken(state.places, i);
    if cluster.surface_error.le(state.limit) {
        assert(next.finished.drop_last() =~= state.finished);
    } else {
        let (a, b) = choose|a: ClusterView, b: ClusterView| #[trigger]
            splits_into(cluster, a, b) && next.places == emptied.push(Some(a)).push(Some(b))
                && next.finished == state.finished;
        lemma_share_pushed(emptied, a);
        lemma_share_pushed(emptied.push(Some(a)), b);
        if cluster.triangles.len() == 1 {
            let t = cluster.triangles[0];
            assert(cluster.triangles =~= seq![t]);
            law_halves_share_the_whole(t);
            lemma_share_of_one(t);
            lemma_share_of_one(halves(t).0);
            lemma_share_of_one(halves(t).1);
        } else {
            lemma_share_of_joined(a.triangles, b.triangles);
            lemma_share_of_reordered(a.triangles + b.triangles, cluster.triangles);
        }
    }
}

/// A conversion starts with nothing finished.
pub proof fn law_everything_waits_at_the_start(
    triangles: Seq<Triangle>,
    max_relative_diagonal: Binary32,
)
    ensures
        waiting_share(start(triangles, max_relative_diagonal).places) == total_share(triangles),
        finished_share(start(triangles, max_relative_diagonal).finished) == 0,
{
    let begin = start(triangles, max_relative_diagonal);
    let none: Seq<Option<ClusterView>> = seq![];
    assert(waiting_share(none) == 0);
    if triangles.len() > 0 {
        assert(begin.places =~= none.push(Some(fitted(triangles))));
        lemma_share_pushed(none, fitted(triangles));
    }
}

/// Whether a number of steps, none of which makes a share vanish, may lead from
/// one state to another.
pub open spec fn leads_without_vanishing(
    from: ConversionView,
    to: ConversionView,
    steps: nat,
) -> bool
    decreases steps,
{
    if steps == 0 {
        to == from
    } else {
        exists|before: ConversionView| #[trigger]
            before.steps_to(to) && cuts_nothing_vanishing(before) && leads_without_vanishing(
                from,
                before,
                (steps - 1) as nat,
            )
    }
}

proof fn lemma_share_is_kept(from: ConversionView, to: ConversionView, steps: nat)
    requires
        leads_without_vanishing(from, to, steps),
    ensures
        waiting_share(to.places) + finished_share(to.finished) == waiting_share(from.places)
            + finished_share(from.finished),
    decreases steps,
{
    if steps > 0 {
        let before = choose|before: ConversionView| #[trigger]
            before.steps_to(to) && cuts_nothing_vanishing(before) && leads_without_vanishing(
                from,
                before,
                (steps - 1) as nat,
            );
        lemma_share_is_kept(from, before, (steps - 1) as nat);
        law_step_keeps_the_share(before, to);
    }
}

/// Nothing is left in the places when no cluster waits.
proof fn lemma_nothing_waits(state: ConversionView)
    requires
        state.done(),
    ensures
        waiting(state.places) == 0,
        waiting_triangles(state.places) == Multiset::<Triangle>::empty(),
        waiting_share(state.places) == 0,
    decreases state.places.len(),
{
    if state.places.len() > 0 {
        let shorter = ConversionView { places: state.places.drop_last(), ..state };
        assert forall|i: int| !#[trigger] shorter.waits(i) by {
            assert(!state.waits(i));
        }
        lemma_nothing_waits(shorter);
        assert(!state.waits(state.places.len() - 1));
    }
}

/// When a conversion ends, the finished boxes stand for all triangles that
/// went in.
pub proof fn law_finished_boxes_stand_for_the_mesh(
    triangles: Seq<Triangle>,
    max_relative_diagonal: Binary32,
    end: ConversionView,
    steps: nat,
)
    requires
        leads_without_vanishing(start(triangles, max_relative_diagonal), end, steps),
        end.done(),
    ensures
        finished_share(end.finished) == total_share(triangles),
{
    law_everything_waits_at_the_start(triangles, max_relative_diagonal);
    lemma_share_is_kept(start(triangles, max_relative_diagonal), end, steps);
    lemma_nothing_waits(end);
}

} // verus!
