//! How a conversion refines its clusters, told apart from the order in which
//! it takes them.
//!
//! A cluster that is split, and whose parts are split in turn, is the root of a
//! tree. In which order clusters are taken does not matter to the trees, so two
//! conversions are compared by them.
use crate::binary32::{Binary32, ZERO};
use crate::cluster::{fitted, splits_into, ClusterView};
use crate::conversion::{
    error_limit, input_error, input_triangles, leads_to, may_give, start, ConversionView,
};
use crate::fitting::BoxTransform;
use crate::laws::{
    law_error_limit_follows_the_tolerance, law_leader_is_unique, law_some_cluster_leads,
    lemma_after_first_step, lemma_nothing_follows_an_end, proper, sound,
};
use crate::triangle::Triangle;
use crate::vector::Vec3;
use vstd::arithmetic::power2::{lemma_pow2_pos, lemma_pow2_unfold, pow2};
use vstd::prelude::*;

verus! {

/// Into which pairs of parts a cluster may be split.
pub type Parts = spec_fn(ClusterView, ClusterView, ClusterView) -> bool;

/// One fixed way of splitting: the parts of each cluster.
pub type Way = spec_fn(ClusterView) -> (ClusterView, ClusterView);

/// Every split that is allowed at all.
pub open spec fn any_parts() -> Parts {
    |cluster: ClusterView, a: ClusterView, b: ClusterView| splits_into(cluster, a, b)
}

/// The one split of each cluster that a way names.
pub open spec fn parts_of(way: Way) -> Parts {
    |cluster: ClusterView, a: ClusterView, b: ClusterView|
        splits_into(cluster, a, b) && way(cluster) == (a, b)
}

/// Whether a way names a split that is allowed, for every cluster that has
/// triangles.
pub open spec fn splits_all(way: Way) -> bool {
    forall|cluster: ClusterView|
        cluster.triangles.len() > 0 ==> {
            let (a, b) = #[trigger] way(cluster);
            splits_into(cluster, a, b)
        }
}

/// Whether one step, by way of the cluster at place `i` and with the given
/// splits, leads from a state to another.
pub open spec fn steps_among(
    parts: Parts,
    state: ConversionView,
    i: int,
    next: ConversionView,
) -> bool {
    let cluster = state.places[i]->0;
    let emptied = state.places.update(i, None);
    &&& state.leads(i)
    &&& next.limit == state.limit
    &&& if cluster.surface_error.le(state.limit) {
        next.places == emptied && next.finished == state.finished.push(cluster)
    } else {
        exists|a: ClusterView, b: ClusterView|
            #[trigger] parts(cluster, a, b) && next.places == emptied.push(Some(a)).push(Some(b))
                && next.finished == state.finished
    }
}

/// Whether a number of steps with the given splits lead from a state to
/// another.
pub open spec fn leads_among(
    parts: Parts,
    from: ConversionView,
    to: ConversionView,
    steps: nat,
) -> bool
    decreases steps,
{
    if steps == 0 {
        to == from
    } else {
        exists|i: int, next: ConversionView| #[trigger]
            steps_among(parts, from, i, next) && leads_among(parts, next, to, (steps - 1) as nat)
    }
}

/// Whether a conversion that splits in one fixed way ends with the given boxes.
pub open spec fn gives(way: Way, from: ConversionView, boxes: Seq<BoxTransform>) -> bool {
    exists|end: ConversionView, steps: nat| #[trigger]
        leads_among(parts_of(way), from, end, steps) && end.done() && end.boxes() == boxes
}

/// Every run is one with some splits that are allowed.
proof fn lemma_runs_are_among(from: ConversionView, to: ConversionView, steps: nat)
    requires
        leads_to(from, to, steps),
    ensures
        leads_among(any_parts(), from, to, steps),
    decreases steps,
{
    if steps > 0 {
        let next = lemma_after_first_step(from, to, steps);
        lemma_runs_are_among(next, to, (steps - 1) as nat);
        let i = choose|i: int| from.steps_by(i, next);
        let cluster = from.places[i]->0;
        if !cluster.surface_error.le(from.limit) {
            let (a, b) = choose|a: ClusterView, b: ClusterView| #[trigger]
                splits_into(cluster, a, b) && next.places == from.places.update(i, None).push(
                    Some(a),
                ).push(Some(b)) && next.finished == from.finished;
            assert(any_parts()(cluster, a, b));
        }
        assert(steps_among(any_parts(), from, i, next));
    }
}

/// A run with splits that are allowed is a run.
proof fn lemma_among_are_runs(parts: Parts, from: ConversionView, to: ConversionView, steps: nat)
    requires
        forall|cluster: ClusterView, a: ClusterView, b: ClusterView| #[trigger]
            parts(cluster, a, b) ==> splits_into(cluster, a, b),
        leads_among(parts, from, to, steps),
    ensures
        leads_to(from, to, steps),
    decreases steps,
{
    if steps > 0 {
        let (i, next) = choose|i: int, next: ConversionView| #[trigger]
            steps_among(parts, from, i, next) && leads_among(parts, next, to, (steps - 1) as nat);
        lemma_among_are_runs(parts, next, to, (steps - 1) as nat);
        assert(from.steps_by(i, next));
        lemma_step_before(from, next, to, (steps - 1) as nat);
    }
}

/// What becomes of a cluster.
pub enum Tree {
    /// It is finished.
    Leaf(ClusterView),
    /// It is split, and this becomes of its parts.
    Fork(ClusterView, Box<Tree>, Box<Tree>),
}

impl Tree {
    /// The cluster that the tree starts from.
    pub open spec fn root(self) -> ClusterView {
        match self {
            Tree::Leaf(cluster) => cluster,
            Tree::Fork(cluster, _, _) => cluster,
        }
    }

    /// The number of finished clusters.
    pub open spec fn leaves(self) -> nat
        decreases self,
    {
        match self {
            Tree::Leaf(_) => 1,
            Tree::Fork(_, a, b) => a.leaves() + b.leaves(),
        }
    }

    /// Whether just the clusters within the limit are finished, and all others
    /// split as is allowed.
    pub open spec fn follows(self, limit: Binary32, parts: Parts) -> bool
        decreases self,
    {
        match self {
            Tree::Leaf(cluster) => cluster.surface_error.le(limit),
            Tree::Fork(cluster, a, b) => {
                &&& !cluster.surface_error.le(limit)
                &&& parts(cluster, a.root(), b.root())
                &&& a.follows(limit, parts)
                &&& b.follows(limit, parts)
            },
        }
    }

    /// The tree that is left where clusters within a limit are not split.
    pub open spec fn pruned(self, limit: Binary32) -> Tree
        decreases self,
    {
        if self.root().surface_error.le(limit) {
            Tree::Leaf(self.root())
        } else {
            match self {
                Tree::Leaf(cluster) => Tree::Leaf(cluster),
                Tree::Fork(cluster, a, b) => Tree::Fork(
                    cluster,
                    Box::new(a.pruned(limit)),
                    Box::new(b.pruned(limit)),
                ),
            }
        }
    }
}

/// Whether every error within one limit is within another.
pub open spec fn no_stricter(lax: Binary32, strict: Binary32) -> bool {
    forall|error: Binary32| #[trigger] error.le(strict) ==> error.le(lax)
}

/// Under a limit that is no stricter a tree is pruned to one with no more
/// leaves.
proof fn lemma_pruned_tree(tree: Tree, strict: Binary32, lax: Binary32, parts: Parts)
    requires
        tree.follows(strict, parts),
        no_stricter(lax, strict),
    ensures
        tree.pruned(lax).follows(lax, parts),
        tree.pruned(lax).root() == tree.root(),
        1 <= tree.pruned(lax).leaves() <= tree.leaves(),
    decreases tree,
{
    match tree {
        Tree::Leaf(cluster) => {
            assert(cluster.surface_error.le(strict));
        },
        Tree::Fork(_, a, b) => {
            lemma_pruned_tree(*a, strict, lax, parts);
            lemma_pruned_tree(*b, strict, lax, parts);
        },
    }
}

/// Whether the trees are those of the clusters that wait.
pub open spec fn stem_from(
    trees: Seq<Option<Tree>>,
    state: ConversionView,
    parts: Parts,
) -> bool {
    &&& trees.len() == state.places.len()
    &&& forall|i: int|
        0 <= i < trees.len() ==> {
            &&& (#[trigger] trees[i]) is Some == state.places[i] is Some
            &&& trees[i] is Some ==> trees[i]->0.root() == state.places[i]->0
            &&& trees[i] is Some ==> trees[i]->0.follows(state.limit, parts)
        }
}

/// The number of leaves of all trees.
pub open spec fn all_leaves(trees: Seq<Option<Tree>>) -> nat
    decreases trees.len(),
{
    if trees.len() == 0 {
        0
    } else {
        all_leaves(trees.drop_last()) + match trees.last() {
            Some(tree) => tree.leaves(),
            None => 0,
        }
    }
}

/// The number of clusters in a tree.
spec fn size(tree: Tree) -> nat
    decreases tree,
{
    match tree {
        Tree::Leaf(_) => 1,
        Tree::Fork(_, a, b) => 1 + size(*a) + size(*b),
    }
}

spec fn all_sizes(trees: Seq<Option<Tree>>) -> nat
    decreases trees.len(),
{
    if trees.len() == 0 {
        0
    } else {
        all_sizes(trees.drop_last()) + match trees.last() {
            Some(tree) => size(tree),
            None => 0,
        }
    }
}

proof fn lemma_tree_replaced(trees: Seq<Option<Tree>>, i: int, tree: Option<Tree>)
    requires
        0 <= i < trees.len(),
    ensures
        all_leaves(trees.update(i, tree)) + (match trees[i] {
            Some(old_tree) => old_tree.leaves(),
            None => 0,
        }) == all_leaves(trees) + match tree {
            Some(new_tree) => new_tree.leaves(),
            None => 0,
        },
        all_sizes(trees.update(i, tree)) + (match trees[i] {
            Some(old_tree) => size(old_tree),
            None => 0,
        }) == all_sizes(trees) + match tree {
            Some(new_tree) => size(new_tree),
            None => 0,
        },
    decreases trees.len(),
{
    let updated = trees.update(i, tree);
    if i == trees.len() - 1 {
        assert(updated.drop_last() =~= trees.drop_last());
    } else {
        assert(updated.drop_last() =~= trees.drop_last().update(i, tree));
        lemma_tree_replaced(trees.drop_last(), i, tree);
    }
}

proof fn lemma_tree_pushed(trees: Seq<Option<Tree>>, tree: Tree)
    ensures
        all_leaves(trees.push(Some(tree))) == all_leaves(trees) + tree.leaves(),
        all_sizes(trees.push(Some(tree))) == all_sizes(trees) + size(tree),
{
    assert(trees.push(Some(tree)).drop_last() =~= trees);
}

proof fn lemma_no_trees(trees: Seq<Option<Tree>>)
    requires
        forall|i: int| 0 <= i < trees.len() ==> (#[trigger] trees[i]) is None,
    ensures
        all_leaves(trees) == 0,
    decreases trees.len(),
{
    if trees.len() > 0 {
        lemma_no_trees(trees.drop_last());
    }
}

/// Every run to an end grows trees, one leaf to each box that it adds.
proof fn lemma_run_grows_trees(
    parts: Parts,
    from: ConversionView,
    end: ConversionView,
    steps: nat,
) -> (trees: Seq<Option<Tree>>)
    requires
        leads_among(parts, from, end, steps),
        end.done(),
    ensures
        stem_from(trees, from, parts),
        from.finished.len() + all_leaves(trees) == end.finished.len(),
    decreases steps,
{
    if steps == 0 {
        let trees = Seq::new(from.places.len(), |i: int| None::<Tree>);
        assert forall|i: int| 0 <= i < trees.len() implies from.places[i] is None by {
            assert(!from.waits(i));
        }
        lemma_no_trees(trees);
        trees
    } else {
        let (i, next) = choose|i: int, next: ConversionView| #[trigger]
            steps_among(parts, from, i, next) && leads_among(parts, next, end, (steps - 1) as nat);
        let grown = lemma_run_grows_trees(parts, next, end, (steps - 1) as nat);
        assert(from.waits(i));
        let cluster = from.places[i]->0;
        let count = from.places.len() as int;
        if cluster.surface_error.le(from.limit) {
            let leaf = Some(Tree::Leaf(cluster));
            let trees = grown.update(i, leaf);
            assert(next.places[i] is None);
            assert(grown[i] is None);
            lemma_tree_replaced(grown, i, leaf);
            assert forall|j: int| 0 <= j < trees.len() implies {
                &&& (#[trigger] trees[j]) is Some == from.places[j] is Some
                &&& trees[j] is Some ==> trees[j]->0.root() == from.places[j]->0
                &&& trees[j] is Some ==> trees[j]->0.follows(from.limit, parts)
            } by {
                if j != i {
                    assert(trees[j] == grown[j]);
                    assert(next.places[j] == from.places[j]);
                }
            }
            trees
        } else {
            let emptied = from.places.update(i, None);
            let (a, b) = choose|a: ClusterView, b: ClusterView| #[trigger]
                parts(cluster, a, b) && next.places == emptied.push(Some(a)).push(Some(b))
                    && next.finished == from.finished;
            assert(grown[count] is Some && grown[count + 1] is Some);
            let first = grown[count]->0;
            let second = grown[count + 1]->0;
            let kept = grown.take(count);
            assert(next.places[i] is None);
            assert(grown[i] is None);
            assert(grown =~= kept.push(Some(first)).push(Some(second)));
            lemma_tree_pushed(kept, first);
            lemma_tree_pushed(kept.push(Some(first)), second);
            let fork = Some(Tree::Fork(cluster, Box::new(first), Box::new(second)));
            let trees = kept.update(i, fork);
            lemma_tree_replaced(kept, i, fork);
            assert forall|j: int| 0 <= j < trees.len() implies {
                &&& (#[trigger] trees[j]) is Some == from.places[j] is Some
                &&& trees[j] is Some ==> trees[j]->0.root() == from.places[j]->0
                &&& trees[j] is Some ==> trees[j]->0.follows(from.limit, parts)
            } by {
                if j != i {
                    assert(trees[j] == grown[j]);
                    assert(next.places[j] == from.places[j]);
                }
            }
            trees
        }
    }
}

/// A run with one step put before it.
proof fn lemma_step_before(
    from: ConversionView,
    next: ConversionView,
    to: ConversionView,
    steps: nat,
)
    requires
        from.steps_to(next),
        leads_to(next, to, steps),
    ensures
        leads_to(from, to, steps + 1),
    decreases steps,
{
    if steps == 0 {
        assert(leads_to(from, from, 0));
        assert(from.steps_to(to));
    } else {
        let before = choose|before: ConversionView| #[trigger]
            before.steps_to(to) && leads_to(next, before, (steps - 1) as nat);
        lemma_step_before(from, next, before, (steps - 1) as nat);
    }
}

/// Trees can be followed to an end, one box to each leaf.
proof fn lemma_trees_are_run(
    parts: Parts,
    from: ConversionView,
    trees: Seq<Option<Tree>>,
) -> (run: (ConversionView, nat))
    requires
        stem_from(trees, from, parts),
    ensures
        leads_among(parts, from, run.0, run.1),
        run.0.done(),
        run.0.finished.len() == from.finished.len() + all_leaves(trees),
    decreases all_sizes(trees),
{
    if from.done() {
        assert forall|i: int| 0 <= i < trees.len() implies (#[trigger] trees[i]) is None by {
            assert(!from.waits(i));
        }
        lemma_no_trees(trees);
        (from, 0)
    } else {
        law_some_cluster_leads(from);
        let i = choose|i: int| from.leads(i);
        assert(from.waits(i));
        assert(trees[i] is Some);
        let cluster = from.places[i]->0;
        let emptied = from.places.update(i, None);
        let kept = trees.update(i, None);
        lemma_tree_replaced(trees, i, None);
        match trees[i]->0 {
            Tree::Leaf(_) => {
                let next = ConversionView {
                    places: emptied,
                    finished: from.finished.push(cluster),
                    limit: from.limit,
                };
                assert(steps_among(parts, from, i, next));
                assert forall|j: int| 0 <= j < kept.len() implies {
                    &&& (#[trigger] kept[j]) is Some == next.places[j] is Some
                    &&& kept[j] is Some ==> kept[j]->0.root() == next.places[j]->0
                    &&& kept[j] is Some ==> kept[j]->0.follows(next.limit, parts)
                } by {
                    if j != i {
                        assert(kept[j] == trees[j]);
                    }
                }
                let run = lemma_trees_are_run(parts, next, kept);
                (run.0, run.1 + 1)
            },
            Tree::Fork(_, a, b) => {
                let next = ConversionView {
                    places: emptied.push(Some(a.root())).push(Some(b.root())),
                    finished: from.finished,
                    limit: from.limit,
                };
                assert(parts(cluster, a.root(), b.root()));
                assert(steps_among(parts, from, i, next));
                lemma_tree_pushed(kept, *a);
                lemma_tree_pushed(kept.push(Some(*a)), *b);
                let grown = kept.push(Some(*a)).push(Some(*b));
                assert forall|j: int| 0 <= j < grown.len() implies {
                    &&& (#[trigger] grown[j]) is Some == next.places[j] is Some
                    &&& grown[j] is Some ==> grown[j]->0.root() == next.places[j]->0
                    &&& grown[j] is Some ==> grown[j]->0.follows(next.limit, parts)
                } by {
                    if j < trees.len() && j != i {
                        assert(grown[j] == trees[j]);
                    }
                }
                let run = lemma_trees_are_run(parts, next, grown);
                (run.0, run.1 + 1)
            },
        }
    }
}

/// A run under a lower tolerance has a counterpart under a higher one, with the
/// same splits as far as it goes, that leaves no more boxes.
proof fn lemma_higher_tolerance(
    parts: Parts,
    triangles: Seq<Triangle>,
    lower: Binary32,
    higher: Binary32,
    end: ConversionView,
    steps: nat,
) -> (run: (ConversionView, nat))
    requires
        lower.is_finite(),
        higher.is_finite(),
        Binary32::of(ZERO).lt(lower),
        lower.le(higher),
        leads_among(parts, start(triangles, lower), end, steps),
        end.done(),
    ensures
        leads_among(parts, start(triangles, higher), run.0, run.1),
        run.0.done(),
        run.0.finished.len() <= end.finished.len(),
{
    let strict = start(triangles, lower);
    let lax = start(triangles, higher);
    law_error_limit_follows_the_tolerance(triangles, lower, higher);
    assert(no_stricter(lax.limit, strict.limit)) by {
        assert forall|error: Binary32| #[trigger] error.le(strict.limit) implies error.le(
            lax.limit,
        ) by {
            reveal(Binary32::spec_le);
        }
    }
    let trees = lemma_run_grows_trees(parts, strict, end, steps);
    let pruned = if triangles.len() == 0 {
        trees
    } else {
        let tree = trees[0]->0;
        assert(trees[0] is Some);
        lemma_pruned_tree(tree, strict.limit, lax.limit, parts);
        let none: Seq<Option<Tree>> = seq![];
        lemma_tree_pushed(none, tree);
        lemma_tree_pushed(none, tree.pruned(lax.limit));
        assert(trees =~= none.push(Some(tree)));
        none.push(Some(tree.pruned(lax.limit)))
    };
    lemma_trees_are_run(parts, lax, pruned)
}

/// Whether a conversion may end with no more than so many boxes.
pub open spec fn may_give_at_most(from: ConversionView, count: nat) -> bool {
    exists|boxes: Seq<BoxTransform>| #[trigger] may_give(from, boxes) && boxes.len() <= count
}

/// Whatever a lower tolerance leads to, a higher one can be met with no more
/// boxes, for it splits only clusters that the lower one splits too.
pub proof fn law_higher_tolerance_may_give_fewer_boxes(
    triangles: Seq<Triangle>,
    lower: Binary32,
    higher: Binary32,
    boxes: Seq<BoxTransform>,
)
    requires
        lower.is_finite(),
        higher.is_finite(),
        Binary32::of(ZERO).lt(lower),
        lower.le(higher),
        may_give(start(triangles, lower), boxes),
    ensures
        may_give_at_most(start(triangles, higher), boxes.len()),
{
    let (end, steps) = choose|end: ConversionView, steps: nat| #[trigger]
        leads_to(start(triangles, lower), end, steps) && end.done() && end.boxes() == boxes;
    lemma_runs_are_among(start(triangles, lower), end, steps);
    let (other, count) = lemma_higher_tolerance(any_parts(), triangles, lower, higher, end, steps);
    lemma_among_are_runs(any_parts(), start(triangles, higher), other, count);
    assert(may_give(start(triangles, higher), other.boxes()));
}

/// Lower tolerances create more parts: with one way of splitting, the outcome
/// under a higher tolerance has no more boxes than the one under a lower
/// tolerance, and there is such an outcome wherever the lower tolerance has one.
pub proof fn law_lower_tolerance_gives_no_fewer_boxes(
    way: Way,
    triangles: Seq<Triangle>,
    lower: Binary32,
    higher: Binary32,
    boxes: Seq<BoxTransform>,
)
    requires
        lower.is_finite(),
        higher.is_finite(),
        Binary32::of(ZERO).lt(lower),
        lower.le(higher),
        gives(way, start(triangles, lower), boxes),
    ensures
        exists|fewer: Seq<BoxTransform>| gives(way, start(triangles, higher), fewer),
        forall|fewer: Seq<BoxTransform>| #[trigger]
            gives(way, start(triangles, higher), fewer) ==> fewer.len() <= boxes.len(),
{
    let parts = parts_of(way);
    let (end, steps) = choose|end: ConversionView, steps: nat| #[trigger]
        leads_among(parts, start(triangles, lower), end, steps) && end.done() && end.boxes()
            == boxes;
    let (other, count) = lemma_higher_tolerance(parts, triangles, lower, higher, end, steps);
    assert(gives(way, start(triangles, higher), other.boxes()));
    assert forall|fewer: Seq<BoxTransform>| #[trigger]
        gives(way, start(triangles, higher), fewer) implies fewer.len() <= boxes.len() by {
        law_way_has_one_outcome(way, start(triangles, higher), other.boxes(), fewer);
    }
}

/// With one way of splitting, a step has one outcome.
proof fn lemma_step_of_a_way_is_settled(
    way: Way,
    state: ConversionView,
    i: int,
    next: ConversionView,
    j: int,
    other: ConversionView,
)
    requires
        steps_among(parts_of(way), state, i, next),
        steps_among(parts_of(way), state, j, other),
    ensures
        other == next,
{
    law_leader_is_unique(state, i, j);
    let cluster = state.places[i]->0;
    let emptied = state.places.update(i, None);
    if !cluster.surface_error.le(state.limit) {
        let (a, b) = choose|a: ClusterView, b: ClusterView| #[trigger]
            parts_of(way)(cluster, a, b) && next.places == emptied.push(Some(a)).push(Some(b))
                && next.finished == state.finished;
        let (c, d) = choose|c: ClusterView, d: ClusterView| #[trigger]
            parts_of(way)(cluster, c, d) && other.places == emptied.push(Some(c)).push(Some(d))
                && other.finished == state.finished;
        assert(way(cluster) == (a, b) && way(cluster) == (c, d));
    }
}

proof fn lemma_runs_of_a_way_agree(
    way: Way,
    from: ConversionView,
    end: ConversionView,
    steps: nat,
    other_end: ConversionView,
    other_steps: nat,
)
    requires
        leads_among(parts_of(way), from, end, steps),
        end.done(),
        leads_among(parts_of(way), from, other_end, other_steps),
        other_end.done(),
    ensures
        other_end == end,
    decreases steps,
{
    let parts = parts_of(way);
    if steps == 0 || other_steps == 0 {
        lemma_among_are_runs(parts, from, end, steps);
        lemma_among_are_runs(parts, from, other_end, other_steps);
        lemma_nothing_follows_an_end(from, end, steps);
        lemma_nothing_follows_an_end(from, other_end, other_steps);
    } else {
        let (i, next) = choose|i: int, next: ConversionView| #[trigger]
            steps_among(parts, from, i, next) && leads_among(parts, next, end, (steps - 1) as nat);
        let (j, other) = choose|j: int, other: ConversionView| #[trigger]
            steps_among(parts, from, j, other) && leads_among(
                parts,
                other,
                other_end,
                (other_steps - 1) as nat,
            );
        lemma_step_of_a_way_is_settled(way, from, i, next, j, other);
        lemma_runs_of_a_way_agree(
            way,
            next,
            end,
            (steps - 1) as nat,
            other_end,
            (other_steps - 1) as nat,
        );
    }
}

/// With one way of splitting, a conversion always gives the same boxes in the
/// same order.
pub proof fn law_way_has_one_outcome(
    way: Way,
    from: ConversionView,
    boxes: Seq<BoxTransform>,
    other_boxes: Seq<BoxTransform>,
)
    requires
        gives(way, from, boxes),
        gives(way, from, other_boxes),
    ensures
        other_boxes == boxes,
{
    let parts = parts_of(way);
    let (end, steps) = choose|end: ConversionView, steps: nat| #[trigger]
        leads_among(parts, from, end, steps) && end.done() && end.boxes() == boxes;
    let (other_end, other_steps) = choose|end: ConversionView, steps: nat| #[trigger]
        leads_among(parts, from, end, steps) && end.done() && end.boxes() == other_boxes;
    lemma_runs_of_a_way_agree(way, from, end, steps, other_end, other_steps);
}

/// What one way of splitting gives is what a conversion may give.
pub proof fn law_way_gives_what_may_be_given(
    way: Way,
    from: ConversionView,
    boxes: Seq<BoxTransform>,
)
    requires
        gives(way, from, boxes),
    ensures
        may_give(from, boxes),
{
    let (end, steps) = choose|end: ConversionView, steps: nat| #[trigger]
        leads_among(parts_of(way), from, end, steps) && end.done() && end.boxes() == boxes;
    lemma_among_are_runs(parts_of(way), from, end, steps);
}

/// A way that splits all clusters takes every conversion further that is not
/// done, as long as only clusters with triangles wait.
pub proof fn law_way_goes_on(way: Way, state: ConversionView)
    requires
        splits_all(way),
        sound(state),
        !state.done(),
    ensures
        exists|i: int, next: ConversionView| steps_among(parts_of(way), state, i, next),
{
    law_some_cluster_leads(state);
    let i = choose|i: int| state.leads(i);
    assert(state.waits(i));
    let cluster = state.places[i]->0;
    let emptied = state.places.update(i, None);
    let next = if cluster.surface_error.le(state.limit) {
        ConversionView {
            places: emptied,
            finished: state.finished.push(cluster),
            limit: state.limit,
        }
    } else {
        let (a, b) = way(cluster);
        assert(proper(cluster));
        assert(parts_of(way)(cluster, a, b));
        ConversionView {
            places: emptied.push(Some(a)).push(Some(b)),
            finished: state.finished,
            limit: state.limit,
        }
    };
    assert(steps_among(parts_of(way), state, i, next));
}

/// Only the vertices that the indices name matter, not where they are kept:
/// meshes with the same triangles, corner by corner, are read alike and start
/// in the same state, so that the same outcomes are possible; with one way of
/// splitting they give the same boxes in the same order.
pub proof fn law_numbering_of_vertices_does_not_matter(
    vertices: Seq<Vec3>,
    indices: Seq<u32>,
    other_vertices: Seq<Vec3>,
    other_indices: Seq<u32>,
    max_relative_diagonal: Binary32,
)
    requires
        input_error(vertices, indices, max_relative_diagonal) is None,
        other_indices.len() == indices.len(),
        forall|k: int|
            0 <= k < indices.len() ==> {
                &&& #[trigger] other_indices[k] < other_vertices.len()
                &&& other_vertices[other_indices[k] as int] == vertices[indices[k] as int]
            },
    ensures
        input_error(other_vertices, other_indices, max_relative_diagonal) is None,
        input_triangles(other_vertices, other_indices) == input_triangles(vertices, indices),
        start(input_triangles(other_vertices, other_indices), max_relative_diagonal) == start(
            input_triangles(vertices, indices),
            max_relative_diagonal,
        ),
        forall|way: Way, boxes: Seq<BoxTransform>, other_boxes: Seq<BoxTransform>| #[trigger]
            gives(
                way,
                start(input_triangles(vertices, indices), max_relative_diagonal),
                boxes,
            ) && #[trigger] gives(
                way,
                start(input_triangles(other_vertices, other_indices), max_relative_diagonal),
                other_boxes,
            ) ==> other_boxes == boxes,
{
    crate::conversion::lemma_first_outside(
        other_indices,
        other_vertices.len(),
        other_indices.len() as int,
    );
    let ours = input_triangles(vertices, indices);
    let others = input_triangles(other_vertices, other_indices);
    assert forall|i: int| 0 <= i < ours.len() implies ours[i] == others[i] by {
        assert(other_indices[3 * i] < other_vertices.len());
        assert(other_indices[3 * i + 1] < other_vertices.len());
        assert(other_indices[3 * i + 2] < other_vertices.len());
    }
    assert(ours =~= others);
    let from = start(ours, max_relative_diagonal);
    assert forall|way: Way, boxes: Seq<BoxTransform>, other_boxes: Seq<BoxTransform>| #[trigger]
        gives(way, from, boxes) && #[trigger] gives(way, from, other_boxes) implies other_boxes
        == boxes by {
        law_way_has_one_outcome(way, from, boxes, other_boxes);
    }
}

/// Whether each cluster that waits is one of a single triangle.
pub open spec fn singles_wait(state: ConversionView) -> bool {
    forall|i: int| #[trigger] state.waits(i) ==> state.places[i]->0.triangles.len() == 1
}

/// While only single triangles wait, a step has one outcome.
proof fn lemma_single_step_is_settled(
    state: ConversionView,
    next: ConversionView,
    other: ConversionView,
)
    requires
        singles_wait(state),
        state.steps_to(next),
        state.steps_to(other),
    ensures
        other == next,
        singles_wait(next),
{
    let i = choose|i: int| state.steps_by(i, next);
    let j = choose|j: int| state.steps_by(j, other);
    law_leader_is_unique(state, i, j);
    assert(state.waits(i));
    let cluster = state.places[i]->0;
    let emptied = state.places.update(i, None);
    if !cluster.surface_error.le(state.limit) {
        let (a, b) = choose|a: ClusterView, b: ClusterView| #[trigger]
            splits_into(cluster, a, b) && next.places == emptied.push(Some(a)).push(Some(b))
                && next.finished == state.finished;
        let (c, d) = choose|c: ClusterView, d: ClusterView| #[trigger]
            splits_into(cluster, c, d) && other.places == emptied.push(Some(c)).push(Some(d))
                && other.finished == state.finished;
        assert(a == c && b == d);
    }
    assert forall|k: int| #[trigger] next.waits(k) implies next.places[k]->0.triangles.len()
        == 1 by {
        if k < state.places.len() {
            assert(state.waits(k));
        }
    }
}

proof fn lemma_single_runs_agree(
    from: ConversionView,
    end: ConversionView,
    steps: nat,
    other_end: ConversionView,
    other_steps: nat,
)
    requires
        singles_wait(from),
        leads_to(from, end, steps),
        end.done(),
        leads_to(from, other_end, other_steps),
        other_end.done(),
    ensures
        other_end == end,
    decreases steps,
{
    if steps == 0 {
        lemma_nothing_follows_an_end(from, other_end, other_steps);
    } else if other_steps == 0 {
        lemma_nothing_follows_an_end(from, end, steps);
    } else {
        let next = lemma_after_first_step(from, end, steps);
        let other_next = lemma_after_first_step(from, other_end, other_steps);
        lemma_single_step_is_settled(from, next, other_next);
        lemma_single_runs_agree(
            next,
            end,
            (steps - 1) as nat,
            other_end,
            (other_steps - 1) as nat,
        );
    }
}

/// A mesh of one triangle is always converted into the same boxes, in the same
/// order.
pub proof fn law_single_triangle_has_one_outcome(
    triangle: Triangle,
    max_relative_diagonal: Binary32,
    boxes: Seq<BoxTransform>,
    other_boxes: Seq<BoxTransform>,
)
    requires
        may_give(start(seq![triangle], max_relative_diagonal), boxes),
        may_give(start(seq![triangle], max_relative_diagonal), other_boxes),
    ensures
        other_boxes == boxes,
{
    let from = start(seq![triangle], max_relative_diagonal);
    let (end, steps) = choose|end: ConversionView, steps: nat| #[trigger]
        leads_to(from, end, steps) && end.done() && end.boxes() == boxes;
    let (other_end, other_steps) = choose|end: ConversionView, steps: nat| #[trigger]
        leads_to(from, end, steps) && end.done() && end.boxes() == other_boxes;
    lemma_single_runs_agree(from, end, steps, other_end, other_steps);
}

/// Whether a cluster, however it is split, has only parts within a limit after
/// so many generations of splits.
pub open spec fn refines_within(cluster: ClusterView, limit: Binary32, generations: nat) -> bool
    decreases generations,
{
    cluster.surface_error.le(limit) || (generations > 0 && forall|a: ClusterView, b: ClusterView|
        #[trigger]
        splits_into(cluster, a, b) ==> refines_within(a, limit, (generations - 1) as nat)
            && refines_within(b, limit, (generations - 1) as nat))
}

/// Whether each cluster that waits refines within its number of generations.
spec fn all_refine(state: ConversionView, generations: Seq<nat>) -> bool {
    &&& generations.len() == state.places.len()
    &&& forall|i: int| #[trigger]
        state.waits(i) ==> refines_within(state.places[i]->0, state.limit, generations[i])
}

/// The number of steps that a cluster takes at most.
spec fn cost(place: Option<ClusterView>, generations: nat) -> nat {
    if place is Some {
        (pow2(generations + 1) - 1) as nat
    } else {
        0
    }
}

spec fn total_cost(places: Seq<Option<ClusterView>>, generations: Seq<nat>) -> nat
    decreases places.len(),
{
    if places.len() == 0 {
        0
    } else {
        total_cost(places.drop_last(), generations) + cost(
            places.last(),
            generations[places.len() - 1],
        )
    }
}

proof fn lemma_cost_taken(places: Seq<Option<ClusterView>>, generations: Seq<nat>, i: int)
    requires
        0 <= i < places.len(),
    ensures
        total_cost(places.update(i, None), generations) + cost(places[i], generations[i])
            == total_cost(places, generations),
    decreases places.len(),
{
    let updated = places.update(i, None);
    if i == places.len() - 1 {
        assert(updated.drop_last() =~= places.drop_last());
    } else {
        assert(updated.drop_last() =~= places.drop_last().update(i, None));
        lemma_cost_taken(places.drop_last(), generations, i);
    }
}

proof fn lemma_cost_depends_on_places(
    places: Seq<Option<ClusterView>>,
    generations: Seq<nat>,
    other: Seq<nat>,
)
    requires
        forall|i: int| 0 <= i < places.len() ==> #[trigger] other[i] == generations[i],
    ensures
        total_cost(places, other) == total_cost(places, generations),
    decreases places.len(),
{
    if places.len() > 0 {
        lemma_cost_depends_on_places(places.drop_last(), generations, other);
        assert(other[places.len() - 1] == generations[places.len() - 1]);
    }
}

proof fn lemma_refining_ends(state: ConversionView, generations: Seq<nat>, steps: nat)
    requires
        all_refine(state, generations),
        total_cost(state.places, generations) <= steps,
    ensures
        state.ends_within(steps),
    decreases steps,
{
    if !state.done() {
        law_some_cluster_leads(state);
        let i = choose|i: int| state.leads(i);
        assert(state.waits(i));
        let cluster = state.places[i]->0;
        let left = generations[i];
        let emptied = state.places.update(i, None);
        lemma_cost_taken(state.places, generations, i);
        lemma_pow2_unfold(left + 1);
        lemma_pow2_pos(left);
        assert forall|next: ConversionView| #[trigger] state.steps_to(next) implies
            next.ends_within((steps - 1) as nat) by {
            let j = choose|j: int| state.steps_by(j, next);
            law_leader_is_unique(state, i, j);
            if cluster.surface_error.le(state.limit) {
                assert forall|k: int| #[trigger] next.waits(k) implies refines_within(
                    next.places[k]->0,
                    next.limit,
                    generations[k],
                ) by {
                    assert(state.waits(k));
                }
                lemma_refining_ends(next, generations, (steps - 1) as nat);
            } else {
                let (a, b) = choose|a: ClusterView, b: ClusterView| #[trigger]
                    splits_into(cluster, a, b) && next.places == emptied.push(Some(a)).push(
                        Some(b),
                    ) && next.finished == state.finished;
                let fewer = (left - 1) as nat;
                assert(refines_within(cluster, state.limit, left));
                assert(refines_within(a, state.limit, fewer));
                assert(refines_within(b, state.limit, fewer));
                let longer = generations.push(fewer).push(fewer);
                lemma_cost_depends_on_places(emptied, generations, longer);
                assert(next.places.drop_last() =~= emptied.push(Some(a)));
                assert(next.places.drop_last().drop_last() =~= emptied);
                reveal_with_fuel(total_cost, 3);
                assert forall|k: int| #[trigger] next.waits(k) implies refines_within(
                    next.places[k]->0,
                    next.limit,
                    longer[k],
                ) by {
                    if k < state.places.len() {
                        assert(state.waits(k));
                    }
                }
                lemma_refining_ends(next, longer, (steps - 1) as nat);
            }
        }
    }
}

/// A conversion ends where its clusters refine: if every part of the mesh is
/// within the limit after so many generations of splits, however they turn
/// out, all is done before the next power of two of steps is reached.
pub proof fn law_refining_mesh_is_converted(
    triangles: Seq<Triangle>,
    max_relative_diagonal: Binary32,
    generations: nat,
)
    requires
        triangles.len() > 0,
        refines_within(
            fitted(triangles),
            error_limit(triangles, max_relative_diagonal),
            generations,
        ),
    ensures
        start(triangles, max_relative_diagonal).ends_within((pow2(generations + 1) - 1) as nat),
{
    let begin = start(triangles, max_relative_diagonal);
    assert(begin.places.drop_last() =~= seq![]);
    reveal_with_fuel(total_cost, 2);
    lemma_refining_ends(begin, seq![generations], (pow2(generations + 1) - 1) as nat);
}

} // verus!
