//! The conversion of a mesh into boxes.
//!
//! A conversion starts from one box around the whole mesh. The box that
//! follows the mesh least closely is taken again and again: if it is close
//! enough it is finished, else its triangles are split between two new boxes.
use crate::binary32::{Binary32, ZERO};
use crate::cluster::{
    fitted, make_cluster, split_cluster, splits_into, Cluster, ClusterView,
};
use crate::directions::{exact_dot, law_value_of_length};
use crate::error::MeshToBoxesError;
use crate::fitting::BoxTransform;
use crate::queue::{Entry, Queue};
use crate::triangle::Triangle;
use crate::value::{
    large, law_order_of_values, law_share_is_not_greater, law_value_of_finite_product,
    law_value_of_product, law_values_of_constants, near, part, size, unit, value,
};
use crate::vector::Vec3;
use vstd::prelude::*;

verus! {

/// The first index that is not below the number of vertices.
pub open spec fn first_outside(indices: Seq<u32>, vertex_count: nat) -> Option<u32>
    decreases indices.len(),
{
    if indices.len() == 0 {
        None
    } else {
        match first_outside(indices.drop_last(), vertex_count) {
            Some(index) => Some(index),
            None => if indices.last() >= vertex_count {
                Some(indices.last())
            } else {
                None
            },
        }
    }
}

/// What is wrong with the input of a conversion, the gravest fault first.
pub open spec fn input_error(
    vertices: Seq<Vec3>,
    indices: Seq<u32>,
    max_relative_diagonal: Binary32,
) -> Option<MeshToBoxesError> {
    if indices.len() % 3 != 0 {
        Some(MeshToBoxesError::InvalidIndexCount)
    } else if !max_relative_diagonal.is_finite() || max_relative_diagonal.le(Binary32::of(ZERO)) {
        Some(MeshToBoxesError::NonPositiveTolerance)
    } else {
        match first_outside(indices, vertices.len()) {
            Some(index) => Some(
                MeshToBoxesError::IndexOutOfBounds {
                    index,
                    vertex_count: vertices.len() as usize,
                },
            ),
            None => None,
        }
    }
}

/// The triangle that three consecutive indices name.
pub open spec fn input_triangle(vertices: Seq<Vec3>, indices: Seq<u32>, i: int) -> Triangle {
    Triangle {
        a: vertices[indices[3 * i] as int],
        b: vertices[indices[3 * i + 1] as int],
        c: vertices[indices[3 * i + 2] as int],
        halvings: 0,
    }
}

/// The triangles of a mesh.
pub open spec fn input_triangles(vertices: Seq<Vec3>, indices: Seq<u32>) -> Seq<Triangle> {
    Seq::new(indices.len() / 3, |i: int| input_triangle(vertices, indices, i))
}

/// Indices that are all inside up to `i` have their first outside one at `i`.
pub(crate) proof fn lemma_first_outside(indices: Seq<u32>, vertex_count: nat, i: int)
    requires
        0 <= i <= indices.len(),
        forall|k: int| 0 <= k < i ==> #[trigger] indices[k] < vertex_count,
        i < indices.len() ==> indices[i] >= vertex_count,
    ensures
        first_outside(indices, vertex_count) == if i < indices.len() {
            Some(indices[i])
        } else {
            None
        },
    decreases indices.len(),
{
    if indices.len() > 0 {
        let shorter = indices.drop_last();
        assert(forall|k: int| 0 <= k < shorter.len() ==> shorter[k] == indices[k]);
        if i < indices.len() {
            lemma_first_outside(shorter, vertex_count, i);
        } else {
            lemma_first_outside(shorter, vertex_count, i - 1);
        }
    }
}

/// A mesh is accepted exactly if its indices come in threes and each names a
/// vertex, and the tolerance is finite and above nought.
pub proof fn law_accepted_input(
    vertices: Seq<Vec3>,
    indices: Seq<u32>,
    max_relative_diagonal: Binary32,
)
    ensures
        input_error(vertices, indices, max_relative_diagonal) is None <==> {
            &&& indices.len() % 3 == 0
            &&& max_relative_diagonal.is_finite()
            &&& value(max_relative_diagonal) > 0real
            &&& forall|k: int| 0 <= k < indices.len() ==> #[trigger] indices[k] < vertices.len()
        },
{
    if max_relative_diagonal.is_finite() {
        lemma_input_order(max_relative_diagonal);
    }
    if forall|k: int| 0 <= k < indices.len() ==> #[trigger] indices[k] < vertices.len() {
        lemma_first_outside(indices, vertices.len(), indices.len() as int);
    } else {
        let k = lemma_least_outside(indices, vertices.len());
        lemma_first_outside(indices, vertices.len(), k);
    }
}

/// Which error a mesh that is not accepted gives: first one for the number of
/// its indices, then one for the tolerance, then one for the first index that
/// names no vertex.
pub proof fn law_rejected_input(
    vertices: Seq<Vec3>,
    indices: Seq<u32>,
    max_relative_diagonal: Binary32,
    k: int,
)
    ensures
        input_error(vertices, indices, max_relative_diagonal) == Some(
            MeshToBoxesError::InvalidIndexCount,
        ) <==> indices.len() % 3 != 0,
        input_error(vertices, indices, max_relative_diagonal) == Some(
            MeshToBoxesError::NonPositiveTolerance,
        ) <==> indices.len() % 3 == 0 && !(max_relative_diagonal.is_finite() && value(
            max_relative_diagonal,
        ) > 0real),
        ({
            &&& indices.len() % 3 == 0
            &&& max_relative_diagonal.is_finite()
            &&& value(max_relative_diagonal) > 0real
            &&& 0 <= k < indices.len()
            &&& indices[k] >= vertices.len()
            &&& forall|j: int| 0 <= j < k ==> #[trigger] indices[j] < vertices.len()
        }) ==> input_error(vertices, indices, max_relative_diagonal) == Some(
            (MeshToBoxesError::IndexOutOfBounds {
                index: indices[k],
                vertex_count: vertices.len() as usize,
            }),
        ),
{
    if max_relative_diagonal.is_finite() {
        lemma_input_order(max_relative_diagonal);
    }
    if 0 <= k < indices.len() && indices[k] >= vertices.len() && forall|j: int|
        0 <= j < k ==> #[trigger] indices[j] < vertices.len() {
        lemma_first_outside(indices, vertices.len(), k);
    }
}

proof fn lemma_input_order(tolerance: Binary32)
    requires
        tolerance.is_finite(),
    ensures
        tolerance.le(Binary32::of(ZERO)) <==> value(tolerance) <= 0real,
{
    law_values_of_constants();
    law_order_of_values(tolerance, Binary32::of(ZERO));
}

proof fn lemma_least_outside(indices: Seq<u32>, vertex_count: nat) -> (k: int)
    requires
        exists|k: int| 0 <= k < indices.len() && !(#[trigger] indices[k] < vertex_count),
    ensures
        0 <= k < indices.len(),
        indices[k] >= vertex_count,
        forall|j: int| 0 <= j < k ==> #[trigger] indices[j] < vertex_count,
    decreases indices.len(),
{
    let shorter = indices.drop_last();
    assert(forall|j: int| 0 <= j < shorter.len() ==> shorter[j] == indices[j]);
    if exists|k: int| 0 <= k < shorter.len() && !(#[trigger] shorter[k] < vertex_count) {
        lemma_least_outside(shorter, vertex_count)
    } else {
        let k = choose|k: int| 0 <= k < indices.len() && !(#[trigger] indices[k] < vertex_count);
        assert(k < shorter.len() ==> shorter[k] == indices[k]);
        k
    }
}

/// A corner of a triangle, by its number.
pub open spec fn numbered_corner(t: Triangle, number: int) -> Vec3 {
    if number == 0 {
        t.a
    } else if number == 1 {
        t.b
    } else {
        t.c
    }
}

/// The corners of the triangles of a mesh are, one after the other, the
/// vertices that the indices name; none of the triangles has been cut.
pub proof fn law_corners_are_as_indexed(vertices: Seq<Vec3>, indices: Seq<u32>, k: int)
    requires
        indices.len() % 3 == 0,
        0 <= k < indices.len(),
    ensures
        3 * input_triangles(vertices, indices).len() == indices.len(),
        numbered_corner(input_triangles(vertices, indices)[k / 3], k % 3)
            == vertices[indices[k] as int],
        input_triangles(vertices, indices)[k / 3].halvings == 0,
{
}

/// Looks a vertex up.
fn vertex_at(vertices: &[Vec3], index: u32) -> (result: Result<Vec3, MeshToBoxesError>)
    ensures
        index < vertices@.len() ==> result == Ok::<Vec3, MeshToBoxesError>(
            vertices@[index as int],
        ),
        index >= vertices@.len() ==> result == Err::<Vec3, MeshToBoxesError>(
            MeshToBoxesError::IndexOutOfBounds { index, vertex_count: vertices@.len() as usize },
        ),
{
    let vertex_count = vertices.len();
    if (index as usize) < vertex_count {
        Ok(vertices[index as usize])
    } else {
        Err(MeshToBoxesError::IndexOutOfBounds { index, vertex_count })
    }
}

/// Checks the input of a conversion and gathers its triangles.
fn read_triangles(vertices: &[Vec3], indices: &[u32], max_relative_diagonal: Binary32) -> (result:
    Result<Vec<Triangle>, MeshToBoxesError>)
    ensures
        match input_error(vertices@, indices@, max_relative_diagonal) {
            Some(error) => result == Err::<Vec<Triangle>, MeshToBoxesError>(error),
            None => result matches Ok(triangles) && triangles@ == input_triangles(
                vertices@,
                indices@,
            ),
        },
{
    if !indices.len().is_multiple_of(3) {
        return Err(MeshToBoxesError::InvalidIndexCount);
    }
    if !max_relative_diagonal.is_finite() || max_relative_diagonal.le(Binary32::of(ZERO)) {
        return Err(MeshToBoxesError::NonPositiveTolerance);
    }
    let mut triangles: Vec<Triangle> = Vec::new();
    let mut at: usize = 0;
    while at < indices.len()
        invariant
            at <= indices@.len(),
            at % 3 == 0,
            indices@.len() % 3 == 0,
            at == 3 * triangles@.len(),
            max_relative_diagonal.is_finite(),
            !max_relative_diagonal.le(Binary32::of(ZERO)),
            forall|k: int| 0 <= k < at ==> #[trigger] indices@[k] < vertices@.len(),
            triangles@ =~= input_triangles(vertices@, indices@).take(triangles@.len() as int),
        decreases indices@.len() - at,
    {
        let a = match vertex_at(vertices, indices[at]) {
            Ok(vertex) => vertex,
            Err(error) => {
                proof {
                    lemma_first_outside(indices@, vertices@.len(), at as int);
                }
                return Err(error);
            },
        };
        let b = match vertex_at(vertices, indices[at + 1]) {
            Ok(vertex) => vertex,
            Err(error) => {
                proof {
                    lemma_first_outside(indices@, vertices@.len(), at + 1);
                }
                return Err(error);
            },
        };
        let c = match vertex_at(vertices, indices[at + 2]) {
            Ok(vertex) => vertex,
            Err(error) => {
                proof {
                    lemma_first_outside(indices@, vertices@.len(), at + 2);
                }
                return Err(error);
            },
        };
        triangles.push(Triangle { a, b, c, halvings: 0 });
        at = at + 3;
    }
    proof {
        lemma_first_outside(indices@, vertices@.len(), at as int);
    }
    Ok(triangles)
}

/// The state of a conversion.
///
/// All clusters ever made have their places in the order in which they were
/// made; a cluster that was taken has left its place empty.
#[verifier::ext_equal]
pub struct ConversionView {
    pub places: Seq<Option<ClusterView>>,
    pub finished: Seq<ClusterView>,
    pub limit: Binary32,
}

impl ConversionView {
    /// Whether a cluster waits at a place.
    pub open spec fn waits(self, i: int) -> bool {
        0 <= i < self.places.len() && self.places[i] is Some
    }

    /// How urgent the cluster at a place is.
    pub open spec fn rank(self, i: int) -> i64 {
        self.places[i]->0.surface_error.rank()
    }

    /// Whether no cluster waits any more.
    pub open spec fn done(self) -> bool {
        forall|i: int| !#[trigger] self.waits(i)
    }

    /// Whether the cluster at a place is the one to take: none that waits has
    /// a greater surface error, and of equal ones it was made first.
    pub open spec fn leads(self, i: int) -> bool {
        &&& self.waits(i)
        &&& forall|j: int|
            #[trigger] self.waits(j) && j != i ==> self.rank(i) > self.rank(j) || (self.rank(i)
                == self.rank(j) && i < j)
    }

    /// Whether one step leads from this state to another by way of the
    /// cluster at place `i`.
    pub open spec fn steps_by(self, i: int, next: ConversionView) -> bool {
        let cluster = self.places[i]->0;
        let emptied = self.places.update(i, None);
        &&& self.leads(i)
        &&& next.limit == self.limit
        &&& if cluster.surface_error.le(self.limit) {
            next.places == emptied && next.finished == self.finished.push(cluster)
        } else {
            exists|a: ClusterView, b: ClusterView|
                #[trigger] splits_into(cluster, a, b) && next.places == emptied.push(
                    Some(a),
                ).push(Some(b)) && next.finished == self.finished
        }
    }

    /// Whether one step leads from this state to another.
    pub open spec fn steps_to(self, next: ConversionView) -> bool {
        exists|i: int| self.steps_by(i, next)
    }

    /// The finished boxes in the order in which they were finished.
    pub open spec fn boxes(self) -> Seq<BoxTransform> {
        Seq::new(self.finished.len(), |i: int| self.finished[i].obb)
    }

    /// Whether a conversion ends within `steps` steps, however the triangles
    /// on either side of a split are ordered.
    pub open spec fn ends_within(self, steps: nat) -> bool
        decreases steps,
    {
        self.done() || (steps > 0 && forall|next: ConversionView| #[trigger]
            self.steps_to(next) ==> next.ends_within((steps - 1) as nat))
    }
}

/// The surface error that a box may have: a fraction of the diagonal of the
/// box around the whole mesh.
pub open spec fn error_limit(triangles: Seq<Triangle>, max_relative_diagonal: Binary32) -> Binary32 {
    fitted(triangles).obb.scale.length().times(max_relative_diagonal)
}

/// The surface error that a box may have is the fraction asked for of the
/// diagonal of the box around the whole mesh, but for one rounding. It is never
/// greater than the diagonal unless the fraction is above one.
pub proof fn law_error_limit_is_a_share_of_the_diagonal(
    triangles: Seq<Triangle>,
    max_relative_diagonal: Binary32,
)
    requires
        max_relative_diagonal.is_finite(),
        fitted(triangles).obb.scale.length().is_finite(),
    ensures
        start(triangles, max_relative_diagonal).limit.is_finite() ==> near(
            start(triangles, max_relative_diagonal).limit,
            value(fitted(triangles).obb.scale.length()) * value(max_relative_diagonal),
            part(
                size(value(fitted(triangles).obb.scale.length()) * value(max_relative_diagonal)),
            ) + unit() / 2real,
        ),
        size(value(fitted(triangles).obb.scale.length()) * value(max_relative_diagonal))
            <= large() ==> start(triangles, max_relative_diagonal).limit.is_finite(),
        0real <= value(max_relative_diagonal) <= 1real && value(
            fitted(triangles).obb.scale.length(),
        ) >= 0real ==> start(triangles, max_relative_diagonal).limit.is_finite() && value(
            start(triangles, max_relative_diagonal).limit,
        ) <= value(fitted(triangles).obb.scale.length()),
{
    let diagonal = fitted(triangles).obb.scale.length();
    if start(triangles, max_relative_diagonal).limit.is_finite() {
        law_value_of_finite_product(diagonal, max_relative_diagonal);
    }
    if size(value(diagonal) * value(max_relative_diagonal)) <= large() {
        law_value_of_product(diagonal, max_relative_diagonal);
    }
    if 0real <= value(max_relative_diagonal) <= 1real && value(diagonal) >= 0real {
        law_share_is_not_greater(diagonal, max_relative_diagonal);
    }
}

/// The diagonal is the length of the extents together: its square is the sum of
/// their squares, but for rounding.
pub proof fn law_diagonal_is_that_of_the_extents(triangles: Seq<Triangle>)
    requires
        ({
            let scale = fitted(triangles).obb.scale;
            &&& scale.x.is_finite() && scale.y.is_finite() && scale.z.is_finite()
            &&& exact_dot(scale, scale) <= large() / 4real
        }),
    ensures
        ({
            let scale = fitted(triangles).obb.scale;
            let diagonal = value(scale.length());
            let square = value(scale.x) * value(scale.x) + value(scale.y) * value(scale.y) + value(
                scale.z,
            ) * value(scale.z);
            &&& scale.length().is_finite()
            &&& diagonal >= 0real
            &&& size(diagonal * diagonal - square) <= 9real * part(square) + 8real * unit()
        }),
{
    law_value_of_length(fitted(triangles).obb.scale);
}

/// The state in which a conversion starts.
pub open spec fn start(
    triangles: Seq<Triangle>,
    max_relative_diagonal: Binary32,
) -> ConversionView {
    ConversionView {
        places: if triangles.len() == 0 {
            seq![]
        } else {
            seq![Some(fitted(triangles))]
        },
        finished: seq![],
        limit: error_limit(triangles, max_relative_diagonal),
    }
}

/// Whether a number of steps may lead from one state to another.
pub open spec fn leads_to(from: ConversionView, to: ConversionView, steps: nat) -> bool
    decreases steps,
{
    if steps == 0 {
        to == from
    } else {
        exists|before: ConversionView| #[trigger]
            before.steps_to(to) && leads_to(from, before, (steps - 1) as nat)
    }
}

/// Whether a conversion may end with the given boxes.
pub open spec fn may_give(from: ConversionView, boxes: Seq<BoxTransform>) -> bool {
    exists|end: ConversionView, steps: nat| #[trigger]
        leads_to(from, end, steps) && end.done() && end.boxes() == boxes
}

/// Whether a conversion may end with the given boxes in no more than so many
/// steps.
pub open spec fn may_give_within(
    from: ConversionView,
    boxes: Seq<BoxTransform>,
    max_steps: nat,
) -> bool {
    exists|end: ConversionView, steps: nat| #[trigger]
        leads_to(from, end, steps) && steps <= max_steps && end.done() && end.boxes() == boxes
}

/// Whether a conversion may still be under way after so many steps.
pub open spec fn may_outlast(from: ConversionView, steps: nat) -> bool {
    exists|state: ConversionView| #[trigger] leads_to(from, state, steps) && !state.done()
}

/// What a step of a conversion did.
#[derive(Clone, Copy, Debug, PartialEq, Eq, Structural)]
pub enum Step {
    /// A box was close enough and is finished.
    Finished,
    /// A box was too far off and was split in two.
    Split,
    /// No box was waiting any more.
    Done,
}

/// A conversion under way.
pub struct Conversion {
    queue: Queue,
    places: Vec<Option<Cluster>>,
    finished: Vec<Cluster>,
    limit: Binary32,
}

spec fn place_view(place: Option<Cluster>) -> Option<ClusterView> {
    match place {
        Some(cluster) => Some(cluster@),
        None => None,
    }
}

impl View for Conversion {
    type V = ConversionView;

    closed spec fn view(&self) -> ConversionView {
        ConversionView {
            places: self.places@.map_values(|place: Option<Cluster>| place_view(place)),
            finished: self.finished@.map_values(|cluster: Cluster| cluster@),
            limit: self.limit,
        }
    }
}

/// Whether an entry is the one for the cluster that waits at its place.
spec fn is_entry(state: ConversionView, entry: Entry) -> bool {
    state.waits(entry.sequence as int) && entry.rank == state.rank(entry.sequence as int)
}

/// Whether the queue holds exactly the entries of the clusters that wait.
spec fn matched(entries: Set<Entry>, state: ConversionView) -> bool {
    &&& state.places.len() <= usize::MAX
    &&& forall|entry: Entry| #[trigger] entries.contains(entry) <==> is_entry(state, entry)
}

/// Whether the triangles of every cluster that waits can be counted and are
/// not none.
spec fn countable(state: ConversionView) -> bool {
    forall|i: int| #[trigger]
        state.waits(i) ==> 0 < state.places[i]->0.triangles.len() && state.places[i]->0.triangles.len()
            * 3 <= usize::MAX
}

impl Conversion {
    /// Whether the queue and the clusters that wait belong together.
    pub closed spec fn wf(&self) -> bool {
        &&& self.queue.wf()
        &&& matched(self.queue@, self@)
        &&& countable(self@)
    }

    /// Checks the input and puts one box around the whole mesh.
    pub fn new(vertices: &[Vec3], indices: &[u32], max_relative_diagonal: Binary32) -> (result:
        Result<Conversion, MeshToBoxesError>)
        ensures
            match input_error(vertices@, indices@, max_relative_diagonal) {
                Some(error) => result == Err::<Conversion, MeshToBoxesError>(error),
                None => result matches Ok(conversion) && conversion.wf() && conversion@ == start(
                    input_triangles(vertices@, indices@),
                    max_relative_diagonal,
                ),
            },
    {
        let triangles = match read_triangles(vertices, indices, max_relative_diagonal) {
            Ok(triangles) => triangles,
            Err(error) => {
                return Err(error);
            },
        };
        let count = triangles.len();
        assert(count * 3 <= indices.len());
        let root = make_cluster(triangles);
        let limit = root.obb.scale.length().times(max_relative_diagonal);
        let mut queue = Queue::new();
        let mut places: Vec<Option<Cluster>> = Vec::new();
        let finished: Vec<Cluster> = Vec::new();
        if count > 0 {
            queue.push(Entry { rank: root.surface_error.rank(), sequence: 0 });
            places.push(Some(root));
        }
        let result = Conversion { queue, places, finished, limit };
        proof {
            let state = start(input_triangles(vertices@, indices@), max_relative_diagonal);
            assert(result@.places =~= state.places);
            assert(result@.finished =~= state.finished);
            assert(result@ == state);
            assert forall|entry: Entry| #[trigger]
                result.queue@.contains(entry) == is_entry(state, entry) by {
                if count > 0 && entry.sequence == 0 {
                    assert(state.waits(0));
                }
            }
        }
        Ok(result)
    }

    /// Whether every box is finished.
    pub fn is_done(&self) -> (result: bool)
        requires
            self.wf(),
        ensures
            result == self@.done(),
    {
        proof {
            lemma_done(self.queue@, self@);
        }
        self.queue.is_empty()
    }

    /// Takes the most urgent box, and finishes or splits it.
    pub fn step(&mut self) -> (result: Step)
        requires
            old(self).wf(),
        ensures
            final(self).wf(),
            result == Step::Done <==> old(self)@.done(),
            result == Step::Done ==> final(self)@ == old(self)@,
            result != Step::Done ==> old(self)@.steps_to(final(self)@),
            result == Step::Finished ==> final(self)@.finished.len() == old(self)@.finished.len()
                + 1,
            result == Step::Split ==> final(self)@.finished == old(self)@.finished,
    {
        let ghost before = self@;
        let ghost entries = self.queue@;
        proof {
            lemma_done(entries, before);
        }
        let entry = match self.queue.pop() {
            Some(entry) => entry,
            None => {
                return Step::Done;
            },
        };
        let place = entry.sequence;
        let ghost i = place as int;
        proof {
            lemma_leader(entries, before, entry);
            assert(before.waits(i));
        }
        let mut taken: Option<Cluster> = None;
        std::mem::swap(&mut self.places[place], &mut taken);
        let cluster = match taken {
            Some(cluster) => cluster,
            None => {
                return Step::Done;
            },
        };
        let ghost emptied = ConversionView { places: before.places.update(i, None), ..before };
        proof {
            assert(self@.places =~= emptied.places);
            assert(self@ =~= emptied);
            assert(before.places[i] == Some(cluster@));
            lemma_taken(entries, before, entry);
        }
        if cluster.surface_error.le(self.limit) {
            let ghost boxed = cluster@;
            self.finished.push(cluster);
            proof {
                assert(self@.places =~= emptied.places);
                assert(self@.finished =~= before.finished.push(boxed));
                lemma_same_places(self.queue@, emptied, self@);
                assert(before.steps_by(i, self@));
            }
            Step::Finished
        } else {
            let ghost whole = cluster@;
            let (a, b) = split_cluster(cluster);
            let ghost (va, vb) = (a@, b@);
            let first = self.places.len();
            let ghost one = ConversionView { places: emptied.places.push(Some(va)), ..emptied };
            let ghost two = ConversionView { places: one.places.push(Some(vb)), ..emptied };
            proof {
                lemma_halves_are_countable(whole, va, vb);
                lemma_new_entry(self.queue@, emptied, va);
            }
            self.queue.push(Entry { rank: a.surface_error.rank(), sequence: first });
            self.places.push(Some(a));
            proof {
                assert(self.places.len() <= usize::MAX);
                lemma_new_entry(self.queue@, one, vb);
            }
            let second = self.places.len();
            self.queue.push(Entry { rank: b.surface_error.rank(), sequence: second });
            self.places.push(Some(b));
            proof {
                assert(self.places.len() <= usize::MAX);
                assert(self@.places =~= two.places);
                assert(self@.finished =~= before.finished);
                assert(self@ =~= two);
                assert(splits_into(whole, va, vb));
                assert(before.steps_by(i, self@));
            }
            Step::Split
        }
    }

    /// The boxes that are finished, in the order in which they were.
    pub fn boxes(&self) -> (result: Vec<BoxTransform>)
        ensures
            result@ == self@.boxes(),
    {
        let mut boxes: Vec<BoxTransform> = Vec::new();
        let mut i: usize = 0;
        while i < self.finished.len()
            invariant
                i <= self.finished.len(),
                boxes@ =~= self@.boxes().take(i as int),
            decreases self.finished.len() - i,
        {
            boxes.push(self.finished[i].obb);
            i = i + 1;
        }
        boxes
    }

    /// The cluster that was finished last.
    pub fn last_finished(&self) -> (result: Option<&Cluster>)
        ensures
            result is None <==> self@.finished.len() == 0,
            result matches Some(cluster) ==> cluster@ == self@.finished.last(),
    {
        let count = self.finished.len();
        if count == 0 {
            None
        } else {
            Some(&self.finished[count - 1])
        }
    }
}

/// The queue is empty exactly when no cluster waits.
proof fn lemma_done(entries: Set<Entry>, state: ConversionView)
    requires
        matched(entries, state),
    ensures
        entries == Set::<Entry>::empty() <==> state.done(),
{
    if entries == Set::<Entry>::empty() {
        assert forall|i: int| !#[trigger] state.waits(i) by {
            if state.waits(i) {
                let entry = Entry { rank: state.rank(i), sequence: i as usize };
                assert(is_entry(state, entry));
                assert(entries.contains(entry));
            }
        }
    } else if state.done() {
        assert forall|entry: Entry| !entries.contains(entry) by {
            if entries.contains(entry) {
                assert(state.waits(entry.sequence as int));
            }
        }
        assert(entries =~= Set::<Entry>::empty());
    }
}

/// The entry that precedes all others belongs to the cluster to take.
proof fn lemma_leader(entries: Set<Entry>, state: ConversionView, entry: Entry)
    requires
        matched(entries, state),
        entries.contains(entry),
        forall|e: Entry| entries.contains(e) && e != entry ==> entry.precedes(e),
    ensures
        state.leads(entry.sequence as int),
{
    let i = entry.sequence as int;
    assert(is_entry(state, entry));
    assert forall|j: int| #[trigger] state.waits(j) && j != i implies state.rank(i) > state.rank(j)
        || (state.rank(i) == state.rank(j) && i < j) by {
        let other = Entry { rank: state.rank(j), sequence: j as usize };
        assert(is_entry(state, other));
        assert(entries.contains(other));
    }
}

/// Taking a cluster out of its place and its entry out of the queue.
proof fn lemma_taken(entries: Set<Entry>, state: ConversionView, entry: Entry)
    requires
        matched(entries, state),
        countable(state),
        entries.contains(entry),
    ensures
        ({
            let emptied = ConversionView {
                places: state.places.update(entry.sequence as int, None),
                ..state
            };
            matched(entries.remove(entry), emptied) && countable(emptied)
        }),
{
    let emptied = ConversionView {
        places: state.places.update(entry.sequence as int, None),
        ..state
    };
    assert(is_entry(state, entry));
    assert forall|e: Entry| #[trigger] entries.remove(entry).contains(e) == is_entry(
        emptied,
        e,
    ) by {
        assert(entries.contains(e) == is_entry(state, e));
    }
    assert forall|i: int| #[trigger] emptied.waits(i) implies 0
        < emptied.places[i]->0.triangles.len() && emptied.places[i]->0.triangles.len() * 3
        <= usize::MAX by {
        assert(state.waits(i));
    }
}

/// Adding a cluster at the end and its entry to the queue.
proof fn lemma_new_entry(entries: Set<Entry>, state: ConversionView, cluster: ClusterView)
    requires
        matched(entries, state),
        countable(state),
        0 < cluster.triangles.len(),
        cluster.triangles.len() * 3 <= usize::MAX,
    ensures
        ({
            let entry = Entry {
                rank: cluster.surface_error.rank(),
                sequence: state.places.len() as usize,
            };
            let longer = ConversionView { places: state.places.push(Some(cluster)), ..state };
            &&& !entries.contains(entry)
            &&& state.places.len() < usize::MAX ==> matched(entries.insert(entry), longer)
            &&& countable(longer)
        }),
{
    let entry = Entry {
        rank: cluster.surface_error.rank(),
        sequence: state.places.len() as usize,
    };
    let longer = ConversionView { places: state.places.push(Some(cluster)), ..state };
    assert(!is_entry(state, entry));
    if state.places.len() < usize::MAX {
        assert forall|e: Entry| #[trigger] entries.insert(entry).contains(e) == is_entry(
            longer,
            e,
        ) by {
            assert(entries.contains(e) == is_entry(state, e));
        }
    }
    assert forall|i: int| #[trigger] longer.waits(i) implies 0 < longer.places[i]->0.triangles.len()
        && longer.places[i]->0.triangles.len() * 3 <= usize::MAX by {
        if i < state.places.len() {
            assert(state.waits(i));
        }
    }
}

/// The queue depends on the places alone.
proof fn lemma_same_places(entries: Set<Entry>, a: ConversionView, b: ConversionView)
    requires
        matched(entries, a),
        countable(a),
        a.places == b.places,
    ensures
        matched(entries, b),
        countable(b),
{
    assert forall|e: Entry| #[trigger] entries.contains(e) == is_entry(b, e) by {
        assert(is_entry(a, e) == is_entry(b, e));
    }
    assert forall|i: int| #[trigger] b.waits(i) implies 0 < b.places[i]->0.triangles.len()
        && b.places[i]->0.triangles.len() * 3 <= usize::MAX by {
        assert(a.waits(i));
    }
}

/// Neither part of a split cluster is empty or larger than a cluster may be.
proof fn lemma_halves_are_countable(cluster: ClusterView, a: ClusterView, b: ClusterView)
    requires
        splits_into(cluster, a, b),
        0 < cluster.triangles.len(),
        cluster.triangles.len() * 3 <= usize::MAX,
    ensures
        0 < a.triangles.len(),
        a.triangles.len() * 3 <= usize::MAX,
        0 < b.triangles.len(),
        b.triangles.len() * 3 <= usize::MAX,
{
}

/// Converts a mesh into boxes.
///
/// `vertices` are the corners that `indices` name, three to a triangle. A box
/// is refined until its surface is nowhere farther from the mesh than
/// `max_relative_diagonal` times the diagonal of the box around all of it.
/// A mesh on which the refinement does not end, such as one whose coordinates
/// are too coarse for the tolerance, is left out by the precondition;
/// [`mesh_to_boxes_within`] and [`Conversion`] take any mesh.
pub fn mesh_to_boxes(vertices: &[Vec3], indices: &[u32], max_relative_diagonal: Binary32) -> (result:
    Result<Vec<BoxTransform>, MeshToBoxesError>)
    requires
        input_error(vertices@, indices@, max_relative_diagonal) is None ==> exists|steps: nat|
            start(
                input_triangles(vertices@, indices@),
                max_relative_diagonal,
            ).ends_within(steps),
    ensures
        match input_error(vertices@, indices@, max_relative_diagonal) {
            Some(error) => result == Err::<Vec<BoxTransform>, MeshToBoxesError>(error),
            None => result matches Ok(boxes) && may_give(
                start(input_triangles(vertices@, indices@), max_relative_diagonal),
                boxes@,
            ),
        },
{
    let mut conversion = match Conversion::new(vertices, indices, max_relative_diagonal) {
        Ok(conversion) => conversion,
        Err(error) => {
            return Err(error);
        },
    };
    let ghost begin = conversion@;
    let ghost mut left: nat = choose|steps: nat| begin.ends_within(steps);
    let ghost mut taken: nat = 0;
    while !conversion.is_done()
        invariant
            conversion.wf(),
            conversion@.ends_within(left),
            leads_to(begin, conversion@, taken),
        decreases left,
    {
        let ghost before = conversion@;
        let _ = conversion.step();
        proof {
            assert(before.steps_to(conversion@));
            left = (left - 1) as nat;
            taken = taken + 1;
        }
    }
    let boxes = conversion.boxes();
    proof {
        assert(leads_to(begin, conversion@, taken) && conversion@.done());
        assert(may_give(begin, boxes@));
    }
    Ok(boxes)
}

/// Converts a mesh into boxes, as [`mesh_to_boxes`] does, but gives up after
/// `max_steps` boxes have been finished or split.
pub fn mesh_to_boxes_within(
    vertices: &[Vec3],
    indices: &[u32],
    max_relative_diagonal: Binary32,
    max_steps: u64,
) -> (result: Result<Option<Vec<BoxTransform>>, MeshToBoxesError>)
    ensures
        match input_error(vertices@, indices@, max_relative_diagonal) {
            Some(error) => result == Err::<Option<Vec<BoxTransform>>, MeshToBoxesError>(error),
            None => {
                let begin = start(input_triangles(vertices@, indices@), max_relative_diagonal);
                match result {
                    Ok(Some(boxes)) => may_give_within(begin, boxes@, max_steps as nat),
                    Ok(None) => may_outlast(begin, max_steps as nat),
                    Err(_) => false,
                }
            },
        },
{
    let mut conversion = match Conversion::new(vertices, indices, max_relative_diagonal) {
        Ok(conversion) => conversion,
        Err(error) => {
            return Err(error);
        },
    };
    let ghost begin = conversion@;
    let mut taken: u64 = 0;
    while !conversion.is_done()
        invariant
            conversion.wf(),
            taken <= max_steps,
            input_error(vertices@, indices@, max_relative_diagonal) is None,
            begin == start(input_triangles(vertices@, indices@), max_relative_diagonal),
            leads_to(begin, conversion@, taken as nat),
        decreases max_steps - taken,
    {
        if taken == max_steps {
            assert(may_outlast(begin, max_steps as nat));
            return Ok(None);
        }
        let ghost before = conversion@;
        let _ = conversion.step();
        taken = taken + 1;
        proof {
            assert(before.steps_to(conversion@));
            assert(leads_to(begin, before, (taken - 1) as nat));
        }
    }
    let boxes = conversion.boxes();
    proof {
        assert(leads_to(begin, conversion@, taken as nat) && conversion@.done());
        assert(may_give_within(begin, boxes@, max_steps as nat));
    }
    Ok(Some(boxes))
}

} // verus!
