use crate::collidable::CollidableShape;
use crate::laws::{lemma_insert_adds_once, lemma_insert_keeps_shape};
use vstd::prelude::*;

verus! {

/// A node of the index. A node has no children or four of them; `items` are
/// the handles of the shapes that fit into none of the children.
pub struct Quadtree {
    pub quads: Vec<Quadtree>,
    pub items: Vec<usize>,
}

/// Which of four children a shape goes to: the first that holds it.
pub open spec fn first_fit(fits: [bool; 4]) -> Option<int> {
    if fits[0] {
        Some(0int)
    } else if fits[1] {
        Some(1int)
    } else if fits[2] {
        Some(2int)
    } else if fits[3] {
        Some(3int)
    } else {
        None
    }
}

/// What was measured of a pair of shapes, as keys.
#[derive(Copy, Clone, Debug, PartialEq, Eq, Structural)]
pub enum Measure {
    /// Of two circles: the distance between the centres and the sum of the
    /// radii.
    Circles { distance: i64, reach: i64 },
    /// Of a polygon and a circle: the distance from the circle's centre to
    /// the polygon's nearest edge, the radius, that edge, and whether the
    /// centre lies inside the polygon.
    PolygonCircle { distance: i64, radius: i64, face: usize, inside: bool },
    /// Of two polygons: for the first, the greatest signed distance at which
    /// the second lies off one of its edges, and that edge; and the same for
    /// the second against the first.
    Polygons { depth_a: i64, face_a: usize, depth_b: i64, face_b: usize },
}

/// A detected contact: the shape whose edge is struck, the other shape, and
/// the edge. Between two circles the edge is 0 and means nothing.
#[derive(Copy, Clone, Debug, PartialEq, Eq, Structural)]
pub struct Collision {
    pub reference: usize,
    pub other: usize,
    pub face: usize,
}

/// What the narrow phase reports of the shapes `a` and `b`, of kinds
/// `a_shape` and `b_shape`.
///
/// Two circles touch where their centres are closer than their radii reach
/// together. A circle touches a polygon where it reaches the nearest edge or
/// its centre lies inside; the polygon is the reference whichever came
/// first. Two polygons touch where each lies behind every edge of the other
/// (both depths negative); the reference is the one with the shallower
/// overlap, the first where they are equal. A measure that is not of this
/// pair of kinds shows nothing.
pub open spec fn collision_of(
    a: usize,
    a_shape: CollidableShape,
    b: usize,
    b_shape: CollidableShape,
    measure: Measure,
) -> Option<Collision> {
    match (a_shape, b_shape, measure) {
        (CollidableShape::Circle, CollidableShape::Circle, Measure::Circles { distance, reach }) => {
            if distance < reach {
                Some(Collision { reference: a, other: b, face: 0 })
            } else {
                None
            }
        },
        (
            CollidableShape::Circle,
            CollidableShape::Polygon,
            Measure::PolygonCircle { distance, radius, face, inside },
        ) => {
            if distance <= radius || inside {
                Some(Collision { reference: b, other: a, face })
            } else {
                None
            }
        },
        (
            CollidableShape::Polygon,
            CollidableShape::Circle,
            Measure::PolygonCircle { distance, radius, face, inside },
        ) => {
            if distance <= radius || inside {
                Some(Collision { reference: a, other: b, face })
            } else {
                None
            }
        },
        (
            CollidableShape::Polygon,
            CollidableShape::Polygon,
            Measure::Polygons { depth_a, face_a, depth_b, face_b },
        ) => {
            if depth_a < 0 && depth_b < 0 {
                if depth_a >= depth_b {
                    Some(Collision { reference: a, other: b, face: face_a })
                } else {
                    Some(Collision { reference: b, other: a, face: face_b })
                }
            } else {
                None
            }
        },
        _ => None,
    }
}

/// The measure of the same pair taken in the other order.
pub open spec fn mirrored(measure: Measure) -> Measure {
    match measure {
        Measure::Polygons { depth_a, face_a, depth_b, face_b } => Measure::Polygons {
            depth_a: depth_b,
            face_a: face_b,
            depth_b: depth_a,
            face_b: face_a,
        },
        m => m,
    }
}

/// Tests one pair and appends the contact to `collisions` where there is
/// one; `collisions` is otherwise left as it was.
pub fn possible_collision_between(
    a: usize,
    a_shape: CollidableShape,
    b: usize,
    b_shape: CollidableShape,
    measure: &Measure,
    collisions: &mut Vec<Collision>,
)
    ensures
        final(collisions)@ == (match collision_of(a, a_shape, b, b_shape, *measure) {
            Some(c) => old(collisions)@.push(c),
            None => old(collisions)@,
        }),
{
    match (a_shape, b_shape, measure) {
        (CollidableShape::Circle, CollidableShape::Circle, Measure::Circles { distance, reach }) => {
            if *distance < *reach {
                collisions.push(Collision { reference: a, other: b, face: 0 });
            }
        },
        (
            CollidableShape::Circle,
            CollidableShape::Polygon,
            Measure::PolygonCircle { distance, radius, face, inside },
        ) => {
            if *distance <= *radius || *inside {
                collisions.push(Collision { reference: b, other: a, face: *face });
            }
        },
        (
            CollidableShape::Polygon,
            CollidableShape::Circle,
            Measure::PolygonCircle { distance, radius, face, inside },
        ) => {
            if *distance <= *radius || *inside {
                collisions.push(Collision { reference: a, other: b, face: *face });
            }
        },
        (
            CollidableShape::Polygon,
            CollidableShape::Polygon,
            Measure::Polygons { depth_a, face_a, depth_b, face_b },
        ) => {
            if *depth_a < 0 && *depth_b < 0 {
                if *depth_a >= *depth_b {
                    collisions.push(Collision { reference: a, other: b, face: *face_a });
                } else {
                    collisions.push(Collision { reference: b, other: a, face: *face_b });
                }
            }
        },
        _ => {},
    }
}

/// The narrow phase does not depend on the order in which a pair is handed
/// to it. Either way it finds a contact or none. Between a polygon and a
/// circle, and between two polygons of unequal depth, both orders give the
/// same record; between two circles, and between two polygons of equal
/// depth, each order names its own first shape as the reference.
pub proof fn lemma_pair_symmetry(
    a: usize,
    a_shape: CollidableShape,
    b: usize,
    b_shape: CollidableShape,
    measure: Measure,
)
    ensures
        collision_of(a, a_shape, b, b_shape, measure) is Some <==> collision_of(
            b,
            b_shape,
            a,
            a_shape,
            mirrored(measure),
        ) is Some,
        collision_of(a, a_shape, b, b_shape, measure) is Some ==> ({
            let ab = collision_of(a, a_shape, b, b_shape, measure)->0;
            let ba = collision_of(b, b_shape, a, a_shape, mirrored(measure))->0;
            match measure {
                Measure::Circles { .. } => ab.reference == a && ab.other == b && ba.reference == b
                    && ba.other == a && ab.face == 0 && ba.face == 0,
                Measure::PolygonCircle { .. } => ab == ba,
                Measure::Polygons { depth_a, face_a, depth_b, face_b } => if depth_a == depth_b {
                    ab == (Collision { reference: a, other: b, face: face_a }) && ba == (Collision {
                        reference: b,
                        other: a,
                        face: face_b,
                    })
                } else {
                    ab == ba
                },
            }
        }),
{
}

/// Whether a child holds a circle whole: the centre lies in the child's
/// quad, and the quad's boundary is further from the centre than the radius
/// reaches. `distance` and `radius` are keys.
pub fn child_holds_circle(centre_inside: bool, distance: i64, radius: i64) -> (holds: bool)
    ensures
        holds == (centre_inside && distance > radius),
{
    centre_inside && distance > radius
}

/// The first of four children that holds a shape, where `fits` says of each
/// whether it does.
pub fn fitting_child(fits: &[bool; 4]) -> (child: Option<usize>)
    ensures
        first_fit(*fits) == (match child {
            Some(i) => Some(i as int),
            None => None,
        }),
        child is Some ==> child->0 < 4,
{
    if fits[0] {
        Some(0)
    } else if fits[1] {
        Some(1)
    } else if fits[2] {
        Some(2)
    } else if fits[3] {
        Some(3)
    } else {
        None
    }
}

/// `q` paired with every handle of `ks`, in order.
pub open spec fn row(q: usize, ks: Seq<usize>) -> Seq<(usize, usize)> {
    Seq::new(ks.len(), |i: int| (q, ks[i]))
}

/// Each handle of `qs` paired with each of `ks`: the handles of `qs` in
/// order, and for each of them those of `ks` in order.
pub open spec fn cross(qs: Seq<usize>, ks: Seq<usize>) -> Seq<(usize, usize)>
    decreases qs.len(),
{
    if qs.len() == 0 {
        Seq::empty()
    } else {
        cross(qs.drop_last(), ks) + row(qs.last(), ks)
    }
}

/// The pairs among the first `n` handles of `items` and those behind them:
/// each of the first `n` in order, paired with every later handle in order.
pub open spec fn pairs_within(items: Seq<usize>, n: nat) -> Seq<(usize, usize)>
    decreases n,
{
    if n == 0 || n > items.len() {
        Seq::empty()
    } else {
        pairs_within(items, (n - 1) as nat) + row(items[n - 1], items.skip(n as int))
    }
}

impl Quadtree {
    /// Every node below and including this one has no children or four.
    pub open spec fn wf(self) -> bool
        decreases self,
    {
        &&& self.quads@.len() == 0 || self.quads@.len() == 4
        &&& forall|i: int| 0 <= i < self.quads@.len() ==> (#[trigger] self.quads@[i]).wf()
    }

    /// The tree is subdivided everywhere to exactly `depth` levels.
    pub open spec fn complete(self, depth: nat) -> bool
        decreases depth,
    {
        if depth == 0 {
            self.quads@.len() == 0
        } else {
            &&& self.quads@.len() == 4
            &&& forall|i: int| 0 <= i < 4 ==> (#[trigger] self.quads@[i]).complete((depth - 1) as nat)
        }
    }

    /// No node below and including this one holds a handle.
    pub open spec fn vacant(self) -> bool
        decreases self,
    {
        &&& self.items@.len() == 0
        &&& forall|i: int| 0 <= i < self.quads@.len() ==> (#[trigger] self.quads@[i]).vacant()
    }

    /// The handles held in the first `n` children's subtrees, child by child.
    pub open spec fn items_below(self, n: nat) -> Seq<usize>
        decreases self, n,
    {
        if n == 0 || n > self.quads@.len() {
            Seq::empty()
        } else {
            self.items_below((n - 1) as nat) + self.quads@[n - 1].all_items()
        }
    }

    /// The handles held in this subtree: those of the children's subtrees,
    /// child by child, then the node's own.
    pub open spec fn all_items(self) -> Seq<usize>
        decreases self, self.quads@.len() + 1,
    {
        self.items_below(self.quads@.len()) + self.items@
    }

    /// The pairs that the traversal hands out for the first `n` children:
    /// for each child, the pairs of its own subtree, then each handle of that
    /// subtree against each of this node's own.
    pub open spec fn candidates_below(self, n: nat) -> Seq<(usize, usize)>
        decreases self, n,
    {
        if n == 0 || n > self.quads@.len() {
            Seq::empty()
        } else {
            self.candidates_below((n - 1) as nat) + self.quads@[n - 1].candidates() + cross(
                self.quads@[n - 1].all_items(),
                self.items@,
            )
        }
    }

    /// The pairs that the traversal hands out for this subtree, in order:
    /// what the children give, then the pairs among the node's own handles.
    pub open spec fn candidates(self) -> Seq<(usize, usize)>
        decreases self, self.quads@.len() + 1,
    {
        self.candidates_below(self.quads@.len()) + pairs_within(self.items@, self.items@.len())
    }

    /// The handles `x` and `y` lie apart: no node below and including this
    /// one holds one of them while it holds the other or has it below.
    pub open spec fn apart(self, x: usize, y: usize) -> bool
        decreases self,
    {
        &&& !(self.items@.contains(x) && self.all_items().contains(y))
        &&& !(self.items@.contains(y) && self.all_items().contains(x))
        &&& forall|c: int| 0 <= c < self.quads@.len() ==> (#[trigger] self.quads@[c]).apart(x, y)
    }

    /// The child that an insertion goes down to from this node at `level`:
    /// the first that fits, where the node has children and `fits` reaches
    /// this deep.
    pub open spec fn descent(self, fits: Seq<[bool; 4]>, level: int) -> Option<int> {
        if self.quads@.len() == 4 && 0 <= level < fits.len() {
            first_fit(fits[level])
        } else {
            None
        }
    }

    /// `post` is `self` after the insertion of `item`, where `fits[k]` says
    /// for the node reached at level `k` which of its children hold the shape:
    /// the path goes to the first child that fits as long as there is one, the
    /// handle is appended to the node where the path ends, and nothing else
    /// changes.
    pub open spec fn inserted(self, post: Quadtree, item: usize, fits: Seq<[bool; 4]>, level: int) -> bool
        decreases self,
    {
        match self.descent(fits, level) {
            Some(i) => {
                &&& post.items@ == self.items@
                &&& post.quads@.len() == 4
                &&& forall|j: int| 0 <= j < 4 && j != i ==> post.quads@[j] == self.quads@[j]
                &&& self.quads@[i].inserted(post.quads@[i], item, fits, level + 1)
            },
            None => {
                &&& post.items@ == self.items@.push(item)
                &&& post.quads@ == self.quads@
            },
        }
    }

    /// A tree subdivided to `depth` levels everywhere, holding nothing.
    pub fn new(depth: usize) -> (tree: Quadtree)
        ensures
            tree.complete(depth as nat),
            tree.wf(),
            tree.vacant(),
            tree.all_items() == Seq::<usize>::empty(),
            tree.candidates() == Seq::<(usize, usize)>::empty(),
        decreases depth,
    {
        let mut quads: Vec<Quadtree> = Vec::new();
        if depth > 0 {
            let mut i: usize = 0;
            while i < 4
                invariant
                    depth > 0,
                    i <= 4,
                    quads@.len() == i,
                    forall|j: int| 0 <= j < i ==> (#[trigger] quads@[j]).complete((depth - 1) as nat),
                    forall|j: int| 0 <= j < i ==> (#[trigger] quads@[j]).wf(),
                    forall|j: int| 0 <= j < i ==> (#[trigger] quads@[j]).vacant(),
                    forall|j: int| 0 <= j < i ==> (#[trigger] quads@[j]).all_items() == Seq::<usize>::empty(),
                    forall|j: int| 0 <= j < i ==> (#[trigger] quads@[j]).candidates() == Seq::<(usize, usize)>::empty(),
                decreases 4 - i,
            {
                let child = Quadtree::new(depth - 1);
                quads.push(child);
                i += 1;
            }
        }
        let tree = Quadtree { quads, items: Vec::new() };
        proof {
            tree.lemma_empty(tree.quads@.len());
        }
        tree
    }

    /// Places `item` in the deepest node that holds its shape whole.
    /// `fits[k]` says, for the node that the path reaches at level `k`, which
    /// of its four children hold the shape; the path takes the first of them.
    /// Where none does, where the node is a leaf, or where `fits` ends, the
    /// handle is appended to the node reached.
    pub fn insert(&mut self, item: usize, fits: &Vec<[bool; 4]>)
        ensures
            old(self).inserted(*final(self), item, fits@, 0),
            old(self).wf() ==> final(self).wf(),
            forall|depth: nat| old(self).complete(depth) ==> final(self).complete(depth),
            final(self).all_items().to_multiset() == old(self).all_items().to_multiset().insert(item),
    {
        self.insert_from(item, fits, 0);
        proof {
            assert forall|depth: nat| old(self).complete(depth) implies self.complete(depth) by {
                lemma_insert_keeps_shape(*old(self), *self, item, fits@, 0, depth);
            }
            lemma_insert_keeps_shape(*old(self), *self, item, fits@, 0, 0);
            lemma_insert_adds_once(*old(self), *self, item, fits@, 0);
        }
    }

    /// `insert` for a node that the path has reached at `level`.
    pub fn insert_from(&mut self, item: usize, fits: &Vec<[bool; 4]>, level: usize)
        ensures
            old(self).inserted(*final(self), item, fits@, level as int),
        decreases *old(self),
    {
        if self.quads.len() == 4 && level < fits.len() {
            let next: usize = level + 1;
            match fitting_child(&fits[level]) {
                Some(i) => {
                    self.quads[i].insert_from(item, fits, next);
                    return ;
                },
                None => {},
            }
        }
        self.items.push(item);
    }

    /// Walks the subtree and appends to `collisions` every pair of handles
    /// that has to be tested, in the order of the tests: for each child, the
    /// pairs of its own subtree and then each handle of that subtree against
    /// each handle of this node; at last each pair of this node's own
    /// handles once. Returns the handles of the subtree.
    pub fn check_collisions(&self, collisions: &mut Vec<(usize, usize)>) -> (all_items: Vec<usize>)
        ensures
            final(collisions)@ == old(collisions)@ + self.candidates(),
            all_items@ == self.all_items(),
        decreases self,
    {
        let ghost start = collisions@;
        let mut all_items: Vec<usize> = Vec::new();
        let mut i: usize = 0;
        while i < self.quads.len()
            invariant
                i <= self.quads@.len(),
                all_items@ == self.items_below(i as nat),
                collisions@ == start + self.candidates_below(i as nat),
            decreases self.quads@.len() - i,
        {
            let quad_items = self.quads[i].check_collisions(collisions);
            let ghost base = collisions@;
            let mut j: usize = 0;
            while j < quad_items.len()
                invariant
                    j <= quad_items@.len(),
                    all_items@ == self.items_below(i as nat) + quad_items@.take(j as int),
                    collisions@ == base + cross(quad_items@.take(j as int), self.items@),
                decreases quad_items@.len() - j,
            {
                all_items.push(quad_items[j]);
                let ghost line = collisions@;
                let mut k: usize = 0;
                while k < self.items.len()
                    invariant
                        k <= self.items@.len(),
                        j < quad_items@.len(),
                        collisions@ == line + row(quad_items@[j as int], self.items@).take(k as int),
                    decreases self.items@.len() - k,
                {
                    collisions.push((quad_items[j], self.items[k]));
                    k += 1;
                }
                proof {
                    assert(quad_items@.take(j + 1).drop_last() =~= quad_items@.take(j as int));
                    assert(row(quad_items@[j as int], self.items@).take(k as int) =~= row(
                        quad_items@[j as int],
                        self.items@,
                    ));
                }
                j += 1;
            }
            proof {
                assert(quad_items@.take(j as int) =~= quad_items@);
            }
            i += 1;
        }
        let ghost base = collisions@;
        let mut i: usize = 0;
        while i < self.items.len()
            invariant
                i <= self.items@.len(),
                all_items@ == self.items_below(self.quads@.len()) + self.items@.take(i as int),
                collisions@ == base + pairs_within(self.items@, i as nat),
            decreases self.items@.len() - i,
        {
            all_items.push(self.items[i]);
            let ghost line = collisions@;
            let mut j: usize = i + 1;
            while j < self.items.len()
                invariant
                    i < self.items@.len(),
                    i + 1 <= j <= self.items@.len(),
                    collisions@ == line + row(self.items@[i as int], self.items@.skip(i + 1)).take(
                        j - i - 1,
                    ),
                decreases self.items@.len() - j,
            {
                collisions.push((self.items[i], self.items[j]));
                j += 1;
            }
            proof {
                assert(row(self.items@[i as int], self.items@.skip(i + 1)).take(j - i - 1) =~= row(
                    self.items@[i as int],
                    self.items@.skip(i + 1),
                ));
            }
            i += 1;
        }
        proof {
            assert(self.items@.take(i as int) =~= self.items@);
        }
        all_items
    }

    /// Where the children hold nothing and give no pair, neither do the
    /// first `n` of them together.
    proof fn lemma_empty(self, n: nat)
        requires
            n <= self.quads@.len(),
            self.items@.len() == 0,
            forall|j: int| 0 <= j < self.quads@.len() ==> (#[trigger] self.quads@[j]).all_items() == Seq::<usize>::empty(),
            forall|j: int| 0 <= j < self.quads@.len() ==> (#[trigger] self.quads@[j]).candidates() == Seq::<(usize, usize)>::empty(),
        ensures
            self.items_below(n) =~= Seq::<usize>::empty(),
            self.candidates_below(n) =~= Seq::<(usize, usize)>::empty(),
            n == self.quads@.len() ==> self.all_items() =~= Seq::<usize>::empty(),
            n == self.quads@.len() ==> self.candidates() =~= Seq::<(usize, usize)>::empty(),
        decreases n,
    {
        if n > 0 {
            self.lemma_empty((n - 1) as nat);
            assert(self.quads@[n - 1].all_items() == Seq::<usize>::empty());
            assert(self.quads@[n - 1].candidates() == Seq::<(usize, usize)>::empty());
        }
    }
}

} // verus!
