use vstd::prelude::*;

verus! {

/// How many entries of `flags` are set.
pub open spec fn count_true(flags: Seq<bool>) -> nat
    decreases flags.len(),
{
    if flags.len() == 0 {
        0
    } else {
        count_true(flags.drop_last()) + if flags.last() { 1nat } else { 0nat }
    }
}

/// `i` is where a scan of `keys` in index order ends that starts from `limit`
/// and moves on only to a strictly smaller key: the first place of the least
/// key, which lies below `limit`.
pub open spec fn first_least_below(keys: Seq<i64>, limit: i64, i: int) -> bool {
    &&& 0 <= i < keys.len()
    &&& keys[i] < limit
    &&& forall|j: int| 0 <= j < i ==> keys[j] > keys[i]
    &&& forall|j: int| i <= j < keys.len() ==> keys[j] >= keys[i]
}

/// `i` is where a scan of `keys` in index order ends that starts from `floor`
/// and moves on only to a strictly greater key: the first place of the
/// greatest key, which lies above `floor`.
pub open spec fn first_greatest_above(keys: Seq<i64>, floor: i64, i: int) -> bool {
    &&& 0 <= i < keys.len()
    &&& keys[i] > floor
    &&& forall|j: int| 0 <= j < i ==> keys[j] < keys[i]
    &&& forall|j: int| i <= j < keys.len() ==> keys[j] <= keys[i]
}

/// Some key of `keys` lies below `limit`.
pub open spec fn some_below(keys: Seq<i64>, limit: i64) -> bool {
    exists|j: int| 0 <= j < keys.len() && keys[j] < limit
}

/// Some key of `keys` lies above `floor`.
pub open spec fn some_above(keys: Seq<i64>, floor: i64) -> bool {
    exists|j: int| 0 <= j < keys.len() && keys[j] > floor
}

/// Where a point lies along a segment, seen from the segment's line.
#[derive(Copy, Clone, Debug, PartialEq, Eq, Structural)]
pub enum SegmentRegion {
    /// The segment has no length: its two ends are one point.
    Degenerate,
    /// The point projects before the first end.
    BeforeStart,
    /// The point projects behind the second end.
    BeyondEnd,
    /// The point projects between the ends.
    Within,
}

/// Whether a ray from a point towards greater `x` crosses edge `i` of a
/// polygon, the edge that ends in corner `i` and starts in the corner before
/// it (the last corner, for the first edge). `verty` holds the keys of the
/// corners' heights and `pnty` that of the point's. The edge is crossed where
/// its two ends lie on different sides of the point's height and `left[i]`
/// holds: the point lies left of the place where the edge passes that height.
pub open spec fn crosses(verty: Seq<i64>, pnty: i64, left: Seq<bool>, i: int) -> bool {
    let j = if i == 0 {
        verty.len() - 1
    } else {
        i - 1
    };
    ((verty[i] > pnty) != (verty[j] > pnty)) && left[i]
}

/// For every edge, whether the ray crosses it.
pub open spec fn crossings(verty: Seq<i64>, pnty: i64, left: Seq<bool>) -> Seq<bool> {
    Seq::new(verty.len(), |i: int| crosses(verty, pnty, left, i))
}

/// The crossing-number rule: a point lies inside a polygon where the ray
/// crosses an odd number of its edges.
pub open spec fn inside(verty: Seq<i64>, pnty: i64, left: Seq<bool>) -> bool {
    count_true(crossings(verty, pnty, left)) % 2 == 1
}

/// Whether a polygon holds a point. `verty` holds the keys of the corners'
/// heights, `pnty` is the key of the point's height, and `left[i]` says
/// whether the point lies left of the place where edge `i` passes that
/// height. A point on the boundary may read either way.
pub fn poly_contains_pnt(verty: &Vec<i64>, pnty: i64, left: &Vec<bool>) -> (c: bool)
    requires
        left@.len() == verty@.len(),
    ensures
        c == inside(verty@, pnty, left@),
{
    let nvert = verty.len();
    let ghost all = crossings(verty@, pnty, left@);
    let mut c = false;
    if nvert == 0 {
        return c;
    }
    let mut j: usize = nvert - 1;
    let mut i: usize = 0;
    while i < nvert
        invariant
            nvert == verty@.len(),
            nvert == left@.len(),
            nvert > 0,
            i <= nvert,
            j == (if i == 0 { nvert - 1 } else { i - 1 }),
            all == crossings(verty@, pnty, left@),
            c == (count_true(all.take(i as int)) % 2 == 1),
        decreases nvert - i,
    {
        proof {
            assert(all.take(i + 1).drop_last() =~= all.take(i as int));
            assert(all.take(i + 1).last() == crosses(verty@, pnty, left@, i as int));
        }
        if ((verty[i] > pnty) != (verty[j] > pnty)) && left[i] {
            c = !c;
        }
        j = i;
        i += 1;
    }
    proof {
        assert(all.take(i as int) =~= all);
    }
    c
}

/// Whether a polygon holds every corner of another: all that is asked of a
/// shape that is to lie in a quad, though an edge may still leave it. `verty`
/// holds the keys of the holder's corners' heights; for corner `k` of the
/// other, `pnty[k]` is the key of its height and `left[k]` says of each of
/// the holder's edges whether the corner lies left of it.
pub fn poly_contains_poly(verty: &Vec<i64>, pnty: &Vec<i64>, left: &Vec<Vec<bool>>) -> (c: bool)
    requires
        left@.len() == pnty@.len(),
        forall|k: int| 0 <= k < left@.len() ==> (#[trigger] left@[k])@.len() == verty@.len(),
    ensures
        c == (forall|k: int| 0 <= k < pnty@.len() ==> inside(verty@, #[trigger] pnty@[k], left@[k]@)),
{
    let mut c = true;
    let mut k: usize = 0;
    while k < pnty.len()
        invariant
            k <= pnty@.len(),
            left@.len() == pnty@.len(),
            forall|k: int| 0 <= k < left@.len() ==> (#[trigger] left@[k])@.len() == verty@.len(),
            c == (forall|m: int| 0 <= m < k ==> inside(verty@, #[trigger] pnty@[m], left@[m]@)),
        decreases pnty@.len() - k,
    {
        if !poly_contains_pnt(verty, pnty[k], &left[k]) {
            c = false;
        }
        k += 1;
    }
    c
}

/// Which case the distance from a point to a segment falls under.
/// `length_sqr` is the key of the segment's squared length, `t` the key of
/// the point's projection along the segment as a fraction of its length, and
/// `one` the key of the fraction 1. A segment without length is told first,
/// so that nobody has to divide by its length.
pub fn dist_line_pnt__closest_pnt(length_sqr: i64, t: i64, one: i64) -> (region: SegmentRegion)
    ensures
        region == (if length_sqr == 0 {
            SegmentRegion::Degenerate
        } else if t < 0 {
            SegmentRegion::BeforeStart
        } else if t > one {
            SegmentRegion::BeyondEnd
        } else {
            SegmentRegion::Within
        }),
{
    if length_sqr == 0 {
        SegmentRegion::Degenerate
    } else if t < 0 {
        SegmentRegion::BeforeStart
    } else if t > one {
        SegmentRegion::BeyondEnd
    } else {
        SegmentRegion::Within
    }
}

/// The nearest edge of a polygon. `distances[i]` is the key of the distance
/// from the point to edge `i`, `limit` the key of the distance that the scan
/// starts from. Returns the least distance, the edge where it is first
/// reached, and whether any edge came below `limit`; if none did, the
/// distance is `limit` and the edge is 0.
pub fn dist_poly_circ__face__support(distances: &Vec<i64>, limit: i64) -> (r: (i64, usize, bool))
    ensures
        r.2 == some_below(distances@, limit),
        r.2 ==> first_least_below(distances@, limit, r.1 as int) && r.0 == distances@[r.1 as int],
        !r.2 ==> r.0 == limit && r.1 == 0,
{
    let mut distance = limit;
    let mut face: usize = 0;
    let mut found = false;
    let mut i: usize = 0;
    while i < distances.len()
        invariant
            i <= distances.len(),
            found == some_below(distances@.take(i as int), limit),
            found ==> first_least_below(distances@.take(i as int), limit, face as int)
                && distance == distances@[face as int],
            !found ==> distance == limit && face == 0,
        decreases distances.len() - i,
    {
        let ghost before = distances@.take(i as int);
        let ghost after = distances@.take(i + 1);
        proof {
            assert(forall|j: int| 0 <= j < i ==> before[j] == after[j]);
            if some_below(before, limit) {
                let j = choose|j: int| 0 <= j < before.len() && before[j] < limit;
                assert(after[j] < limit);
            }
        }
        if distances[i] < distance {
            distance = distances[i];
            face = i;
            found = true;
            proof {
                assert(after[i as int] < limit);
            }
        } else {
            proof {
                if some_below(after, limit) {
                    let j = choose|j: int| 0 <= j < after.len() && after[j] < limit;
                    if j < i {
                        assert(before[j] < limit);
                    }
                }
            }
        }
        i += 1;
    }
    proof {
        assert(distances@.take(i as int) =~= distances@);
    }
    (distance, face, found)
}

/// The distance from a point to a polygon: the least of `distances`, the keys
/// of its distances to the edges, or `limit` where none lies below it.
pub fn dist_poly_circ(distances: &Vec<i64>, limit: i64) -> (d: i64)
    ensures
        d <= limit,
        forall|j: int| 0 <= j < distances@.len() ==> d <= distances@[j],
        d == limit || exists|j: int| 0 <= j < distances@.len() && d == distances@[j],
{
    let r = dist_poly_circ__face__support(distances, limit);
    proof {
        if !r.2 {
            assert forall|j: int| 0 <= j < distances@.len() implies r.0 <= distances@[j] by {
                if distances@[j] < limit {
                    assert(some_below(distances@, limit));
                }
            }
        }
    }
    r.0
}

/// Scans `depths` in index order from `floor` upwards, moving on only to a
/// strictly greater key.
fn scan_greatest(depths: &Vec<i64>, floor: i64) -> (r: (i64, usize, bool))
    ensures
        r.2 == some_above(depths@, floor),
        r.2 ==> first_greatest_above(depths@, floor, r.1 as int) && r.0 == depths@[r.1 as int],
        !r.2 ==> r.0 == floor && r.1 == 0,
{
    let mut depth = floor;
    let mut face: usize = 0;
    let mut found = false;
    let mut i: usize = 0;
    while i < depths.len()
        invariant
            i <= depths.len(),
            found == some_above(depths@.take(i as int), floor),
            found ==> first_greatest_above(depths@.take(i as int), floor, face as int)
                && depth == depths@[face as int],
            !found ==> depth == floor && face == 0,
        decreases depths.len() - i,
    {
        let ghost before = depths@.take(i as int);
        let ghost after = depths@.take(i + 1);
        proof {
            assert(forall|j: int| 0 <= j < i ==> before[j] == after[j]);
            if some_above(before, floor) {
                let j = choose|j: int| 0 <= j < before.len() && before[j] > floor;
                assert(after[j] > floor);
            }
        }
        if depths[i] > depth {
            depth = depths[i];
            face = i;
            found = true;
            proof {
                assert(after[i as int] > floor);
            }
        } else {
            proof {
                if some_above(after, floor) {
                    let j = choose|j: int| 0 <= j < after.len() && after[j] > floor;
                    if j < i {
                        assert(before[j] > floor);
                    }
                }
            }
        }
        i += 1;
    }
    proof {
        assert(depths@.take(i as int) =~= depths@);
    }
    (depth, face, found)
}

/// The axis of least overlap. `depths[i]` is the key of the signed distance
/// at which the other polygon's support point lies off edge `i`, `floor` the
/// key that the scan starts from. Returns the greatest depth, the edge where
/// it is first reached, and whether any edge came above `floor`; if none did,
/// the depth is `floor` and the edge is 0.
pub fn penetration__face__support(depths: &Vec<i64>, floor: i64) -> (r: (i64, usize, bool))
    ensures
        r.2 == some_above(depths@, floor),
        r.2 ==> first_greatest_above(depths@, floor, r.1 as int) && r.0 == depths@[r.1 as int],
        !r.2 ==> r.0 == floor && r.1 == 0,
{
    scan_greatest(depths, floor)
}

/// The corner of a polygon that lies furthest along a direction.
/// `projections[i]` is the key of corner `i`'s extent along the direction,
/// `floor` the key that the scan starts from. Returns the first corner of
/// greatest extent, or `None` where no corner comes above `floor`.
pub fn support_pnt(projections: &Vec<i64>, floor: i64) -> (best: Option<usize>)
    ensures
        best is Some == some_above(projections@, floor),
        best is Some ==> first_greatest_above(projections@, floor, best->0 as int),
{
    let r = scan_greatest(projections, floor);
    if r.2 {
        Some(r.1)
    } else {
        None
    }
}

} // verus!
