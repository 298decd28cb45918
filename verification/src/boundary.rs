//! The outline of a region and the test whether a point lies inside it.

use vstd::prelude::*;
use crate::geometry::{BoundingBox, Coordinate};

verus! {

/// The outline of a region: closed rings of vertices. Each ring is closed
/// by the edge from its last vertex back to its first. The outer ring of a
/// polygon and each of its holes are rings of their own.
#[derive(Clone, Debug, PartialEq, Eq)]
pub struct Boundary {
    pub rings: Vec<Vec<Coordinate>>,
}

impl View for Boundary {
    type V = Seq<Seq<Coordinate>>;

    open spec fn view(&self) -> Seq<Seq<Coordinate>> {
        Seq::new(self.rings@.len(), |i: int| self.rings@[i]@)
    }
}

/// Twice the signed area of the triangle `a`, `b`, `p`: positive where `p`
/// lies to the left of the line from `a` to `b`.
pub open spec fn side(a: Coordinate, b: Coordinate, p: Coordinate) -> int {
    (b.lon - a.lon) * (p.lat - a.lat) - (p.lon - a.lon) * (b.lat - a.lat)
}

/// The edge from `a` to `b` crosses the ray that runs east from `p`. The
/// edge counts with its lower end and without its upper end, so that a ray
/// through a vertex is counted once.
pub open spec fn edge_crosses(a: Coordinate, b: Coordinate, p: Coordinate) -> bool {
    &&& (a.lat > p.lat) != (b.lat > p.lat)
    &&& if b.lat > a.lat {
        side(a, b, p) > 0
    } else {
        side(a, b, p) < 0
    }
}

/// The vertex at which the edge that starts at vertex `i` ends.
pub open spec fn vertex_after(ring: Seq<Coordinate>, i: int) -> Coordinate {
    if i + 1 < ring.len() {
        ring[i + 1]
    } else {
        ring[0]
    }
}

/// How many of the first `n` edges of the ring cross the ray east of `p`.
pub open spec fn crossings(ring: Seq<Coordinate>, p: Coordinate, n: int) -> int
    decreases n,
{
    if n <= 0 {
        0
    } else {
        crossings(ring, p, n - 1) + if edge_crosses(ring[n - 1], vertex_after(ring, n - 1), p) {
            1int
        } else {
            0int
        }
    }
}

/// The ring holds the point: the ray east of it crosses the ring an odd
/// number of times.
pub open spec fn ring_holds(ring: Seq<Coordinate>, p: Coordinate) -> bool {
    crossings(ring, p, ring.len() as int) % 2 == 1
}

/// How many of the first `n` rings hold the point.
pub open spec fn rings_holding(rings: Seq<Seq<Coordinate>>, p: Coordinate, n: int) -> int
    decreases n,
{
    if n <= 0 {
        0
    } else {
        rings_holding(rings, p, n - 1) + if ring_holds(rings[n - 1], p) {
            1int
        } else {
            0int
        }
    }
}

/// The point lies inside the boundary: an odd number of rings hold it.
pub open spec fn boundary_holds(rings: Seq<Seq<Coordinate>>, p: Coordinate) -> bool {
    rings_holding(rings, p, rings.len() as int) % 2 == 1
}

/// Every vertex of the rings lies in the box.
pub open spec fn box_covers(b: BoundingBox, rings: Seq<Seq<Coordinate>>) -> bool {
    forall|i: int, j: int|
        0 <= i < rings.len() && 0 <= j < rings[i].len() ==> b.holds(#[trigger] rings[i][j])
}

/// `b` is the smallest box in which every vertex of the rings lies.
pub open spec fn is_bounding_box(b: BoundingBox, rings: Seq<Seq<Coordinate>>) -> bool {
    &&& box_covers(b, rings)
    &&& forall|c: BoundingBox| #[trigger]
        box_covers(c, rings) ==> c.min_lon <= b.min_lon && c.min_lat <= b.min_lat && b.max_lon
            <= c.max_lon && b.max_lat <= c.max_lat
}

/// The sign of `side` for a point east or west of both ends of an edge
/// that rises past it.
proof fn lemma_side_rising(dx: int, dy: int, t: int, q: int)
    requires
        dy > 0,
        0 <= t < dy,
    ensures
        q > 0 && q > dx ==> dx * t - q * dy < 0,
        q < 0 && q < dx ==> dx * t - q * dy > 0,
{
    if q > 0 && q > dx {
        assert(q * dy > 0) by (nonlinear_arith)
            requires
                q > 0,
                dy > 0,
        ;
        if dx > 0 {
            assert(dx * t <= dx * (dy - 1)) by (nonlinear_arith)
                requires
                    dx > 0,
                    t <= dy - 1,
            ;
            assert(dx * (dy - 1) < q * dy) by (nonlinear_arith)
                requires
                    0 < dx < q,
                    dy > 0,
            ;
        } else {
            assert(dx * t <= 0) by (nonlinear_arith)
                requires
                    dx <= 0,
                    t >= 0,
            ;
        }
    }
    if q < 0 && q < dx {
        assert(q * dy < 0) by (nonlinear_arith)
            requires
                q < 0,
                dy > 0,
        ;
        if dx < 0 {
            assert(dx * t >= dx * (dy - 1)) by (nonlinear_arith)
                requires
                    dx < 0,
                    t <= dy - 1,
            ;
            assert(dx * (dy - 1) > q * dy) by (nonlinear_arith)
                requires
                    q < dx < 0,
                    dy > 0,
            ;
        } else {
            assert(dx * t >= 0) by (nonlinear_arith)
                requires
                    dx >= 0,
                    t >= 0,
            ;
        }
    }
}

/// The sign of `side` for a point east or west of both ends of an edge
/// that falls past it.
proof fn lemma_side_falling(dx: int, dy: int, t: int, q: int)
    requires
        dy < 0,
        dy <= t < 0,
    ensures
        q > 0 && q > dx ==> dx * t - q * dy > 0,
        q < 0 && q < dx ==> dx * t - q * dy < 0,
{
    if q > 0 && q > dx {
        assert(q * dy < 0) by (nonlinear_arith)
            requires
                q > 0,
                dy < 0,
        ;
        if dx > 0 {
            assert(dx * t >= dx * dy) by (nonlinear_arith)
                requires
                    dx > 0,
                    t >= dy,
            ;
            assert(dx * dy > q * dy) by (nonlinear_arith)
                requires
                    0 < dx < q,
                    dy < 0,
            ;
        } else {
            assert(dx * t >= 0) by (nonlinear_arith)
                requires
                    dx <= 0,
                    t < 0,
            ;
        }
    }
    if q < 0 && q < dx {
        assert(q * dy > 0) by (nonlinear_arith)
            requires
                q < 0,
                dy < 0,
        ;
        if dx < 0 {
            assert(dx * t <= dx * dy) by (nonlinear_arith)
                requires
                    dx < 0,
                    t >= dy,
            ;
            assert(dx * dy < q * dy) by (nonlinear_arith)
                requires
                    q < dx < 0,
                    dy < 0,
            ;
        } else {
            assert(dx * t <= 0) by (nonlinear_arith)
                requires
                    dx >= 0,
                    t < 0,
            ;
        }
    }
}

/// An edge that lies west of a point does not cross the ray east of it;
/// an edge that lies east of it crosses the ray whenever its ends lie on
/// different sides of the ray's latitude.
pub proof fn lemma_edge_beside(a: Coordinate, b: Coordinate, p: Coordinate)
    ensures
        a.lon < p.lon && b.lon < p.lon ==> !edge_crosses(a, b, p),
        p.lon < a.lon && p.lon < b.lon ==> (edge_crosses(a, b, p) <==> (a.lat > p.lat) != (b.lat
            > p.lat)),
{
    if (a.lat > p.lat) != (b.lat > p.lat) {
        let dx = b.lon - a.lon;
        let dy = b.lat - a.lat;
        let t = p.lat - a.lat;
        let q = p.lon - a.lon;
        assert(side(a, b, p) == dx * t - q * dy);
        if b.lat > a.lat {
            lemma_side_rising(dx, dy, t, q);
        } else {
            lemma_side_falling(dx, dy, t, q);
        }
    }
}

/// Where no edge crosses the ray, the count is zero.
proof fn lemma_crossings_none(ring: Seq<Coordinate>, p: Coordinate, n: int)
    requires
        0 <= n <= ring.len(),
        forall|i: int| 0 <= i < n ==> !edge_crosses(#[trigger] ring[i], vertex_after(ring, i), p),
    ensures
        crossings(ring, p, n) == 0,
    decreases n,
{
    if n > 0 {
        lemma_crossings_none(ring, p, n - 1);
        assert(!edge_crosses(ring[n - 1], vertex_after(ring, n - 1), p));
    }
}

/// Where every edge crosses the ray exactly when its ends lie on different
/// sides of the ray's latitude, the count is odd exactly when the first
/// vertex and the vertex reached lie on different sides.
proof fn lemma_crossings_sides(ring: Seq<Coordinate>, p: Coordinate, n: int)
    requires
        0 <= n < ring.len(),
        forall|i: int|
            0 <= i < ring.len() ==> (edge_crosses(#[trigger] ring[i], vertex_after(ring, i), p)
                <==> (ring[i].lat > p.lat) != (vertex_after(ring, i).lat > p.lat)),
    ensures
        crossings(ring, p, n) >= 0,
        (crossings(ring, p, n) % 2 == 1) <==> (ring[0].lat > p.lat) != (ring[n].lat > p.lat),
    decreases n,
{
    if n > 0 {
        lemma_crossings_sides(ring, p, n - 1);
        assert(vertex_after(ring, n - 1) == ring[n]);
        assert(edge_crosses(ring[n - 1], vertex_after(ring, n - 1), p) <==> (ring[n - 1].lat
            > p.lat) != (ring[n].lat > p.lat));
    }
}

/// A ring holds no point outside a box in which all its vertices lie.
pub proof fn lemma_ring_within(ring: Seq<Coordinate>, b: BoundingBox, p: Coordinate)
    requires
        forall|j: int| 0 <= j < ring.len() ==> b.holds(#[trigger] ring[j]),
        !b.holds(p),
    ensures
        !ring_holds(ring, p),
{
    let n = ring.len() as int;
    if n > 0 {
        assert forall|i: int| 0 <= i < n implies b.holds(vertex_after(ring, i)) by {
            if i + 1 < n {
                assert(b.holds(ring[i + 1]));
            } else {
                assert(b.holds(ring[0]));
            }
        }
        if p.lon < b.min_lon {
            assert forall|i: int| 0 <= i < n implies (edge_crosses(
                #[trigger] ring[i],
                vertex_after(ring, i),
                p,
            ) <==> (ring[i].lat > p.lat) != (vertex_after(ring, i).lat > p.lat)) by {
                assert(b.holds(ring[i]));
                assert(b.holds(vertex_after(ring, i)));
                lemma_edge_beside(ring[i], vertex_after(ring, i), p);
            }
            lemma_crossings_sides(ring, p, n - 1);
            assert(vertex_after(ring, n - 1) == ring[0]);
            assert(edge_crosses(ring[n - 1], vertex_after(ring, n - 1), p) <==> (ring[n - 1].lat
                > p.lat) != (ring[0].lat > p.lat));
        } else {
            assert forall|i: int| 0 <= i < n implies !edge_crosses(
                #[trigger] ring[i],
                vertex_after(ring, i),
                p,
            ) by {
                assert(b.holds(ring[i]));
                assert(b.holds(vertex_after(ring, i)));
                lemma_edge_beside(ring[i], vertex_after(ring, i), p);
            }
            lemma_crossings_none(ring, p, n);
        }
    }
}

/// No ring holds a point outside a box in which all the vertices lie.
proof fn lemma_rings_within(rings: Seq<Seq<Coordinate>>, b: BoundingBox, p: Coordinate, n: int)
    requires
        box_covers(b, rings),
        !b.holds(p),
        0 <= n <= rings.len(),
    ensures
        rings_holding(rings, p, n) == 0,
    decreases n,
{
    if n > 0 {
        lemma_rings_within(rings, b, p, n - 1);
        assert forall|j: int| 0 <= j < rings[n - 1].len() implies b.holds(
            #[trigger] rings[n - 1][j],
        ) by {}
        lemma_ring_within(rings[n - 1], b, p);
    }
}

/// A point inside a boundary lies in every box that covers the boundary's
/// vertices.
pub proof fn lemma_inside_box(rings: Seq<Seq<Coordinate>>, b: BoundingBox, p: Coordinate)
    requires
        box_covers(b, rings),
        boundary_holds(rings, p),
    ensures
        b.holds(p),
{
    if !b.holds(p) {
        lemma_rings_within(rings, b, p, rings.len() as int);
    }
}

/// A ring of fewer than three vertices holds no point.
pub proof fn lemma_thin_ring_is_empty(ring: Seq<Coordinate>, p: Coordinate)
    requires
        ring.len() < 3,
    ensures
        !ring_holds(ring, p),
{
    if ring.len() == 1 {
        assert(crossings(ring, p, 1) == crossings(ring, p, 0) + 0);
    } else if ring.len() == 2 {
        let a = ring[0];
        let b = ring[1];
        assert(vertex_after(ring, 0) == b);
        assert(vertex_after(ring, 1) == a);
        assert(side(b, a, p) == -side(a, b, p)) by (nonlinear_arith)
            requires
                side(a, b, p) == (b.lon - a.lon) * (p.lat - a.lat) - (p.lon - a.lon) * (b.lat
                    - a.lat),
                side(b, a, p) == (a.lon - b.lon) * (p.lat - b.lat) - (p.lon - b.lon) * (a.lat
                    - b.lat),
        ;
        assert(edge_crosses(a, b, p) == edge_crosses(b, a, p));
        assert(crossings(ring, p, 1) == crossings(ring, p, 0) + if edge_crosses(a, b, p) {
            1int
        } else {
            0int
        });
        assert(crossings(ring, p, 2) == crossings(ring, p, 1) + if edge_crosses(b, a, p) {
            1int
        } else {
            0int
        });
    }
}

/// Vertex `j` of ring `i` comes before vertex `at_j` of ring `at_i`.
spec fn seen(i: int, j: int, at_i: int, at_j: int) -> bool {
    i < at_i || (i == at_i && j < at_j)
}

/// `b` is the smallest box that holds the vertices before vertex `at_j` of
/// ring `at_i`.
spec fn is_box_so_far(b: BoundingBox, rings: Seq<Seq<Coordinate>>, at_i: int, at_j: int) -> bool {
    &&& forall|i: int, j: int|
        0 <= i < rings.len() && 0 <= j < rings[i].len() && seen(i, j, at_i, at_j) ==> b.holds(
            #[trigger] rings[i][j],
        )
    &&& (b.min_lon == i32::MAX || exists|i: int, j: int|
        0 <= i < rings.len() && 0 <= j < rings[i].len() && seen(i, j, at_i, at_j) && (
        #[trigger] rings[i][j]).lon == b.min_lon)
    &&& (b.min_lat == i32::MAX || exists|i: int, j: int|
        0 <= i < rings.len() && 0 <= j < rings[i].len() && seen(i, j, at_i, at_j) && (
        #[trigger] rings[i][j]).lat == b.min_lat)
    &&& (b.max_lon == i32::MIN || exists|i: int, j: int|
        0 <= i < rings.len() && 0 <= j < rings[i].len() && seen(i, j, at_i, at_j) && (
        #[trigger] rings[i][j]).lon == b.max_lon)
    &&& (b.max_lat == i32::MIN || exists|i: int, j: int|
        0 <= i < rings.len() && 0 <= j < rings[i].len() && seen(i, j, at_i, at_j) && (
        #[trigger] rings[i][j]).lat == b.max_lat)
}

/// The smallest box so far, grown to the next vertex, is the smallest box
/// with that vertex.
proof fn lemma_box_grows(
    b: BoundingBox,
    r: BoundingBox,
    rings: Seq<Seq<Coordinate>>,
    at_i: int,
    at_j: int,
)
    requires
        0 <= at_i < rings.len(),
        0 <= at_j < rings[at_i].len(),
        is_box_so_far(b, rings, at_i, at_j),
        r.min_lon == if rings[at_i][at_j].lon < b.min_lon {
            rings[at_i][at_j].lon
        } else {
            b.min_lon
        },
        r.min_lat == if rings[at_i][at_j].lat < b.min_lat {
            rings[at_i][at_j].lat
        } else {
            b.min_lat
        },
        r.max_lon == if rings[at_i][at_j].lon > b.max_lon {
            rings[at_i][at_j].lon
        } else {
            b.max_lon
        },
        r.max_lat == if rings[at_i][at_j].lat > b.max_lat {
            rings[at_i][at_j].lat
        } else {
            b.max_lat
        },
    ensures
        is_box_so_far(r, rings, at_i, at_j + 1),
{
    let v = rings[at_i][at_j];
    assert(seen(at_i, at_j, at_i, at_j + 1));
    assert forall|i: int, j: int|
        0 <= i < rings.len() && 0 <= j < rings[i].len() && seen(i, j, at_i, at_j + 1) implies r.holds(
        #[trigger] rings[i][j],
    ) by {
        if seen(i, j, at_i, at_j) {
            assert(b.holds(rings[i][j]));
        }
    }
    if r.min_lon != i32::MAX {
        if r.min_lon == v.lon {
            assert(rings[at_i][at_j].lon == r.min_lon);
        } else {
            let (i, j) = choose|i: int, j: int|
                0 <= i < rings.len() && 0 <= j < rings[i].len() && seen(i, j, at_i, at_j) && (
                #[trigger] rings[i][j]).lon == b.min_lon;
            assert(seen(i, j, at_i, at_j + 1) && rings[i][j].lon == r.min_lon);
        }
    }
    if r.min_lat != i32::MAX {
        if r.min_lat == v.lat {
            assert(rings[at_i][at_j].lat == r.min_lat);
        } else {
            let (i, j) = choose|i: int, j: int|
                0 <= i < rings.len() && 0 <= j < rings[i].len() && seen(i, j, at_i, at_j) && (
                #[trigger] rings[i][j]).lat == b.min_lat;
            assert(seen(i, j, at_i, at_j + 1) && rings[i][j].lat == r.min_lat);
        }
    }
    if r.max_lon != i32::MIN {
        if r.max_lon == v.lon {
            assert(rings[at_i][at_j].lon == r.max_lon);
        } else {
            let (i, j) = choose|i: int, j: int|
                0 <= i < rings.len() && 0 <= j < rings[i].len() && seen(i, j, at_i, at_j) && (
                #[trigger] rings[i][j]).lon == b.max_lon;
            assert(seen(i, j, at_i, at_j + 1) && rings[i][j].lon == r.max_lon);
        }
    }
    if r.max_lat != i32::MIN {
        if r.max_lat == v.lat {
            assert(rings[at_i][at_j].lat == r.max_lat);
        } else {
            let (i, j) = choose|i: int, j: int|
                0 <= i < rings.len() && 0 <= j < rings[i].len() && seen(i, j, at_i, at_j) && (
                #[trigger] rings[i][j]).lat == b.max_lat;
            assert(seen(i, j, at_i, at_j + 1) && rings[i][j].lat == r.max_lat);
        }
    }
}

/// The smallest box at the end of a ring is the smallest box at the start
/// of the next.
proof fn lemma_box_next_ring(b: BoundingBox, rings: Seq<Seq<Coordinate>>, at_i: int)
    requires
        0 <= at_i < rings.len(),
        is_box_so_far(b, rings, at_i, rings[at_i].len() as int),
    ensures
        is_box_so_far(b, rings, at_i + 1, 0),
{
    let n = rings[at_i].len() as int;
    assert forall|i: int, j: int|
        0 <= i < rings.len() && 0 <= j < rings[i].len() implies (seen(i, j, at_i, n) <==> seen(
        i,
        j,
        at_i + 1,
        0,
    )) by {}
    if b.min_lon != i32::MAX {
        let (i, j) = choose|i: int, j: int|
            0 <= i < rings.len() && 0 <= j < rings[i].len() && seen(i, j, at_i, n) && (
            #[trigger] rings[i][j]).lon == b.min_lon;
        assert(seen(i, j, at_i + 1, 0) && rings[i][j].lon == b.min_lon);
    }
    if b.min_lat != i32::MAX {
        let (i, j) = choose|i: int, j: int|
            0 <= i < rings.len() && 0 <= j < rings[i].len() && seen(i, j, at_i, n) && (
            #[trigger] rings[i][j]).lat == b.min_lat;
        assert(seen(i, j, at_i + 1, 0) && rings[i][j].lat == b.min_lat);
    }
    if b.max_lon != i32::MIN {
        let (i, j) = choose|i: int, j: int|
            0 <= i < rings.len() && 0 <= j < rings[i].len() && seen(i, j, at_i, n) && (
            #[trigger] rings[i][j]).lon == b.max_lon;
        assert(seen(i, j, at_i + 1, 0) && rings[i][j].lon == b.max_lon);
    }
    if b.max_lat != i32::MIN {
        let (i, j) = choose|i: int, j: int|
            0 <= i < rings.len() && 0 <= j < rings[i].len() && seen(i, j, at_i, n) && (
            #[trigger] rings[i][j]).lat == b.max_lat;
        assert(seen(i, j, at_i + 1, 0) && rings[i][j].lat == b.max_lat);
    }
}

/// The smallest box after the last ring is the bounding box.
proof fn lemma_box_done(b: BoundingBox, rings: Seq<Seq<Coordinate>>)
    requires
        is_box_so_far(b, rings, rings.len() as int, 0),
    ensures
        is_bounding_box(b, rings),
{
    let n = rings.len() as int;
    assert forall|i: int, j: int| 0 <= i < rings.len() && 0 <= j < rings[i].len() implies b.holds(
        #[trigger] rings[i][j],
    ) by {
        assert(seen(i, j, n, 0));
    }
    assert forall|c: BoundingBox| #[trigger] box_covers(c, rings) implies c.min_lon <= b.min_lon
        && c.min_lat <= b.min_lat && b.max_lon <= c.max_lon && b.max_lat <= c.max_lat by {
        if b.min_lon != i32::MAX {
            let (i, j) = choose|i: int, j: int|
                0 <= i < rings.len() && 0 <= j < rings[i].len() && seen(i, j, n, 0) && (
                #[trigger] rings[i][j]).lon == b.min_lon;
            assert(c.holds(rings[i][j]));
        }
        if b.min_lat != i32::MAX {
            let (i, j) = choose|i: int, j: int|
                0 <= i < rings.len() && 0 <= j < rings[i].len() && seen(i, j, n, 0) && (
                #[trigger] rings[i][j]).lat == b.min_lat;
            assert(c.holds(rings[i][j]));
        }
        if b.max_lon != i32::MIN {
            let (i, j) = choose|i: int, j: int|
                0 <= i < rings.len() && 0 <= j < rings[i].len() && seen(i, j, n, 0) && (
                #[trigger] rings[i][j]).lon == b.max_lon;
            assert(c.holds(rings[i][j]));
        }
        if b.max_lat != i32::MIN {
            let (i, j) = choose|i: int, j: int|
                0 <= i < rings.len() && 0 <= j < rings[i].len() && seen(i, j, n, 0) && (
                #[trigger] rings[i][j]).lat == b.max_lat;
            assert(c.holds(rings[i][j]));
        }
    }
}

/// Whether the edge from `a` to `b` crosses the ray that runs east from
/// `p`.
pub fn crosses(a: Coordinate, b: Coordinate, p: Coordinate) -> (r: bool)
    ensures
        r == edge_crosses(a, b, p),
{
    if (a.lat > p.lat) == (b.lat > p.lat) {
        return false;
    }
    let dx: i128 = b.lon as i128 - a.lon as i128;
    let dy: i128 = b.lat as i128 - a.lat as i128;
    let t: i128 = p.lat as i128 - a.lat as i128;
    let q: i128 = p.lon as i128 - a.lon as i128;
    assert(-0x1_0000_0000_0000_0000 <= dx * t <= 0x1_0000_0000_0000_0000) by (nonlinear_arith)
        requires
            -0x1_0000_0000 <= dx <= 0x1_0000_0000,
            -0x1_0000_0000 <= t <= 0x1_0000_0000,
    ;
    assert(-0x1_0000_0000_0000_0000 <= q * dy <= 0x1_0000_0000_0000_0000) by (nonlinear_arith)
        requires
            -0x1_0000_0000 <= q <= 0x1_0000_0000,
            -0x1_0000_0000 <= dy <= 0x1_0000_0000,
    ;
    let s: i128 = dx * t - q * dy;
    if b.lat > a.lat {
        s > 0
    } else {
        s < 0
    }
}

/// Whether the ring holds the point.
pub fn ring_contains(ring: &Vec<Coordinate>, p: Coordinate) -> (r: bool)
    ensures
        r == ring_holds(ring@, p),
{
    let n: usize = ring.len();
    let mut inside = false;
    let mut i: usize = 0;
    while i < n
        invariant
            i <= n,
            n == ring.len(),
            crossings(ring@, p, i as int) >= 0,
            inside == (crossings(ring@, p, i as int) % 2 == 1),
        decreases n - i,
    {
        let a = ring[i];
        let b = if i + 1 < n {
            ring[i + 1]
        } else {
            ring[0]
        };
        assert(b == vertex_after(ring@, i as int));
        if crosses(a, b, p) {
            inside = !inside;
        }
        i += 1;
    }
    inside
}

impl Boundary {
    /// Whether the point lies inside the boundary.
    pub fn contains(&self, p: Coordinate) -> (r: bool)
        ensures
            r == boundary_holds(self@, p),
    {
        let n: usize = self.rings.len();
        let mut inside = false;
        let mut i: usize = 0;
        while i < n
            invariant
                i <= n,
                n == self.rings.len(),
                rings_holding(self@, p, i as int) >= 0,
                inside == (rings_holding(self@, p, i as int) % 2 == 1),
            decreases n - i,
        {
            assert(self@[i as int] == self.rings@[i as int]@);
            if ring_contains(&self.rings[i], p) {
                inside = !inside;
            }
            i += 1;
        }
        inside
    }

    /// The smallest box in which every vertex of the boundary lies; the
    /// void box for a boundary without vertices.
    pub fn bounding_box(&self) -> (b: BoundingBox)
        ensures
            is_bounding_box(b, self@),
    {
        let mut b = BoundingBox::void();
        let n: usize = self.rings.len();
        let mut i: usize = 0;
        while i < n
            invariant
                i <= n,
                n == self.rings.len(),
                is_box_so_far(b, self@, i as int, 0),
            decreases n - i,
        {
            let ring = &self.rings[i];
            let m: usize = ring.len();
            let mut j: usize = 0;
            assert(self@[i as int] == ring@);
            while j < m
                invariant
                    j <= m,
                    i < n,
                    n == self.rings.len(),
                    m == ring.len(),
                    self@[i as int] == ring@,
                    is_box_so_far(b, self@, i as int, j as int),
                decreases m - j,
            {
                let ghost before = b;
                b = b.including(ring[j]);
                proof {
                    lemma_box_grows(before, b, self@, i as int, j as int);
                }
                j += 1;
            }
            proof {
                lemma_box_next_ring(b, self@, i as int);
            }
            i += 1;
        }
        proof {
            lemma_box_done(b, self@);
        }
        b
    }
}

} // verus!
