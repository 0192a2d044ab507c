//! Boxes against polygons.
//!
//! A polygon is closed: its last vertex repeats its first. The edge with number `i` ends
//! at vertex `i` and starts at the vertex before it; edge 0 starts at the last vertex.
use vstd::prelude::*;
use crate::line_crossing::{PARALLEL_LIMIT, SAME_PLACE_LIMIT};
use crate::reading::{higher_of, larger, lower_of, smaller, Level, ONE};
use crate::types::{Extent, Point};

verus! {

/// How a point lies to one edge of a polygon.
#[derive(Debug, Clone, Copy, PartialEq, Eq, Structural)]
pub struct EdgeMeasure {
    /// The distance between the ends of the edge along x.
    pub run: Level,
    /// The distance along x between the point and the end of the edge.
    pub offset: Level,
    /// The distance along y between the point and the line through the edge.
    pub residual: Level,
    /// Where that line reaches the height of the point.
    pub meet_x: Level,
}

/// How a side of a box lies to an edge of a polygon.
#[derive(Debug, Clone, Copy, PartialEq, Eq, Structural)]
pub struct SideMeasure {
    /// The magnitude of the determinant of the two directions.
    pub denom: Level,
    /// Where on the side the two lines meet: 0 at its start, 1 at its end.
    pub along_side: Level,
    /// Where on the edge they meet.
    pub along_edge: Level,
}

/// How a box lies to a polygon.
#[derive(Debug, Clone)]
pub struct PolygonMeasure {
    /// For each corner of the box, its relation to each edge.
    pub corners: Vec<Vec<EdgeMeasure>>,
    /// For each edge from vertex `i` to vertex `i + 1`, its relation to each side.
    pub sides: Vec<Vec<SideMeasure>>,
}

/// The vertex at which edge `i` starts.
pub open spec fn edge_start(polygon: Seq<Point>, i: int) -> Point {
    if i == 0 {
        polygon.last()
    } else {
        polygon[i - 1]
    }
}

/// The point lies on the edge from `b` to `a`, or all but on it.
pub open spec fn on_edge(p: Point, a: Point, b: Point, m: EdgeMeasure) -> bool {
    &&& smaller(a.x, b.x) <= p.x <= larger(a.x, b.x)
    &&& smaller(a.y, b.y) <= p.y <= larger(a.y, b.y)
    &&& if m.run < SAME_PLACE_LIMIT {
        m.offset < SAME_PLACE_LIMIT
    } else {
        m.residual < SAME_PLACE_LIMIT
    }
}

/// A ray from the point to the right goes through the edge from `b` to `a`.
pub open spec fn ray_crosses(p: Point, a: Point, b: Point, m: EdgeMeasure) -> bool {
    (a.y > p.y) != (b.y > p.y) && p.x < m.meet_x
}

/// How many of the first `n` edges a ray from the point to the right goes through.
pub open spec fn ray_count(p: Point, polygon: Seq<Point>, edges: Seq<EdgeMeasure>, n: int) -> nat
    decreases n,
{
    if n <= 0 {
        0
    } else {
        ray_count(p, polygon, edges, n - 1) + if ray_crosses(
            p,
            polygon[n - 1],
            edge_start(polygon, n - 1),
            edges[n - 1],
        ) {
            1nat
        } else {
            0nat
        }
    }
}

/// The point lies on an edge of the polygon.
pub open spec fn on_boundary(p: Point, polygon: Seq<Point>, edges: Seq<EdgeMeasure>) -> bool {
    exists|i: int|
        0 <= i < polygon.len() && on_edge(
            p,
            polygon[i],
            edge_start(polygon, i),
            #[trigger] edges[i],
        )
}

/// The point lies in the polygon or on its boundary.
pub open spec fn point_inside(p: Point, polygon: Seq<Point>, edges: Seq<EdgeMeasure>) -> bool {
    &&& polygon.len() >= 3
    &&& on_boundary(p, polygon, edges) || ray_count(p, polygon, edges, polygon.len() as int) % 2
        == 1
}

/// The corners of a box, clockwise from the upper left.
pub open spec fn corner(e: Extent, k: int) -> Point {
    if k == 0 {
        Point { x: e.left, y: e.top }
    } else if k == 1 {
        Point { x: e.right, y: e.top }
    } else if k == 2 {
        Point { x: e.right, y: e.bottom }
    } else {
        Point { x: e.left, y: e.bottom }
    }
}

/// The measure holds an entry for each pair it is read for.
pub open spec fn measures(m: PolygonMeasure, polygon: Seq<Point>) -> bool {
    &&& m.corners@.len() == 4
    &&& forall|k: int| 0 <= k < 4 ==> (#[trigger] m.corners@[k])@.len() == polygon.len()
    &&& m.sides@.len() + 1 == polygon.len() || (polygon.len() == 0 && m.sides@.len() == 0)
    &&& forall|i: int| 0 <= i < m.sides@.len() ==> (#[trigger] m.sides@[i])@.len() == 4
}

/// A corner of the box lies in the polygon.
pub open spec fn corner_inside(
    e: Extent,
    polygon: Seq<Point>,
    m: PolygonMeasure,
    k: int,
) -> bool {
    point_inside(corner(e, k), polygon, m.corners@[k]@)
}

/// A vertex lies in the box.
pub open spec fn vertex_in_box(p: Point, e: Extent) -> bool {
    e.left <= p.x <= e.right && e.top <= p.y <= e.bottom
}

/// A side of the box and an edge of the polygon meet.
pub open spec fn side_meets(m: SideMeasure) -> bool {
    m.denom >= PARALLEL_LIMIT && 0 <= m.along_side <= ONE && 0 <= m.along_edge <= ONE
}

/// All four corners of the box lie in the polygon.
pub open spec fn box_contained(e: Extent, polygon: Seq<Point>, m: PolygonMeasure) -> bool {
    forall|k: int| 0 <= k < 4 ==> #[trigger] corner_inside(e, polygon, m, k)
}

/// The box and the polygon share a point: a corner of the box in the polygon, a vertex of
/// the polygon in the box, or a side of one across an edge of the other.
pub open spec fn box_intersects(e: Extent, polygon: Seq<Point>, m: PolygonMeasure) -> bool {
    ||| exists|k: int| 0 <= k < 4 && #[trigger] corner_inside(e, polygon, m, k)
    ||| exists|i: int| 0 <= i < polygon.len() && vertex_in_box(#[trigger] polygon[i], e)
    ||| exists|i: int, s: int|
        0 <= i < m.sides@.len() && 0 <= s < 4 && side_meets(#[trigger] m.sides@[i]@[s])
}

/// Casts a ray from the point; a point on an edge counts as inside.
pub fn is_point_in_polygon(p: Point, polygon: &Vec<Point>, edges: &Vec<EdgeMeasure>) -> (inside:
    bool)
    requires
        edges@.len() == polygon@.len(),
    ensures
        inside == point_inside(p, polygon@, edges@),
{
    if polygon.len() < 3 {
        return false;
    }
    let n: usize = polygon.len();
    let mut inside = false;
    let mut j: usize = n - 1;
    let mut i: usize = 0;
    while i < n
        invariant
            i <= n,
            n == polygon@.len(),
            n >= 3,
            edges@.len() == n,
            j == if i == 0 {
                n - 1
            } else {
                i - 1
            },
            inside == (ray_count(p, polygon@, edges@, i as int) % 2 == 1),
            forall|k: int|
                0 <= k < i ==> !on_edge(
                    p,
                    polygon@[k],
                    edge_start(polygon@, k),
                    #[trigger] edges@[k],
                ),
        decreases n - i,
    {
        let a = polygon[i];
        let b = polygon[j];
        let m = edges[i];
        assert(b == edge_start(polygon@, i as int));
        let min_x: Level = lower_of(a.x, b.x);
        let max_x: Level = higher_of(a.x, b.x);
        let min_y: Level = lower_of(a.y, b.y);
        let max_y: Level = higher_of(a.y, b.y);
        if p.x >= min_x && p.x <= max_x && p.y >= min_y && p.y <= max_y {
            if m.run < SAME_PLACE_LIMIT {
                if m.offset < SAME_PLACE_LIMIT {
                    assert(on_edge(p, a, b, edges@[i as int]));
                    return true;
                }
            } else if m.residual < SAME_PLACE_LIMIT {
                assert(on_edge(p, a, b, edges@[i as int]));
                return true;
            }
        }
        let a_above = a.y > p.y;
        let b_above = b.y > p.y;
        if a_above != b_above && p.x < m.meet_x {
            inside = !inside;
        }
        j = i;
        i += 1;
    }
    inside
}

/// Whether two lines meet within both segments.
pub fn do_lines_intersect(m: &SideMeasure) -> (meet: bool)
    ensures
        meet == side_meets(*m),
{
    if m.denom < PARALLEL_LIMIT {
        return false;
    }
    0 <= m.along_side && m.along_side <= ONE && 0 <= m.along_edge && m.along_edge <= ONE
}

/// The corners of a box, clockwise from the upper left.
pub fn box_corners(e: &Extent) -> (corners: [Point; 4])
    ensures
        forall|k: int| 0 <= k < 4 ==> #[trigger] corners@[k] == corner(*e, k),
{
    [
        Point { x: e.left, y: e.top },
        Point { x: e.right, y: e.top },
        Point { x: e.right, y: e.bottom },
        Point { x: e.left, y: e.bottom },
    ]
}

/// Whether all four corners of the box lie in the polygon.
pub fn box_contained_in_polygon(e: &Extent, polygon: &Vec<Point>, m: &PolygonMeasure) -> (contained:
    bool)
    requires
        measures(*m, polygon@),
    ensures
        contained == box_contained(*e, polygon@, *m),
{
    let corners = box_corners(e);
    let mut k: usize = 0;
    while k < 4
        invariant
            k <= 4,
            measures(*m, polygon@),
            forall|i: int| 0 <= i < 4 ==> #[trigger] corners@[i] == corner(*e, i),
            forall|i: int| 0 <= i < k ==> #[trigger] corner_inside(*e, polygon@, *m, i),
        decreases 4 - k,
    {
        assert(m.corners@[k as int]@.len() == polygon@.len());
        assert(corners@[k as int] == corner(*e, k as int));
        if !is_point_in_polygon(corners[k], polygon, &m.corners[k]) {
            assert(!corner_inside(*e, polygon@, *m, k as int));
            return false;
        }
        k += 1;
    }
    true
}

/// Whether the box and the polygon share a point.
pub fn box_intersects_polygon(e: &Extent, polygon: &Vec<Point>, m: &PolygonMeasure) -> (intersects:
    bool)
    requires
        measures(*m, polygon@),
    ensures
        intersects == box_intersects(*e, polygon@, *m),
{
    let corners = box_corners(e);
    let mut k: usize = 0;
    while k < 4
        invariant
            k <= 4,
            measures(*m, polygon@),
            forall|i: int| 0 <= i < 4 ==> #[trigger] corners@[i] == corner(*e, i),
            forall|i: int| 0 <= i < k ==> !#[trigger] corner_inside(*e, polygon@, *m, i),
        decreases 4 - k,
    {
        assert(m.corners@[k as int]@.len() == polygon@.len());
        assert(corners@[k as int] == corner(*e, k as int));
        if is_point_in_polygon(corners[k], polygon, &m.corners[k]) {
            assert(corner_inside(*e, polygon@, *m, k as int));
            return true;
        }
        k += 1;
    }
    let mut i: usize = 0;
    while i < polygon.len()
        invariant
            i <= polygon.len(),
            forall|j: int| 0 <= j < i ==> !vertex_in_box(#[trigger] polygon@[j], *e),
        decreases polygon.len() - i,
    {
        let p = polygon[i];
        if p.x >= e.left && p.x <= e.right && p.y >= e.top && p.y <= e.bottom {
            assert(vertex_in_box(polygon@[i as int], *e));
            return true;
        }
        i += 1;
    }
    if polygon.len() < 2 {
        return false;
    }
    let mut i: usize = 0;
    while i < m.sides.len()
        invariant
            i <= m.sides.len(),
            measures(*m, polygon@),
            forall|j: int, s: int|
                0 <= j < i && 0 <= s < 4 ==> !side_meets(#[trigger] m.sides@[j]@[s]),
        decreases m.sides.len() - i,
    {
        assert(m.sides@[i as int]@.len() == 4);
        let mut s: usize = 0;
        while s < 4
            invariant
                s <= 4,
                i < m.sides@.len(),
                m.sides@[i as int]@.len() == 4,
                forall|r: int| 0 <= r < s ==> !side_meets(#[trigger] m.sides@[i as int]@[r]),
            decreases 4 - s,
        {
            if do_lines_intersect(&m.sides[i][s]) {
                assert(side_meets(m.sides@[i as int]@[s as int]));
                return true;
            }
            s += 1;
        }
        i += 1;
    }
    false
}

/// A box that lies in a polygon with all its corners also shares a point with it.
pub proof fn law_contained_box_intersects(e: Extent, polygon: Seq<Point>, m: PolygonMeasure)
    requires
        box_contained(e, polygon, m),
    ensures
        box_intersects(e, polygon, m),
{
    assert(corner_inside(e, polygon, m, 0));
}

/// No box lies in, and no point is inside, an outline with fewer than three vertices.
pub proof fn law_degenerate_polygon_holds_nothing(
    p: Point,
    e: Extent,
    polygon: Seq<Point>,
    edges: Seq<EdgeMeasure>,
    m: PolygonMeasure,
)
    requires
        polygon.len() < 3,
    ensures
        !point_inside(p, polygon, edges),
        !box_contained(e, polygon, m),
{
    assert(!corner_inside(e, polygon, m, 0));
}

/// The corners of a box are its four corners, clockwise from the upper left.
pub proof fn law_the_corners_are_the_corners(e: Extent)
    ensures
        corner(e, 0).x == e.left && corner(e, 0).y == e.top,
        corner(e, 1).x == e.right && corner(e, 1).y == e.top,
        corner(e, 2).x == e.right && corner(e, 2).y == e.bottom,
        corner(e, 3).x == e.left && corner(e, 3).y == e.bottom,
{
}

/// A point on an edge is inside: between the ends of the edge along both axes, and all but on
/// the line through them; an edge that goes straight up or down is told by the distance along
/// x, any other by the one along y.
pub proof fn law_a_point_on_an_edge_is_inside(
    p: Point,
    polygon: Seq<Point>,
    edges: Seq<EdgeMeasure>,
    i: int,
)
    requires
        polygon.len() >= 3,
        0 <= i < polygon.len(),
        ({
            let a = polygon[i];
            let b = if i > 0 {
                polygon[i - 1]
            } else {
                polygon[polygon.len() - 1]
            };
            &&& a.x <= p.x && p.x <= b.x || b.x <= p.x && p.x <= a.x
            &&& a.y <= p.y && p.y <= b.y || b.y <= p.y && p.y <= a.y
            &&& edges[i].run < SAME_PLACE_LIMIT && edges[i].offset < SAME_PLACE_LIMIT
                || edges[i].run >= SAME_PLACE_LIMIT && edges[i].residual < SAME_PLACE_LIMIT
        }),
    ensures
        point_inside(p, polygon, edges),
{
    assert(on_edge(p, polygon[i], edge_start(polygon, i), edges[i]));
}

/// The ends of edge `i` lie on both sides of the height of the point.
pub open spec fn straddles(p: Point, polygon: Seq<Point>, i: int) -> bool {
    let a = polygon[i];
    let b = if i > 0 {
        polygon[i - 1]
    } else {
        polygon[polygon.len() - 1]
    };
    a.y > p.y && b.y <= p.y || a.y <= p.y && b.y > p.y
}

proof fn lemma_ray_counts_one(
    p: Point,
    polygon: Seq<Point>,
    edges: Seq<EdgeMeasure>,
    crossed: Seq<int>,
    n: int,
)
    requires
        0 <= n <= polygon.len(),
        crossed.len() <= 2,
        crossed.len() == 2 ==> crossed[0] < crossed[1],
        forall|k: int| 0 <= k < crossed.len() ==> 0 <= #[trigger] crossed[k] < polygon.len(),
        forall|i: int|
            #![trigger edges[i]]
            0 <= i < polygon.len() ==> (straddles(p, polygon, i) && p.x < edges[i].meet_x
                <==> crossed.contains(i)),
    ensures
        ray_count(p, polygon, edges, n) == (if crossed.len() > 0 && crossed[0] < n {
            1nat
        } else {
            0nat
        }) + (if crossed.len() > 1 && crossed[1] < n {
            1nat
        } else {
            0nat
        }),
    decreases n,
{
    if n > 0 {
        lemma_ray_counts_one(p, polygon, edges, crossed, n - 1);
        let i = n - 1;
        assert(ray_crosses(p, polygon[i], edge_start(polygon, i), edges[i]) <==> straddles(
            p,
            polygon,
            i,
        ) && p.x < edges[i].meet_x);
        assert(straddles(p, polygon, i) && p.x < edges[i].meet_x <==> crossed.contains(i));
        if crossed.len() > 0 && crossed[0] == i {
            assert(crossed.contains(i));
        }
        if crossed.len() > 1 && crossed[1] == i {
            assert(crossed.contains(i));
        }
        if crossed.contains(i) {
            let k = choose|k: int| 0 <= k < crossed.len() && crossed[k] == i;
            assert(k == 0 || k == 1);
        }
    }
}

/// A point with exactly one edge to its right at its height is inside.
pub proof fn law_one_edge_to_the_right_is_inside(
    p: Point,
    polygon: Seq<Point>,
    edges: Seq<EdgeMeasure>,
    c: int,
)
    requires
        polygon.len() >= 3,
        0 <= c < polygon.len(),
        forall|i: int|
            #![trigger edges[i]]
            0 <= i < polygon.len() ==> (straddles(p, polygon, i) && p.x < edges[i].meet_x <==> i
                == c),
    ensures
        point_inside(p, polygon, edges),
{
    let crossed = seq![c];
    assert forall|i: int|
        #![trigger edges[i]]
        0 <= i < polygon.len() implies (straddles(p, polygon, i) && p.x < edges[i].meet_x
        <==> crossed.contains(i)) by {
        if i == c {
            assert(crossed[0] == i);
        }
    }
    lemma_ray_counts_one(p, polygon, edges, crossed, polygon.len() as int);
}

/// A point that is on no edge and has no edge to its right at its height, or exactly two, is
/// outside.
pub proof fn law_no_or_two_edges_to_the_right_are_outside(
    p: Point,
    polygon: Seq<Point>,
    edges: Seq<EdgeMeasure>,
    crossed: Seq<int>,
)
    requires
        crossed.len() == 0 || crossed.len() == 2 && 0 <= crossed[0] < crossed[1] < polygon.len(),
        forall|i: int|
            #![trigger edges[i]]
            0 <= i < polygon.len() ==> (straddles(p, polygon, i) && p.x < edges[i].meet_x
                <==> crossed.contains(i)),
        forall|i: int|
            #![trigger edges[i]]
            0 <= i < polygon.len() ==> {
                let a = polygon[i];
                let b = if i > 0 {
                    polygon[i - 1]
                } else {
                    polygon[polygon.len() - 1]
                };
                ||| p.x < a.x && p.x < b.x || p.x > a.x && p.x > b.x
                ||| p.y < a.y && p.y < b.y || p.y > a.y && p.y > b.y
                ||| edges[i].run < SAME_PLACE_LIMIT && edges[i].offset >= SAME_PLACE_LIMIT
                ||| edges[i].run >= SAME_PLACE_LIMIT && edges[i].residual >= SAME_PLACE_LIMIT
            },
    ensures
        !point_inside(p, polygon, edges),
{
    if polygon.len() >= 3 {
        lemma_ray_counts_one(p, polygon, edges, crossed, polygon.len() as int);
        assert(!on_boundary(p, polygon, edges));
    }
}

proof fn lemma_straddles_are_even(
    p: Point,
    polygon: Seq<Point>,
    edges: Seq<EdgeMeasure>,
    n: int,
)
    requires
        0 < n <= polygon.len(),
        forall|i: int| 0 <= i < polygon.len() ==> p.x < (#[trigger] edges[i]).meet_x,
    ensures
        ray_count(p, polygon, edges, n) % 2 == (if (polygon[n - 1].y > p.y) == (polygon[
        polygon.len() - 1].y > p.y) {
            0nat
        } else {
            1nat
        }),
    decreases n,
{
    assert(p.x < edges[n - 1].meet_x);
    if n > 1 {
        lemma_straddles_are_even(p, polygon, edges, n - 1);
    } else {
        reveal_with_fuel(ray_count, 2);
    }
}

/// A point with the whole polygon to its right is outside, however the edges go.
pub proof fn law_a_point_left_of_the_polygon_is_outside(
    p: Point,
    polygon: Seq<Point>,
    edges: Seq<EdgeMeasure>,
)
    requires
        forall|i: int| 0 <= i < polygon.len() ==> p.x < (#[trigger] polygon[i]).x,
        forall|i: int| 0 <= i < polygon.len() ==> p.x < (#[trigger] edges[i]).meet_x,
    ensures
        !point_inside(p, polygon, edges),
{
    let n = polygon.len() as int;
    if n >= 3 {
        lemma_straddles_are_even(p, polygon, edges, n);
        assert forall|i: int| 0 <= i < n implies !on_edge(
            p,
            polygon[i],
            edge_start(polygon, i),
            #[trigger] edges[i],
        ) by {
            let b = if i == 0 {
                n - 1
            } else {
                i - 1
            };
            assert(p.x < polygon[i].x);
            assert(p.x < polygon[b].x);
        }
    }
}

/// A point above or below the whole polygon is outside, however the edges go.
pub proof fn law_a_point_above_or_below_the_polygon_is_outside(
    p: Point,
    polygon: Seq<Point>,
    edges: Seq<EdgeMeasure>,
    above: bool,
)
    requires
        above ==> forall|i: int| 0 <= i < polygon.len() ==> p.y < (#[trigger] polygon[i]).y,
        !above ==> forall|i: int| 0 <= i < polygon.len() ==> p.y > (#[trigger] polygon[i]).y,
    ensures
        !point_inside(p, polygon, edges),
{
    let n = polygon.len() as int;
    if n >= 3 {
        let none = Seq::<int>::empty();
        assert forall|i: int|
            #![trigger edges[i]]
            0 <= i < n implies !straddles(p, polygon, i) && !on_edge(
            p,
            polygon[i],
            edge_start(polygon, i),
            edges[i],
        ) by {
            let b = if i == 0 {
                n - 1
            } else {
                i - 1
            };
            assert(if above {
                p.y < polygon[i].y && p.y < polygon[b].y
            } else {
                p.y > polygon[i].y && p.y > polygon[b].y
            });
        }
        lemma_ray_counts_one(p, polygon, edges, none, n);
    }
}

/// A box lies in a polygon exactly if each of its four corners does.
pub proof fn law_a_box_lies_where_its_corners_do(
    e: Extent,
    polygon: Seq<Point>,
    m: PolygonMeasure,
)
    ensures
        box_contained(e, polygon, m) <==> {
            &&& point_inside(Point { x: e.left, y: e.top }, polygon, m.corners@[0]@)
            &&& point_inside(Point { x: e.right, y: e.top }, polygon, m.corners@[1]@)
            &&& point_inside(Point { x: e.right, y: e.bottom }, polygon, m.corners@[2]@)
            &&& point_inside(Point { x: e.left, y: e.bottom }, polygon, m.corners@[3]@)
        },
{
    if box_contained(e, polygon, m) {
        assert(corner_inside(e, polygon, m, 0));
        assert(corner_inside(e, polygon, m, 1));
        assert(corner_inside(e, polygon, m, 2));
        assert(corner_inside(e, polygon, m, 3));
    }
}

/// A box shares a point with a polygon if one of its corners is inside, a vertex lies in it or
/// on its edge, or a side and an edge that are not parallel meet within both; and only so.
pub proof fn law_a_shared_point_is_a_corner_a_vertex_or_a_meeting(
    e: Extent,
    polygon: Seq<Point>,
    m: PolygonMeasure,
)
    ensures
        box_intersects(e, polygon, m) <==> {
            ||| point_inside(Point { x: e.left, y: e.top }, polygon, m.corners@[0]@)
            ||| point_inside(Point { x: e.right, y: e.top }, polygon, m.corners@[1]@)
            ||| point_inside(Point { x: e.right, y: e.bottom }, polygon, m.corners@[2]@)
            ||| point_inside(Point { x: e.left, y: e.bottom }, polygon, m.corners@[3]@)
            ||| exists|i: int|
                0 <= i < polygon.len() && e.left <= (#[trigger] polygon[i]).x && polygon[i].x
                    <= e.right && e.top <= polygon[i].y && polygon[i].y <= e.bottom
            ||| exists|i: int, s: int|
                {
                    &&& 0 <= i < m.sides@.len() && 0 <= s < 4
                    &&& (#[trigger] m.sides@[i]@[s]).denom >= PARALLEL_LIMIT
                    &&& 0 <= m.sides@[i]@[s].along_side && m.sides@[i]@[s].along_side <= ONE
                    &&& 0 <= m.sides@[i]@[s].along_edge && m.sides@[i]@[s].along_edge <= ONE
                }
        },
{
    assert(corner_inside(e, polygon, m, 0) == point_inside(
        Point { x: e.left, y: e.top },
        polygon,
        m.corners@[0]@,
    ));
    assert(corner_inside(e, polygon, m, 1) == point_inside(
        Point { x: e.right, y: e.top },
        polygon,
        m.corners@[1]@,
    ));
    assert(corner_inside(e, polygon, m, 2) == point_inside(
        Point { x: e.right, y: e.bottom },
        polygon,
        m.corners@[2]@,
    ));
    assert(corner_inside(e, polygon, m, 3) == point_inside(
        Point { x: e.left, y: e.bottom },
        polygon,
        m.corners@[3]@,
    ));
    if exists|k: int| 0 <= k < 4 && #[trigger] corner_inside(e, polygon, m, k) {
        let k = choose|k: int| 0 <= k < 4 && #[trigger] corner_inside(e, polygon, m, k);
        assert(k == 0 || k == 1 || k == 2 || k == 3);
    }
    if exists|i: int| 0 <= i < polygon.len() && vertex_in_box(#[trigger] polygon[i], e) {
        let i = choose|i: int| 0 <= i < polygon.len() && vertex_in_box(#[trigger] polygon[i], e);
        assert(e.left <= polygon[i].x);
    }
    if exists|i: int|
        0 <= i < polygon.len() && e.left <= (#[trigger] polygon[i]).x && polygon[i].x <= e.right
            && e.top <= polygon[i].y && polygon[i].y <= e.bottom {
        let i = choose|i: int|
            0 <= i < polygon.len() && e.left <= (#[trigger] polygon[i]).x && polygon[i].x
                <= e.right && e.top <= polygon[i].y && polygon[i].y <= e.bottom;
        assert(vertex_in_box(polygon[i], e));
    }
    if exists|i: int, s: int|
        0 <= i < m.sides@.len() && 0 <= s < 4 && side_meets(#[trigger] m.sides@[i]@[s]) {
        let (i, s) = choose|i: int, s: int|
            0 <= i < m.sides@.len() && 0 <= s < 4 && side_meets(#[trigger] m.sides@[i]@[s]);
        assert(m.sides@[i]@[s].denom >= PARALLEL_LIMIT);
    }
    if exists|i: int, s: int|
        {
            &&& 0 <= i < m.sides@.len() && 0 <= s < 4
            &&& (#[trigger] m.sides@[i]@[s]).denom >= PARALLEL_LIMIT
            &&& 0 <= m.sides@[i]@[s].along_side && m.sides@[i]@[s].along_side <= ONE
            &&& 0 <= m.sides@[i]@[s].along_edge && m.sides@[i]@[s].along_edge <= ONE
        } {
        let (i, s) = choose|i: int, s: int|
            {
                &&& 0 <= i < m.sides@.len() && 0 <= s < 4
                &&& (#[trigger] m.sides@[i]@[s]).denom >= PARALLEL_LIMIT
                &&& 0 <= m.sides@[i]@[s].along_side && m.sides@[i]@[s].along_side <= ONE
                &&& 0 <= m.sides@[i]@[s].along_edge && m.sides@[i]@[s].along_edge <= ONE
            };
        assert(side_meets(m.sides@[i]@[s]));
    }
}

} // verus!
