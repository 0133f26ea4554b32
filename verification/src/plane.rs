//! How a plane cuts a triangle, decided from the side of the plane that each
//! corner lies on.
use vstd::prelude::*;

verus! {

/// Where a point lies relative to a plane.
#[derive(Debug, Clone, Copy, PartialEq, Eq, Structural)]
pub enum Side {
    Above,
    On,
    Below,
}

/// A triangle edge that the plane crosses: its two corners, and the line,
/// from corner `from` to corner `to`, on which the crossing point is found.
#[derive(Debug, Clone, Copy, PartialEq, Eq)]
pub struct EdgeCut {
    pub edge: [u32; 2],
    pub from: u32,
    pub to: u32,
}

/// How a plane meets a triangle, by corner numbers `0..3`.
#[derive(Debug, Clone, Copy, PartialEq, Eq)]
pub enum TriCut {
    /// All three corners lie on the plane.
    CoplanarFace,
    /// Exactly these two corners lie on the plane.
    CoplanarEdge([u32; 2]),
    /// One corner touches the plane and the others are on one side.
    CoplanarPoint(u32),
    /// The plane crosses two edges.
    EdgeEdge(EdgeCut, EdgeCut),
    /// The plane crosses one edge and passes through the opposite corner.
    EdgeCoPoint(EdgeCut, u32),
    /// The plane misses the triangle.
    Disjoint,
}

pub open spec fn count_side(s: Seq<Side>, x: Side) -> nat {
    (if s[0] == x { 1nat } else { 0nat }) + (if s[1] == x { 1nat } else { 0nat }) + (if s[2] == x {
        1nat
    } else {
        0nat
    })
}

/// The first corner on side `x`.
pub open spec fn first_on(s: Seq<Side>, x: Side) -> u32 {
    if s[0] == x {
        0
    } else if s[1] == x {
        1
    } else {
        2
    }
}

/// The second corner on side `x`.
pub open spec fn second_on(s: Seq<Side>, x: Side) -> u32 {
    if s[0] == x && s[1] == x {
        1
    } else {
        2
    }
}

/// The cut that [`classify_triangle`] reports for corners on sides `s`.
pub open spec fn triangle_cut(s: Seq<Side>) -> TriCut {
    let on = count_side(s, Side::On);
    let above = count_side(s, Side::Above);
    if on == 3 {
        TriCut::CoplanarFace
    } else if on == 2 {
        TriCut::CoplanarEdge([first_on(s, Side::On), second_on(s, Side::On)])
    } else if above == 3 || (on == 0 && above == 0) {
        TriCut::Disjoint
    } else if on == 1 && (above == 0 || above == 2) {
        TriCut::CoplanarPoint(first_on(s, Side::On))
    } else if on == 1 {
        let a = first_on(s, Side::Above);
        let b = first_on(s, Side::Below);
        TriCut::EdgeCoPoint(EdgeCut { edge: [a, b], from: a, to: b }, first_on(s, Side::On))
    } else if above == 2 {
        let low = first_on(s, Side::Below);
        let h1 = first_on(s, Side::Above);
        let h2 = second_on(s, Side::Above);
        TriCut::EdgeEdge(
            EdgeCut { edge: [low, h1], from: low, to: h1 },
            EdgeCut { edge: [low, h2], from: low, to: h2 },
        )
    } else {
        let high = first_on(s, Side::Above);
        let l1 = first_on(s, Side::Below);
        let l2 = second_on(s, Side::Below);
        TriCut::EdgeEdge(
            EdgeCut { edge: [l1, high], from: high, to: l1 },
            EdgeCut { edge: [l2, high], from: high, to: l2 },
        )
    }
}

/// One corner above the plane and the other below it.
pub open spec fn opposite(a: Side, b: Side) -> bool {
    (a == Side::Above && b == Side::Below) || (a == Side::Below && b == Side::Above)
}

/// `c` joins two corners on opposite sides of the plane, and its line runs
/// from one of them to the other.
pub open spec fn cut_joins(s: Seq<Side>, c: EdgeCut) -> bool {
    &&& c.edge@[0] < 3
    &&& c.edge@[1] < 3
    &&& opposite(s[c.edge@[0] as int], s[c.edge@[1] as int])
    &&& ((c.from == c.edge@[0] && c.to == c.edge@[1]) || (c.from == c.edge@[1] && c.to
        == c.edge@[0]))
}

/// What an answer says about the sides of the corners, answer by answer:
/// which corners lie on the plane, and which two corners each crossed edge
/// joins. Every crossed edge joins a corner above to a corner below.
pub open spec fn cut_describes(s: Seq<Side>, r: TriCut) -> bool {
    match r {
        TriCut::CoplanarFace => s[0] == Side::On && s[1] == Side::On && s[2] == Side::On,
        TriCut::CoplanarEdge(e) => {
            &&& e@[0] < e@[1] < 3
            &&& s[e@[0] as int] == Side::On
            &&& s[e@[1] as int] == Side::On
            &&& s[3 - e@[0] - e@[1]] != Side::On
        },
        TriCut::CoplanarPoint(v) => {
            &&& v < 3
            &&& s[v as int] == Side::On
            &&& s[(v + 1) % 3] != Side::On
            &&& s[(v + 1) % 3] == s[(v + 2) % 3]
        },
        TriCut::EdgeCoPoint(c, v) => {
            &&& v < 3
            &&& s[v as int] == Side::On
            &&& cut_joins(s, c)
            &&& c.from == c.edge@[0]
            &&& s[c.from as int] == Side::Above
        },
        TriCut::EdgeEdge(c1, c2) => {
            &&& s[0] != Side::On && s[1] != Side::On && s[2] != Side::On
            &&& cut_joins(s, c1)
            &&& cut_joins(s, c2)
            &&& c1.from == c2.from
            &&& c1.to < c2.to
            &&& s[c1.edge@[0] as int] == Side::Below
            &&& s[c2.edge@[0] as int] == Side::Below
        },
        TriCut::Disjoint => s[0] != Side::On && s[0] == s[1] && s[1] == s[2],
    }
}

/// Every answer fits the sides of the corners: the plane misses the
/// triangle just when all corners are strictly on one side; corners
/// reported on the plane are on it; and each crossed edge joins a corner
/// above to a corner below, the two crossed edges of a triangle sharing the
/// corner that is alone on its side and running to the two others.
pub proof fn lemma_triangle_cut_describes(s: Seq<Side>)
    requires
        s.len() == 3,
    ensures
        cut_describes(s, triangle_cut(s)),
{
}

fn side_eq(a: Side, b: Side) -> (r: bool)
    ensures
        r == (a == b),
{
    match (a, b) {
        (Side::Above, Side::Above) => true,
        (Side::On, Side::On) => true,
        (Side::Below, Side::Below) => true,
        _ => false,
    }
}

/// The corners on side `x`, in order.
fn corners_on(sides: &[Side; 3], x: Side) -> (r: Vec<u32>)
    ensures
        r@.len() == count_side(sides@, x),
        r@.len() > 0 ==> r@[0] == first_on(sides@, x),
        r@.len() > 1 ==> r@[1] == second_on(sides@, x),
{
    let mut r: Vec<u32> = Vec::new();
    if side_eq(sides[0], x) {
        r.push(0);
    }
    if side_eq(sides[1], x) {
        r.push(1);
    }
    if side_eq(sides[2], x) {
        r.push(2);
    }
    r
}

/// Decides how a plane meets a triangle whose corners lie on `sides`.
pub fn classify_triangle(sides: [Side; 3]) -> (r: TriCut)
    ensures
        r == triangle_cut(sides@),
        cut_describes(sides@, r),
{
    proof {
        lemma_triangle_cut_describes(sides@);
    }
    let on = corners_on(&sides, Side::On);
    let above = corners_on(&sides, Side::Above);
    let below = corners_on(&sides, Side::Below);
    let eq_sum = on.len();
    let ge_sum = above.len();
    proof {
        assert(on@.len() + above@.len() + below@.len() == 3);
    }
    if eq_sum == 3 {
        TriCut::CoplanarFace
    } else if eq_sum == 2 {
        TriCut::CoplanarEdge([on[0], on[1]])
    } else if ge_sum == 3 || (eq_sum == 0 && ge_sum == 0) {
        TriCut::Disjoint
    } else if eq_sum == 1 && (ge_sum == 0 || ge_sum == 2) {
        TriCut::CoplanarPoint(on[0])
    } else if eq_sum == 1 {
        let ids = [above[0], below[0]];
        TriCut::EdgeCoPoint(EdgeCut { edge: ids, from: ids[0], to: ids[1] }, on[0])
    } else if ge_sum == 2 {
        let low_id = below[0];
        let high_id1 = above[0];
        let high_id2 = above[1];
        TriCut::EdgeEdge(
            EdgeCut { edge: [low_id, high_id1], from: low_id, to: high_id1 },
            EdgeCut { edge: [low_id, high_id2], from: low_id, to: high_id2 },
        )
    } else {
        let high_id = above[0];
        let low_id1 = below[0];
        let low_id2 = below[1];
        TriCut::EdgeEdge(
            EdgeCut { edge: [low_id1, high_id], from: high_id, to: low_id1 },
            EdgeCut { edge: [low_id2, high_id], from: high_id, to: low_id2 },
        )
    }
}

} // verus!
