//! The distinct edges of a list of triangles, as drawn in a wireframe.
use vstd::prelude::*;

verus! {

/// The corner after corner `e` in its triangle: corners `3t`, `3t + 1`,
/// `3t + 2` follow each other round triangle `t`.
pub open spec fn next_corner(e: int) -> int {
    if e % 3 == 2 {
        e - 2
    } else {
        e + 1
    }
}

/// The edge from corner `e` to the next corner of its triangle, as a pair of
/// vertex indices with the smaller one first.
pub open spec fn corner_edge(idx: Seq<u32>, e: int) -> (u32, u32) {
    let a = idx[e];
    let b = idx[next_corner(e)];
    if a < b {
        (a, b)
    } else {
        (b, a)
    }
}

/// The edges of the first `n` corners, each kept where it first occurs.
pub open spec fn edge_keys(idx: Seq<u32>, n: nat) -> Seq<(u32, u32)>
    decreases n,
{
    if n == 0 {
        Seq::empty()
    } else {
        let before = edge_keys(idx, (n - 1) as nat);
        let key = corner_edge(idx, n - 1);
        if before.contains(key) {
            before
        } else {
            before.push(key)
        }
    }
}

/// The kept edges repeat none and include the edge of every corner seen.
pub proof fn lemma_edge_keys(idx: Seq<u32>, n: nat)
    ensures
        edge_keys(idx, n).no_duplicates(),
        forall|e: int| 0 <= e < n ==> edge_keys(idx, n).contains(#[trigger] corner_edge(idx, e)),
    decreases n,
{
    if n > 0 {
        lemma_edge_keys(idx, (n - 1) as nat);
        let before = edge_keys(idx, (n - 1) as nat);
        let key = corner_edge(idx, n - 1);
        if !before.contains(key) {
            assert forall|e: int| 0 <= e < n implies edge_keys(idx, n).contains(
                #[trigger] corner_edge(idx, e),
            ) by {
                if e < n - 1 {
                    let q = choose|q: int| 0 <= q < before.len() && before[q] == corner_edge(idx, e);
                    assert(edge_keys(idx, n)[q] == corner_edge(idx, e));
                } else {
                    assert(edge_keys(idx, n)[before.len() as int] == key);
                }
            }
        }
    }
}

/// An edge as a pair of vertex indices, the smaller one first.
pub open spec fn unordered(a: u32, b: u32) -> (u32, u32) {
    if a < b {
        (a, b)
    } else {
        (b, a)
    }
}

/// `key` is the edge between two different corners of one of the full
/// triangles among the first `n` corners.
pub open spec fn is_tri_side(idx: Seq<u32>, n: int, key: (u32, u32)) -> bool {
    exists|c: int, d: int|
        #![trigger unordered(idx[c], idx[d])]
        0 <= c < n && 0 <= d < n && c != d && c / 3 == d / 3 && key == unordered(idx[c], idx[d])
}

/// Corner `e` and the corner after it are two different corners of the same
/// triangle, which lies among the first `n` corners.
proof fn lemma_next_corner(e: int, n: int)
    requires
        0 <= e < n,
        n % 3 == 0,
    ensures
        0 <= next_corner(e) < n,
        next_corner(e) != e,
        next_corner(e) / 3 == e / 3,
{
    vstd::arithmetic::div_mod::lemma_fundamental_div_mod(e, 3);
    vstd::arithmetic::div_mod::lemma_fundamental_div_mod(n, 3);
    let q = e / 3;
    let r = e % 3;
    assert(0 <= r < 3);
    if r == 2 {
        vstd::arithmetic::div_mod::lemma_fundamental_div_mod_converse(e - 2, 3, q, 0);
    } else {
        vstd::arithmetic::div_mod::lemma_fundamental_div_mod_converse(e + 1, 3, q, r + 1);
    }
}

/// The corners of triangle `t` are `3t`, `3t + 1` and `3t + 2`, each followed
/// by the next round the triangle.
proof fn lemma_triangle_corners(t: int)
    requires
        t >= 0,
    ensures
        next_corner(3 * t) == 3 * t + 1,
        next_corner(3 * t + 1) == 3 * t + 2,
        next_corner(3 * t + 2) == 3 * t,
        (3 * t) / 3 == t,
        (3 * t + 1) / 3 == t,
        (3 * t + 2) / 3 == t,
{
    vstd::arithmetic::div_mod::lemma_fundamental_div_mod_converse(3 * t, 3, t, 0);
    vstd::arithmetic::div_mod::lemma_fundamental_div_mod_converse(3 * t + 1, 3, t, 1);
    vstd::arithmetic::div_mod::lemma_fundamental_div_mod_converse(3 * t + 2, 3, t, 2);
}

/// Every kept edge is the edge of some corner seen.
proof fn lemma_edge_keys_from(idx: Seq<u32>, n: nat)
    ensures
        forall|q: int|
            0 <= q < edge_keys(idx, n).len() ==> exists|e: int|
                0 <= e < n && #[trigger] edge_keys(idx, n)[q] == corner_edge(idx, e),
    decreases n,
{
    if n > 0 {
        lemma_edge_keys_from(idx, (n - 1) as nat);
        let before = edge_keys(idx, (n - 1) as nat);
        assert forall|q: int| 0 <= q < edge_keys(idx, n).len() implies exists|e: int|
            0 <= e < n && #[trigger] edge_keys(idx, n)[q] == corner_edge(idx, e) by {
            if q < before.len() {
                assert(edge_keys(idx, n)[q] == before[q]);
                let e = choose|e: int| 0 <= e < n - 1 && before[q] == corner_edge(idx, e);
                assert(0 <= e < n && edge_keys(idx, n)[q] == corner_edge(idx, e));
            } else {
                assert(edge_keys(idx, n)[q] == corner_edge(idx, n - 1));
            }
        }
    }
}

/// The edges kept from the first `n` corners, a whole number of triangles,
/// are exactly the sides of those triangles: each kept pair joins two
/// different corners of one triangle, and each pair of different corners
/// of a triangle is kept, whichever way round it is taken.
pub proof fn lemma_edge_keys_are_sides(idx: Seq<u32>, n: nat)
    requires
        n <= idx.len(),
        n % 3 == 0,
    ensures
        forall|q: int|
            0 <= q < edge_keys(idx, n).len() ==> is_tri_side(
                idx,
                n as int,
                #[trigger] edge_keys(idx, n)[q],
            ),
        forall|c: int, d: int|
            #![trigger unordered(idx[c], idx[d])]
            0 <= c < n && 0 <= d < n && c != d && c / 3 == d / 3 ==> edge_keys(idx, n).contains(
                unordered(idx[c], idx[d]),
            ),
{
    lemma_edge_keys_from(idx, n);
    lemma_edge_keys(idx, n);
    assert forall|q: int| 0 <= q < edge_keys(idx, n).len() implies is_tri_side(
        idx,
        n as int,
        #[trigger] edge_keys(idx, n)[q],
    ) by {
        let e = choose|e: int| 0 <= e < n && #[trigger] edge_keys(idx, n)[q] == corner_edge(idx, e);
        lemma_next_corner(e, n as int);
        let d = next_corner(e);
        assert(corner_edge(idx, e) == unordered(idx[e], idx[d]));
    }
    assert forall|c: int, d: int|
        0 <= c < n && 0 <= d < n && c != d && c / 3 == d / 3 implies edge_keys(idx, n).contains(
        #[trigger] unordered(idx[c], idx[d]),
    ) by {
        let t = c / 3;
        vstd::arithmetic::div_mod::lemma_fundamental_div_mod(c, 3);
        vstd::arithmetic::div_mod::lemma_fundamental_div_mod(d, 3);
        lemma_triangle_corners(t);
        lemma_next_corner(c, n as int);
        assert(3 * t <= c < 3 * t + 3);
        assert(3 * t <= d < 3 * t + 3);
        vstd::arithmetic::div_mod::lemma_fundamental_div_mod(n as int, 3);
        assert(3 * t + 2 < n);
        let lo = if c < d { c } else { d };
        let hi = if c < d { d } else { c };
        assert(unordered(idx[c], idx[d]) == unordered(idx[lo], idx[hi]));
        if lo == 3 * t && hi == 3 * t + 1 {
            assert(corner_edge(idx, 3 * t) == unordered(idx[lo], idx[hi]));
        } else if lo == 3 * t + 1 {
            assert(corner_edge(idx, 3 * t + 1) == unordered(idx[lo], idx[hi]));
        } else {
            assert(corner_edge(idx, 3 * t + 2) == unordered(idx[lo], idx[hi]));
        }
    }
}

/// The distinct edges of the triangles `indices[3t], indices[3t + 1],
/// indices[3t + 2]`, each as a pair with the smaller vertex index first, in
/// the order they are first met going round the triangles. Trailing indices
/// that make no full triangle are ignored.
pub fn unique_tri_edges(indices: &Vec<u32>) -> (r: Vec<(u32, u32)>)
    ensures
        r@ == edge_keys(indices@, (indices@.len() - indices@.len() % 3) as nat),
        r@.no_duplicates(),
        forall|e: int|
            0 <= e < indices@.len() - indices@.len() % 3 ==> r@.contains(
                #[trigger] corner_edge(indices@, e),
            ),
        forall|q: int|
            0 <= q < r@.len() ==> is_tri_side(
                indices@,
                indices@.len() - indices@.len() % 3,
                #[trigger] r@[q],
            ),
        forall|c: int, d: int|
            #![trigger unordered(indices@[c], indices@[d])]
            0 <= c < indices@.len() - indices@.len() % 3 && 0 <= d < indices@.len()
                - indices@.len() % 3 && c != d && c / 3 == d / 3 ==> r@.contains(
                unordered(indices@[c], indices@[d]),
            ),
{
    let len = indices.len();
    let n = len - len % 3;
    let mut keys: Vec<(u32, u32)> = Vec::new();
    let mut e: usize = 0;
    while e < n
        invariant
            len == indices@.len(),
            n == len - len % 3,
            e <= n,
            keys@ == edge_keys(indices@, e as nat),
        decreases n - e,
    {
        let nx = if e % 3 == 2 {
            e - 2
        } else {
            e + 1
        };
        let a = indices[e];
        let b = indices[nx];
        let key = if a < b {
            (a, b)
        } else {
            (b, a)
        };
        let mut found = false;
        let mut m: usize = 0;
        while m < keys.len()
            invariant
                m <= keys@.len(),
                found <==> exists|q: int| 0 <= q < m && keys@[q] == key,
            decreases keys@.len() - m,
        {
            if keys[m].0 == key.0 && keys[m].1 == key.1 {
                found = true;
            }
            m = m + 1;
        }
        proof {
            assert(key == corner_edge(indices@, e as int));
            if keys@.contains(key) {
                let q = choose|q: int| 0 <= q < keys@.len() && keys@[q] == key;
                assert(found);
            }
            if found {
                let q = choose|q: int| 0 <= q < m && keys@[q] == key;
                assert(keys@.contains(key));
            }
        }
        if !found {
            keys.push(key);
        }
        e = e + 1;
    }
    proof {
        lemma_edge_keys(indices@, n as nat);
        vstd::arithmetic::div_mod::lemma_fundamental_div_mod(len as int, 3);
        vstd::arithmetic::div_mod::lemma_fundamental_div_mod_converse(n as int, 3, len as int / 3, 0);
        lemma_edge_keys_are_sides(indices@, n as nat);
    }
    keys
}

} // verus!
