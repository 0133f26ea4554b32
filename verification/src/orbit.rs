//! Walking along `next` pointers: orbits and cycles of half edges.
use vstd::prelude::*;
use vstd::set_lib::{lemma_int_range, lemma_len_subset, set_int_range};

use crate::mesh::HalfEdge;

verus! {

/// The half edge reached from `e` after following `next` `k` times.
pub open spec fn next_iter(es: Seq<HalfEdge>, e: int, k: nat) -> int
    decreases k,
{
    if k == 0 {
        e
    } else {
        es[next_iter(es, e, (k - 1) as nat)].next as int
    }
}

/// `e` indexes a half edge of `es`; the trigger for facts about each edge.
pub open spec fn is_edge(es: Seq<HalfEdge>, e: int) -> bool {
    0 <= e < es.len()
}

/// `next` and `prev` are in range and inverse to each other.
#[verifier::opaque]
pub open spec fn links_ok(es: Seq<HalfEdge>) -> bool {
    forall|e: int|
        #[trigger] is_edge(es, e) ==> {
            &&& es[e].next < es.len()
            &&& es[e].prev < es.len()
            &&& es[es[e].next as int].prev == e
            &&& es[es[e].prev as int].next == e
        }
}

/// Walking `k > 0` steps from `e` comes back to `e`, and no shorter walk does.
pub open spec fn returns_at(es: Seq<HalfEdge>, e: int, k: nat) -> bool {
    &&& k > 0
    &&& next_iter(es, e, k) == e
    &&& forall|j: nat| 0 < j < k ==> #[trigger] next_iter(es, e, j) != e
}

/// The number of half edges on the `next` cycle through `e`.
pub open spec fn orbit_len(es: Seq<HalfEdge>, e: int) -> nat {
    choose|k: nat| returns_at(es, e, k)
}

/// The half edges of the cycle through `e`, starting with `e`.
pub open spec fn orbit(es: Seq<HalfEdge>, e: int) -> Seq<u32> {
    Seq::new(orbit_len(es, e), |j: int| next_iter(es, e, j as nat) as u32)
}

/// `s` lists, without repetition, a closed walk along `next`.
pub open spec fn is_cycle(es: Seq<HalfEdge>, s: Seq<u32>) -> bool {
    &&& s.len() > 0
    &&& s.no_duplicates()
    &&& forall|i: int| 0 <= i < s.len() ==> #[trigger] s[i] < es.len()
    &&& forall|i: int| 0 <= i < s.len() - 1 ==> es[#[trigger] s[i] as int].next == s[i + 1]
    &&& es[s.last() as int].next == s[0]
}

/// What [`links_ok`] says of one half edge.
pub proof fn lemma_links(es: Seq<HalfEdge>, e: int)
    requires
        links_ok(es),
        0 <= e < es.len(),
    ensures
        es[e].next < es.len(),
        es[e].prev < es.len(),
        es[es[e].next as int].prev == e,
        es[es[e].prev as int].next == e,
{
    reveal(links_ok);
    assert(is_edge(es, e));
}

pub proof fn lemma_next_iter_range(es: Seq<HalfEdge>, e: int, k: nat)
    requires
        links_ok(es),
        0 <= e < es.len(),
    ensures
        0 <= next_iter(es, e, k) < es.len(),
    decreases k,
{
    if k > 0 {
        lemma_next_iter_range(es, e, (k - 1) as nat);
        lemma_links(es, next_iter(es, e, (k - 1) as nat));
    }
}

/// One step more from `e` is the same as the walk from `next(e)`.
pub proof fn lemma_next_iter_succ(es: Seq<HalfEdge>, e: int, k: nat)
    ensures
        next_iter(es, e, k + 1) == next_iter(es, es[e].next as int, k),
    decreases k,
{
    let ne = es[e].next as int;
    assert(next_iter(es, e, k + 1) == es[next_iter(es, e, k)].next as int);
    if k > 0 {
        lemma_next_iter_succ(es, e, (k - 1) as nat);
        assert(next_iter(es, ne, k) == es[next_iter(es, ne, (k - 1) as nat)].next as int);
    }
}

/// Walks compose.
pub proof fn lemma_next_iter_add(es: Seq<HalfEdge>, e: int, a: nat, b: nat)
    ensures
        next_iter(es, e, a + b) == next_iter(es, next_iter(es, e, a), b),
    decreases b,
{
    if b > 0 {
        lemma_next_iter_add(es, e, a, (b - 1) as nat);
        assert((a + b - 1) as nat == a + (b - 1) as nat);
    }
}

proof fn lemma_shift_down(es: Seq<HalfEdge>, e: int, i: nat, j: nat)
    requires
        links_ok(es),
        0 <= e < es.len(),
        i <= j,
        next_iter(es, e, i) == next_iter(es, e, j),
    ensures
        next_iter(es, e, 0) == next_iter(es, e, (j - i) as nat),
    decreases i,
{
    if i > 0 {
        let x = next_iter(es, e, (i - 1) as nat);
        let y = next_iter(es, e, (j - 1) as nat);
        lemma_next_iter_range(es, e, (i - 1) as nat);
        lemma_next_iter_range(es, e, (j - 1) as nat);
        lemma_links(es, x);
        lemma_links(es, y);
        assert((j - 1 - (i - 1)) as nat == (j - i) as nat);
        lemma_shift_down(es, e, (i - 1) as nat, (j - 1) as nat);
    }
}

proof fn lemma_first_return(es: Seq<HalfEdge>, e: int, k: nat)
    requires
        k > 0,
        next_iter(es, e, k) == e,
    ensures
        returns_at(es, e, orbit_len(es, e)),
        orbit_len(es, e) <= k,
    decreases k,
{
    if forall|j: nat| 0 < j < k ==> #[trigger] next_iter(es, e, j) != e {
        assert(returns_at(es, e, k));
        lemma_returns_unique(es, e, k, orbit_len(es, e));
    } else {
        let j = choose|j: nat| 0 < j < k && #[trigger] next_iter(es, e, j) == e;
        lemma_first_return(es, e, j);
    }
}

/// The length of a returning walk is unique.
pub proof fn lemma_returns_unique(es: Seq<HalfEdge>, e: int, k1: nat, k2: nat)
    requires
        returns_at(es, e, k1),
    ensures
        returns_at(es, e, k2) ==> k1 == k2,
{
    if returns_at(es, e, k2) {
        if k1 < k2 {
            assert(next_iter(es, e, k1) != e);
        } else if k2 < k1 {
            assert(next_iter(es, e, k2) != e);
        }
    }
}

/// Every half edge lies on a finite `next` cycle of at most `es.len()` edges.
pub proof fn lemma_orbit_exists(es: Seq<HalfEdge>, e: int)
    requires
        links_ok(es),
        0 <= e < es.len(),
    ensures
        returns_at(es, e, orbit_len(es, e)),
        0 < orbit_len(es, e) <= es.len(),
{
    let n = es.len();
    let s = Seq::new(n + 1, |i: int| next_iter(es, e, i as nat));
    assert forall|i: int| 0 <= i < s.len() implies set_int_range(0, n as int).contains(
        #[trigger] s[i],
    ) by {
        lemma_next_iter_range(es, e, i as nat);
    }
    if s.no_duplicates() {
        s.unique_seq_to_set();
        lemma_int_range(0, n as int);
        assert(s.to_set().subset_of(set_int_range(0, n as int)));
        lemma_len_subset(s.to_set(), set_int_range(0, n as int));
        assert(false);
    }
    let (i, j) = choose|i: int, j: int|
        0 <= i < s.len() && 0 <= j < s.len() && i != j && s[i] == s[j];
    let (a, b) = if i < j {
        (i, j)
    } else {
        (j, i)
    };
    assert(s[a] == s[b]);
    lemma_shift_down(es, e, a as nat, b as nat);
    lemma_first_return(es, e, (b - a) as nat);
}

/// A listed cycle is the orbit of each of its members.
pub proof fn lemma_cycle_orbit(es: Seq<HalfEdge>, s: Seq<u32>, i: int)
    requires
        is_cycle(es, s),
        0 <= i < s.len(),
    ensures
        returns_at(es, s[i] as int, s.len()),
        orbit_len(es, s[i] as int) == s.len(),
        forall|j: int|
            0 <= j < s.len() ==> #[trigger] next_iter(es, s[i] as int, j as nat) == s[
                if i + j < s.len() {
                    i + j
                } else {
                    i + j - s.len()
                }
            ],
{
    let n = s.len() as int;
    assert forall|j: int| 0 <= j <= n implies #[trigger] next_iter(es, s[i] as int, j as nat) == s[
        if i + j < n {
            i + j
        } else {
            i + j - n
        }
    ] by {
        lemma_cycle_walk(es, s, i, j);
    }
    assert(next_iter(es, s[i] as int, n as nat) == s[i]);
    assert forall|j: nat| 0 < j < n implies #[trigger] next_iter(es, s[i] as int, j) != s[i] by {
        let k = if i + j < n {
            i + j
        } else {
            i + j - n
        };
        lemma_cycle_walk(es, s, i, j as int);
        assert(k != i);
    }
    assert(returns_at(es, s[i] as int, n as nat));
    lemma_returns_unique(es, s[i] as int, n as nat, orbit_len(es, s[i] as int));
    lemma_first_return(es, s[i] as int, n as nat);
}

proof fn lemma_cycle_walk(es: Seq<HalfEdge>, s: Seq<u32>, i: int, j: int)
    requires
        is_cycle(es, s),
        0 <= i < s.len(),
        0 <= j <= s.len(),
    ensures
        next_iter(es, s[i] as int, j as nat) == s[
            if i + j < s.len() {
                i + j
            } else {
                i + j - s.len()
            }
        ],
    decreases j,
{
    if j > 0 {
        lemma_cycle_walk(es, s, i, j - 1);
        assert((j - 1) as nat == (j as nat - 1) as nat);
        let n = s.len() as int;
        let k = if i + j - 1 < n {
            i + j - 1
        } else {
            i + j - 1 - n
        };
        if k == n - 1 {
            assert(es[s[k] as int].next == s[0]);
        } else {
            assert(es[s[k] as int].next == s[k + 1]);
        }
    }
}


/// A listed cycle is the orbit of its first member.
pub proof fn lemma_cycle_is_orbit(es: Seq<HalfEdge>, s: Seq<u32>)
    requires
        is_cycle(es, s),
    ensures
        orbit(es, s[0] as int) == s,
{
    lemma_cycle_orbit(es, s, 0);
    assert(orbit(es, s[0] as int) =~= s);
}

/// The orbit of a half edge is a cycle that starts with it and ends with
/// its `prev`.
pub proof fn lemma_orbit_is_cycle(es: Seq<HalfEdge>, e: int)
    requires
        links_ok(es),
        0 <= e < es.len(),
    ensures
        is_cycle(es, orbit(es, e)),
        orbit(es, e).len() == orbit_len(es, e),
        orbit(es, e)[0] == e,
        orbit(es, e).last() == es[e].prev,
        forall|j: int| 0 <= j < orbit_len(es, e) ==> #[trigger] orbit(es, e)[j] == next_iter(es, e, j as nat),
{
    lemma_orbit_exists(es, e);
    let k = orbit_len(es, e);
    let s = orbit(es, e);
    assert forall|j: int| 0 <= j <= k implies 0 <= #[trigger] next_iter(es, e, j as nat) < es.len()
        && next_iter(es, e, j as nat) <= u32::MAX by {
        lemma_next_iter_range(es, e, j as nat);
        if j > 0 {
            lemma_next_iter_range(es, e, (j - 1) as nat);
        }
    }
    assert(e == next_iter(es, e, k));
    assert forall|j: int| 0 <= j < k implies #[trigger] s[j] == next_iter(es, e, j as nat) by {}
    assert forall|i: int, j: int| 0 <= i < s.len() && 0 <= j < s.len() && i != j implies s[i] != s[j] by {
        if s[i] == s[j] {
            let (a, b) = if i < j {
                (i, j)
            } else {
                (j, i)
            };
            lemma_shift_down(es, e, a as nat, b as nat);
            assert(next_iter(es, e, (b - a) as nat) != e);
        }
    }
    assert forall|i: int| 0 <= i < s.len() - 1 implies es[#[trigger] s[i] as int].next == s[i + 1] by {
        assert(next_iter(es, e, (i + 1) as nat) == es[next_iter(es, e, i as nat)].next as int);
    }
    assert(next_iter(es, e, k) == es[next_iter(es, e, (k - 1) as nat)].next as int);
    lemma_links(es, s.last() as int);
}


/// Rotating a listed cycle gives a listed cycle.
pub proof fn lemma_rotate_cycle(es: Seq<HalfEdge>, s: Seq<u32>, i: int)
    requires
        is_cycle(es, s),
        0 <= i < s.len(),
    ensures
        is_cycle(es, s.subrange(i, s.len() as int) + s.subrange(0, i)),
{
    let n = s.len() as int;
    let t = s.subrange(i, n) + s.subrange(0, i);
    assert forall|a: int| 0 <= a < n implies #[trigger] t[a] == s[
        if a + i < n {
            a + i
        } else {
            a + i - n
        }
    ] by {}
    assert forall|a: int, b: int| 0 <= a < n && 0 <= b < n && a != b implies t[a] != t[b] by {
        let ia = if a + i < n {
            a + i
        } else {
            a + i - n
        };
        let ib = if b + i < n {
            b + i
        } else {
            b + i - n
        };
        assert(t[a] == s[ia] && t[b] == s[ib]);
    }
    assert forall|a: int| 0 <= a < n - 1 implies es[#[trigger] t[a] as int].next == t[a + 1] by {
        let ia = if a + i < n {
            a + i
        } else {
            a + i - n
        };
        assert(t[a] == s[ia]);
        if ia == n - 1 {
            assert(t[a + 1] == s[0]);
        } else {
            assert(t[a + 1] == s[ia + 1]);
        }
    }
    let il = if n - 1 + i < n {
        n - 1 + i
    } else {
        n - 1 + i - n
    };
    assert(t.last() == s[il]);
    if il == n - 1 {
    } else {
        assert(t[0] == s[il + 1]);
    }
}

/// Every `next` pointer is in range.
pub open spec fn nexts_in_range(es: Seq<HalfEdge>) -> bool {
    forall|e: int| 0 <= e < es.len() ==> #[trigger] es[e].next < es.len()
}

/// The walk along `next` from `r` comes back to `r`.
pub open spec fn walk_closes(es: Seq<HalfEdge>, r: int) -> bool {
    returns_at(es, r, orbit_len(es, r))
}

/// With every `next` in range, walks stay in range.
pub proof fn lemma_walk_in_range(es: Seq<HalfEdge>, e: int, k: nat)
    requires
        nexts_in_range(es),
        0 <= e < es.len(),
    ensures
        0 <= next_iter(es, e, k) < es.len(),
    decreases k,
{
    if k > 0 {
        lemma_walk_in_range(es, e, (k - 1) as nat);
    }
}

/// A walk that comes back first comes back within `es.len()` steps, and its
/// length is the one [`orbit_len`] names.
pub proof fn lemma_return_bound(es: Seq<HalfEdge>, e: int, k: nat)
    requires
        nexts_in_range(es),
        0 <= e < es.len(),
        returns_at(es, e, k),
    ensures
        k <= es.len(),
        walk_closes(es, e),
        orbit_len(es, e) == k,
{
    lemma_returns_unique(es, e, k, orbit_len(es, e));
    if k > es.len() {
        let n = es.len();
        let s = Seq::new(n + 1, |i: int| next_iter(es, e, i as nat));
        assert forall|i: int| 0 <= i < s.len() implies set_int_range(0, n as int).contains(
            #[trigger] s[i],
        ) by {
            lemma_walk_in_range(es, e, i as nat);
        }
        if s.no_duplicates() {
            s.unique_seq_to_set();
            lemma_int_range(0, n as int);
            assert(s.to_set().subset_of(set_int_range(0, n as int)));
            lemma_len_subset(s.to_set(), set_int_range(0, n as int));
            assert(false);
        }
        let (i, j) = choose|i: int, j: int|
            0 <= i < s.len() && 0 <= j < s.len() && i != j && s[i] == s[j];
        let (a, b) = if i < j {
            (i, j)
        } else {
            (j, i)
        };
        // the walk repeats from `a` on with period `b - a`, so it is back at
        // `e` after `a + (k - b)` steps, fewer than `k`
        let t = (k - b) as nat;
        lemma_next_iter_add(es, e, a as nat, t);
        lemma_next_iter_add(es, e, b as nat, t);
        assert(next_iter(es, e, (b + t) as nat) == e);
        assert(next_iter(es, e, (a + t) as nat) == e);
        assert(0 < a + t < k);
    }
}

} // verus!
