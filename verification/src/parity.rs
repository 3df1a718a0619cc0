//! The parity of a permutation: the walk along its cycles that `parity`
//! computes gives the parity of its number of inversions, so exchanging two
//! entries changes it, and each turn changes it as its quarter turns say.
use vstd::prelude::*;

use crate::corners::{
    cid, corner_ids, corner_lanes, corner_parity, corner_turn, corners_after, corners_compose,
    corners_ident, corners_perm, ctw,
};
use crate::edges::{
    edge_ids, edge_lanes, edge_parity, edge_turn, edges_after, edges_compose, edges_ident, edges_perm,
    efl, eid,
};
use crate::turns::{quarters, Turn};
use crate::perm::{
    count_below, first_positions, hits, injective_upto, lemma_count_remove, lemma_injective_onto,
    lowest_from, parity_walk,
};

verus! {

/// Whether the first `n` entries of `s` are the numbers `0..n`, each once.
pub open spec fn perm_upto(s: Seq<u8>, n: int) -> bool {
    &&& 0 <= n <= s.len()
    &&& forall|i: int| 0 <= i < n ==> (#[trigger] s[i]) < n
    &&& forall|i: int, j: int| 0 <= i < n && 0 <= j < n && i != j ==> #[trigger] s[i] != #[trigger] s[j]
}

/// `s` with the entries at `i` and `j` exchanged.
pub open spec fn swap(s: Seq<u8>, i: int, j: int) -> Seq<u8> {
    s.update(i, s[j]).update(j, s[i])
}

/// How many of the first `k` entries of `s` are greater than `v`.
pub open spec fn greater_before(s: Seq<u8>, k: int, v: u8) -> int
    decreases k,
{
    if k <= 0 {
        0
    } else {
        greater_before(s, k - 1, v) + if s[k - 1] > v {
            1int
        } else {
            0int
        }
    }
}

/// The number of inversions among the first `n` entries of `s`: pairs of
/// positions whose entries are in decreasing order.
pub open spec fn inv_count(s: Seq<u8>, n: int) -> int
    decreases n,
{
    if n <= 0 {
        0
    } else {
        inv_count(s, n - 1) + greater_before(s, n - 1, s[n - 1])
    }
}

/// Counts over the first `n` entries depend on those entries only.
proof fn lemma_prefix_agree(s: Seq<u8>, t: Seq<u8>, n: int)
    requires
        forall|i: int| 0 <= i < n ==> s[i] == t[i],
    ensures
        inv_count(s, n) == inv_count(t, n),
        forall|v: u8| greater_before(s, n, v) == greater_before(t, n, v),
    decreases n,
{
    if n > 0 {
        lemma_prefix_agree(s, t, n - 1);
        assert forall|v: u8| greater_before(s, n, v) == greater_before(t, n, v) by {
            assert(greater_before(s, n - 1, v) == greater_before(t, n - 1, v));
        }
    }
}

/// Exchanging two entries below `k` keeps how many of them exceed `v`.
proof fn lemma_greater_swap(s: Seq<u8>, x: int, y: int, k: int, v: u8)
    requires
        0 <= x < k,
        0 <= y < k,
        k <= s.len(),
    ensures
        greater_before(swap(s, x, y), k, v) == greater_before(s, k, v),
    decreases k,
{
    let t = swap(s, x, y);
    if x == y {
        assert(t =~= s);
    } else if k - 1 != x && k - 1 != y {
        lemma_greater_swap(s, x, y, k - 1, v);
    } else {
        // the last position is one of the two: peel it and the other one
        let o = if k - 1 == x {
            y
        } else {
            x
        };
        lemma_greater_count_without(s, k - 1, o, v);
        lemma_greater_count_without(t, k - 1, o, v);
        assert forall|i: int| 0 <= i < k - 1 && i != o implies s[i] == t[i] by {}
        lemma_greater_same_except(s, t, k - 1, o, v);
    }
}

/// How many of the first `k` entries exceed `v`, counting the entry at `o`
/// apart.
proof fn lemma_greater_count_without(s: Seq<u8>, k: int, o: int, v: u8)
    requires
        0 <= o < k,
        k <= s.len(),
    ensures
        greater_before(s, k, v) == greater_before(s.update(o, v), k, v) + if s[o] > v {
            1int
        } else {
            0int
        },
    decreases k,
{
    let u = s.update(o, v);
    if k - 1 > o {
        lemma_greater_count_without(s, k - 1, o, v);
        assert(u[k - 1] == s[k - 1]);
    } else {
        lemma_prefix_agree(s, u, k - 1);
        assert(greater_before(s, k - 1, v) == greater_before(u, k - 1, v));
        assert(u[k - 1] == v);
    }
}

/// Entries that agree but at `o` give the same counts once `o` is set to
/// `v`.
proof fn lemma_greater_same_except(s: Seq<u8>, t: Seq<u8>, k: int, o: int, v: u8)
    requires
        0 <= o < k,
        k <= s.len(),
        k <= t.len(),
        forall|i: int| 0 <= i < k && i != o ==> s[i] == t[i],
    ensures
        greater_before(s.update(o, v), k, v) == greater_before(t.update(o, v), k, v),
{
    let a = s.update(o, v);
    let b = t.update(o, v);
    assert forall|i: int| 0 <= i < k implies a[i] == b[i] by {}
    lemma_prefix_agree(a, b, k);
    assert(greater_before(a, k, v) == greater_before(b, k, v));
}

/// Exchanging two neighbouring different entries adds or removes exactly
/// one inversion.
proof fn lemma_inv_adjacent(s: Seq<u8>, k: int, n: int)
    requires
        0 <= k,
        k + 1 < n,
        n <= s.len(),
        s[k] != s[k + 1],
    ensures
        inv_count(swap(s, k, k + 1), n) == inv_count(s, n) + if s[k] < s[k + 1] {
            1int
        } else {
            -1int
        },
    decreases n,
{
    let t = swap(s, k, k + 1);
    if n > k + 2 {
        lemma_inv_adjacent(s, k, n - 1);
        lemma_greater_swap(s, k, k + 1, n - 1, s[n - 1]);
        assert(t[n - 1] == s[n - 1]);
    } else {
        lemma_prefix_agree(s, t, k);
        assert(t[k] == s[k + 1]);
        assert(t[k + 1] == s[k]);
        assert(greater_before(t, k, s[k]) == greater_before(s, k, s[k]));
        assert(greater_before(t, k, s[k + 1]) == greater_before(s, k, s[k + 1]));
        assert(inv_count(s, k + 2) == inv_count(s, k + 1) + greater_before(s, k + 1, s[k + 1]));
        assert(inv_count(s, k + 1) == inv_count(s, k) + greater_before(s, k, s[k]));
        assert(inv_count(t, k + 2) == inv_count(t, k + 1) + greater_before(t, k + 1, t[k + 1]));
        assert(inv_count(t, k + 1) == inv_count(t, k) + greater_before(t, k, t[k]));
        assert(greater_before(t, k + 1, s[k]) == greater_before(t, k, s[k]) + if s[k + 1] > s[k] {
            1int
        } else {
            0int
        });
        assert(greater_before(s, k + 1, s[k + 1]) == greater_before(s, k, s[k + 1]) + if s[k] > s[k + 1] {
            1int
        } else {
            0int
        });
    }
}

/// Whether the first `n` entries of `s` are all different.
pub open spec fn distinct_upto(s: Seq<u8>, n: int) -> bool {
    forall|i: int, j: int| 0 <= i < n && 0 <= j < n && i != j ==> #[trigger] s[i] != #[trigger] s[j]
}

/// Exchanging two different entries among the first `n` changes the parity
/// of the number of inversions.
pub proof fn lemma_inv_swap(s: Seq<u8>, x: int, y: int, n: int)
    requires
        0 <= x < y < n,
        n <= s.len(),
        distinct_upto(s, n),
    ensures
        inv_count(swap(s, x, y), n) % 2 != inv_count(s, n) % 2,
        distinct_upto(swap(s, x, y), n),
    decreases y - x,
{
    let t = swap(s, x, y);
    assert(distinct_upto(t, n)) by {
        assert forall|i: int, j: int| 0 <= i < n && 0 <= j < n && i != j implies #[trigger] t[i] != #[trigger] t[j] by {
            let si = if i == x { y } else if i == y { x } else { i };
            let sj = if j == x { y } else if j == y { x } else { j };
            assert(t[i] == s[si]);
            assert(t[j] == s[sj]);
        }
    }
    if y == x + 1 {
        lemma_inv_adjacent(s, x, n);
    } else {
        let a = swap(s, x, x + 1);
        lemma_inv_adjacent(s, x, n);
        lemma_inv_swap(s, x, x + 1, n);
        let b = swap(a, x + 1, y);
        lemma_inv_swap(a, x + 1, y, n);
        let c = swap(b, x, x + 1);
        assert(b[x] != b[x + 1]);
        lemma_inv_adjacent(b, x, n);
        assert(c =~= t);
    }
}

/// What `lowest_from` finds: the least member of `s` from `k` on, below 16,
/// or 16 when there is none.
proof fn lemma_lowest(s: Set<int>, k: int)
    requires
        0 <= k <= 16,
    ensures
        k <= lowest_from(s, k) <= 16,
        lowest_from(s, k) < 16 ==> s.contains(lowest_from(s, k)),
        forall|j: int| k <= j < lowest_from(s, k) ==> !s.contains(j),
    decreases 16 - k,
{
    if k < 16 && !s.contains(k) {
        lemma_lowest(s, k + 1);
    }
}

/// Starting the walk with the other parity gives the other result.
proof fn lemma_walk_flip(ids: Seq<u8>, u: Set<int>, i: int, acc: bool)
    ensures
        parity_walk(ids, u, i, !acc) == !parity_walk(ids, u, i, acc),
    decreases count_below(u, 16),
{
    if 0 <= i < 16 && u.contains(i) {
        lemma_count_remove(u, i, 16);
        let v = u.remove(i);
        let j = ids[i] as int;
        if j != i && v.contains(j) {
            lemma_walk_flip(ids, v, j, !acc);
        } else {
            lemma_walk_flip(ids, v, lowest_from(v, 0), acc);
        }
    }
}

/// The walk reads the map only at the positions not yet seen.
proof fn lemma_walk_agree(p: Seq<u8>, q: Seq<u8>, u: Set<int>, i: int, acc: bool)
    requires
        forall|j: int| u.contains(j) ==> p[j] == q[j],
    ensures
        parity_walk(p, u, i, acc) == parity_walk(q, u, i, acc),
    decreases count_below(u, 16),
{
    if 0 <= i < 16 && u.contains(i) {
        lemma_count_remove(u, i, 16);
        let v = u.remove(i);
        let j = p[i] as int;
        if j != i && v.contains(j) {
            lemma_walk_agree(p, q, v, j, !acc);
        } else {
            lemma_walk_agree(p, q, v, lowest_from(v, 0), acc);
        }
    }
}

/// A position `m` above all others that the map keeps in place adds
/// nothing to the walk: the walk without it gives the same parity.
proof fn lemma_walk_drop_fixed(p: Seq<u8>, u: Set<int>, i: int, acc: bool, m: int)
    requires
        0 <= m < 16,
        p[m] == m,
        u.contains(m),
        u.contains(i),
        forall|j: int| u.contains(j) ==> 0 <= j <= m,
        forall|j: int| u.contains(j) && j != m ==> p[j] != m,
        i == m ==> u == set![m],
    ensures
        parity_walk(p, u, i, acc) == parity_walk(p, u.remove(m), if i == m { 16 } else { i }, acc),
    decreases count_below(u, 16),
{
    lemma_count_remove(u, i, 16);
    let v = u.remove(i);
    if i == m {
        assert(v =~= Set::<int>::empty());
        lemma_lowest(v, 0);
    } else {
        let j = p[i] as int;
        let w = u.remove(m);
        assert(w.remove(i) =~= v.remove(m));
        if j != i && v.contains(j) {
            lemma_walk_drop_fixed(p, v, j, !acc, m);
        } else {
            lemma_lowest(v, 0);
            lemma_lowest(v.remove(m), 0);
            let l = lowest_from(v, 0);
            if v.remove(m) =~= Set::<int>::empty() {
                assert(v =~= set![m]);
                assert(l == m) by {
                    if l < m {
                        assert(!v.contains(l));
                    }
                }
                lemma_walk_drop_fixed(p, v, l, acc, m);
            } else {
                let x = choose|x: int| v.remove(m).contains(x);
                assert(v.contains(x) && x < m);
                assert(lowest_from(v.remove(m), 0) == l) by {
                    let lr = lowest_from(v.remove(m), 0);
                    assert(l <= x);
                    assert(lr <= x);
                    if l < lr {
                        assert(v.remove(m).contains(l));
                    } else if lr < l {
                        assert(v.contains(lr));
                    }
                }
                lemma_walk_drop_fixed(p, v, l, acc, m);
            }
        }
    }
}

/// Taking a position `m` above all others out of its cycle: with `p[k] ==
/// m`, the map `q` that sends `k` to `p[m]` and keeps `m` in place walks
/// one step less, so its walk without `m` gives the other parity.
proof fn lemma_walk_cut(p: Seq<u8>, q: Seq<u8>, u: Set<int>, i: int, acc: bool, k: int, m: int)
    requires
        0 <= k < m < 16,
        p[k] == m,
        p[m] != m,
        q[k] == p[m],
        forall|j: int| u.contains(j) && j != k && j != m ==> q[j] == p[j],
        u.contains(m),
        u.contains(k),
        u.contains(i),
        i != m,
        forall|j: int| u.contains(j) ==> 0 <= j <= m,
        forall|j: int| u.contains(j) && j != k ==> p[j] != m,
    ensures
        parity_walk(p, u, i, acc) == !parity_walk(q, u.remove(m), i, acc),
    decreases count_below(u, 16),
{
    lemma_count_remove(u, i, 16);
    let v = u.remove(i);
    let w = u.remove(m);
    assert(w.remove(i) =~= v.remove(m));
    if i == k {
        lemma_count_remove(v, m, 16);
        let v2 = v.remove(m);
        let a = p[m] as int;
        assert forall|j: int| v2.contains(j) implies p[j] == q[j] by {}
        if v2.contains(a) {
            assert(parity_walk(p, v, m, !acc) == parity_walk(p, v2, a, acc));
            assert(parity_walk(q, w, k, acc) == parity_walk(q, v2, a, !acc));
            lemma_walk_agree(p, q, v2, a, !acc);
            lemma_walk_flip(p, v2, a, acc);
        } else {
            let l = lowest_from(v2, 0);
            assert(parity_walk(p, v, m, !acc) == parity_walk(p, v2, l, !acc));
            assert(parity_walk(q, w, k, acc) == parity_walk(q, v2, l, acc));
            lemma_walk_agree(p, q, v2, l, acc);
            lemma_walk_flip(p, v2, l, acc);
        }
    } else {
        let j = p[i] as int;
        assert(q[i] == p[i]);
        if j != i && v.contains(j) {
            lemma_walk_cut(p, q, v, j, !acc, k, m);
        } else {
            lemma_lowest(v, 0);
            lemma_lowest(v.remove(m), 0);
            let l = lowest_from(v, 0);
            assert(v.remove(m).contains(k));
            assert(lowest_from(v.remove(m), 0) == l) by {
                let lr = lowest_from(v.remove(m), 0);
                assert(l <= k);
                assert(lr <= k);
                if l < lr {
                    assert(v.remove(m).contains(l));
                } else if lr < l {
                    assert(v.contains(lr));
                }
            }
            lemma_walk_cut(p, q, v, l, acc, k, m);
        }
    }
}

/// No entry among the first `k` exceeds a value that is above all of them.
proof fn lemma_greater_none(s: Seq<u8>, k: int, v: u8)
    requires
        forall|i: int| 0 <= i < k ==> s[i] < v,
    ensures
        greater_before(s, k, v) == 0,
    decreases k,
{
    if k > 0 {
        lemma_greater_none(s, k - 1, v);
    }
}

/// The walk along the cycles of a permutation of the first `n` positions
/// gives the parity of its number of inversions.
pub proof fn lemma_walk_is_inversions(p: Seq<u8>, n: int)
    requires
        n <= 16,
        perm_upto(p, n),
    ensures
        parity_walk(p, first_positions(n), 0, false) == (inv_count(p, n) % 2 == 1),
    decreases n,
{
    if n == 0 {
        assert(!first_positions(0).contains(0));
    } else {
        let m = n - 1;
        let u = first_positions(n);
        assert(u.remove(m) =~= first_positions(m));
        if p[m] == m {
            assert(forall|i: int| 0 <= i < m ==> p[i] < m) by {
                assert forall|i: int| 0 <= i < m implies p[i] < m by {
                    assert(p[i] != p[m]);
                }
            }
            lemma_greater_none(p, m, m as u8);
            if m == 0 {
                assert(u =~= set![m]);
                lemma_walk_drop_fixed(p, u, 0, false, m);
                assert(parity_walk(p, u, 0, false) == false);
                assert(inv_count(p, 1) == inv_count(p, 0) + greater_before(p, 0, p[0]));
            } else {
                lemma_walk_drop_fixed(p, u, 0, false, m);
                lemma_walk_is_inversions(p, m);
                assert(parity_walk(p, u, 0, false) == parity_walk(p, first_positions(m), 0, false));
                assert(p[m] == m as u8);
                assert(inv_count(p, n) == inv_count(p, m) + greater_before(p, m, p[m]));
                assert(inv_count(p, n) == inv_count(p, m));
            }
        } else {
            // the position that the map sends to `m`
            let f = |i: int| p[i] as int;
            assert(injective_upto(f, n)) by {
                assert forall|i: int, j: int| 0 <= i < n && 0 <= j < n && i != j implies #[trigger] f(i) != #[trigger] f(j) by {
                    assert(p[i] != p[j]);
                }
                assert forall|i: int| 0 <= i < n implies 0 <= #[trigger] f(i) < n by {}
            }
            lemma_injective_onto(f, n);
            assert(hits(f, n, m));
            let k = choose|i: int| 0 <= i < n && #[trigger] f(i) == m;
            assert(p[k] == m && k != m && 0 <= k < m);
            let q = swap(p, k, m);
            assert(perm_upto(q, m)) by {
                assert forall|i: int| 0 <= i < m implies (#[trigger] q[i]) < m by {
                    if i == k {
                        assert(q[i] == p[m]);
                        assert(p[m] != p[k]);
                    } else {
                        assert(q[i] == p[i]);
                        assert(p[i] != p[k]);
                    }
                }
                assert forall|i: int, j: int| 0 <= i < m && 0 <= j < m && i != j implies #[trigger] q[i] != #[trigger] q[j] by {
                    let si = if i == k { m } else { i };
                    let sj = if j == k { m } else { j };
                    assert(q[i] == p[si]);
                    assert(q[j] == p[sj]);
                }
            }
            assert forall|j: int| u.contains(j) && j != k implies p[j] != m by {
                assert(p[j] != p[k]);
            }
            lemma_walk_cut(p, q, u, 0, false, k, m);
            assert(parity_walk(p, u, 0, false) == !parity_walk(q, first_positions(m), 0, false));
            lemma_walk_is_inversions(q, m);
            assert(distinct_upto(p, n));
            lemma_inv_swap(p, k, m, n);
            assert(q[m] == m as u8);
            lemma_greater_none(q, m, m as u8);
            assert(inv_count(q, n) == inv_count(q, m) + greater_before(q, m, q[m]));
            assert(inv_count(q, n) == inv_count(q, m));
            assert(parity_walk(p, u, 0, false) == (inv_count(p, n) % 2 == 1));
        }
    }
}

/// Exchanging two entries of a permutation changes the parity that the
/// walk along its cycles gives.
pub proof fn lemma_walk_swap(s: Seq<u8>, n: int, x: int, y: int)
    requires
        n <= 16,
        perm_upto(s, n),
        0 <= x < n,
        0 <= y < n,
        x != y,
    ensures
        perm_upto(swap(s, x, y), n),
        parity_walk(swap(s, x, y), first_positions(n), 0, false) == !parity_walk(s, first_positions(n), 0, false),
{
    let (a, b) = if x < y { (x, y) } else { (y, x) };
    assert(swap(s, x, y) =~= swap(s, a, b));
    let t = swap(s, a, b);
    lemma_inv_swap(s, a, b, n);
    assert(perm_upto(t, n)) by {
        assert forall|i: int| 0 <= i < n implies (#[trigger] t[i]) < n by {
            let si = if i == a { b } else if i == b { a } else { i };
            assert(t[i] == s[si]);
        }
    }
    lemma_walk_is_inversions(s, n);
    lemma_walk_is_inversions(t, n);
}

/// The entries of `s` taken in the order that `ids` names them.
pub open spec fn reindex(s: Seq<u8>, ids: Seq<u8>) -> Seq<u8> {
    Seq::new(ids.len(), |i: int| s[ids[i] as int])
}

/// Three exchanges change the parity of a permutation.
proof fn lemma_swaps3(s: Seq<u8>, n: int, a1: int, b1: int, a2: int, b2: int, a3: int, b3: int)
    requires
        n <= 16,
        perm_upto(s, n),
        0 <= a1 < n && 0 <= b1 < n && a1 != b1,
        0 <= a2 < n && 0 <= b2 < n && a2 != b2,
        0 <= a3 < n && 0 <= b3 < n && a3 != b3,
    ensures
        perm_upto(swap(swap(swap(s, a1, b1), a2, b2), a3, b3), n),
        parity_walk(swap(swap(swap(s, a1, b1), a2, b2), a3, b3), first_positions(n), 0, false)
            == !parity_walk(s, first_positions(n), 0, false),
{
    lemma_walk_swap(s, n, a1, b1);
    lemma_walk_swap(swap(s, a1, b1), n, a2, b2);
    lemma_walk_swap(swap(swap(s, a1, b1), a2, b2), n, a3, b3);
}

/// Two exchanges keep the parity of a permutation.
proof fn lemma_swaps2(s: Seq<u8>, n: int, a1: int, b1: int, a2: int, b2: int)
    requires
        n <= 16,
        perm_upto(s, n),
        0 <= a1 < n && 0 <= b1 < n && a1 != b1,
        0 <= a2 < n && 0 <= b2 < n && a2 != b2,
    ensures
        perm_upto(swap(swap(s, a1, b1), a2, b2), n),
        parity_walk(swap(swap(s, a1, b1), a2, b2), first_positions(n), 0, false)
            == parity_walk(s, first_positions(n), 0, false),
{
    lemma_walk_swap(s, n, a1, b1);
    lemma_walk_swap(swap(s, a1, b1), n, a2, b2);
}

/// The parity after a turn of face U: exchanges of entries, one per step
/// along each cycle that the turn makes.
#[verifier::rlimit(40)]
#[verifier::spinoff_prover]
proof fn lemma_corner_parity_u(s: Seq<u8>, t: Turn)
    requires
        t.face_num() == 0,
        s.len() == 8,
        perm_upto(s, 8),
    ensures
        perm_upto(reindex(s, corner_ids(corner_turn(t))), 8),
        parity_walk(reindex(s, corner_ids(corner_turn(t))), first_positions(8), 0, false)
            == (parity_walk(s, first_positions(8), 0, false) != (quarters(t) % 2 == 1)),
{
    match t {
        Turn::U1 => {
            lemma_swaps3(s, 8, 0, 3, 3, 2, 2, 1);
            assert(corner_ids(corner_turn(t)) =~= seq![3u8, 0u8, 1u8, 2u8, 4u8, 5u8, 6u8, 7u8]);
            assert(reindex(s, corner_ids(corner_turn(t))) =~= swap(swap(swap(s, 0, 3), 3, 2), 2, 1));
        },
        Turn::U2 => {
            lemma_swaps2(s, 8, 0, 2, 1, 3);
            assert(corner_ids(corner_turn(t)) =~= seq![2u8, 3u8, 0u8, 1u8, 4u8, 5u8, 6u8, 7u8]);
            assert(reindex(s, corner_ids(corner_turn(t))) =~= swap(swap(s, 0, 2), 1, 3));
        },
        Turn::U3 => {
            lemma_swaps3(s, 8, 0, 1, 1, 2, 2, 3);
            assert(corner_ids(corner_turn(t)) =~= seq![1u8, 2u8, 3u8, 0u8, 4u8, 5u8, 6u8, 7u8]);
            assert(reindex(s, corner_ids(corner_turn(t))) =~= swap(swap(swap(s, 0, 1), 1, 2), 2, 3));
        },
        _ => {},
    }
}

/// The parity after a turn of face R: exchanges of entries, one per step
/// along each cycle that the turn makes.
#[verifier::rlimit(40)]
#[verifier::spinoff_prover]
proof fn lemma_corner_parity_r(s: Seq<u8>, t: Turn)
    requires
        t.face_num() == 1,
        s.len() == 8,
        perm_upto(s, 8),
    ensures
        perm_upto(reindex(s, corner_ids(corner_turn(t))), 8),
        parity_walk(reindex(s, corner_ids(corner_turn(t))), first_positions(8), 0, false)
            == (parity_walk(s, first_positions(8), 0, false) != (quarters(t) % 2 == 1)),
{
    match t {
        Turn::R1 => {
            lemma_swaps3(s, 8, 1, 2, 2, 5, 5, 6);
            assert(corner_ids(corner_turn(t)) =~= seq![0u8, 2u8, 5u8, 3u8, 4u8, 6u8, 1u8, 7u8]);
            assert(reindex(s, corner_ids(corner_turn(t))) =~= swap(swap(swap(s, 1, 2), 2, 5), 5, 6));
        },
        Turn::R2 => {
            lemma_swaps2(s, 8, 1, 5, 2, 6);
            assert(corner_ids(corner_turn(t)) =~= seq![0u8, 5u8, 6u8, 3u8, 4u8, 1u8, 2u8, 7u8]);
            assert(reindex(s, corner_ids(corner_turn(t))) =~= swap(swap(s, 1, 5), 2, 6));
        },
        Turn::R3 => {
            lemma_swaps3(s, 8, 1, 6, 6, 5, 5, 2);
            assert(corner_ids(corner_turn(t)) =~= seq![0u8, 6u8, 1u8, 3u8, 4u8, 2u8, 5u8, 7u8]);
            assert(reindex(s, corner_ids(corner_turn(t))) =~= swap(swap(swap(s, 1, 6), 6, 5), 5, 2));
        },
        _ => {},
    }
}

/// The parity after a turn of face F: exchanges of entries, one per step
/// along each cycle that the turn makes.
#[verifier::rlimit(40)]
#[verifier::spinoff_prover]
proof fn lemma_corner_parity_f(s: Seq<u8>, t: Turn)
    requires
        t.face_num() == 2,
        s.len() == 8,
        perm_upto(s, 8),
    ensures
        perm_upto(reindex(s, corner_ids(corner_turn(t))), 8),
        parity_walk(reindex(s, corner_ids(corner_turn(t))), first_positions(8), 0, false)
            == (parity_walk(s, first_positions(8), 0, false) != (quarters(t) % 2 == 1)),
{
    match t {
        Turn::F1 => {
            lemma_swaps3(s, 8, 2, 3, 3, 4, 4, 5);
            assert(corner_ids(corner_turn(t)) =~= seq![0u8, 1u8, 3u8, 4u8, 5u8, 2u8, 6u8, 7u8]);
            assert(reindex(s, corner_ids(corner_turn(t))) =~= swap(swap(swap(s, 2, 3), 3, 4), 4, 5));
        },
        Turn::F2 => {
            lemma_swaps2(s, 8, 2, 4, 3, 5);
            assert(corner_ids(corner_turn(t)) =~= seq![0u8, 1u8, 4u8, 5u8, 2u8, 3u8, 6u8, 7u8]);
            assert(reindex(s, corner_ids(corner_turn(t))) =~= swap(swap(s, 2, 4), 3, 5));
        },
        Turn::F3 => {
            lemma_swaps3(s, 8, 2, 5, 5, 4, 4, 3);
            assert(corner_ids(corner_turn(t)) =~= seq![0u8, 1u8, 5u8, 2u8, 3u8, 4u8, 6u8, 7u8]);
            assert(reindex(s, corner_ids(corner_turn(t))) =~= swap(swap(swap(s, 2, 5), 5, 4), 4, 3));
        },
        _ => {},
    }
}

/// The parity after a turn of face D: exchanges of entries, one per step
/// along each cycle that the turn makes.
#[verifier::rlimit(40)]
#[verifier::spinoff_prover]
proof fn lemma_corner_parity_d(s: Seq<u8>, t: Turn)
    requires
        t.face_num() == 3,
        s.len() == 8,
        perm_upto(s, 8),
    ensures
        perm_upto(reindex(s, corner_ids(corner_turn(t))), 8),
        parity_walk(reindex(s, corner_ids(corner_turn(t))), first_positions(8), 0, false)
            == (parity_walk(s, first_positions(8), 0, false) != (quarters(t) % 2 == 1)),
{
    match t {
        Turn::D1 => {
            lemma_swaps3(s, 8, 4, 7, 7, 6, 6, 5);
            assert(corner_ids(corner_turn(t)) =~= seq![0u8, 1u8, 2u8, 3u8, 7u8, 4u8, 5u8, 6u8]);
            assert(reindex(s, corner_ids(corner_turn(t))) =~= swap(swap(swap(s, 4, 7), 7, 6), 6, 5));
        },
        Turn::D2 => {
            lemma_swaps2(s, 8, 4, 6, 5, 7);
            assert(corner_ids(corner_turn(t)) =~= seq![0u8, 1u8, 2u8, 3u8, 6u8, 7u8, 4u8, 5u8]);
            assert(reindex(s, corner_ids(corner_turn(t))) =~= swap(swap(s, 4, 6), 5, 7));
        },
        Turn::D3 => {
            lemma_swaps3(s, 8, 4, 5, 5, 6, 6, 7);
            assert(corner_ids(corner_turn(t)) =~= seq![0u8, 1u8, 2u8, 3u8, 5u8, 6u8, 7u8, 4u8]);
            assert(reindex(s, corner_ids(corner_turn(t))) =~= swap(swap(swap(s, 4, 5), 5, 6), 6, 7));
        },
        _ => {},
    }
}

/// The parity after a turn of face L: exchanges of entries, one per step
/// along each cycle that the turn makes.
#[verifier::rlimit(40)]
#[verifier::spinoff_prover]
proof fn lemma_corner_parity_l(s: Seq<u8>, t: Turn)
    requires
        t.face_num() == 4,
        s.len() == 8,
        perm_upto(s, 8),
    ensures
        perm_upto(reindex(s, corner_ids(corner_turn(t))), 8),
        parity_walk(reindex(s, corner_ids(corner_turn(t))), first_positions(8), 0, false)
            == (parity_walk(s, first_positions(8), 0, false) != (quarters(t) % 2 == 1)),
{
    match t {
        Turn::L1 => {
            lemma_swaps3(s, 8, 0, 7, 7, 4, 4, 3);
            assert(corner_ids(corner_turn(t)) =~= seq![7u8, 1u8, 2u8, 0u8, 3u8, 5u8, 6u8, 4u8]);
            assert(reindex(s, corner_ids(corner_turn(t))) =~= swap(swap(swap(s, 0, 7), 7, 4), 4, 3));
        },
        Turn::L2 => {
            lemma_swaps2(s, 8, 0, 4, 3, 7);
            assert(corner_ids(corner_turn(t)) =~= seq![4u8, 1u8, 2u8, 7u8, 0u8, 5u8, 6u8, 3u8]);
            assert(reindex(s, corner_ids(corner_turn(t))) =~= swap(swap(s, 0, 4), 3, 7));
        },
        Turn::L3 => {
            lemma_swaps3(s, 8, 0, 3, 3, 4, 4, 7);
            assert(corner_ids(corner_turn(t)) =~= seq![3u8, 1u8, 2u8, 4u8, 7u8, 5u8, 6u8, 0u8]);
            assert(reindex(s, corner_ids(corner_turn(t))) =~= swap(swap(swap(s, 0, 3), 3, 4), 4, 7));
        },
        _ => {},
    }
}

/// The parity after a turn of face B: exchanges of entries, one per step
/// along each cycle that the turn makes.
#[verifier::rlimit(40)]
#[verifier::spinoff_prover]
proof fn lemma_corner_parity_b(s: Seq<u8>, t: Turn)
    requires
        t.face_num() == 5,
        s.len() == 8,
        perm_upto(s, 8),
    ensures
        perm_upto(reindex(s, corner_ids(corner_turn(t))), 8),
        parity_walk(reindex(s, corner_ids(corner_turn(t))), first_positions(8), 0, false)
            == (parity_walk(s, first_positions(8), 0, false) != (quarters(t) % 2 == 1)),
{
    match t {
        Turn::B1 => {
            lemma_swaps3(s, 8, 0, 1, 1, 6, 6, 7);
            assert(corner_ids(corner_turn(t)) =~= seq![1u8, 6u8, 2u8, 3u8, 4u8, 5u8, 7u8, 0u8]);
            assert(reindex(s, corner_ids(corner_turn(t))) =~= swap(swap(swap(s, 0, 1), 1, 6), 6, 7));
        },
        Turn::B2 => {
            lemma_swaps2(s, 8, 0, 6, 1, 7);
            assert(corner_ids(corner_turn(t)) =~= seq![6u8, 7u8, 2u8, 3u8, 4u8, 5u8, 0u8, 1u8]);
            assert(reindex(s, corner_ids(corner_turn(t))) =~= swap(swap(s, 0, 6), 1, 7));
        },
        Turn::B3 => {
            lemma_swaps3(s, 8, 0, 7, 7, 6, 6, 1);
            assert(corner_ids(corner_turn(t)) =~= seq![7u8, 0u8, 2u8, 3u8, 4u8, 5u8, 1u8, 6u8]);
            assert(reindex(s, corner_ids(corner_turn(t))) =~= swap(swap(swap(s, 0, 7), 7, 6), 6, 1));
        },
        _ => {},
    }
}

/// The parity after a turn of face U: exchanges of entries, one per step
/// along each cycle that the turn makes.
#[verifier::rlimit(40)]
#[verifier::spinoff_prover]
proof fn lemma_edge_parity_u(s: Seq<u8>, t: Turn)
    requires
        t.face_num() == 0,
        s.len() == 12,
        perm_upto(s, 12),
    ensures
        perm_upto(reindex(s, edge_ids(edge_turn(t))), 12),
        parity_walk(reindex(s, edge_ids(edge_turn(t))), first_positions(12), 0, false)
            == (parity_walk(s, first_positions(12), 0, false) != (quarters(t) % 2 == 1)),
{
    match t {
        Turn::U1 => {
            lemma_swaps3(s, 12, 0, 3, 3, 2, 2, 1);
            assert(edge_ids(edge_turn(t)) =~= seq![3u8, 0u8, 1u8, 2u8, 4u8, 5u8, 6u8, 7u8, 8u8, 9u8, 10u8, 11u8]);
            assert(reindex(s, edge_ids(edge_turn(t))) =~= swap(swap(swap(s, 0, 3), 3, 2), 2, 1));
        },
        Turn::U2 => {
            lemma_swaps2(s, 12, 0, 2, 1, 3);
            assert(edge_ids(edge_turn(t)) =~= seq![2u8, 3u8, 0u8, 1u8, 4u8, 5u8, 6u8, 7u8, 8u8, 9u8, 10u8, 11u8]);
            assert(reindex(s, edge_ids(edge_turn(t))) =~= swap(swap(s, 0, 2), 1, 3));
        },
        Turn::U3 => {
            lemma_swaps3(s, 12, 0, 1, 1, 2, 2, 3);
            assert(edge_ids(edge_turn(t)) =~= seq![1u8, 2u8, 3u8, 0u8, 4u8, 5u8, 6u8, 7u8, 8u8, 9u8, 10u8, 11u8]);
            assert(reindex(s, edge_ids(edge_turn(t))) =~= swap(swap(swap(s, 0, 1), 1, 2), 2, 3));
        },
        _ => {},
    }
}

/// The parity after a turn of face R: exchanges of entries, one per step
/// along each cycle that the turn makes.
#[verifier::rlimit(40)]
#[verifier::spinoff_prover]
proof fn lemma_edge_parity_r(s: Seq<u8>, t: Turn)
    requires
        t.face_num() == 1,
        s.len() == 12,
        perm_upto(s, 12),
    ensures
        perm_upto(reindex(s, edge_ids(edge_turn(t))), 12),
        parity_walk(reindex(s, edge_ids(edge_turn(t))), first_positions(12), 0, false)
            == (parity_walk(s, first_positions(12), 0, false) != (quarters(t) % 2 == 1)),
{
    match t {
        Turn::R1 => {
            lemma_swaps3(s, 12, 1, 6, 6, 9, 9, 5);
            assert(edge_ids(edge_turn(t)) =~= seq![0u8, 6u8, 2u8, 3u8, 4u8, 1u8, 9u8, 7u8, 8u8, 5u8, 10u8, 11u8]);
            assert(reindex(s, edge_ids(edge_turn(t))) =~= swap(swap(swap(s, 1, 6), 6, 9), 9, 5));
        },
        Turn::R2 => {
            lemma_swaps2(s, 12, 1, 9, 5, 6);
            assert(edge_ids(edge_turn(t)) =~= seq![0u8, 9u8, 2u8, 3u8, 4u8, 6u8, 5u8, 7u8, 8u8, 1u8, 10u8, 11u8]);
            assert(reindex(s, edge_ids(edge_turn(t))) =~= swap(swap(s, 1, 9), 5, 6));
        },
        Turn::R3 => {
            lemma_swaps3(s, 12, 1, 5, 5, 9, 9, 6);
            assert(edge_ids(edge_turn(t)) =~= seq![0u8, 5u8, 2u8, 3u8, 4u8, 9u8, 1u8, 7u8, 8u8, 6u8, 10u8, 11u8]);
            assert(reindex(s, edge_ids(edge_turn(t))) =~= swap(swap(swap(s, 1, 5), 5, 9), 9, 6));
        },
        _ => {},
    }
}

/// The parity after a turn of face F: exchanges of entries, one per step
/// along each cycle that the turn makes.
#[verifier::rlimit(40)]
#[verifier::spinoff_prover]
proof fn lemma_edge_parity_f(s: Seq<u8>, t: Turn)
    requires
        t.face_num() == 2,
        s.len() == 12,
        perm_upto(s, 12),
    ensures
        perm_upto(reindex(s, edge_ids(edge_turn(t))), 12),
        parity_walk(reindex(s, edge_ids(edge_turn(t))), first_positions(12), 0, false)
            == (parity_walk(s, first_positions(12), 0, false) != (quarters(t) % 2 == 1)),
{
    match t {
        Turn::F1 => {
            lemma_swaps3(s, 12, 2, 7, 7, 8, 8, 6);
            assert(edge_ids(edge_turn(t)) =~= seq![0u8, 1u8, 7u8, 3u8, 4u8, 5u8, 2u8, 8u8, 6u8, 9u8, 10u8, 11u8]);
            assert(reindex(s, edge_ids(edge_turn(t))) =~= swap(swap(swap(s, 2, 7), 7, 8), 8, 6));
        },
        Turn::F2 => {
            lemma_swaps2(s, 12, 2, 8, 6, 7);
            assert(edge_ids(edge_turn(t)) =~= seq![0u8, 1u8, 8u8, 3u8, 4u8, 5u8, 7u8, 6u8, 2u8, 9u8, 10u8, 11u8]);
            assert(reindex(s, edge_ids(edge_turn(t))) =~= swap(swap(s, 2, 8), 6, 7));
        },
        Turn::F3 => {
            lemma_swaps3(s, 12, 2, 6, 6, 8, 8, 7);
            assert(edge_ids(edge_turn(t)) =~= seq![0u8, 1u8, 6u8, 3u8, 4u8, 5u8, 8u8, 2u8, 7u8, 9u8, 10u8, 11u8]);
            assert(reindex(s, edge_ids(edge_turn(t))) =~= swap(swap(swap(s, 2, 6), 6, 8), 8, 7));
        },
        _ => {},
    }
}

/// The parity after a turn of face D: exchanges of entries, one per step
/// along each cycle that the turn makes.
#[verifier::rlimit(40)]
#[verifier::spinoff_prover]
proof fn lemma_edge_parity_d(s: Seq<u8>, t: Turn)
    requires
        t.face_num() == 3,
        s.len() == 12,
        perm_upto(s, 12),
    ensures
        perm_upto(reindex(s, edge_ids(edge_turn(t))), 12),
        parity_walk(reindex(s, edge_ids(edge_turn(t))), first_positions(12), 0, false)
            == (parity_walk(s, first_positions(12), 0, false) != (quarters(t) % 2 == 1)),
{
    match t {
        Turn::D1 => {
            lemma_swaps3(s, 12, 8, 11, 11, 10, 10, 9);
            assert(edge_ids(edge_turn(t)) =~= seq![0u8, 1u8, 2u8, 3u8, 4u8, 5u8, 6u8, 7u8, 11u8, 8u8, 9u8, 10u8]);
            assert(reindex(s, edge_ids(edge_turn(t))) =~= swap(swap(swap(s, 8, 11), 11, 10), 10, 9));
        },
        Turn::D2 => {
            lemma_swaps2(s, 12, 8, 10, 9, 11);
            assert(edge_ids(edge_turn(t)) =~= seq![0u8, 1u8, 2u8, 3u8, 4u8, 5u8, 6u8, 7u8, 10u8, 11u8, 8u8, 9u8]);
            assert(reindex(s, edge_ids(edge_turn(t))) =~= swap(swap(s, 8, 10), 9, 11));
        },
        Turn::D3 => {
            lemma_swaps3(s, 12, 8, 9, 9, 10, 10, 11);
            assert(edge_ids(edge_turn(t)) =~= seq![0u8, 1u8, 2u8, 3u8, 4u8, 5u8, 6u8, 7u8, 9u8, 10u8, 11u8, 8u8]);
            assert(reindex(s, edge_ids(edge_turn(t))) =~= swap(swap(swap(s, 8, 9), 9, 10), 10, 11));
        },
        _ => {},
    }
}

/// The parity after a turn of face L: exchanges of entries, one per step
/// along each cycle that the turn makes.
#[verifier::rlimit(40)]
#[verifier::spinoff_prover]
proof fn lemma_edge_parity_l(s: Seq<u8>, t: Turn)
    requires
        t.face_num() == 4,
        s.len() == 12,
        perm_upto(s, 12),
    ensures
        perm_upto(reindex(s, edge_ids(edge_turn(t))), 12),
        parity_walk(reindex(s, edge_ids(edge_turn(t))), first_positions(12), 0, false)
            == (parity_walk(s, first_positions(12), 0, false) != (quarters(t) % 2 == 1)),
{
    match t {
        Turn::L1 => {
            lemma_swaps3(s, 12, 3, 4, 4, 11, 11, 7);
            assert(edge_ids(edge_turn(t)) =~= seq![0u8, 1u8, 2u8, 4u8, 11u8, 5u8, 6u8, 3u8, 8u8, 9u8, 10u8, 7u8]);
            assert(reindex(s, edge_ids(edge_turn(t))) =~= swap(swap(swap(s, 3, 4), 4, 11), 11, 7));
        },
        Turn::L2 => {
            lemma_swaps2(s, 12, 3, 11, 4, 7);
            assert(edge_ids(edge_turn(t)) =~= seq![0u8, 1u8, 2u8, 11u8, 7u8, 5u8, 6u8, 4u8, 8u8, 9u8, 10u8, 3u8]);
            assert(reindex(s, edge_ids(edge_turn(t))) =~= swap(swap(s, 3, 11), 4, 7));
        },
        Turn::L3 => {
            lemma_swaps3(s, 12, 3, 7, 7, 11, 11, 4);
            assert(edge_ids(edge_turn(t)) =~= seq![0u8, 1u8, 2u8, 7u8, 3u8, 5u8, 6u8, 11u8, 8u8, 9u8, 10u8, 4u8]);
            assert(reindex(s, edge_ids(edge_turn(t))) =~= swap(swap(swap(s, 3, 7), 7, 11), 11, 4));
        },
        _ => {},
    }
}

/// The parity after a turn of face B: exchanges of entries, one per step
/// along each cycle that the turn makes.
#[verifier::rlimit(40)]
#[verifier::spinoff_prover]
proof fn lemma_edge_parity_b(s: Seq<u8>, t: Turn)
    requires
        t.face_num() == 5,
        s.len() == 12,
        perm_upto(s, 12),
    ensures
        perm_upto(reindex(s, edge_ids(edge_turn(t))), 12),
        parity_walk(reindex(s, edge_ids(edge_turn(t))), first_positions(12), 0, false)
            == (parity_walk(s, first_positions(12), 0, false) != (quarters(t) % 2 == 1)),
{
    match t {
        Turn::B1 => {
            lemma_swaps3(s, 12, 0, 5, 5, 10, 10, 4);
            assert(edge_ids(edge_turn(t)) =~= seq![5u8, 1u8, 2u8, 3u8, 0u8, 10u8, 6u8, 7u8, 8u8, 9u8, 4u8, 11u8]);
            assert(reindex(s, edge_ids(edge_turn(t))) =~= swap(swap(swap(s, 0, 5), 5, 10), 10, 4));
        },
        Turn::B2 => {
            lemma_swaps2(s, 12, 0, 10, 4, 5);
            assert(edge_ids(edge_turn(t)) =~= seq![10u8, 1u8, 2u8, 3u8, 5u8, 4u8, 6u8, 7u8, 8u8, 9u8, 0u8, 11u8]);
            assert(reindex(s, edge_ids(edge_turn(t))) =~= swap(swap(s, 0, 10), 4, 5));
        },
        Turn::B3 => {
            lemma_swaps3(s, 12, 0, 4, 4, 10, 10, 5);
            assert(edge_ids(edge_turn(t)) =~= seq![4u8, 1u8, 2u8, 3u8, 10u8, 0u8, 6u8, 7u8, 8u8, 9u8, 5u8, 11u8]);
            assert(reindex(s, edge_ids(edge_turn(t))) =~= swap(swap(swap(s, 0, 4), 4, 10), 10, 5));
        },
        _ => {},
    }
}

/// The slots of a composition are the slots of the first position taken in
/// the order that the second names them.
proof fn lemma_corner_ids_compose(a: Seq<u8>, b: Seq<u8>)
    requires
        corner_lanes(a),
        corner_lanes(b),
    ensures
        corner_ids(corners_compose(a, b)) == reindex(corner_ids(a), corner_ids(b)),
{
    assert forall|i: int| 0 <= i < 8 implies #[trigger] corner_ids(corners_compose(a, b))[i] == reindex(corner_ids(a), corner_ids(b))[i] by {
        let x = b[i];
        let y = a[cid(x)];
        crate::corners::lemma_ccode_of(y);
        crate::corners::lemma_ccode(cid(y), (ctw(y) + ctw(x)) % 3);
    }
    assert(corner_ids(corners_compose(a, b)) =~= reindex(corner_ids(a), corner_ids(b)));
}

/// The slots of a composition are the slots of the first position taken in
/// the order that the second names them.
proof fn lemma_edge_ids_compose(a: Seq<u8>, b: Seq<u8>)
    requires
        edge_lanes(a),
        edge_lanes(b),
    ensures
        edge_ids(edges_compose(a, b)) == reindex(edge_ids(a), edge_ids(b)),
{
    assert forall|i: int| 0 <= i < 12 implies #[trigger] edge_ids(edges_compose(a, b))[i] == reindex(edge_ids(a), edge_ids(b))[i] by {
        let x = b[i];
        crate::edges::lemma_ecode_of(x);
        let y = a[eid(x)];
        crate::edges::lemma_ecode_of(y);
        crate::edges::lemma_ecode(eid(y), (efl(y) + efl(x)) % 2);
    }
    assert(edge_ids(edges_compose(a, b)) =~= reindex(edge_ids(a), edge_ids(b)));
}

/// A quarter turn changes the parity of the permutation of the corners and
/// of the edges; a half turn keeps it.
pub proof fn law_turn_parity(c: Seq<u8>, e: Seq<u8>, t: Turn)
    requires
        corners_perm(c),
        edges_perm(e),
    ensures
        corner_parity(corners_compose(c, corner_turn(t))) == (corner_parity(c) != (quarters(t) % 2 == 1)),
        edge_parity(edges_compose(e, edge_turn(t))) == (edge_parity(e) != (quarters(t) % 2 == 1)),
{
    crate::corners::law_corner_turn_valid(t);
    crate::edges::law_edge_turn_valid(t);
    lemma_corner_ids_compose(c, corner_turn(t));
    lemma_edge_ids_compose(e, edge_turn(t));
    let cs = corner_ids(c);
    let es = edge_ids(e);
    assert(perm_upto(cs, 8)) by {
        assert forall|i: int, j: int| 0 <= i < 8 && 0 <= j < 8 && i != j implies #[trigger] cs[i] != #[trigger] cs[j] by {
            assert(cid(c[i]) != cid(c[j]));
        }
    }
    assert(perm_upto(es, 12)) by {
        assert forall|i: int, j: int| 0 <= i < 12 && 0 <= j < 12 && i != j implies #[trigger] es[i] != #[trigger] es[j] by {
            assert(eid(e[i]) != eid(e[j]));
        }
    }
    let f = t.face_num();
    assert(0 <= t.num() < 18) by {
        crate::turns::law_turn_name_roundtrip(t);
    }
    if f == 0 {
        lemma_corner_parity_u(cs, t);
        lemma_edge_parity_u(es, t);
    } else if f == 1 {
        lemma_corner_parity_r(cs, t);
        lemma_edge_parity_r(es, t);
    } else if f == 2 {
        lemma_corner_parity_f(cs, t);
        lemma_edge_parity_f(es, t);
    } else if f == 3 {
        lemma_corner_parity_d(cs, t);
        lemma_edge_parity_d(es, t);
    } else if f == 4 {
        lemma_corner_parity_l(cs, t);
        lemma_edge_parity_l(es, t);
    } else {
        lemma_corner_parity_b(cs, t);
        lemma_edge_parity_b(es, t);
    }
}

/// The parity of a permutation of the corners or of the edges is the parity
/// of the number of inversions of its slots: pairs of slots whose pieces
/// come in decreasing order.
pub proof fn law_parity_is_inversions(c: Seq<u8>, e: Seq<u8>)
    requires
        corners_perm(c),
        edges_perm(e),
    ensures
        corner_parity(c) == (inv_count(corner_ids(c), 8) % 2 == 1),
        edge_parity(e) == (inv_count(edge_ids(e), 12) % 2 == 1),
{
    let cs = corner_ids(c);
    let es = edge_ids(e);
    assert(perm_upto(cs, 8)) by {
        assert forall|i: int, j: int| 0 <= i < 8 && 0 <= j < 8 && i != j implies #[trigger] cs[i] != #[trigger] cs[j] by {
            assert(cid(c[i]) != cid(c[j]));
        }
    }
    assert(perm_upto(es, 12)) by {
        assert forall|i: int, j: int| 0 <= i < 12 && 0 <= j < 12 && i != j implies #[trigger] es[i] != #[trigger] es[j] by {
            assert(eid(e[i]) != eid(e[j]));
        }
    }
    lemma_walk_is_inversions(cs, 8);
    lemma_walk_is_inversions(es, 12);
}

/// The solved position permutes the corners and the edges evenly.
pub proof fn law_solved_even()
    ensures
        corner_parity(corners_ident()) == false,
        edge_parity(edges_ident()) == false,
{
    lemma_ident_even(8);
    lemma_ident_even(12);
    assert(corner_ids(corners_ident()) =~= Seq::new(8, |i: int| i as u8));
    assert(edge_ids(edges_ident()) =~= Seq::new(12, |i: int| i as u8));
}

/// Whether the turns `ts` make an odd number of quarter turns.
pub open spec fn odd_quarters(ts: Seq<Turn>) -> bool
    decreases ts.len(),
{
    if ts.len() == 0 {
        false
    } else {
        odd_quarters(ts.drop_last()) != (quarters(ts.last()) % 2 == 1)
    }
}

/// The solved position is an even permutation.
proof fn lemma_ident_even(n: int)
    requires
        0 <= n <= 16,
    ensures
        perm_upto(Seq::new(n as nat, |i: int| i as u8), n),
        parity_walk(Seq::new(n as nat, |i: int| i as u8), first_positions(n), 0, false) == false,
{
    let s = Seq::new(n as nat, |i: int| i as u8);
    assert(perm_upto(s, n));
    lemma_ident_no_inversions(s, n);
    lemma_walk_is_inversions(s, n);
}

/// Entries in increasing order have no inversions.
proof fn lemma_ident_no_inversions(s: Seq<u8>, n: int)
    requires
        0 <= n <= s.len(),
        forall|i: int| 0 <= i < n ==> s[i] == i,
    ensures
        inv_count(s, n) == 0,
    decreases n,
{
    if n > 0 {
        lemma_ident_no_inversions(s, n - 1);
        lemma_greater_none(s, n - 1, s[n - 1]);
    }
}

/// Every position that turns reach from the solved cube permutes the
/// corners and the edges with the same parity: odd when the turns make an
/// odd number of quarter turns.
pub proof fn law_reachable_parity(ts: Seq<Turn>)
    ensures
        corner_parity(corners_after(corners_ident(), ts)) == odd_quarters(ts),
        edge_parity(edges_after(edges_ident(), ts)) == odd_quarters(ts),
    decreases ts.len(),
{
    if ts.len() == 0 {
        lemma_ident_even(8);
        lemma_ident_even(12);
        assert(corner_ids(corners_ident()) =~= Seq::new(8, |i: int| i as u8));
        assert(edge_ids(edges_ident()) =~= Seq::new(12, |i: int| i as u8));
    } else {
        let rest = ts.drop_last();
        law_reachable_parity(rest);
        crate::group::law_reachable_no_twist_flip(rest);
        law_turn_parity(corners_after(corners_ident(), rest), edges_after(edges_ident(), rest), ts.last());
    }
}

/// How many of the first `m` positions the map `p` moves.
pub open spec fn misplaced(p: Seq<u8>, m: int) -> int
    decreases m,
{
    if m <= 0 {
        0
    } else {
        misplaced(p, m - 1) + if p[m - 1] != m - 1 {
            1int
        } else {
            0int
        }
    }
}

/// A map that moves only positions that `p` moves moves no more of them.
proof fn lemma_misplaced_le(p: Seq<u8>, q: Seq<u8>, m: int)
    requires
        forall|k: int| 0 <= k < m && q[k] != k ==> p[k] != k,
    ensures
        0 <= misplaced(q, m) <= misplaced(p, m),
    decreases m,
{
    if m > 0 {
        lemma_misplaced_le(p, q, m - 1);
    }
}

/// Putting back a position that `p` moves, and moving no new one, moves
/// fewer positions.
proof fn lemma_misplaced_less(p: Seq<u8>, q: Seq<u8>, m: int, w: int)
    requires
        0 <= w < m,
        forall|k: int| 0 <= k < m && q[k] != k ==> p[k] != k,
        p[w] != w,
        q[w] == w,
    ensures
        misplaced(q, m) < misplaced(p, m),
    decreases m,
{
    if m - 1 == w {
        lemma_misplaced_le(p, q, m - 1);
    } else {
        lemma_misplaced_less(p, q, m - 1, w);
    }
}

/// Taking the entries of a permutation `s` in the order of a permutation
/// `p` gives a permutation whose parity is the exclusive or of theirs.
pub proof fn lemma_walk_reindex(s: Seq<u8>, p: Seq<u8>, n: int)
    requires
        n <= 16,
        perm_upto(s, n),
        perm_upto(p, n),
        p.len() == n,
    ensures
        perm_upto(reindex(s, p), n),
        parity_walk(reindex(s, p), first_positions(n), 0, false)
            == (parity_walk(s, first_positions(n), 0, false) != parity_walk(p, first_positions(n), 0, false)),
    decreases misplaced(p, n),
{
    let r = reindex(s, p);
    assert(perm_upto(r, n)) by {
        assert forall|i: int| 0 <= i < n implies (#[trigger] r[i]) < n by {
            assert(r[i] == s[p[i] as int]);
        }
        assert forall|i: int, j: int| 0 <= i < n && 0 <= j < n && i != j implies #[trigger] r[i] != #[trigger] r[j] by {
            assert(p[i] != p[j]);
            assert(r[i] == s[p[i] as int]);
            assert(r[j] == s[p[j] as int]);
        }
    }
    if forall|k: int| 0 <= k < n ==> p[k] == k {
        assert forall|j: int| first_positions(n).contains(j) implies r[j] == s[j] by {
            assert(r[j] == s[p[j] as int]);
        }
        lemma_walk_agree(r, s, first_positions(n), 0, false);
        lemma_ident_no_inversions(p, n);
        lemma_walk_is_inversions(p, n);
    } else {
        let i = choose|k: int| 0 <= k < n && p[k] != k;
        let f = |k: int| p[k] as int;
        assert(injective_upto(f, n)) by {
            assert forall|a: int, b: int| 0 <= a < n && 0 <= b < n && a != b implies #[trigger] f(a) != #[trigger] f(b) by {
                assert(p[a] != p[b]);
            }
            assert forall|a: int| 0 <= a < n implies 0 <= #[trigger] f(a) < n by {}
        }
        lemma_injective_onto(f, n);
        assert(hits(f, n, i));
        let j = choose|k: int| 0 <= k < n && #[trigger] f(k) == i;
        assert(p[j] == i && j != i);
        let q = swap(p, i, j);
        lemma_walk_swap(p, n, i, j);
        assert(q[i] == i);
        assert forall|k: int| 0 <= k < n && q[k] != k implies p[k] != k by {
            if k == j {
                assert(p[j] == i);
            }
        }
        lemma_misplaced_less(p, q, n, i);
        lemma_misplaced_le(q, q, n);
        lemma_walk_reindex(s, q, n);
        assert(reindex(s, q) =~= swap(r, i, j));
        lemma_walk_swap(r, n, i, j);
    }
}

/// The parity of a composition of permutations of the corners or of the
/// edges is the exclusive or of their parities.
pub proof fn law_parity_compose(c1: Seq<u8>, c2: Seq<u8>, e1: Seq<u8>, e2: Seq<u8>)
    requires
        corners_perm(c1),
        corners_perm(c2),
        edges_perm(e1),
        edges_perm(e2),
    ensures
        corner_parity(corners_compose(c1, c2)) == (corner_parity(c1) != corner_parity(c2)),
        edge_parity(edges_compose(e1, e2)) == (edge_parity(e1) != edge_parity(e2)),
{
    lemma_corner_parity_compose(c1, c2);
    lemma_edge_parity_compose(e1, e2);
}

proof fn lemma_corner_parity_compose(c1: Seq<u8>, c2: Seq<u8>)
    requires
        corners_perm(c1),
        corners_perm(c2),
    ensures
        corner_parity(corners_compose(c1, c2)) == (corner_parity(c1) != corner_parity(c2)),
{
    lemma_corner_ids_compose(c1, c2);
    lemma_corner_ids_perm(c1);
    lemma_corner_ids_perm(c2);
    lemma_walk_reindex(corner_ids(c1), corner_ids(c2), 8);
}

proof fn lemma_edge_parity_compose(e1: Seq<u8>, e2: Seq<u8>)
    requires
        edges_perm(e1),
        edges_perm(e2),
    ensures
        edge_parity(edges_compose(e1, e2)) == (edge_parity(e1) != edge_parity(e2)),
{
    lemma_edge_ids_compose(e1, e2);
    lemma_edge_ids_perm(e1);
    lemma_edge_ids_perm(e2);
    lemma_walk_reindex(edge_ids(e1), edge_ids(e2), 12);
}

/// The slots of a permutation of the corners are a permutation of the slot
/// numbers.
pub proof fn lemma_corner_ids_perm(c: Seq<u8>)
    requires
        corners_perm(c),
    ensures
        perm_upto(corner_ids(c), 8),
        corner_ids(c).len() == 8,
{
    let cs = corner_ids(c);
    assert forall|i: int, j: int| 0 <= i < 8 && 0 <= j < 8 && i != j implies #[trigger] cs[i] != #[trigger] cs[j] by {
        assert(cid(c[i]) != cid(c[j]));
    }
}

/// The slots of a permutation of the edges are a permutation of the slot
/// numbers.
pub proof fn lemma_edge_ids_perm(e: Seq<u8>)
    requires
        edges_perm(e),
    ensures
        perm_upto(edge_ids(e), 12),
        edge_ids(e).len() == 12,
{
    let es = edge_ids(e);
    assert forall|i: int, j: int| 0 <= i < 12 && 0 <= j < 12 && i != j implies #[trigger] es[i] != #[trigger] es[j] by {
        assert(eid(e[i]) != eid(e[j]));
    }
}

/// The inverse of a permutation of the corners or of the edges has the
/// parity of the permutation.
pub proof fn law_parity_inverse(c: Seq<u8>, e: Seq<u8>)
    requires
        corners_perm(c),
        edges_perm(e),
    ensures
        corner_parity(crate::corners::corners_inverse(c)) == corner_parity(c),
        edge_parity(crate::edges::edges_inverse(e)) == edge_parity(e),
{
    lemma_corner_parity_inverse(c);
    lemma_edge_parity_inverse(e);
}

proof fn lemma_corner_parity_inverse(c: Seq<u8>)
    requires
        corners_perm(c),
    ensures
        corner_parity(crate::corners::corners_inverse(c)) == corner_parity(c),
{
    crate::corners::law_corners_inverse(c);
    lemma_corner_parity_compose(c, crate::corners::corners_inverse(c));
    lemma_ident_even(8);
    assert(corner_ids(corners_ident()) =~= Seq::new(8, |i: int| i as u8));
}

proof fn lemma_edge_parity_inverse(e: Seq<u8>)
    requires
        edges_perm(e),
    ensures
        edge_parity(crate::edges::edges_inverse(e)) == edge_parity(e),
{
    crate::edges::law_edges_inverse(e);
    lemma_edge_parity_compose(e, crate::edges::edges_inverse(e));
    lemma_ident_even(12);
    assert(edge_ids(edges_ident()) =~= Seq::new(12, |i: int| i as u8));
}

} // verus!
