//! What the cycle walk finds on a permutation: its cycles of moved slots,
//! each listed against the map, each slot once, in the order of their
//! lowest slots.
use vstd::prelude::*;

use crate::parity::perm_upto;
use crate::perm::{count_below, cycle_walk, first_positions, lemma_count_remove, lowest_from};

verus! {

/// The slots `0..n`, in order.
pub open spec fn slots(n: int) -> Seq<int> {
    Seq::new(n as nat, |i: int| i)
}

/// The cycles of slots that the walk finds on the map `ids` of `0..n`.
pub open spec fn slot_cycles(ids: Seq<u8>, moved: Seq<bool>, n: int) -> Seq<Seq<int>> {
    cycle_walk(slots(n), ids, moved, first_positions(n), 0, Seq::empty(), Seq::empty())
}

/// Whether every cycle of `cs` is non-empty, made of moved slots below `n`,
/// and follows the map `ids`: the piece in each slot belongs in the slot
/// listed just before it, and the piece in the first slot listed belongs
/// in the last.
pub open spec fn cycles_follow(cs: Seq<Seq<int>>, ids: Seq<u8>, moved: Seq<bool>, n: int) -> bool {
    &&& forall|k: int|
        0 <= k < cs.len() ==> (#[trigger] cs[k]).len() > 0 && ids[cs[k][0]] as int == cs[k].last()
    &&& forall|k: int, m: int|
        0 <= k < cs.len() && 0 <= m < cs[k].len() ==> 0 <= #[trigger] cs[k][m] < n && moved[cs[k][m]]
    &&& forall|k: int, m: int|
        0 <= k < cs.len() && 0 < m < cs[k].len() ==> #[trigger] ids[cs[k][m]] as int == cs[k][m - 1]
}

/// Whether no slot occurs twice in `cs`.
pub open spec fn cycles_distinct(cs: Seq<Seq<int>>) -> bool {
    forall|k1: int, m1: int, k2: int, m2: int|
        0 <= k1 < cs.len() && 0 <= m1 < cs[k1].len() && 0 <= k2 < cs.len() && 0 <= m2 < cs[k2].len()
            && #[trigger] cs[k1][m1] == #[trigger] cs[k2][m2] ==> k1 == k2 && m1 == m2
}

/// Whether the slot `j` occurs in `cs`.
pub open spec fn occurs(cs: Seq<Seq<int>>, j: int) -> bool {
    exists|k: int, m: int| 0 <= k < cs.len() && 0 <= m < cs[k].len() && #[trigger] cs[k][m] == j
}

/// Whether every moved slot of `0..n` occurs in `cs`.
pub open spec fn cycles_cover(cs: Seq<Seq<int>>, moved: Seq<bool>, n: int) -> bool {
    forall|j: int| 0 <= j < n && #[trigger] moved[j] ==> occurs(cs, j)
}

/// Whether each cycle of `cs` ends with its lowest slot, and the cycles come
/// in the order of their lowest slots.
pub open spec fn cycles_ordered(cs: Seq<Seq<int>>) -> bool {
    &&& forall|k: int, m: int| 0 <= k < cs.len() && 0 <= m < cs[k].len() ==> cs[k].last() <= #[trigger] cs[k][m]
    &&& forall|k1: int, k2: int| 0 <= k1 < k2 < cs.len() ==> (#[trigger] cs[k1]).last() < (#[trigger] cs[k2]).last()
}

/// The lowest position of `u` from `k` on is in `u` and below every other
/// one; where there is none it is 16.
proof fn lemma_lowest_from(u: Set<int>, k: int)
    requires
        0 <= k <= 16,
        forall|x: int| #[trigger] u.contains(x) ==> 0 <= x < 16,
    ensures
        lowest_from(u, k) == 16 || (u.contains(lowest_from(u, k)) && k <= lowest_from(u, k)),
        forall|x: int| #[trigger] u.contains(x) && k <= x ==> lowest_from(u, k) <= x,
    decreases 16 - k,
{
    if k < 16 {
        lemma_lowest_from(u, k + 1);
    }
}

/// The state of the walk: the cycles found so far, `acc`, lie outside the
/// positions `u0` left when the current cycle began, and the current cycle
/// `cur` runs against the map from where it began, its last slot, the
/// lowest of `u0`, up to the slot `i` it reaches next.
pub open spec fn walk_state(
    ids: Seq<u8>,
    moved: Seq<bool>,
    n: int,
    u: Set<int>,
    i: int,
    cur: Seq<int>,
    acc: Seq<Seq<int>>,
    u0: Set<int>,
) -> bool {
    &&& forall|x: int| #[trigger] u0.contains(x) ==> 0 <= x < n
    &&& forall|x: int| #[trigger] u.contains(x) ==> u0.contains(x)
    &&& forall|x: int| u0.contains(x) ==> u0.contains(#[trigger] ids[x] as int)
    &&& cycles_follow(acc, ids, moved, n)
    &&& cycles_distinct(acc)
    &&& cycles_ordered(acc)
    &&& forall|j: int| 0 <= j < n && #[trigger] moved[j] && !u0.contains(j) ==> occurs(acc, j)
    &&& forall|k: int, m: int| 0 <= k < acc.len() && 0 <= m < acc[k].len() ==> !u0.contains(#[trigger] acc[k][m])
    &&& forall|k: int, x: int| 0 <= k < acc.len() && #[trigger] u0.contains(x) ==> (#[trigger] acc[k]).last() < x
    &&& cur.len() == 0 ==> u == u0 && i == lowest_from(u, 0)
    &&& cur.len() > 0 ==> {
        &&& u.contains(i)
        &&& ids[cur[0]] as int == i
        &&& forall|m: int| 0 < m < cur.len() ==> #[trigger] ids[cur[m]] as int == cur[m - 1]
        &&& forall|x: int| #[trigger] u0.contains(x) ==> cur.last() <= x
        &&& forall|x: int| #[trigger] u0.contains(x) && !u.contains(x) ==> cur.contains(x)
        &&& forall|m: int| 0 <= m < cur.len() ==> u0.contains(#[trigger] cur[m]) && !u.contains(cur[m]) && moved[cur[m]]
        &&& forall|m1: int, m2: int| 0 <= m1 < cur.len() && 0 <= m2 < cur.len() && m1 != m2 ==> #[trigger] cur[m1] != #[trigger] cur[m2]
    }
}

/// Whether `ids` permutes `0..n` and every slot whose piece is out of
/// place is marked moved.
pub open spec fn walk_map(ids: Seq<u8>, moved: Seq<bool>, n: int) -> bool {
    &&& 0 < n <= 16
    &&& perm_upto(ids, n)
    &&& n <= moved.len()
    &&& forall|x: int| 0 <= x < n && ids[x] as int != x ==> #[trigger] moved[x]
}


/// Two slots below `n` that the map sends to the same slot are the same.
proof fn lemma_map_injective(ids: Seq<u8>, moved: Seq<bool>, n: int, x: int, y: int)
    requires
        walk_map(ids, moved, n),
        0 <= x < n,
        0 <= y < n,
        ids[x] == ids[y],
    ensures
        x == y,
{
}

/// The slots of `u0` left after removing those of a finished cycle `c` are
/// still closed under the map.
proof fn lemma_push_closed(ids: Seq<u8>, moved: Seq<bool>, n: int, u1: Set<int>, c: Seq<int>, u0: Set<int>)
    requires
        walk_map(ids, moved, n),
        forall|x: int| #[trigger] u0.contains(x) ==> 0 <= x < n,
        forall|x: int| u0.contains(x) ==> u0.contains(#[trigger] ids[x] as int),
        c.len() > 0,
        ids[c[0]] as int == c.last(),
        forall|m: int| 0 < m < c.len() ==> #[trigger] ids[c[m]] as int == c[m - 1],
        forall|m: int| 0 <= m < c.len() ==> u0.contains(#[trigger] c[m]) && !u1.contains(c[m]),
        forall|x: int| #[trigger] u1.contains(x) ==> u0.contains(x),
        forall|x: int| #[trigger] u0.contains(x) && !u1.contains(x) ==> c.contains(x),
    ensures
        forall|x: int| u1.contains(x) ==> u1.contains(#[trigger] ids[x] as int),
{
    assert forall|x: int| u1.contains(x) implies u1.contains(#[trigger] ids[x] as int) by {
        let y = ids[x] as int;
        assert(u0.contains(x));
        assert(u0.contains(y));
        if !u1.contains(y) {
            assert(c.contains(y));
            let m = choose|m: int| 0 <= m < c.len() && c[m] == y;
            if m < c.len() - 1 {
                assert(ids[c[m + 1]] as int == c[m]);
                assert(u0.contains(c[m + 1]));
                lemma_map_injective(ids, moved, n, x, c[m + 1]);
            } else {
                assert(u0.contains(c[0]));
                lemma_map_injective(ids, moved, n, x, c[0]);
            }
        }
    }
}

/// Appending a finished cycle keeps the cycles following the map.
proof fn lemma_push_follow(ids: Seq<u8>, moved: Seq<bool>, n: int, c: Seq<int>, acc: Seq<Seq<int>>)
    requires
        cycles_follow(acc, ids, moved, n),
        c.len() > 0,
        ids[c[0]] as int == c.last(),
        forall|m: int| 0 < m < c.len() ==> #[trigger] ids[c[m]] as int == c[m - 1],
        forall|m: int| 0 <= m < c.len() ==> 0 <= #[trigger] c[m] < n && moved[c[m]],
    ensures
        cycles_follow(acc.push(c), ids, moved, n),
{
    let acc2 = acc.push(c);
    let l = acc.len() as int;
    assert(acc2[l] == c);
    assert forall|k: int| 0 <= k < acc2.len() implies (#[trigger] acc2[k]).len() > 0 && ids[acc2[k][0]] as int == acc2[k].last() by {
        if k < l {
            assert(acc2[k] == acc[k]);
        }
    }
    assert forall|k: int, m: int| 0 <= k < acc2.len() && 0 <= m < acc2[k].len() implies 0 <= #[trigger] acc2[k][m] < n && moved[acc2[k][m]] by {
        if k < l {
            assert(acc2[k] == acc[k]);
        }
    }
    assert forall|k: int, m: int| 0 <= k < acc2.len() && 0 < m < acc2[k].len() implies #[trigger] ids[acc2[k][m]] as int == acc2[k][m - 1] by {
        if k < l {
            assert(acc2[k] == acc[k]);
        }
    }
}

/// Appending a cycle of distinct slots, none found before, keeps every slot
/// found once.
proof fn lemma_push_distinct(c: Seq<int>, acc: Seq<Seq<int>>, u0: Set<int>)
    requires
        cycles_distinct(acc),
        forall|k: int, m: int| 0 <= k < acc.len() && 0 <= m < acc[k].len() ==> !u0.contains(#[trigger] acc[k][m]),
        forall|m: int| 0 <= m < c.len() ==> u0.contains(#[trigger] c[m]),
        forall|m1: int, m2: int| 0 <= m1 < c.len() && 0 <= m2 < c.len() && m1 != m2 ==> #[trigger] c[m1] != #[trigger] c[m2],
    ensures
        cycles_distinct(acc.push(c)),
{
    let acc2 = acc.push(c);
    let l = acc.len() as int;
    assert(acc2[l] == c);
    assert forall|k1: int, m1: int, k2: int, m2: int|
        0 <= k1 < acc2.len() && 0 <= m1 < acc2[k1].len() && 0 <= k2 < acc2.len() && 0 <= m2 < acc2[k2].len()
            && #[trigger] acc2[k1][m1] == #[trigger] acc2[k2][m2] implies k1 == k2 && m1 == m2 by {
        if k1 < l && k2 < l {
            assert(acc2[k1] == acc[k1] && acc2[k2] == acc[k2]);
            assert(acc[k1][m1] == acc[k2][m2]);
        } else if k1 < l {
            assert(acc2[k1] == acc[k1]);
            assert(!u0.contains(acc[k1][m1]));
            assert(u0.contains(c[m2]));
        } else if k2 < l {
            assert(acc2[k2] == acc[k2]);
            assert(!u0.contains(acc[k2][m2]));
            assert(u0.contains(c[m1]));
        }
    }
}

/// Appending a cycle that ends with the lowest slot of `u0`, lower than all
/// its other slots, keeps the cycles in order.
proof fn lemma_push_ordered(c: Seq<int>, acc: Seq<Seq<int>>, u0: Set<int>)
    requires
        cycles_ordered(acc),
        forall|k: int, x: int| 0 <= k < acc.len() && #[trigger] u0.contains(x) ==> (#[trigger] acc[k]).last() < x,
        c.len() > 0,
        forall|x: int| #[trigger] u0.contains(x) ==> c.last() <= x,
        forall|m: int| 0 <= m < c.len() ==> u0.contains(#[trigger] c[m]),
    ensures
        cycles_ordered(acc.push(c)),
{
    let acc2 = acc.push(c);
    let l = acc.len() as int;
    assert(acc2[l] == c);
    assert forall|k: int, m: int| 0 <= k < acc2.len() && 0 <= m < acc2[k].len() implies acc2[k].last() <= #[trigger] acc2[k][m] by {
        if k < l {
            assert(acc2[k] == acc[k]);
        } else {
            assert(u0.contains(c[m]));
        }
    }
    assert forall|k1: int, k2: int| 0 <= k1 < k2 < acc2.len() implies (#[trigger] acc2[k1]).last() < (#[trigger] acc2[k2]).last() by {
        assert(acc2[k1] == acc[k1]);
        if k2 < l {
            assert(acc2[k2] == acc[k2]);
        } else {
            assert(u0.contains(c[c.len() - 1]));
        }
    }
}

/// After a finished cycle, the slots found lie outside the slots left,
/// below them where they end a cycle, and take in every moved slot seen.
proof fn lemma_push_outside(ids: Seq<u8>, moved: Seq<bool>, n: int, u1: Set<int>, c: Seq<int>, acc: Seq<Seq<int>>, u0: Set<int>)
    requires
        forall|j: int| 0 <= j < n && #[trigger] moved[j] && !u0.contains(j) ==> occurs(acc, j),
        forall|k: int, m: int| 0 <= k < acc.len() && 0 <= m < acc[k].len() ==> !u0.contains(#[trigger] acc[k][m]),
        forall|k: int, x: int| 0 <= k < acc.len() && #[trigger] u0.contains(x) ==> (#[trigger] acc[k]).last() < x,
        c.len() > 0,
        forall|x: int| #[trigger] u0.contains(x) ==> c.last() <= x,
        forall|m: int| 0 <= m < c.len() ==> !u1.contains(#[trigger] c[m]),
        forall|x: int| #[trigger] u1.contains(x) ==> u0.contains(x),
        forall|x: int| #[trigger] u0.contains(x) && !u1.contains(x) ==> c.contains(x),
    ensures
        forall|j: int| 0 <= j < n && #[trigger] moved[j] && !u1.contains(j) ==> occurs(acc.push(c), j),
        forall|k: int, m: int| 0 <= k < acc.push(c).len() && 0 <= m < acc.push(c)[k].len() ==> !u1.contains(#[trigger] acc.push(c)[k][m]),
        forall|k: int, x: int| 0 <= k < acc.push(c).len() && #[trigger] u1.contains(x) ==> (#[trigger] acc.push(c)[k]).last() < x,
{
    let acc2 = acc.push(c);
    let l = acc.len() as int;
    assert(acc2[l] == c);
    assert forall|j: int| 0 <= j < n && #[trigger] moved[j] && !u1.contains(j) implies occurs(acc2, j) by {
        if u0.contains(j) {
            let m = choose|m: int| 0 <= m < c.len() && c[m] == j;
            assert(acc2[l][m] == j);
        } else {
            assert(occurs(acc, j));
            let (k, m) = choose|k: int, m: int| 0 <= k < acc.len() && 0 <= m < acc[k].len() && #[trigger] acc[k][m] == j;
            assert(acc2[k] == acc[k]);
            assert(acc2[k][m] == j);
        }
    }
    assert forall|k: int, m: int| 0 <= k < acc2.len() && 0 <= m < acc2[k].len() implies !u1.contains(#[trigger] acc2[k][m]) by {
        if k < l {
            assert(acc2[k] == acc[k]);
            assert(!u0.contains(acc[k][m]));
        }
    }
    assert forall|k: int, x: int| 0 <= k < acc2.len() && #[trigger] u1.contains(x) implies (#[trigger] acc2[k]).last() < x by {
        assert(u0.contains(x));
        if k < l {
            assert(acc2[k] == acc[k]);
        } else {
            assert(c.last() <= x);
            assert(!u1.contains(c[c.len() - 1]));
        }
    }
}

/// Finishing the cycle `c`, whose slots are those of `u0` not in `u1`,
/// gives a state that restarts at the lowest slot of `u1`.
proof fn lemma_push_cycle(
    ids: Seq<u8>,
    moved: Seq<bool>,
    n: int,
    u1: Set<int>,
    c: Seq<int>,
    acc: Seq<Seq<int>>,
    u0: Set<int>,
)
    requires
        walk_map(ids, moved, n),
        forall|x: int| #[trigger] u0.contains(x) ==> 0 <= x < n,
        forall|x: int| u0.contains(x) ==> u0.contains(#[trigger] ids[x] as int),
        cycles_follow(acc, ids, moved, n),
        cycles_distinct(acc),
        cycles_ordered(acc),
        forall|j: int| 0 <= j < n && #[trigger] moved[j] && !u0.contains(j) ==> occurs(acc, j),
        forall|k: int, m: int| 0 <= k < acc.len() && 0 <= m < acc[k].len() ==> !u0.contains(#[trigger] acc[k][m]),
        forall|k: int, x: int| 0 <= k < acc.len() && #[trigger] u0.contains(x) ==> (#[trigger] acc[k]).last() < x,
        c.len() > 0,
        ids[c[0]] as int == c.last(),
        forall|m: int| 0 < m < c.len() ==> #[trigger] ids[c[m]] as int == c[m - 1],
        forall|x: int| #[trigger] u0.contains(x) ==> c.last() <= x,
        forall|m: int| 0 <= m < c.len() ==> u0.contains(#[trigger] c[m]) && !u1.contains(c[m]) && moved[c[m]],
        forall|m1: int, m2: int| 0 <= m1 < c.len() && 0 <= m2 < c.len() && m1 != m2 ==> #[trigger] c[m1] != #[trigger] c[m2],
        forall|x: int| #[trigger] u1.contains(x) ==> u0.contains(x),
        forall|x: int| #[trigger] u0.contains(x) && !u1.contains(x) ==> c.contains(x),
    ensures
        walk_state(ids, moved, n, u1, lowest_from(u1, 0), Seq::empty(), acc.push(c), u1),
{
    lemma_push_closed(ids, moved, n, u1, c, u0);
    assert forall|m: int| 0 <= m < c.len() implies 0 <= #[trigger] c[m] < n && moved[c[m]] by {
        assert(u0.contains(c[m]));
    }
    lemma_push_follow(ids, moved, n, c, acc);
    lemma_push_distinct(c, acc, u0);
    lemma_push_ordered(c, acc, u0);
    lemma_push_outside(ids, moved, n, u1, c, acc, u0);
}

/// From a restart at the lowest slot `i` left, a moved slot whose piece
/// belongs in another slot left begins a cycle.
proof fn lemma_walk_begin(ids: Seq<u8>, moved: Seq<bool>, n: int, u: Set<int>, i: int, acc: Seq<Seq<int>>)
    requires
        walk_map(ids, moved, n),
        walk_state(ids, moved, n, u, i, Seq::empty(), acc, u),
        u.contains(i),
        moved[i],
        u.remove(i).contains(ids[i] as int),
    ensures
        walk_state(ids, moved, n, u.remove(i), ids[i] as int, seq![i], acc, u),
{
    lemma_lowest_from(u, 0);
    let c = seq![i];
    assert forall|x: int| #[trigger] u.contains(x) && !u.remove(i).contains(x) implies c.contains(x) by {
        assert(c[0] == x);
    }
}

/// From a restart at the lowest slot `i` left, a slot whose piece is in
/// place and untwisted is passed over.
proof fn lemma_walk_skip(ids: Seq<u8>, moved: Seq<bool>, n: int, u: Set<int>, i: int, acc: Seq<Seq<int>>)
    requires
        walk_map(ids, moved, n),
        walk_state(ids, moved, n, u, i, Seq::empty(), acc, u),
        u.contains(i),
        !moved[i],
    ensures
        walk_state(ids, moved, n, u.remove(i), lowest_from(u.remove(i), 0), Seq::empty(), acc, u.remove(i)),
{
    let u1 = u.remove(i);
    assert(ids[i] as int == i);
    assert forall|x: int| u1.contains(x) implies u1.contains(#[trigger] ids[x] as int) by {
        if ids[x] as int == i {
            lemma_map_injective(ids, moved, n, x, i);
        }
    }
}

/// From a restart at the lowest slot `i` left, a moved slot whose piece
/// belongs in no other slot left is a cycle of its own.
proof fn lemma_walk_single(ids: Seq<u8>, moved: Seq<bool>, n: int, u: Set<int>, i: int, acc: Seq<Seq<int>>)
    requires
        walk_map(ids, moved, n),
        walk_state(ids, moved, n, u, i, Seq::empty(), acc, u),
        u.contains(i),
        moved[i],
        !u.remove(i).contains(ids[i] as int),
    ensures
        walk_state(ids, moved, n, u.remove(i), lowest_from(u.remove(i), 0), Seq::empty(), acc.push(seq![i]), u.remove(i)),
{
    lemma_lowest_from(u, 0);
    let u1 = u.remove(i);
    let c = seq![i];
    assert(u.contains(ids[i] as int));
    assert(ids[i] as int == i);
    assert forall|x: int| #[trigger] u.contains(x) && !u1.contains(x) implies c.contains(x) by {
        assert(c[0] == x);
    }
    lemma_push_cycle(ids, moved, n, u1, c, acc, u);
}

/// Inside a cycle, a slot whose piece belongs in another slot left carries
/// the cycle on.
proof fn lemma_walk_step(
    ids: Seq<u8>,
    moved: Seq<bool>,
    n: int,
    u: Set<int>,
    i: int,
    cur: Seq<int>,
    acc: Seq<Seq<int>>,
    u0: Set<int>,
)
    requires
        walk_map(ids, moved, n),
        walk_state(ids, moved, n, u, i, cur, acc, u0),
        cur.len() > 0,
        moved[i],
        u.remove(i).contains(ids[i] as int),
    ensures
        walk_state(ids, moved, n, u.remove(i), ids[i] as int, seq![i] + cur, acc, u0),
{
    let u1 = u.remove(i);
    let c = seq![i] + cur;
    assert forall|m: int| 0 < m < c.len() implies #[trigger] ids[c[m]] as int == c[m - 1] by {
        assert(c[m] == cur[m - 1]);
        if m > 1 {
            assert(c[m - 1] == cur[m - 2]);
        }
    }
    assert forall|x: int| #[trigger] u0.contains(x) && !u1.contains(x) implies c.contains(x) by {
        if x == i {
            assert(c[0] == x);
        } else {
            assert(cur.contains(x));
            let m = choose|m: int| 0 <= m < cur.len() && cur[m] == x;
            assert(c[m + 1] == x);
        }
    }
    assert forall|m: int| 0 <= m < c.len() implies u0.contains(#[trigger] c[m]) && !u1.contains(c[m]) && moved[c[m]] by {
        if m > 0 {
            assert(c[m] == cur[m - 1]);
        }
    }
    assert forall|m1: int, m2: int| 0 <= m1 < c.len() && 0 <= m2 < c.len() && m1 != m2 implies #[trigger] c[m1] != #[trigger] c[m2] by {
        if m1 > 0 && m2 > 0 {
            assert(c[m1] == cur[m1 - 1] && c[m2] == cur[m2 - 1]);
        } else if m1 > 0 {
            assert(c[m1] == cur[m1 - 1]);
            assert(!u.contains(cur[m1 - 1]));
        } else {
            assert(c[m2] == cur[m2 - 1]);
            assert(!u.contains(cur[m2 - 1]));
        }
    }
    assert(c.last() == cur.last());
}

/// Inside a cycle, a slot whose piece belongs in no slot left closes the
/// cycle: its piece belongs where the cycle began.
proof fn lemma_walk_close(
    ids: Seq<u8>,
    moved: Seq<bool>,
    n: int,
    u: Set<int>,
    i: int,
    cur: Seq<int>,
    acc: Seq<Seq<int>>,
    u0: Set<int>,
)
    requires
        walk_map(ids, moved, n),
        walk_state(ids, moved, n, u, i, cur, acc, u0),
        cur.len() > 0,
        moved[i],
        !u.remove(i).contains(ids[i] as int),
    ensures
        walk_state(ids, moved, n, u.remove(i), lowest_from(u.remove(i), 0), Seq::empty(), acc.push(seq![i] + cur), u.remove(i)),
{
    let u1 = u.remove(i);
    let c = seq![i] + cur;
    let j = ids[i] as int;
    assert(u0.contains(i));
    assert(u0.contains(j));
    assert(0 <= i < n);
    if j == i {
        assert(u0.contains(cur[0]));
        lemma_map_injective(ids, moved, n, cur[0], i);
        assert(false);
    }
    assert(cur.contains(j));
    let m = choose|m: int| 0 <= m < cur.len() && cur[m] == j;
    if m < cur.len() - 1 {
        assert(ids[cur[m + 1]] as int == cur[m]);
        assert(u0.contains(cur[m + 1]));
        lemma_map_injective(ids, moved, n, cur[m + 1], i);
        assert(false);
    }
    assert(c.last() == cur.last());
    assert(ids[c[0]] as int == c.last());
    assert forall|m: int| 0 < m < c.len() implies #[trigger] ids[c[m]] as int == c[m - 1] by {
        assert(c[m] == cur[m - 1]);
        if m > 1 {
            assert(c[m - 1] == cur[m - 2]);
        }
    }
    assert forall|x: int| #[trigger] u0.contains(x) && !u1.contains(x) implies c.contains(x) by {
        if x == i {
            assert(c[0] == x);
        } else {
            assert(cur.contains(x));
            let k = choose|k: int| 0 <= k < cur.len() && cur[k] == x;
            assert(c[k + 1] == x);
        }
    }
    assert forall|k: int| 0 <= k < c.len() implies u0.contains(#[trigger] c[k]) && !u1.contains(c[k]) && moved[c[k]] by {
        if k > 0 {
            assert(c[k] == cur[k - 1]);
        }
    }
    assert forall|m1: int, m2: int| 0 <= m1 < c.len() && 0 <= m2 < c.len() && m1 != m2 implies #[trigger] c[m1] != #[trigger] c[m2] by {
        if m1 > 0 && m2 > 0 {
            assert(c[m1] == cur[m1 - 1] && c[m2] == cur[m2 - 1]);
        } else if m1 > 0 {
            assert(c[m1] == cur[m1 - 1]);
            assert(!u.contains(cur[m1 - 1]));
        } else {
            assert(c[m2] == cur[m2 - 1]);
            assert(!u.contains(cur[m2 - 1]));
        }
    }
    assert forall|x: int| #[trigger] u1.contains(x) implies u0.contains(x) by {
        assert(u.contains(x));
    }
    lemma_push_cycle(ids, moved, n, u1, c, acc, u0);
}

/// From any state of the walk, the cycles it ends with follow the map,
/// hold each slot once and every moved slot, and come in order.
proof fn lemma_walk(
    ids: Seq<u8>,
    moved: Seq<bool>,
    n: int,
    u: Set<int>,
    i: int,
    cur: Seq<int>,
    acc: Seq<Seq<int>>,
    u0: Set<int>,
)
    requires
        walk_map(ids, moved, n),
        walk_state(ids, moved, n, u, i, cur, acc, u0),
    ensures
        cycles_follow(cycle_walk(slots(n), ids, moved, u, i, cur, acc), ids, moved, n),
        cycles_distinct(cycle_walk(slots(n), ids, moved, u, i, cur, acc)),
        cycles_cover(cycle_walk(slots(n), ids, moved, u, i, cur, acc), moved, n),
        cycles_ordered(cycle_walk(slots(n), ids, moved, u, i, cur, acc)),
    decreases count_below(u, 16),
{
    if cur.len() == 0 {
        lemma_lowest_from(u, 0);
    }
    if 0 <= i < 16 && u.contains(i) {
        lemma_count_remove(u, i, 16);
        let u1 = u.remove(i);
        let j = ids[i] as int;
        assert(u0.contains(i));
        assert(slots(n)[i] == i);
        if cur.len() == 0 {
            if moved[i] && u1.contains(j) {
                lemma_walk_begin(ids, moved, n, u, i, acc);
                assert(seq![slots(n)[i]] + cur =~= seq![i]);
                lemma_walk(ids, moved, n, u1, j, seq![i], acc, u);
            } else if !moved[i] {
                lemma_walk_skip(ids, moved, n, u, i, acc);
                lemma_walk(ids, moved, n, u1, lowest_from(u1, 0), cur, acc, u1);
            } else {
                lemma_walk_single(ids, moved, n, u, i, acc);
                assert(seq![slots(n)[i]] + cur =~= seq![i]);
                lemma_walk(ids, moved, n, u1, lowest_from(u1, 0), Seq::empty(), acc.push(seq![i]), u1);
            }
        } else {
            if !moved[i] {
                assert(j == i);
                assert(u0.contains(cur[0]));
                lemma_map_injective(ids, moved, n, cur[0], i);
                assert(false);
            }
            if u1.contains(j) {
                lemma_walk_step(ids, moved, n, u, i, cur, acc, u0);
                lemma_walk(ids, moved, n, u1, j, seq![i] + cur, acc, u0);
            } else {
                lemma_walk_close(ids, moved, n, u, i, cur, acc, u0);
                lemma_walk(ids, moved, n, u1, lowest_from(u1, 0), Seq::empty(), acc.push(seq![i] + cur), u1);
            }
        }
    } else {
        assert(cur.len() == 0);
        assert forall|x: int| !u0.contains(x) by {
            if u0.contains(x) {
                assert(lowest_from(u, 0) <= x);
            }
        }
    }
}

/// The cycles that the walk finds on a permutation of `0..n` follow the
/// map (the piece in each slot listed belongs in the slot listed before
/// it, that of the first in the last), hold every moved slot exactly once
/// and no other, each end with their lowest slot, and come in the order of
/// those lowest slots.
pub proof fn law_slot_cycles(ids: Seq<u8>, moved: Seq<bool>, n: int)
    requires
        walk_map(ids, moved, n),
    ensures
        cycles_follow(slot_cycles(ids, moved, n), ids, moved, n),
        cycles_distinct(slot_cycles(ids, moved, n)),
        cycles_cover(slot_cycles(ids, moved, n), moved, n),
        cycles_ordered(slot_cycles(ids, moved, n)),
{
    let u = first_positions(n);
    lemma_lowest_from(u, 0);
    assert(u.contains(0));
    assert(lowest_from(u, 0) == 0);
    lemma_walk(ids, moved, n, u, 0, Seq::empty(), Seq::empty(), u);
}

} // verus!
