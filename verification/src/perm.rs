//! Walks along the cycles of a permutation of at most 16 positions, tracked
//! with a bit mask of the positions not yet seen.
use vstd::prelude::*;
use vstd::std_specs::bits::{axiom_u16_trailing_zeros, u16_trailing_zeros};

verus! {

/// The positions below 16 whose bit is set in `m`.
pub open spec fn mask_set(m: u16) -> Set<int> {
    Set::new(|j: int| 0 <= j < 16 && (m >> (j as u16)) & 1u16 == 1u16)
}

/// The positions `0..n`.
pub open spec fn first_positions(n: int) -> Set<int> {
    Set::new(|j: int| 0 <= j < n)
}

/// How many of the positions `0..k` are in `s`.
pub open spec fn count_below(s: Set<int>, k: nat) -> nat
    decreases k,
{
    if k == 0 {
        0
    } else {
        count_below(s, (k - 1) as nat) + if s.contains(k - 1) {
            1nat
        } else {
            0nat
        }
    }
}

/// The lowest position of `s` in `k..16`, or 16 where there is none.
pub open spec fn lowest_from(s: Set<int>, k: int) -> int
    decreases 16 - k,
{
    if k >= 16 {
        16
    } else if s.contains(k) {
        k
    } else {
        lowest_from(s, k + 1)
    }
}

/// Removing a position of `s` below `k` lowers the count below `k` by one.
pub proof fn lemma_count_remove(s: Set<int>, i: int, k: nat)
    requires
        s.contains(i),
    ensures
        0 <= i < k ==> count_below(s.remove(i), k) + 1 == count_below(s, k),
        !(0 <= i < k) ==> count_below(s.remove(i), k) == count_below(s, k),
    decreases k,
{
    if k > 0 {
        lemma_count_remove(s, i, (k - 1) as nat);
    }
}

/// The parity computed by walking the cycles of the map `ids`: starting at
/// `i`, each step that follows the map to a position not yet seen toggles
/// the parity; otherwise the walk restarts at the lowest unseen position.
/// For a permutation of `n` positions this counts `n` minus the number of
/// its cycles.
pub open spec fn parity_walk(ids: Seq<u8>, unseen: Set<int>, i: int, acc: bool) -> bool
    decreases count_below(unseen, 16),
{
    if 0 <= i < 16 && unseen.contains(i) {
        proof {
            lemma_count_remove(unseen, i, 16);
        }
        let u = unseen.remove(i);
        let j = ids[i] as int;
        if j != i && u.contains(j) {
            parity_walk(ids, u, j, !acc)
        } else {
            parity_walk(ids, u, lowest_from(u, 0), acc)
        }
    } else {
        acc
    }
}

/// The cycles found by walking the map `ids`: from `i`, a position whose
/// piece is `moved` is put at the front of the current cycle and the walk
/// follows the map while it reaches unseen positions; a finished non-empty
/// cycle is appended to `acc`, and the walk restarts at the lowest unseen
/// position.
pub open spec fn cycle_walk<T>(
    pieces: Seq<T>,
    ids: Seq<u8>,
    moved: Seq<bool>,
    unseen: Set<int>,
    i: int,
    cur: Seq<T>,
    acc: Seq<Seq<T>>,
) -> Seq<Seq<T>>
    decreases count_below(unseen, 16),
{
    if 0 <= i < 16 && unseen.contains(i) {
        proof {
            lemma_count_remove(unseen, i, 16);
        }
        let u = unseen.remove(i);
        let j = ids[i] as int;
        let c = if moved[i] {
            seq![pieces[i]] + cur
        } else {
            cur
        };
        if moved[i] && u.contains(j) {
            cycle_walk(pieces, ids, moved, u, j, c, acc)
        } else if c.len() == 0 {
            cycle_walk(pieces, ids, moved, u, lowest_from(u, 0), c, acc)
        } else {
            cycle_walk(pieces, ids, moved, u, lowest_from(u, 0), Seq::empty(), acc.push(c))
        }
    } else {
        acc
    }
}

/// Walking the cycles and then mapping every piece by `f` is walking over
/// the mapped pieces.
pub proof fn lemma_cycle_walk_map<T, U>(
    pieces: Seq<T>,
    f: spec_fn(T) -> U,
    ids: Seq<u8>,
    moved: Seq<bool>,
    unseen: Set<int>,
    i: int,
    cur: Seq<T>,
    acc: Seq<Seq<T>>,
)
    requires
        forall|k: int| #[trigger] unseen.contains(k) ==> 0 <= k < pieces.len(),
    ensures
        cycle_walk(
            pieces.map_values(f),
            ids,
            moved,
            unseen,
            i,
            cur.map_values(f),
            acc.map_values(|s: Seq<T>| s.map_values(f)),
        ) == cycle_walk(pieces, ids, moved, unseen, i, cur, acc).map_values(
            |s: Seq<T>| s.map_values(f),
        ),
    decreases count_below(unseen, 16),
{
    let g = |s: Seq<T>| s.map_values(f);
    if 0 <= i < 16 && unseen.contains(i) {
        lemma_count_remove(unseen, i, 16);
        let u = unseen.remove(i);
        let j = ids[i] as int;
        let c = if moved[i] {
            seq![pieces[i]] + cur
        } else {
            cur
        };
        assert(c.map_values(f) == if moved[i] {
            seq![pieces.map_values(f)[i]] + cur.map_values(f)
        } else {
            cur.map_values(f)
        }) by {
            if moved[i] {
                assert(c.map_values(f) =~= seq![pieces.map_values(f)[i]] + cur.map_values(f));
            }
        }
        if moved[i] && u.contains(j) {
            lemma_cycle_walk_map(pieces, f, ids, moved, u, j, c, acc);
        } else if c.len() == 0 {
            lemma_cycle_walk_map(pieces, f, ids, moved, u, lowest_from(u, 0), c, acc);
        } else {
            assert(Seq::<T>::empty().map_values(f) =~= Seq::<U>::empty());
            assert(acc.push(c).map_values(g) =~= acc.map_values(g).push(c.map_values(f)));
            lemma_cycle_walk_map(pieces, f, ids, moved, u, lowest_from(u, 0), Seq::empty(), acc.push(c));
        }
    }
}

/// Whether `f` maps the positions `0..n` into `0..n`, no two to the same.
pub open spec fn injective_upto(f: spec_fn(int) -> int, n: int) -> bool {
    &&& forall|i: int| 0 <= i < n ==> 0 <= #[trigger] f(i) < n
    &&& forall|i: int, j: int| 0 <= i < n && 0 <= j < n && i != j ==> #[trigger] f(i) != #[trigger] f(j)
}

/// Whether some position of `0..n` is mapped by `f` to `j`.
pub open spec fn hits(f: spec_fn(int) -> int, n: int, j: int) -> bool {
    exists|i: int| 0 <= i < n && #[trigger] f(i) == j
}

/// An injective map of `0..n` into itself reaches every position.
pub proof fn lemma_injective_onto(f: spec_fn(int) -> int, n: int)
    requires
        0 <= n,
        injective_upto(f, n),
    ensures
        forall|j: int| 0 <= j < n ==> #[trigger] hits(f, n, j),
{
    let x = vstd::set_lib::set_int_range(0, n);
    let y = x.map(f);
    vstd::set_lib::lemma_int_range(0, n);
    assert(vstd::relations::injective_on(f, x)) by {
        assert forall|a: int, b: int| x.contains(a) && x.contains(b) && #[trigger] f(a) == #[trigger] f(b) implies a == b by {
            if a != b {
                assert(f(a) != f(b));
            }
        }
    }
    vstd::set_lib::lemma_map_size(x, y, f);
    assert(y.subset_of(x)) by {
        assert forall|v: int| y.contains(v) implies x.contains(v) by {
            let i = choose|i: int| x.contains(i) && f(i) == v;
            assert(0 <= f(i) < n);
        }
    }
    vstd::set_lib::lemma_subset_equality(y, x);
    assert forall|j: int| 0 <= j < n implies #[trigger] hits(f, n, j) by {
        assert(x.contains(j));
        assert(y.contains(j));
        let i = choose|i: int| x.contains(i) && f(i) == j;
        assert(0 <= i < n && f(i) == j);
    }
}

/// The sum of `f(i)` over the positions `0..n`.
pub open spec fn sum_upto(f: spec_fn(int) -> int, n: int) -> int
    decreases n,
{
    if n <= 0 {
        0
    } else {
        sum_upto(f, n - 1) + f(n - 1)
    }
}

/// Changing one term of a sum changes the sum by the difference.
proof fn lemma_sum_change_one(f: spec_fn(int) -> int, g: spec_fn(int) -> int, k: int, n: int)
    requires
        0 <= k < n,
        forall|i: int| 0 <= i < n && i != k ==> #[trigger] f(i) == g(i),
    ensures
        sum_upto(g, n) == sum_upto(f, n) - f(k) + g(k),
    decreases n,
{
    if n - 1 > k {
        lemma_sum_change_one(f, g, k, n - 1);
    } else {
        lemma_sum_same(f, g, n - 1);
    }
}

/// Sums of equal terms are equal.
pub proof fn lemma_sum_same(f: spec_fn(int) -> int, g: spec_fn(int) -> int, n: int)
    requires
        forall|i: int| 0 <= i < n ==> #[trigger] f(i) == g(i),
    ensures
        sum_upto(g, n) == sum_upto(f, n),
    decreases n,
{
    if n > 0 {
        lemma_sum_same(f, g, n - 1);
    }
}

/// Summing over the positions in the order given by a permutation `p`
/// gives the same sum.
pub proof fn lemma_sum_permuted(f: spec_fn(int) -> int, p: spec_fn(int) -> int, n: int)
    requires
        0 <= n,
        injective_upto(p, n),
    ensures
        sum_upto(|i: int| f(p(i)), n) == sum_upto(f, n),
    decreases n,
{
    if n > 0 {
        lemma_injective_onto(p, n);
        assert(hits(p, n, n - 1));
        let k = choose|i: int| 0 <= i < n && #[trigger] p(i) == n - 1;
        let q = |i: int| if i == k { p(n - 1) } else { p(i) };
        assert(injective_upto(q, n - 1)) by {
            assert forall|i: int| 0 <= i < n - 1 implies 0 <= #[trigger] q(i) < n - 1 by {
                if i == k {
                    assert(p(n - 1) != p(k));
                } else {
                    assert(p(i) != p(k));
                }
            }
            assert forall|i: int, j: int| 0 <= i < n - 1 && 0 <= j < n - 1 && i != j implies #[trigger] q(i) != #[trigger] q(j) by {
                if i == k {
                    assert(p(n - 1) != p(j));
                } else if j == k {
                    assert(p(n - 1) != p(i));
                } else {
                    assert(p(i) != p(j));
                }
            }
        }
        lemma_sum_permuted(f, q, n - 1);
        let fp = |i: int| f(p(i));
        let fq = |i: int| f(q(i));
        if k < n - 1 {
            lemma_sum_change_one(fp, fq, k, n - 1);
        } else {
            lemma_sum_same(fp, fq, n - 1);
        }
    }
}

/// Summing terms reduced modulo `m` gives the sum of both sums modulo `m`.
pub proof fn lemma_sum_mod(u: spec_fn(int) -> int, v: spec_fn(int) -> int, m: int, n: int)
    requires
        m > 0,
    ensures
        sum_upto(|i: int| (u(i) + v(i)) % m, n) % m == (sum_upto(u, n) + sum_upto(v, n)) % m,
    decreases n,
{
    if n > 0 {
        lemma_sum_mod(u, v, m, n - 1);
        let w = |i: int| (u(i) + v(i)) % m;
        let a = sum_upto(w, n - 1);
        let b = sum_upto(u, n - 1) + sum_upto(v, n - 1);
        let c = u(n - 1) + v(n - 1);
        assert(sum_upto(w, n) == a + c % m);
        vstd::arithmetic::div_mod::lemma_add_mod_noop(a, c % m, m);
        vstd::arithmetic::div_mod::lemma_mod_twice(c, m);
        vstd::arithmetic::div_mod::lemma_add_mod_noop(a, c, m);
        vstd::arithmetic::div_mod::lemma_add_mod_noop(b, c, m);
        assert((a + c % m) % m == (a + c) % m);
        assert((a + c) % m == ((a % m) + (c % m)) % m);
        assert((b + c) % m == ((b % m) + (c % m)) % m);
    }
}

proof fn lemma_mask_bits(m: u16, i: u16)
    requires
        i < 16,
    ensures
        (m & (1u16 << i)) != 0 <==> (m >> i) & 1u16 == 1u16,
        (m >> i) & 1u16 == 1u16 ==> (m & !(1u16 << i)) < m,
        forall|j: u16| j < 16 ==> ((#[trigger] ((m & !(1u16 << i)) >> j)) & 1u16 == 1u16 <==> (j != i && (m >> j) & 1u16 == 1u16)),
{
    assert((m & (1u16 << i)) != 0 <==> (m >> i) & 1u16 == 1u16) by (bit_vector)
        requires i < 16;
    assert((m >> i) & 1u16 == 1u16 ==> (m & !(1u16 << i)) < m) by (bit_vector)
        requires i < 16;
    assert forall|j: u16| j < 16 implies ((#[trigger] ((m & !(1u16 << i)) >> j)) & 1u16 == 1u16 <==> (j != i && (m >> j) & 1u16 == 1u16)) by {
        assert(((m & !(1u16 << i)) >> j) & 1u16 == 1u16 <==> (j != i && (m >> j) & 1u16 == 1u16)) by (bit_vector)
            requires i < 16, j < 16;
    }
}

/// Clearing bit `i` of a mask removes `i` from its set of positions.
proof fn lemma_mask_clear(m: u16, i: u16)
    requires
        i < 16,
    ensures
        mask_set(m & !(1u16 << i)) == mask_set(m).remove(i as int),
        mask_set(m).contains(i as int) <==> (m & (1u16 << i)) != 0,
        mask_set(m).contains(i as int) ==> (m & !(1u16 << i)) < m,
{
    lemma_mask_bits(m, i);
    assert forall|j: int| #[trigger] mask_set(m & !(1u16 << i)).contains(j) <==> mask_set(m).remove(i as int).contains(j) by {
        if 0 <= j < 16 {
            let jj = j as u16;
            assert(((m & !(1u16 << i)) >> jj) & 1u16 == 1u16 <==> (jj != i && (m >> jj) & 1u16 == 1u16));
        }
    }
    assert(mask_set(m & !(1u16 << i)) =~= mask_set(m).remove(i as int));
}

/// The lowest set bit is where the count of trailing zeros stops.
proof fn lemma_lowest_is_trailing(m: u16, k: int)
    requires
        0 <= k <= u16_trailing_zeros(m),
    ensures
        lowest_from(mask_set(m), k) == u16_trailing_zeros(m) as int,
    decreases 16 - k,
{
    broadcast use axiom_u16_trailing_zeros;
    let t = u16_trailing_zeros(m) as int;
    if k < 16 {
        if k < t {
            let kk = k as u16;
            assert((m >> kk) & 1u16 == 0u16);
            assert(!mask_set(m).contains(k));
            lemma_lowest_is_trailing(m, k + 1);
        } else {
            assert(k == t);
            assert(m != 0);
            assert((m >> (t as u16)) & 1u16 == 1u16);
            assert(mask_set(m).contains(k));
        }
    }
}

/// The mask of the positions `0..n`.
proof fn lemma_full_mask(n: u16)
    requires
        n <= 12,
    ensures
        mask_set(((1u16 << n) - 1) as u16) == first_positions(n as int),
        (1u16 << n) >= 1,
{
    assert((1u16 << n) >= 1) by (bit_vector)
        requires n <= 12;
    let m = ((1u16 << n) - 1) as u16;
    assert forall|j: int| #[trigger] mask_set(m).contains(j) <==> first_positions(n as int).contains(j) by {
        if 0 <= j < 16 {
            let jj = j as u16;
            assert((m >> jj) & 1u16 == 1u16 <==> jj < n) by (bit_vector)
                requires n <= 12, jj < 16, m == ((1u16 << n) - 1) as u16;
        }
    }
    assert(mask_set(m) =~= first_positions(n as int));
}

/// The parity of the map `ids` of positions `0..n` (see [`parity_walk`]).
pub fn walk_parity(ids: &[u8]) -> (r: bool)
    requires
        ids@.len() <= 12,
        forall|k: int| 0 <= k < ids@.len() ==> (#[trigger] ids@[k]) < ids@.len(),
    ensures
        r == parity_walk(ids@, first_positions(ids@.len() as int), 0, false),
{
    broadcast use axiom_u16_trailing_zeros;
    let n = ids.len() as u16;
    proof {
        lemma_full_mask(n);
    }
    let mut unseen: u16 = (1u16 << n) - 1;
    let mut i: u8 = 0;
    let mut out = false;
    proof {
        if n > 0 {
            assert(mask_set(unseen).contains(0));
        } else {
            assert(mask_set(unseen) =~= Set::empty());
            assert(!mask_set(unseen).contains(0));
            assert(unseen == 0) by {
                if unseen != 0 {
                    assert(u16_trailing_zeros(unseen) < 16);
                    assert(mask_set(unseen).contains(u16_trailing_zeros(unseen) as int));
                }
            }
        }
    }
    while unseen != 0
        invariant
            n == ids@.len(),
            n <= 12,
            forall|k: int| 0 <= k < ids@.len() ==> (#[trigger] ids@[k]) < ids@.len(),
            mask_set(unseen).subset_of(first_positions(n as int)),
            unseen != 0 ==> i < n && mask_set(unseen).contains(i as int),
            unseen == 0 ==> mask_set(unseen) == Set::<int>::empty(),
            parity_walk(ids@, mask_set(unseen), i as int, out)
                == parity_walk(ids@, first_positions(n as int), 0, false),
        decreases unseen,
    {
        let ghost u0 = mask_set(unseen);
        let ghost i0 = i as int;
        let ghost out0 = out;
        proof {
            lemma_mask_clear(unseen, i as u16);
        }
        unseen &= !(1u16 << i);
        let ghost u = mask_set(unseen);
        assert(u == u0.remove(i0));
        let j = ids[i as usize];
        if j != i {
            i = j;
            proof {
                lemma_mask_clear(unseen, i as u16);
            }
            if (unseen & (1u16 << i)) != 0 {
                out = !out;
                assert(parity_walk(ids@, u0, i0, out0) == parity_walk(ids@, u, i as int, out));
                continue;
            }
        }
        proof {
            lemma_lowest_is_trailing(unseen, 0);
        }
        i = unseen.trailing_zeros() as u8;
        assert(parity_walk(ids@, u0, i0, out0) == parity_walk(ids@, u, i as int, out));
        proof {
            if unseen == 0 {
                assert(u =~= Set::<int>::empty()) by {
                    assert forall|k: int| !u.contains(k) by {
                        if 0 <= k < 16 {
                            let kk = k as u16;
                            assert((0u16 >> kk) & 1u16 == 0u16) by (bit_vector);
                        }
                    }
                }
            } else {
                assert(u.contains(i as int));
            }
        }
    }
    out
}

/// The cycles of the map `ids` of positions `0..n` (see [`cycle_walk`]),
/// listing the `pieces` at the positions of each cycle.
pub fn walk_cycles<T: Copy>(pieces: &[T], ids: &[u8], moved: &[bool]) -> (r: Vec<Vec<T>>)
    requires
        ids@.len() <= 12,
        pieces@.len() == ids@.len(),
        moved@.len() == ids@.len(),
        forall|k: int| 0 <= k < ids@.len() ==> (#[trigger] ids@[k]) < ids@.len(),
    ensures
        r@.map_values(|v: Vec<T>| v@) == cycle_walk(
            pieces@,
            ids@,
            moved@,
            first_positions(ids@.len() as int),
            0,
            Seq::empty(),
            Seq::empty(),
        ),
{
    broadcast use axiom_u16_trailing_zeros;
    let n = ids.len() as u16;
    proof {
        lemma_full_mask(n);
    }
    let mut unseen: u16 = (1u16 << n) - 1;
    let mut i: u8 = 0;
    let mut out: Vec<Vec<T>> = Vec::new();
    let mut v: Vec<T> = Vec::new();
    proof {
        if n > 0 {
            assert(mask_set(unseen).contains(0));
        } else {
            assert(mask_set(unseen) =~= Set::empty());
            assert(!mask_set(unseen).contains(0));
            assert(unseen == 0) by {
                if unseen != 0 {
                    assert(u16_trailing_zeros(unseen) < 16);
                    assert(mask_set(unseen).contains(u16_trailing_zeros(unseen) as int));
                }
            }
        }
        assert(out@.map_values(|w: Vec<T>| w@) =~= Seq::<Seq<T>>::empty());
    }
    while unseen != 0
        invariant
            n == ids@.len(),
            n <= 12,
            pieces@.len() == ids@.len(),
            moved@.len() == ids@.len(),
            forall|k: int| 0 <= k < ids@.len() ==> (#[trigger] ids@[k]) < ids@.len(),
            mask_set(unseen).subset_of(first_positions(n as int)),
            unseen != 0 ==> i < n && mask_set(unseen).contains(i as int),
            unseen == 0 ==> mask_set(unseen) == Set::<int>::empty(),
            cycle_walk(pieces@, ids@, moved@, mask_set(unseen), i as int, v@, out@.map_values(|w: Vec<T>| w@))
                == cycle_walk(pieces@, ids@, moved@, first_positions(n as int), 0, Seq::empty(), Seq::empty()),
        decreases unseen,
    {
        let ghost u0 = mask_set(unseen);
        let ghost i0 = i as int;
        let ghost v0 = v@;
        let ghost acc0 = out@.map_values(|w: Vec<T>| w@);
        proof {
            lemma_mask_clear(unseen, i as u16);
        }
        unseen &= !(1u16 << i);
        let ghost u = mask_set(unseen);
        assert(u == u0.remove(i0));
        if moved[i as usize] {
            v.insert(0, pieces[i as usize]);
            assert(v@ == seq![pieces@[i0]] + v0);
            i = ids[i as usize];
            proof {
                lemma_mask_clear(unseen, i as u16);
            }
            if (unseen & (1u16 << i)) != 0 {
                continue;
            }
        }
        proof {
            lemma_lowest_is_trailing(unseen, 0);
        }
        i = unseen.trailing_zeros() as u8;
        proof {
            if unseen == 0 {
                assert(u =~= Set::<int>::empty()) by {
                    assert forall|k: int| !u.contains(k) by {
                        if 0 <= k < 16 {
                            let kk = k as u16;
                            assert((0u16 >> kk) & 1u16 == 0u16) by (bit_vector);
                        }
                    }
                }
            } else {
                assert(u.contains(i as int));
            }
        }
        if v.len() == 0 {
            continue;
        }
        let ghost vv = v@;
        out.push(v);
        v = Vec::new();
        proof {
            assert(out@.map_values(|w: Vec<T>| w@) =~= acc0.push(vv));
        }
    }
    out
}

} // verus!
