//! Corner pieces: the shared model of the eight corners and the traits that
//! the representations of corners implement.
use vstd::prelude::*;

use crate::turns::Turn;
use crate::perm::{
    cycle_walk, first_positions, hits, injective_upto, lemma_injective_onto, lemma_sum_mod,
    lemma_sum_permuted, lemma_sum_same, parity_walk, sum_upto,
};

pub mod corners_array;
pub mod corners_neon;

verus! {

/// The number of corners.
pub const NCORNERS: usize = 8;

/// The number of twists of a corner.
pub const NTWIST: usize = 3;

/// The slot of the corner encoded by `v` (its low three bits).
pub open spec fn cid(v: u8) -> int {
    v as int % 8
}

/// The twist of the corner encoded by `v` (the bits above the slot).
pub open spec fn ctw(v: u8) -> int {
    v as int / 8
}

/// The code of the corner of slot `id` with twist `tw`.
pub open spec fn ccode(id: int, tw: int) -> u8 {
    (id + 8 * tw) as u8
}

/// Whether `s` holds eight valid corner codes (slot below 8, twist below 3).
pub open spec fn corner_lanes(s: Seq<u8>) -> bool {
    s.len() == 8 && forall|i: int| 0 <= i < 8 ==> (#[trigger] s[i]) < 24
}

/// The identity position: every corner in its slot, untwisted.
pub open spec fn corners_ident() -> Seq<u8> {
    Seq::new(8, |i: int| i as u8)
}

/// The position reached by applying `b` after `a`: slot `i` takes the corner
/// that `a` holds in the slot named by `b[i]`, twisted further by the twist
/// of `b[i]`.
pub open spec fn corners_compose(a: Seq<u8>, b: Seq<u8>) -> Seq<u8> {
    Seq::new(
        8,
        |i: int|
            {
                let x = b[i];
                let y = a[cid(x)];
                ccode(cid(y), (ctw(y) + ctw(x)) % 3)
            },
    )
}

/// The negation of a twist.
pub open spec fn neg_twist(t: int) -> int {
    (3 - t) % 3
}

/// The inverse as computed by writing, for each slot `i` in order, the
/// corner `i` with the negated twist into the slot named by `a[i]`, over an
/// initial all-zero position. For a permutation of the slots this is the
/// inverse position.
pub open spec fn corners_invert_upto(a: Seq<u8>, n: int) -> Seq<u8>
    decreases n,
{
    if n <= 0 {
        Seq::new(8, |i: int| 0u8)
    } else {
        corners_invert_upto(a, n - 1).update(cid(a[n - 1]), ccode(n - 1, neg_twist(ctw(a[n - 1]))))
    }
}

/// The inverse of the position `a`.
pub open spec fn corners_inverse(a: Seq<u8>) -> Seq<u8> {
    corners_invert_upto(a, 8)
}

/// Whether the slots named by `a` are all different, so that they are a
/// permutation of the eight slots.
pub open spec fn corners_perm(a: Seq<u8>) -> bool {
    &&& corner_lanes(a)
    &&& forall|i: int, j: int| 0 <= i < 8 && 0 <= j < 8 && i != j ==> cid(#[trigger] a[i]) != cid(#[trigger] a[j])
}

/// The sum of the twists of the first `n` corners.
pub open spec fn twist_sum(a: Seq<u8>, n: int) -> int
    decreases n,
{
    if n <= 0 {
        0
    } else {
        twist_sum(a, n - 1) + ctw(a[n - 1])
    }
}

/// The net twist: the sum of the twists modulo 3.
pub open spec fn net_twist_spec(a: Seq<u8>) -> int {
    twist_sum(a, 8) % 3
}

/// `3` to the power `k`.
pub open spec fn pow3(k: nat) -> int
    decreases k,
{
    if k == 0 {
        1
    } else {
        3 * pow3((k - 1) as nat)
    }
}

/// The twists of the first `n` corners as a base 3 number, the first corner
/// least significant.
pub open spec fn co_upto(a: Seq<u8>, n: int) -> int
    decreases n,
{
    if n <= 0 {
        0
    } else {
        co_upto(a, n - 1) + ctw(a[n - 1]) * pow3((n - 1) as nat)
    }
}

/// The corner orientation coordinate: the twists of the first seven corners
/// in base 3.
pub open spec fn co_spec(a: Seq<u8>) -> int {
    co_upto(a, 7)
}

/// The codes of the first `n` corners as digits of a base 32 number, the
/// first corner least significant.
pub open spec fn pack_upto(a: Seq<u8>, n: int) -> int
    decreases n,
{
    if n <= 0 {
        0
    } else {
        pack_upto(a, n - 1) + a[n - 1] * vstd::arithmetic::power2::pow2((5 * (n - 1)) as nat)
    }
}

/// The slots named by the corner codes in `a`.
pub open spec fn corner_ids(a: Seq<u8>) -> Seq<u8> {
    a.map_values(|v: u8| (v % 8) as u8)
}

/// Whether the corner code `v` at slot `i` is out of place or twisted.
pub open spec fn corner_moved(a: Seq<u8>) -> Seq<bool> {
    Seq::new(a.len(), |i: int| a[i] != i as u8)
}

/// The parity of the permutation of the corners: odd is `true`.
pub open spec fn corner_parity(a: Seq<u8>) -> bool {
    parity_walk(corner_ids(a), first_positions(8), 0, false)
}

/// The cycles of the corners, each listing the corner codes met while
/// following it, the last met first.
pub open spec fn corner_cycles(a: Seq<u8>) -> Seq<Seq<u8>> {
    cycle_walk(a, corner_ids(a), corner_moved(a), first_positions(8), 0, Seq::empty(), Seq::empty())
}

/// The position of the corners after the turn `t` from the identity.
pub open spec fn corner_turn(t: Turn) -> Seq<u8> {
    match t {
        Turn::U1 => seq![3u8, 0u8, 1u8, 2u8, 4u8, 5u8, 6u8, 7u8],
        Turn::U2 => seq![2u8, 3u8, 0u8, 1u8, 4u8, 5u8, 6u8, 7u8],
        Turn::U3 => seq![1u8, 2u8, 3u8, 0u8, 4u8, 5u8, 6u8, 7u8],
        Turn::R1 => seq![0u8, 10u8, 21u8, 3u8, 4u8, 14u8, 17u8, 7u8],
        Turn::R2 => seq![0u8, 5u8, 6u8, 3u8, 4u8, 1u8, 2u8, 7u8],
        Turn::R3 => seq![0u8, 14u8, 17u8, 3u8, 4u8, 10u8, 21u8, 7u8],
        Turn::F1 => seq![0u8, 1u8, 11u8, 20u8, 13u8, 18u8, 6u8, 7u8],
        Turn::F2 => seq![0u8, 1u8, 4u8, 5u8, 2u8, 3u8, 6u8, 7u8],
        Turn::F3 => seq![0u8, 1u8, 13u8, 18u8, 11u8, 20u8, 6u8, 7u8],
        Turn::D1 => seq![0u8, 1u8, 2u8, 3u8, 7u8, 4u8, 5u8, 6u8],
        Turn::D2 => seq![0u8, 1u8, 2u8, 3u8, 6u8, 7u8, 4u8, 5u8],
        Turn::D3 => seq![0u8, 1u8, 2u8, 3u8, 5u8, 6u8, 7u8, 4u8],
        Turn::L1 => seq![23u8, 1u8, 2u8, 8u8, 19u8, 5u8, 6u8, 12u8],
        Turn::L2 => seq![4u8, 1u8, 2u8, 7u8, 0u8, 5u8, 6u8, 3u8],
        Turn::L3 => seq![19u8, 1u8, 2u8, 12u8, 23u8, 5u8, 6u8, 8u8],
        Turn::B1 => seq![9u8, 22u8, 2u8, 3u8, 4u8, 5u8, 15u8, 16u8],
        Turn::B2 => seq![6u8, 7u8, 2u8, 3u8, 4u8, 5u8, 0u8, 1u8],
        Turn::B3 => seq![15u8, 16u8, 2u8, 3u8, 4u8, 5u8, 9u8, 22u8],
    }
}

/// The position reached from `a` by the turns `ts`, in order.
pub open spec fn corners_after(a: Seq<u8>, ts: Seq<Turn>) -> Seq<u8>
    decreases ts.len(),
{
    if ts.len() == 0 {
        a
    } else {
        corners_compose(corners_after(a, ts.drop_last()), corner_turn(ts.last()))
    }
}

/// The Speffz letter of the corner code `v`.
pub open spec fn corner_letter(v: u8) -> char {
    if v == 0 {
        'A'
    } else if v == 1 {
        'B'
    } else if v == 2 {
        'C'
    } else if v == 3 {
        'D'
    } else if v == 4 {
        'U'
    } else if v == 5 {
        'V'
    } else if v == 6 {
        'W'
    } else if v == 7 {
        'X'
    } else if v == 8 {
        'R'
    } else if v == 9 {
        'N'
    } else if v == 10 {
        'J'
    } else if v == 11 {
        'F'
    } else if v == 12 {
        'L'
    } else if v == 13 {
        'P'
    } else if v == 14 {
        'T'
    } else if v == 15 {
        'H'
    } else if v == 16 {
        'E'
    } else if v == 17 {
        'Q'
    } else if v == 18 {
        'M'
    } else if v == 19 {
        'I'
    } else if v == 20 {
        'G'
    } else if v == 21 {
        'K'
    } else if v == 22 {
        'O'
    } else if v == 23 {
        'S'
    } else {
        'A'
    }
}

/// The corner code of the Speffz letter `c`, if it is one.
pub open spec fn corner_of_letter(c: char) -> Option<u8> {
    if c == 'A' {
        Some(0u8)
    } else if c == 'B' {
        Some(1u8)
    } else if c == 'C' {
        Some(2u8)
    } else if c == 'D' {
        Some(3u8)
    } else if c == 'E' {
        Some(16u8)
    } else if c == 'F' {
        Some(11u8)
    } else if c == 'G' {
        Some(20u8)
    } else if c == 'H' {
        Some(15u8)
    } else if c == 'I' {
        Some(19u8)
    } else if c == 'J' {
        Some(10u8)
    } else if c == 'K' {
        Some(21u8)
    } else if c == 'L' {
        Some(12u8)
    } else if c == 'M' {
        Some(18u8)
    } else if c == 'N' {
        Some(9u8)
    } else if c == 'O' {
        Some(22u8)
    } else if c == 'P' {
        Some(13u8)
    } else if c == 'Q' {
        Some(17u8)
    } else if c == 'R' {
        Some(8u8)
    } else if c == 'S' {
        Some(23u8)
    } else if c == 'T' {
        Some(14u8)
    } else if c == 'U' {
        Some(4u8)
    } else if c == 'V' {
        Some(5u8)
    } else if c == 'W' {
        Some(6u8)
    } else if c == 'X' {
        Some(7u8)
    } else {
        None
    }
}

/// The Speffz letters of the corner codes in `a`.
pub open spec fn corner_letters(a: Seq<u8>) -> Seq<char> {
    a.map_values(|v: u8| corner_letter(v))
}

/// The Speffz letters of one cycle, each corner written with the twist
/// carried along the cycle so far, and the twist left at its end.
pub open spec fn cycle_scan(c: Seq<u8>) -> (Seq<char>, int)
    decreases c.len(),
{
    if c.len() == 0 {
        (Seq::empty(), 0)
    } else {
        let (s, t) = cycle_scan(c.drop_last());
        let x = c.last();
        (s.push(corner_letter(ccode(cid(x), t))), (t + 3 - ctw(x)) % 3)
    }
}

/// One cycle in Speffz letters: the letters in brackets, then `+` or `-`
/// for a twist left at its end.
pub open spec fn corner_cycle_text(c: Seq<u8>) -> Seq<char> {
    let (s, t) = cycle_scan(c);
    seq!['('] + s + seq![')'] + if t == 2 {
        seq!['+']
    } else if t == 1 {
        seq!['-']
    } else {
        Seq::empty()
    }
}

/// All the cycles in Speffz letters, one after the other.
pub open spec fn corner_cycles_text(cs: Seq<Seq<u8>>) -> Seq<char>
    decreases cs.len(),
{
    if cs.len() == 0 {
        Seq::empty()
    } else {
        corner_cycles_text(cs.drop_last()) + corner_cycle_text(cs.last())
    }
}

/// The codes the corners of a cycle are written with: each corner's own
/// slot, with the twist carried to it, the negated sum of the twists of the
/// corners before it in the cycle, modulo 3. The first corner is written
/// untwisted.
pub open spec fn carried_corner_codes(c: Seq<u8>) -> Seq<u8> {
    Seq::new(c.len(), |k: int| ccode(cid(c[k]), (0 - twist_sum(c, k)) % 3))
}

/// Sums of twists over the same first corners are equal.
proof fn lemma_twist_sum_prefix(a: Seq<u8>, b: Seq<u8>, n: int)
    requires
        0 <= n <= a.len(),
        n <= b.len(),
        forall|i: int| 0 <= i < n ==> a[i] == b[i],
    ensures
        twist_sum(a, n) == twist_sum(b, n),
    decreases n,
{
    if n > 0 {
        lemma_twist_sum_prefix(a, b, n - 1);
    }
}

/// The scan of a cycle writes the carried codes, and ends with the
/// negated sum of all the twists.
proof fn lemma_cycle_scan_carried(c: Seq<u8>)
    ensures
        cycle_scan(c).0 == corner_letters(carried_corner_codes(c)),
        cycle_scan(c).1 == (0 - twist_sum(c, c.len() as int)) % 3,
    decreases c.len(),
{
    if c.len() > 0 {
        let d = c.drop_last();
        let n = c.len() as int;
        lemma_cycle_scan_carried(d);
        assert forall|k: int| 0 <= k <= n - 1 implies #[trigger] twist_sum(d, k) == twist_sum(c, k) by {
            lemma_twist_sum_prefix(d, c, k);
        }
        assert(carried_corner_codes(c) =~= carried_corner_codes(d).push(ccode(cid(c[n - 1]), (0 - twist_sum(c, n - 1)) % 3)));
        assert(corner_letters(carried_corner_codes(c)) =~= corner_letters(carried_corner_codes(d)).push(
            corner_letter(ccode(cid(c[n - 1]), (0 - twist_sum(c, n - 1)) % 3)),
        ));
        let t = (0 - twist_sum(c, n - 1)) % 3;
        let w = ctw(c[n - 1]);
        assert((t + 3 - w) % 3 == (0 - (twist_sum(c, n - 1) + w)) % 3) by (nonlinear_arith)
            requires
                t == (0 - twist_sum(c, n - 1)) % 3,
        ;
    }
}

/// A cycle is written in Speffz letters as its carried codes in brackets:
/// each corner's slot, twisted by the twist carried along the cycle before
/// it, so that the first corner is written untwisted. Then `+` when the
/// twists of the cycle sum to 1 modulo 3, `-` when they sum to 2.
pub proof fn law_corner_cycle_text(c: Seq<u8>)
    ensures
        corner_cycle_text(c) == seq!['('] + corner_letters(carried_corner_codes(c)) + seq![')'] + (if twist_sum(
            c,
            c.len() as int,
        ) % 3 == 1 {
            seq!['+']
        } else if twist_sum(c, c.len() as int) % 3 == 2 {
            seq!['-']
        } else {
            Seq::<char>::empty()
        }),
        c.len() > 0 ==> carried_corner_codes(c)[0] == ccode(cid(c[0]), 0),
        forall|k: int|
            0 < k < c.len() ==> #[trigger] carried_corner_codes(c)[k] == ccode(
                cid(c[k]),
                (ctw(carried_corner_codes(c)[k - 1]) + 3 - ctw(c[k - 1])) % 3,
            ),
{
    lemma_cycle_scan_carried(c);
    let s = twist_sum(c, c.len() as int);
    assert((0 - s) % 3 == 2 <==> s % 3 == 1);
    assert((0 - s) % 3 == 1 <==> s % 3 == 2);
    assert forall|k: int| 0 < k < c.len() implies #[trigger] carried_corner_codes(c)[k] == ccode(
        cid(c[k]),
        (ctw(carried_corner_codes(c)[k - 1]) + 3 - ctw(c[k - 1])) % 3,
    ) by {
        let p = twist_sum(c, k - 1);
        let t = (0 - p) % 3;
        assert(ctw(ccode(cid(c[k - 1]), t)) == t);
        assert((t + 3 - ctw(c[k - 1])) % 3 == (0 - (p + ctw(c[k - 1]))) % 3) by (nonlinear_arith)
            requires
                t == (0 - p) % 3,
        ;
    }
}

/// The text of a list of cycles is the text of its first part followed by
/// that of the rest, and a single cycle is written on its own: so the
/// cycles are written one after another, in order.
pub proof fn law_corner_cycles_text_concat(cs1: Seq<Seq<u8>>, cs2: Seq<Seq<u8>>, c: Seq<u8>)
    ensures
        corner_cycles_text(cs1 + cs2) == corner_cycles_text(cs1) + corner_cycles_text(cs2),
        corner_cycles_text(seq![c]) == corner_cycle_text(c),
    decreases cs2.len(),
{
    assert(seq![c].drop_last() =~= Seq::<Seq<u8>>::empty());
    assert(corner_cycles_text(Seq::<Seq<u8>>::empty()) == Seq::<char>::empty());
    assert(seq![c].last() == c);
    assert(corner_cycles_text(seq![c]) =~= corner_cycle_text(c));
    if cs2.len() == 0 {
        assert(cs1 + cs2 =~= cs1);
        assert(corner_cycles_text(cs1) + corner_cycles_text(cs2) =~= corner_cycles_text(cs1));
    } else {
        law_corner_cycles_text_concat(cs1, cs2.drop_last(), c);
        assert((cs1 + cs2).drop_last() =~= cs1 + cs2.drop_last());
        assert((cs1 + cs2).last() == cs2.last());
        assert(corner_cycles_text(cs1 + cs2) =~= corner_cycles_text(cs1) + corner_cycles_text(cs2));
    }
}

/// Decoding the code of a corner gives its slot and twist back.
pub proof fn lemma_ccode(id: int, tw: int)
    requires
        0 <= id < 8,
        0 <= tw < 3,
    ensures
        cid(ccode(id, tw)) == id,
        ctw(ccode(id, tw)) == tw,
        ccode(id, tw) < 24,
{
}

/// A valid code is the code of its slot and twist.
pub proof fn lemma_ccode_of(v: u8)
    requires
        v < 24,
    ensures
        ccode(cid(v), ctw(v)) == v,
        0 <= ctw(v) < 3,
{
}

/// The solved position is an identity on both sides: turning from it, or
/// applying it, changes nothing.
pub proof fn law_corners_identity(a: Seq<u8>)
    requires
        corner_lanes(a),
    ensures
        corners_compose(corners_ident(), a) == a,
        corners_compose(a, corners_ident()) == a,
{
    assert forall|i: int| 0 <= i < 8 implies #[trigger] corners_compose(corners_ident(), a)[i] == a[i] by {
        lemma_ccode_of(a[i]);
        lemma_ccode(cid(a[i]), 0);
    }
    assert forall|i: int| 0 <= i < 8 implies #[trigger] corners_compose(a, corners_ident())[i] == a[i] by {
        lemma_ccode(i, 0);
        lemma_ccode_of(a[i]);
    }
    assert(corners_compose(corners_ident(), a) =~= a);
    assert(corners_compose(a, corners_ident()) =~= a);
}

/// Composition keeps valid codes.
pub proof fn lemma_compose_valid(a: Seq<u8>, b: Seq<u8>)
    requires
        corner_lanes(a),
        corner_lanes(b),
    ensures
        corner_lanes(corners_compose(a, b)),
{
    assert forall|i: int| 0 <= i < 8 implies (#[trigger] corners_compose(a, b)[i]) < 24 by {
        let x = b[i];
        let y = a[cid(x)];
        lemma_ccode(cid(y), (ctw(y) + ctw(x)) % 3);
    }
}

/// Composing positions is associative: applying `b` then `c` after `a` is
/// applying their composition after `a`.
pub proof fn law_corners_assoc(a: Seq<u8>, b: Seq<u8>, c: Seq<u8>)
    requires
        corner_lanes(a),
        corner_lanes(b),
        corner_lanes(c),
    ensures
        corners_compose(corners_compose(a, b), c) == corners_compose(a, corners_compose(b, c)),
{
    assert forall|i: int| 0 <= i < 8 implies #[trigger] corners_compose(corners_compose(a, b), c)[i]
        == corners_compose(a, corners_compose(b, c))[i] by {
        lemma_assoc_at(a, b, c, i);
    }
    assert(corners_compose(corners_compose(a, b), c) =~= corners_compose(a, corners_compose(b, c)));
}

#[verifier::spinoff_prover]
proof fn lemma_assoc_at(a: Seq<u8>, b: Seq<u8>, c: Seq<u8>, i: int)
    requires
        corner_lanes(a),
        corner_lanes(b),
        corner_lanes(c),
        0 <= i < 8,
    ensures
        corners_compose(corners_compose(a, b), c)[i] == corners_compose(a, corners_compose(b, c))[i],
{
    let ab = corners_compose(a, b);
    let bc = corners_compose(b, c);
    let x = c[i];
    let xb = b[cid(x)];
    let y = a[cid(xb)];
    lemma_ccode_of(x);
    lemma_ccode_of(xb);
    lemma_ccode_of(y);
    let t1 = (ctw(y) + ctw(xb)) % 3;
    let t2 = (ctw(xb) + ctw(x)) % 3;
    assert(ab[cid(x)] == ccode(cid(y), t1));
    lemma_ccode(cid(y), t1);
    assert(bc[i] == ccode(cid(xb), t2));
    lemma_ccode(cid(xb), t2);
    assert(ab.len() == 8);
    assert(corners_compose(ab, c)[i] == ccode(cid(y), (t1 + ctw(x)) % 3));
    assert(corners_compose(a, bc)[i] == ccode(cid(y), (ctw(y) + t2) % 3));
    assert((t1 + ctw(x)) % 3 == (ctw(y) + t2) % 3);
}

/// The slots named by the corners of `a`, as a map.
pub open spec fn corner_slot_map(a: Seq<u8>) -> spec_fn(int) -> int {
    |i: int| cid(a[i])
}

/// What the inverse holds after writing the first `n` corners of a
/// permutation: corner `k` (negated twist) in the slot named by `a[k]`, and
/// the code 0 in the slots not named yet.
proof fn lemma_invert_values(a: Seq<u8>, n: int)
    requires
        corners_perm(a),
        0 <= n <= 8,
    ensures
        corners_invert_upto(a, n).len() == 8,
        forall|k: int| 0 <= k < n ==> #[trigger] corners_invert_upto(a, n)[cid(a[k])] == ccode(k, neg_twist(ctw(a[k]))),
        forall|j: int| 0 <= j < 8 && (forall|k: int| 0 <= k < n ==> cid(#[trigger] a[k]) != j) ==> #[trigger] corners_invert_upto(a, n)[j] == 0,
    decreases n,
{
    if n > 0 {
        lemma_invert_values(a, n - 1);
        let prev = corners_invert_upto(a, n - 1);
        let cur = corners_invert_upto(a, n);
        assert(cur == prev.update(cid(a[n - 1]), ccode(n - 1, neg_twist(ctw(a[n - 1])))));
        assert forall|k: int| 0 <= k < n implies #[trigger] cur[cid(a[k])] == ccode(k, neg_twist(ctw(a[k]))) by {
            if k < n - 1 {
                assert(cid(a[k]) != cid(a[n - 1]));
            }
        }
        assert forall|j: int| 0 <= j < 8 && (forall|k: int| 0 <= k < n ==> cid(#[trigger] a[k]) != j) implies #[trigger] cur[j] == 0 by {
            assert(cid(a[n - 1]) != j);
            assert forall|k: int| 0 <= k < n - 1 implies cid(#[trigger] a[k]) != j by {
            }
        }
    }
}

/// A position of `a` whose corner names the slot `j`, if there is one.
pub open spec fn slot_source(a: Seq<u8>, j: int) -> int {
    choose|k: int| 0 <= k < 8 && cid(a[k]) == j
}

/// The corners of a permutation name every slot.
pub proof fn lemma_perm_onto(a: Seq<u8>)
    requires
        corners_perm(a),
    ensures
        forall|j: int| 0 <= j < 8 ==> #[trigger] hits(corner_slot_map(a), 8, j),
{
    let f = corner_slot_map(a);
    assert(injective_upto(f, 8)) by {
        assert forall|i: int, j: int| 0 <= i < 8 && 0 <= j < 8 && i != j implies #[trigger] f(i) != #[trigger] f(j) by {
            assert(cid(a[i]) != cid(a[j]));
        }
    }
    lemma_injective_onto(f, 8);
}

/// The inverse of a permutation undoes it on both sides, is a permutation
/// itself, and its inverse is the position again.
pub proof fn law_corners_inverse(a: Seq<u8>)
    requires
        corners_perm(a),
    ensures
        corners_compose(a, corners_inverse(a)) == corners_ident(),
        corners_compose(corners_inverse(a), a) == corners_ident(),
        corners_perm(corners_inverse(a)),
        corners_inverse(corners_inverse(a)) == a,
{
    let inv = corners_inverse(a);
    lemma_invert_values(a, 8);
    lemma_perm_onto(a);
    assert forall|j: int| 0 <= j < 8 implies {
        let k = #[trigger] slot_source(a, j);
        0 <= k < 8 && cid(a[k]) == j && inv[j] == ccode(k, neg_twist(ctw(a[k])))
    } by {
        assert(hits(corner_slot_map(a), 8, j));
        let k = choose|k: int| 0 <= k < 8 && #[trigger] corner_slot_map(a)(k) == j;
        assert(cid(a[k]) == j);
    }
    assert forall|i: int| 0 <= i < 8 implies #[trigger] corners_compose(inv, a)[i] == corners_ident()[i] by {
        let x = a[i];
        lemma_ccode_of(x);
        lemma_ccode(i, neg_twist(ctw(x)));
        assert(inv[cid(x)] == ccode(i, neg_twist(ctw(x))));
        lemma_ccode(i, 0);
    }
    assert(corners_compose(inv, a) =~= corners_ident());
    assert forall|j: int| 0 <= j < 8 implies #[trigger] corners_compose(a, inv)[j] == corners_ident()[j] by {
        let k = slot_source(a, j);
        lemma_ccode_of(a[k]);
        lemma_ccode(k, neg_twist(ctw(a[k])));
        lemma_ccode(j, 0);
    }
    assert(corners_compose(a, inv) =~= corners_ident());
    assert(corners_perm(inv)) by {
        assert forall|j: int| 0 <= j < 8 implies (#[trigger] inv[j]) < 24 by {
            let k = slot_source(a, j);
            lemma_ccode_of(a[k]);
            lemma_ccode(k, neg_twist(ctw(a[k])));
        }
        assert(corner_lanes(inv));
        assert forall|i: int, j: int| 0 <= i < 8 && 0 <= j < 8 && i != j implies cid(#[trigger] inv[i]) != cid(#[trigger] inv[j]) by {
            let ki = slot_source(a, i);
            let kj = slot_source(a, j);
            assert(0 <= ki < 8 && cid(a[ki]) == i && inv[i] == ccode(ki, neg_twist(ctw(a[ki]))));
            assert(0 <= kj < 8 && cid(a[kj]) == j && inv[j] == ccode(kj, neg_twist(ctw(a[kj]))));
            lemma_ccode_of(a[ki]);
            lemma_ccode_of(a[kj]);
            lemma_ccode(ki, neg_twist(ctw(a[ki])));
            lemma_ccode(kj, neg_twist(ctw(a[kj])));
            assert(cid(inv[i]) == ki);
            assert(cid(inv[j]) == kj);
        }
        assert(forall|i: int, j: int| 0 <= i < 8 && 0 <= j < 8 && i != j ==> cid(#[trigger] inv[i]) != cid(#[trigger] inv[j]));
    }
    let inv2 = corners_inverse(inv);
    lemma_invert_values(inv, 8);
    assert forall|k: int| 0 <= k < 8 implies #[trigger] inv2[k] == a[k] by {
        let j = cid(a[k]);
        assert(inv[j] == ccode(k, neg_twist(ctw(a[k]))));
        lemma_ccode_of(a[k]);
        lemma_ccode(k, neg_twist(ctw(a[k])));
        assert(inv2[cid(inv[j])] == ccode(j, neg_twist(ctw(inv[j]))));
        lemma_ccode(j, neg_twist(neg_twist(ctw(a[k]))));
    }
    assert(inv2 =~= a);
}

/// A position that undoes a permutation after it is its inverse.
pub proof fn lemma_corners_inverse_unique(a: Seq<u8>, b: Seq<u8>)
    requires
        corners_perm(a),
        corner_lanes(b),
        corners_compose(a, b) == corners_ident(),
    ensures
        b == corners_inverse(a),
{
    let inv = corners_inverse(a);
    law_corners_inverse(a);
    law_corners_identity(b);
    law_corners_identity(inv);
    law_corners_assoc(inv, a, b);
}

/// The sum of the twists as a sum over the slots.
proof fn lemma_twist_sum_is_sum(a: Seq<u8>, n: int)
    ensures
        twist_sum(a, n) == sum_upto(|i: int| ctw(a[i]), n),
    decreases n,
{
    if n > 0 {
        lemma_twist_sum_is_sum(a, n - 1);
    }
}

/// The net twist adds up under composition with a permutation: the twists
/// that `b` adds come on top of those of `a`, which `b` only moves.
pub proof fn law_corners_net_twist(a: Seq<u8>, b: Seq<u8>)
    requires
        corner_lanes(a),
        corners_perm(b),
    ensures
        net_twist_spec(corners_compose(a, b)) == (net_twist_spec(a) + net_twist_spec(b)) % 3,
{
    let ab = corners_compose(a, b);
    let u = |i: int| ctw(a[cid(b[i])]);
    let v = |i: int| ctw(b[i]);
    let fa = |j: int| ctw(a[j]);
    let p = |i: int| cid(b[i]);
    lemma_twist_sum_is_sum(ab, 8);
    lemma_twist_sum_is_sum(a, 8);
    lemma_twist_sum_is_sum(b, 8);
    assert forall|i: int| 0 <= i < 8 implies #[trigger] ctw(ab[i]) == (u(i) + v(i)) % 3 by {
        lemma_ccode(cid(a[cid(b[i])]), (ctw(a[cid(b[i])]) + ctw(b[i])) % 3);
    }
    lemma_sum_same(|i: int| (u(i) + v(i)) % 3, |i: int| ctw(ab[i]), 8);
    lemma_sum_mod(u, v, 3, 8);
    assert(injective_upto(p, 8)) by {
        assert forall|i: int, j: int| 0 <= i < 8 && 0 <= j < 8 && i != j implies #[trigger] p(i) != #[trigger] p(j) by {
            assert(cid(b[i]) != cid(b[j]));
        }
    }
    lemma_sum_permuted(fa, p, 8);
    lemma_sum_same(u, |i: int| fa(p(i)), 8);
    vstd::arithmetic::div_mod::lemma_add_mod_noop(sum_upto(fa, 8), sum_upto(v, 8), 3);
}

/// Every turn moves the corners by a permutation of the slots and adds no
/// net twist.
pub proof fn law_corner_turn_valid(t: Turn)
    ensures
        corners_perm(corner_turn(t)),
        net_twist_spec(corner_turn(t)) == 0,
{
    reveal_with_fuel(twist_sum, 9);
    let a = corner_turn(t);
    assert(corner_lanes(a));
    assert forall|i: int, j: int| 0 <= i < 8 && 0 <= j < 8 && i != j implies cid(#[trigger] a[i]) != cid(#[trigger] a[j]) by {
        match t {
            Turn::U1 => {},
            Turn::U2 => {},
            Turn::U3 => {},
            Turn::R1 => {},
            Turn::R2 => {},
            Turn::R3 => {},
            Turn::F1 => {},
            Turn::F2 => {},
            Turn::F3 => {},
            Turn::D1 => {},
            Turn::D2 => {},
            Turn::D3 => {},
            Turn::L1 => {},
            Turn::L2 => {},
            Turn::L3 => {},
            Turn::B1 => {},
            Turn::B2 => {},
            Turn::B3 => {},
        }
    }
}

/// Operations on a cube position of corners.
pub trait CornersOps: Sized + Copy {
}

/// A representation of the eight corners of a cube.
pub trait CornersTrait: CornersOps {
    /// The codes of the eight corners, slot first.
    spec fn lanes(&self) -> Seq<u8>;

    /// The cycles of the position.
    type Cycles: CornerCyclesTrait;

    /// The parity of the permutation of the corners.
    fn parity(&self) -> (r: bool)
        ensures
            r == corner_parity(self.lanes()),
    ;

    /// The cycles of the position.
    fn cycles(&self) -> (r: Self::Cycles)
        ensures
            r.cycle_lanes() == corner_cycles(self.lanes()),
    ;

    /// The codes of the corners packed five bits each, the first corner
    /// lowest.
    fn pack(&self) -> (r: u64)
        ensures
            r == pack_upto(self.lanes(), 8),
    ;

    /// The sum of the twists modulo 3.
    fn net_twist(&self) -> (r: u8)
        ensures
            r == net_twist_spec(self.lanes()),
    ;
}

/// The cycles of a position of corners.
pub trait CornerCyclesTrait {
    /// The corner codes of each cycle.
    spec fn cycle_lanes(&self) -> Seq<Seq<u8>>;

    /// The cycles in Speffz letters.
    fn speffz(&self) -> (r: String)
        ensures
            r@ == corner_cycles_text(self.cycle_lanes()),
    ;
}

} // verus!
