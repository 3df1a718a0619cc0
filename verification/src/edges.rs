//! Edge pieces: the shared model of the twelve edges and the traits that
//! the representations of edges implement.
use vstd::prelude::*;

use crate::perm::{
    cycle_walk, first_positions, hits, injective_upto, lemma_injective_onto, lemma_sum_mod,
    lemma_sum_permuted, lemma_sum_same, parity_walk, sum_upto,
};
use crate::turns::Turn;

pub mod edges_array;
pub mod edges_neon;

verus! {

/// The number of edges.
pub const NEDGES: usize = 12;

/// The number of flips of an edge.
pub const NFLIP: usize = 2;

/// The slot of the edge encoded by `v` (its low four bits).
pub open spec fn eid(v: u8) -> int {
    v as int % 16
}

/// The flip of the edge encoded by `v` (bit four).
pub open spec fn efl(v: u8) -> int {
    v as int / 16
}

/// The code of the edge of slot `id` with flip `fl`.
pub open spec fn ecode(id: int, fl: int) -> u8 {
    (id + 16 * fl) as u8
}

/// Whether `v` is a valid edge code: slot below 12, flip 0 or 1.
pub open spec fn edge_code_ok(v: u8) -> bool {
    v % 16 < 12 && v < 32
}

/// Whether `s` holds twelve valid edge codes.
pub open spec fn edge_lanes(s: Seq<u8>) -> bool {
    s.len() == 12 && forall|i: int| 0 <= i < 12 ==> edge_code_ok(#[trigger] s[i])
}

/// The identity position: every edge in its slot, unflipped.
pub open spec fn edges_ident() -> Seq<u8> {
    Seq::new(12, |i: int| i as u8)
}

/// The position reached by applying `b` after `a`: slot `i` takes the edge
/// that `a` holds in the slot named by `b[i]`, flipped further by the flip of
/// `b[i]`.
pub open spec fn edges_compose(a: Seq<u8>, b: Seq<u8>) -> Seq<u8> {
    Seq::new(
        12,
        |i: int|
            {
                let x = b[i];
                let y = a[eid(x)];
                ecode(eid(y), (efl(y) + efl(x)) % 2)
            },
    )
}

/// The inverse as computed by writing, for each slot `i` in order, edge `i`
/// with the same flip into the slot named by `a[i]`, over an initial all-zero
/// position. For a permutation of the slots this is the inverse position.
pub open spec fn edges_invert_upto(a: Seq<u8>, n: int) -> Seq<u8>
    decreases n,
{
    if n <= 0 {
        Seq::new(12, |i: int| 0u8)
    } else {
        edges_invert_upto(a, n - 1).update(eid(a[n - 1]), ecode(n - 1, efl(a[n - 1])))
    }
}

/// The inverse of the position `a`.
pub open spec fn edges_inverse(a: Seq<u8>) -> Seq<u8> {
    edges_invert_upto(a, 12)
}

/// Whether the slots named by `a` are all different, so that they are a
/// permutation of the twelve slots.
pub open spec fn edges_perm(a: Seq<u8>) -> bool {
    &&& edge_lanes(a)
    &&& forall|i: int, j: int| 0 <= i < 12 && 0 <= j < 12 && i != j ==> eid(#[trigger] a[i]) != eid(#[trigger] a[j])
}

/// The sum of the flips of the first `n` edges.
pub open spec fn flip_sum(a: Seq<u8>, n: int) -> int
    decreases n,
{
    if n <= 0 {
        0
    } else {
        flip_sum(a, n - 1) + efl(a[n - 1])
    }
}

/// The net flip: the sum of the flips modulo 2.
pub open spec fn net_flip_spec(a: Seq<u8>) -> int {
    flip_sum(a, 12) % 2
}

/// The slots named by the edge codes in `a`.
pub open spec fn edge_ids(a: Seq<u8>) -> Seq<u8> {
    a.map_values(|v: u8| (v % 16) as u8)
}

/// Whether the edge code at slot `i` is out of place or flipped.
pub open spec fn edge_moved(a: Seq<u8>) -> Seq<bool> {
    Seq::new(a.len(), |i: int| a[i] != i as u8)
}

/// The parity of the permutation of the edges: odd is `true`.
pub open spec fn edge_parity(a: Seq<u8>) -> bool {
    parity_walk(edge_ids(a), first_positions(12), 0, false)
}

/// The cycles of the edges, each listing the edge codes met while following
/// it, the last met first.
pub open spec fn edge_cycles(a: Seq<u8>) -> Seq<Seq<u8>> {
    cycle_walk(a, edge_ids(a), edge_moved(a), first_positions(12), 0, Seq::empty(), Seq::empty())
}

/// The position of the edges after the turn `t` from the identity.
pub open spec fn edge_turn(t: Turn) -> Seq<u8> {
    match t {
        Turn::U1 => seq![3u8, 0u8, 1u8, 2u8, 4u8, 5u8, 6u8, 7u8, 8u8, 9u8, 10u8, 11u8],
        Turn::U2 => seq![2u8, 3u8, 0u8, 1u8, 4u8, 5u8, 6u8, 7u8, 8u8, 9u8, 10u8, 11u8],
        Turn::U3 => seq![1u8, 2u8, 3u8, 0u8, 4u8, 5u8, 6u8, 7u8, 8u8, 9u8, 10u8, 11u8],
        Turn::R1 => seq![0u8, 6u8, 2u8, 3u8, 4u8, 1u8, 9u8, 7u8, 8u8, 5u8, 10u8, 11u8],
        Turn::R2 => seq![0u8, 9u8, 2u8, 3u8, 4u8, 6u8, 5u8, 7u8, 8u8, 1u8, 10u8, 11u8],
        Turn::R3 => seq![0u8, 5u8, 2u8, 3u8, 4u8, 9u8, 1u8, 7u8, 8u8, 6u8, 10u8, 11u8],
        Turn::F1 => seq![0u8, 1u8, 23u8, 3u8, 4u8, 5u8, 18u8, 24u8, 22u8, 9u8, 10u8, 11u8],
        Turn::F2 => seq![0u8, 1u8, 8u8, 3u8, 4u8, 5u8, 7u8, 6u8, 2u8, 9u8, 10u8, 11u8],
        Turn::F3 => seq![0u8, 1u8, 22u8, 3u8, 4u8, 5u8, 24u8, 18u8, 23u8, 9u8, 10u8, 11u8],
        Turn::D1 => seq![0u8, 1u8, 2u8, 3u8, 4u8, 5u8, 6u8, 7u8, 11u8, 8u8, 9u8, 10u8],
        Turn::D2 => seq![0u8, 1u8, 2u8, 3u8, 4u8, 5u8, 6u8, 7u8, 10u8, 11u8, 8u8, 9u8],
        Turn::D3 => seq![0u8, 1u8, 2u8, 3u8, 4u8, 5u8, 6u8, 7u8, 9u8, 10u8, 11u8, 8u8],
        Turn::L1 => seq![0u8, 1u8, 2u8, 4u8, 11u8, 5u8, 6u8, 3u8, 8u8, 9u8, 10u8, 7u8],
        Turn::L2 => seq![0u8, 1u8, 2u8, 11u8, 7u8, 5u8, 6u8, 4u8, 8u8, 9u8, 10u8, 3u8],
        Turn::L3 => seq![0u8, 1u8, 2u8, 7u8, 3u8, 5u8, 6u8, 11u8, 8u8, 9u8, 10u8, 4u8],
        Turn::B1 => seq![21u8, 1u8, 2u8, 3u8, 16u8, 26u8, 6u8, 7u8, 8u8, 9u8, 20u8, 11u8],
        Turn::B2 => seq![10u8, 1u8, 2u8, 3u8, 5u8, 4u8, 6u8, 7u8, 8u8, 9u8, 0u8, 11u8],
        Turn::B3 => seq![20u8, 1u8, 2u8, 3u8, 26u8, 16u8, 6u8, 7u8, 8u8, 9u8, 21u8, 11u8],
    }
}

/// The position reached from `a` by the turns `ts`, in order.
pub open spec fn edges_after(a: Seq<u8>, ts: Seq<Turn>) -> Seq<u8>
    decreases ts.len(),
{
    if ts.len() == 0 {
        a
    } else {
        edges_compose(edges_after(a, ts.drop_last()), edge_turn(ts.last()))
    }
}

/// The Speffz letter of the edge code `v`.
pub open spec fn edge_letter(v: u8) -> char {
    if v == 0 {
        'A'
    } else if v == 1 {
        'B'
    } else if v == 2 {
        'C'
    } else if v == 3 {
        'D'
    } else if v == 4 {
        'R'
    } else if v == 5 {
        'T'
    } else if v == 6 {
        'J'
    } else if v == 7 {
        'L'
    } else if v == 8 {
        'U'
    } else if v == 9 {
        'V'
    } else if v == 10 {
        'W'
    } else if v == 11 {
        'X'
    } else if v == 16 {
        'Q'
    } else if v == 17 {
        'M'
    } else if v == 18 {
        'I'
    } else if v == 19 {
        'E'
    } else if v == 20 {
        'H'
    } else if v == 21 {
        'N'
    } else if v == 22 {
        'P'
    } else if v == 23 {
        'F'
    } else if v == 24 {
        'K'
    } else if v == 25 {
        'O'
    } else if v == 26 {
        'S'
    } else if v == 27 {
        'G'
    } else {
        'A'
    }
}

/// The edge code of the Speffz letter `c`, if it is one.
pub open spec fn edge_of_letter(c: char) -> Option<u8> {
    if c == 'A' {
        Some(0u8)
    } else if c == 'B' {
        Some(1u8)
    } else if c == 'C' {
        Some(2u8)
    } else if c == 'D' {
        Some(3u8)
    } else if c == 'E' {
        Some(19u8)
    } else if c == 'F' {
        Some(23u8)
    } else if c == 'G' {
        Some(27u8)
    } else if c == 'H' {
        Some(20u8)
    } else if c == 'I' {
        Some(18u8)
    } else if c == 'J' {
        Some(6u8)
    } else if c == 'K' {
        Some(24u8)
    } else if c == 'L' {
        Some(7u8)
    } else if c == 'M' {
        Some(17u8)
    } else if c == 'N' {
        Some(21u8)
    } else if c == 'O' {
        Some(25u8)
    } else if c == 'P' {
        Some(22u8)
    } else if c == 'Q' {
        Some(16u8)
    } else if c == 'R' {
        Some(4u8)
    } else if c == 'S' {
        Some(26u8)
    } else if c == 'T' {
        Some(5u8)
    } else if c == 'U' {
        Some(8u8)
    } else if c == 'V' {
        Some(9u8)
    } else if c == 'W' {
        Some(10u8)
    } else if c == 'X' {
        Some(11u8)
    } else {
        None
    }
}

/// The Speffz letters of the edge codes in `a`.
pub open spec fn edge_letters(a: Seq<u8>) -> Seq<char> {
    a.map_values(|v: u8| edge_letter(v))
}

/// The Speffz letters of one cycle, each edge written with the flip carried
/// along the cycle so far, and the flip left at its end.
pub open spec fn edge_cycle_scan(c: Seq<u8>) -> (Seq<char>, int)
    decreases c.len(),
{
    if c.len() == 0 {
        (Seq::empty(), 0)
    } else {
        let (s, f) = edge_cycle_scan(c.drop_last());
        let x = c.last();
        (s.push(edge_letter(ecode(eid(x), f))), (f + efl(x)) % 2)
    }
}

/// One cycle in Speffz letters: the letters in brackets, then `+` for a
/// flip left at its end.
pub open spec fn edge_cycle_text(c: Seq<u8>) -> Seq<char> {
    let (s, f) = edge_cycle_scan(c);
    seq!['('] + s + seq![')'] + if f == 1 {
        seq!['+']
    } else {
        Seq::empty()
    }
}

/// All the cycles in Speffz letters, one after the other.
pub open spec fn edge_cycles_text(cs: Seq<Seq<u8>>) -> Seq<char>
    decreases cs.len(),
{
    if cs.len() == 0 {
        Seq::empty()
    } else {
        edge_cycles_text(cs.drop_last()) + edge_cycle_text(cs.last())
    }
}

/// The faces of the slot `id`, in the order in which the name of an
/// unflipped edge there lists them.
pub open spec fn edge_faces(id: int) -> (char, char) {
    if id == 0 {
        ('U', 'B')
    } else if id == 1 {
        ('U', 'R')
    } else if id == 2 {
        ('U', 'F')
    } else if id == 3 {
        ('U', 'L')
    } else if id == 4 {
        ('B', 'L')
    } else if id == 5 {
        ('B', 'R')
    } else if id == 6 {
        ('F', 'R')
    } else if id == 7 {
        ('F', 'L')
    } else if id == 8 {
        ('D', 'F')
    } else if id == 9 {
        ('D', 'R')
    } else if id == 10 {
        ('D', 'B')
    } else {
        ('D', 'L')
    }
}

/// The Singmaster name of the edge of slot `id` with flip `fl`: the two
/// faces of its slot, the other way round when it is flipped.
pub open spec fn edge_name(fl: int, id: int) -> Seq<char> {
    let (a, b) = edge_faces(id);
    if fl == 0 {
        seq![a, b]
    } else {
        seq![b, a]
    }
}

/// The Singmaster name of the edge code `v`.
pub open spec fn edge_code_name(v: u8) -> Seq<char> {
    edge_name(efl(v), eid(v))
}

/// The names of the edge codes `a`, separated by single spaces.
pub open spec fn edge_names_text(a: Seq<u8>) -> Seq<char>
    decreases a.len(),
{
    if a.len() == 0 {
        Seq::empty()
    } else if a.len() == 1 {
        edge_code_name(a[0])
    } else {
        edge_names_text(a.drop_last()) + seq![' '] + edge_code_name(a.last())
    }
}

/// The names of one cycle separated by commas, each edge written with the
/// flip carried along the cycle so far, and the flip left at its end.
pub open spec fn edge_cycle_names_scan(c: Seq<u8>) -> (Seq<char>, int)
    decreases c.len(),
{
    if c.len() == 0 {
        (Seq::empty(), 0)
    } else {
        let (s, f) = edge_cycle_names_scan(c.drop_last());
        let x = c.last();
        let name = edge_code_name(ecode(eid(x), f));
        (if c.len() == 1 {
            name
        } else {
            s + seq![','] + name
        }, (f + efl(x)) % 2)
    }
}

/// One cycle in Singmaster names: the names in brackets, then `+` for a
/// flip left at its end.
pub open spec fn edge_cycle_names_text(c: Seq<u8>) -> Seq<char> {
    let (s, f) = edge_cycle_names_scan(c);
    seq!['('] + s + seq![')'] + if f == 1 {
        seq!['+']
    } else {
        Seq::empty()
    }
}

/// All the cycles in Singmaster names, one after the other.
pub open spec fn edge_cycles_names_text(cs: Seq<Seq<u8>>) -> Seq<char>
    decreases cs.len(),
{
    if cs.len() == 0 {
        Seq::empty()
    } else {
        edge_cycles_names_text(cs.drop_last()) + edge_cycle_names_text(cs.last())
    }
}

/// The codes the edges of a cycle are written with: each edge's own slot,
/// with the flip carried to it, the sum of the flips of the edges before it
/// in the cycle, modulo 2. The first edge is written unflipped.
pub open spec fn carried_edge_codes(c: Seq<u8>) -> Seq<u8> {
    Seq::new(c.len(), |k: int| ecode(eid(c[k]), flip_sum(c, k) % 2))
}

/// The Singmaster names of the edge codes `a`, separated by commas.
pub open spec fn edge_names_commas(a: Seq<u8>) -> Seq<char>
    decreases a.len(),
{
    if a.len() == 0 {
        Seq::empty()
    } else if a.len() == 1 {
        edge_code_name(a[0])
    } else {
        edge_names_commas(a.drop_last()) + seq![','] + edge_code_name(a.last())
    }
}

/// Sums of flips over the same first edges are equal.
proof fn lemma_flip_sum_prefix(a: Seq<u8>, b: Seq<u8>, n: int)
    requires
        0 <= n <= a.len(),
        n <= b.len(),
        forall|i: int| 0 <= i < n ==> a[i] == b[i],
    ensures
        flip_sum(a, n) == flip_sum(b, n),
    decreases n,
{
    if n > 0 {
        lemma_flip_sum_prefix(a, b, n - 1);
    }
}

/// The carried codes of a cycle are those of the cycle without its last
/// edge, then the last edge with the flips of all the others.
proof fn lemma_carried_edge_step(c: Seq<u8>)
    requires
        c.len() > 0,
    ensures
        carried_edge_codes(c) == carried_edge_codes(c.drop_last()).push(
            ecode(eid(c.last()), flip_sum(c.drop_last(), c.len() - 1) % 2),
        ),
        flip_sum(c, c.len() as int) == flip_sum(c.drop_last(), c.len() - 1) + efl(c.last()),
{
    let d = c.drop_last();
    let n = c.len() as int;
    assert forall|k: int| 0 <= k <= n - 1 implies #[trigger] flip_sum(d, k) == flip_sum(c, k) by {
        lemma_flip_sum_prefix(d, c, k);
    }
    assert(carried_edge_codes(c) =~= carried_edge_codes(d).push(ecode(eid(c[n - 1]), flip_sum(d, n - 1) % 2)));
}

/// The Speffz scan of a cycle writes the carried codes, and ends with the
/// sum of all the flips.
proof fn lemma_edge_cycle_scan_carried(c: Seq<u8>)
    ensures
        edge_cycle_scan(c).0 == edge_letters(carried_edge_codes(c)),
        edge_cycle_scan(c).1 == flip_sum(c, c.len() as int) % 2,
    decreases c.len(),
{
    if c.len() > 0 {
        let d = c.drop_last();
        lemma_edge_cycle_scan_carried(d);
        lemma_carried_edge_step(c);
        assert(edge_letters(carried_edge_codes(c)) =~= edge_letters(carried_edge_codes(d)).push(
            edge_letter(ecode(eid(c.last()), flip_sum(d, c.len() - 1) % 2)),
        ));
        let p = flip_sum(d, c.len() - 1);
        let w = efl(c.last());
        assert((p % 2 + w) % 2 == (p + w) % 2) by (nonlinear_arith);
    }
}

/// The named scan of a cycle names the carried codes, and ends with the
/// sum of all the flips.
proof fn lemma_edge_cycle_names_scan_carried(c: Seq<u8>)
    ensures
        edge_cycle_names_scan(c).0 == edge_names_commas(carried_edge_codes(c)),
        edge_cycle_names_scan(c).1 == flip_sum(c, c.len() as int) % 2,
    decreases c.len(),
{
    if c.len() > 0 {
        let d = c.drop_last();
        lemma_edge_cycle_names_scan_carried(d);
        lemma_carried_edge_step(c);
        let a = carried_edge_codes(c);
        assert(a.drop_last() =~= carried_edge_codes(d));
        let p = flip_sum(d, c.len() - 1);
        let w = efl(c.last());
        assert((p % 2 + w) % 2 == (p + w) % 2) by (nonlinear_arith);
    }
}

/// A cycle is written in Speffz letters as its carried codes in brackets:
/// each edge's slot, flipped by the flips carried along the cycle before
/// it, so that the first edge is written unflipped. Then `+` when the flips
/// of the cycle sum to 1 modulo 2.
pub proof fn law_edge_cycle_text(c: Seq<u8>)
    ensures
        edge_cycle_text(c) == seq!['('] + edge_letters(carried_edge_codes(c)) + seq![')'] + (if flip_sum(
            c,
            c.len() as int,
        ) % 2 == 1 {
            seq!['+']
        } else {
            Seq::<char>::empty()
        }),
        c.len() > 0 ==> carried_edge_codes(c)[0] == ecode(eid(c[0]), 0),
        forall|k: int|
            0 < k < c.len() ==> #[trigger] carried_edge_codes(c)[k] == ecode(
                eid(c[k]),
                (efl(carried_edge_codes(c)[k - 1]) + efl(c[k - 1])) % 2,
            ),
{
    lemma_edge_cycle_scan_carried(c);
    lemma_carried_steps(c);
}

/// Each carried code after the first flips the one before it by the flip of
/// the edge before it.
proof fn lemma_carried_steps(c: Seq<u8>)
    ensures
        c.len() > 0 ==> carried_edge_codes(c)[0] == ecode(eid(c[0]), 0),
        forall|k: int|
            0 < k < c.len() ==> #[trigger] carried_edge_codes(c)[k] == ecode(
                eid(c[k]),
                (efl(carried_edge_codes(c)[k - 1]) + efl(c[k - 1])) % 2,
            ),
{
    assert forall|k: int| 0 < k < c.len() implies #[trigger] carried_edge_codes(c)[k] == ecode(
        eid(c[k]),
        (efl(carried_edge_codes(c)[k - 1]) + efl(c[k - 1])) % 2,
    ) by {
        let p = flip_sum(c, k - 1);
        let f = p % 2;
        assert(efl(ecode(eid(c[k - 1]), f)) == f);
        assert((f + efl(c[k - 1])) % 2 == (p + efl(c[k - 1])) % 2) by (nonlinear_arith)
            requires
                f == p % 2,
        ;
    }
}

/// A cycle is written in Singmaster names as the names of its carried
/// codes, separated by commas, in brackets: each edge named by its slot,
/// flipped by the flips carried along the cycle before it, so that the
/// first name is an unflipped one. Then `+` when the flips of the cycle sum
/// to 1 modulo 2.
pub proof fn law_edge_cycle_names_text(c: Seq<u8>)
    ensures
        edge_cycle_names_text(c) == seq!['('] + edge_names_commas(carried_edge_codes(c)) + seq![')'] + (if flip_sum(
            c,
            c.len() as int,
        ) % 2 == 1 {
            seq!['+']
        } else {
            Seq::<char>::empty()
        }),
        c.len() > 0 ==> carried_edge_codes(c)[0] == ecode(eid(c[0]), 0),
        forall|k: int|
            0 < k < c.len() ==> #[trigger] carried_edge_codes(c)[k] == ecode(
                eid(c[k]),
                (efl(carried_edge_codes(c)[k - 1]) + efl(c[k - 1])) % 2,
            ),
{
    lemma_edge_cycle_names_scan_carried(c);
    lemma_carried_steps(c);
}

/// The Singmaster name of an edge is the entry of the table for its slot,
/// in the row of its flip: unflipped UB UR UF UL BL BR FR FL DF DR DB DL,
/// flipped the same faces the other way round.
pub proof fn law_edge_name_table(v: u8)
    requires
        edge_code_ok(v),
    ensures
        edge_code_name(v) == (if efl(v) == 0 {
            seq![
                seq!['U', 'B'], seq!['U', 'R'], seq!['U', 'F'], seq!['U', 'L'],
                seq!['B', 'L'], seq!['B', 'R'], seq!['F', 'R'], seq!['F', 'L'],
                seq!['D', 'F'], seq!['D', 'R'], seq!['D', 'B'], seq!['D', 'L'],
            ]
        } else {
            seq![
                seq!['B', 'U'], seq!['R', 'U'], seq!['F', 'U'], seq!['L', 'U'],
                seq!['L', 'B'], seq!['R', 'B'], seq!['R', 'F'], seq!['L', 'F'],
                seq!['F', 'D'], seq!['R', 'D'], seq!['B', 'D'], seq!['L', 'D'],
            ]
        })[eid(v)],
{
    let r0 = seq![
        seq!['U', 'B'], seq!['U', 'R'], seq!['U', 'F'], seq!['U', 'L'],
        seq!['B', 'L'], seq!['B', 'R'], seq!['F', 'R'], seq!['F', 'L'],
        seq!['D', 'F'], seq!['D', 'R'], seq!['D', 'B'], seq!['D', 'L'],
    ];
    let r1 = seq![
        seq!['B', 'U'], seq!['R', 'U'], seq!['F', 'U'], seq!['L', 'U'],
        seq!['L', 'B'], seq!['R', 'B'], seq!['R', 'F'], seq!['L', 'F'],
        seq!['F', 'D'], seq!['R', 'D'], seq!['B', 'D'], seq!['L', 'D'],
    ];
    let id = eid(v);
    let (a, b) = edge_faces(id);
    if efl(v) == 0 {
        assert(r0[id] =~= seq![a, b]);
    } else {
        assert(r1[id] =~= seq![b, a]);
    }
}

/// The text of a list of cycles is the text of its first part followed by
/// that of the rest, and a single cycle is written on its own: so the
/// cycles are written one after another, in order.
pub proof fn law_edge_cycles_texts_concat(cs1: Seq<Seq<u8>>, cs2: Seq<Seq<u8>>, c: Seq<u8>)
    ensures
        edge_cycles_text(cs1 + cs2) == edge_cycles_text(cs1) + edge_cycles_text(cs2),
        edge_cycles_names_text(cs1 + cs2) == edge_cycles_names_text(cs1) + edge_cycles_names_text(cs2),
        edge_cycles_text(seq![c]) == edge_cycle_text(c),
        edge_cycles_names_text(seq![c]) == edge_cycle_names_text(c),
    decreases cs2.len(),
{
    assert(seq![c].drop_last() =~= Seq::<Seq<u8>>::empty());
    assert(edge_cycles_text(Seq::<Seq<u8>>::empty()) == Seq::<char>::empty());
    assert(edge_cycles_names_text(Seq::<Seq<u8>>::empty()) == Seq::<char>::empty());
    assert(seq![c].last() == c);
    assert(edge_cycles_text(seq![c]) =~= edge_cycle_text(c));
    assert(edge_cycles_names_text(seq![c]) =~= edge_cycle_names_text(c));
    if cs2.len() == 0 {
        assert(cs1 + cs2 =~= cs1);
        assert(edge_cycles_text(cs1) + edge_cycles_text(cs2) =~= edge_cycles_text(cs1));
        assert(edge_cycles_names_text(cs1) + edge_cycles_names_text(cs2) =~= edge_cycles_names_text(cs1));
    } else {
        law_edge_cycles_texts_concat(cs1, cs2.drop_last(), c);
        assert((cs1 + cs2).drop_last() =~= cs1 + cs2.drop_last());
        assert((cs1 + cs2).last() == cs2.last());
        assert(edge_cycles_text(cs1 + cs2) =~= edge_cycles_text(cs1) + edge_cycles_text(cs2));
        assert(edge_cycles_names_text(cs1 + cs2) =~= edge_cycles_names_text(cs1) + edge_cycles_names_text(cs2));
    }
}

/// The name of a flipped edge is the name of the unflipped one turned
/// round: the name with flip `fl` rotated left by `fl` letters is the
/// unflipped name.
pub proof fn law_edge_name_rotation(fl: int, id: int)
    requires
        0 <= fl < 2,
        0 <= id < 12,
    ensures
        edge_name(fl, id).skip(fl) + edge_name(fl, id).take(fl) == edge_name(0, id),
{
    let n = edge_name(fl, id);
    assert(n.skip(fl) + n.take(fl) =~= edge_name(0, id));
}

/// The Singmaster name of the edge of slot `id` with flip `flip`.
pub fn edge_singmaster(flip: usize, id: usize) -> (r: &'static str)
    requires
        flip < 2,
        id < 12,
    ensures
        r@ == edge_name(flip as int, id as int),
{
    match id {
        0 => if flip == 0 {
            proof {
                reveal_strlit("UB");
            }
            "UB"
        } else {
            proof {
                reveal_strlit("BU");
            }
            "BU"
        },
        1 => if flip == 0 {
            proof {
                reveal_strlit("UR");
            }
            "UR"
        } else {
            proof {
                reveal_strlit("RU");
            }
            "RU"
        },
        2 => if flip == 0 {
            proof {
                reveal_strlit("UF");
            }
            "UF"
        } else {
            proof {
                reveal_strlit("FU");
            }
            "FU"
        },
        3 => if flip == 0 {
            proof {
                reveal_strlit("UL");
            }
            "UL"
        } else {
            proof {
                reveal_strlit("LU");
            }
            "LU"
        },
        4 => if flip == 0 {
            proof {
                reveal_strlit("BL");
            }
            "BL"
        } else {
            proof {
                reveal_strlit("LB");
            }
            "LB"
        },
        5 => if flip == 0 {
            proof {
                reveal_strlit("BR");
            }
            "BR"
        } else {
            proof {
                reveal_strlit("RB");
            }
            "RB"
        },
        6 => if flip == 0 {
            proof {
                reveal_strlit("FR");
            }
            "FR"
        } else {
            proof {
                reveal_strlit("RF");
            }
            "RF"
        },
        7 => if flip == 0 {
            proof {
                reveal_strlit("FL");
            }
            "FL"
        } else {
            proof {
                reveal_strlit("LF");
            }
            "LF"
        },
        8 => if flip == 0 {
            proof {
                reveal_strlit("DF");
            }
            "DF"
        } else {
            proof {
                reveal_strlit("FD");
            }
            "FD"
        },
        9 => if flip == 0 {
            proof {
                reveal_strlit("DR");
            }
            "DR"
        } else {
            proof {
                reveal_strlit("RD");
            }
            "RD"
        },
        10 => if flip == 0 {
            proof {
                reveal_strlit("DB");
            }
            "DB"
        } else {
            proof {
                reveal_strlit("BD");
            }
            "BD"
        },
        _ => if flip == 0 {
            proof {
                reveal_strlit("DL");
            }
            "DL"
        } else {
            proof {
                reveal_strlit("LD");
            }
            "LD"
        },
    }
}

/// Decoding the code of an edge gives its slot and flip back.
pub proof fn lemma_ecode(id: int, fl: int)
    requires
        0 <= id < 12,
        0 <= fl < 2,
    ensures
        eid(ecode(id, fl)) == id,
        efl(ecode(id, fl)) == fl,
        edge_code_ok(ecode(id, fl)),
{
}

/// A valid code is the code of its slot and flip.
pub proof fn lemma_ecode_of(v: u8)
    requires
        edge_code_ok(v),
    ensures
        ecode(eid(v), efl(v)) == v,
        0 <= efl(v) < 2,
        0 <= eid(v) < 12,
{
}

/// The solved position is an identity on both sides: turning from it, or
/// applying it, changes nothing.
pub proof fn law_edges_identity(a: Seq<u8>)
    requires
        edge_lanes(a),
    ensures
        edges_compose(edges_ident(), a) == a,
        edges_compose(a, edges_ident()) == a,
{
    assert forall|i: int| 0 <= i < 12 implies #[trigger] edges_compose(edges_ident(), a)[i] == a[i] by {
        lemma_ecode_of(a[i]);
        lemma_ecode(eid(a[i]), 0);
    }
    assert forall|i: int| 0 <= i < 12 implies #[trigger] edges_compose(a, edges_ident())[i] == a[i] by {
        lemma_ecode(i, 0);
        lemma_ecode_of(a[i]);
    }
    assert(edges_compose(edges_ident(), a) =~= a);
    assert(edges_compose(a, edges_ident()) =~= a);
}

/// Composition keeps valid codes.
pub proof fn lemma_edges_compose_valid(a: Seq<u8>, b: Seq<u8>)
    requires
        edge_lanes(a),
        edge_lanes(b),
    ensures
        edge_lanes(edges_compose(a, b)),
{
    assert forall|i: int| 0 <= i < 12 implies edge_code_ok(#[trigger] edges_compose(a, b)[i]) by {
        let x = b[i];
        lemma_ecode_of(x);
        let y = a[eid(x)];
        lemma_ecode_of(y);
        lemma_ecode(eid(y), (efl(y) + efl(x)) % 2);
    }
}

/// Composing positions is associative: applying `b` then `c` after `a` is
/// applying their composition after `a`.
pub proof fn law_edges_assoc(a: Seq<u8>, b: Seq<u8>, c: Seq<u8>)
    requires
        edge_lanes(a),
        edge_lanes(b),
        edge_lanes(c),
    ensures
        edges_compose(edges_compose(a, b), c) == edges_compose(a, edges_compose(b, c)),
{
    assert forall|i: int| 0 <= i < 12 implies #[trigger] edges_compose(edges_compose(a, b), c)[i]
        == edges_compose(a, edges_compose(b, c))[i] by {
        lemma_edges_assoc_at(a, b, c, i);
    }
    assert(edges_compose(edges_compose(a, b), c) =~= edges_compose(a, edges_compose(b, c)));
}

proof fn lemma_edges_assoc_at(a: Seq<u8>, b: Seq<u8>, c: Seq<u8>, i: int)
    requires
        edge_lanes(a),
        edge_lanes(b),
        edge_lanes(c),
        0 <= i < 12,
    ensures
        edges_compose(edges_compose(a, b), c)[i] == edges_compose(a, edges_compose(b, c))[i],
{
    let ab = edges_compose(a, b);
    let bc = edges_compose(b, c);
    let x = c[i];
    lemma_ecode_of(x);
    let xb = b[eid(x)];
    lemma_ecode_of(xb);
    let y = a[eid(xb)];
    lemma_ecode_of(y);
    let t1 = (efl(y) + efl(xb)) % 2;
    let t2 = (efl(xb) + efl(x)) % 2;
    assert(ab[eid(x)] == ecode(eid(y), t1));
    lemma_ecode(eid(y), t1);
    assert(bc[i] == ecode(eid(xb), t2));
    lemma_ecode(eid(xb), t2);
    assert(ab.len() == 12);
    assert(edges_compose(ab, c)[i] == ecode(eid(y), (t1 + efl(x)) % 2));
    assert(edges_compose(a, bc)[i] == ecode(eid(y), (efl(y) + t2) % 2));
    assert((t1 + efl(x)) % 2 == (efl(y) + t2) % 2);
}

/// The slots named by the edges of `a`, as a map.
pub open spec fn edge_slot_map(a: Seq<u8>) -> spec_fn(int) -> int {
    |i: int| eid(a[i])
}

/// What the inverse holds after writing the first `n` edges of a
/// permutation: edge `k` (same flip) in the slot named by `a[k]`, and the
/// code 0 in the slots not named yet.
proof fn lemma_edges_invert_values(a: Seq<u8>, n: int)
    requires
        edges_perm(a),
        0 <= n <= 12,
    ensures
        edges_invert_upto(a, n).len() == 12,
        forall|k: int| 0 <= k < n ==> #[trigger] edges_invert_upto(a, n)[eid(a[k])] == ecode(k, efl(a[k])),
    decreases n,
{
    if n > 0 {
        lemma_edges_invert_values(a, n - 1);
        let prev = edges_invert_upto(a, n - 1);
        let cur = edges_invert_upto(a, n);
        lemma_ecode_of(a[n - 1]);
        assert(cur == prev.update(eid(a[n - 1]), ecode(n - 1, efl(a[n - 1]))));
        assert forall|k: int| 0 <= k < n implies #[trigger] cur[eid(a[k])] == ecode(k, efl(a[k])) by {
            lemma_ecode_of(a[k]);
            if k < n - 1 {
                assert(eid(a[k]) != eid(a[n - 1]));
            }
        }
    }
}

/// A position of `a` whose edge names the slot `j`, if there is one.
pub open spec fn edge_slot_source(a: Seq<u8>, j: int) -> int {
    choose|k: int| 0 <= k < 12 && eid(a[k]) == j
}

/// The edges of a permutation name every slot.
pub proof fn lemma_edges_perm_onto(a: Seq<u8>)
    requires
        edges_perm(a),
    ensures
        forall|j: int| 0 <= j < 12 ==> #[trigger] hits(edge_slot_map(a), 12, j),
{
    let f = edge_slot_map(a);
    assert(injective_upto(f, 12)) by {
        assert forall|i: int, j: int| 0 <= i < 12 && 0 <= j < 12 && i != j implies #[trigger] f(i) != #[trigger] f(j) by {
            assert(eid(a[i]) != eid(a[j]));
        }
    }
    lemma_injective_onto(f, 12);
}

/// The inverse of a permutation undoes it on both sides, is a permutation
/// itself, and its inverse is the position again.
pub proof fn law_edges_inverse(a: Seq<u8>)
    requires
        edges_perm(a),
    ensures
        edges_compose(a, edges_inverse(a)) == edges_ident(),
        edges_compose(edges_inverse(a), a) == edges_ident(),
        edges_perm(edges_inverse(a)),
        edges_inverse(edges_inverse(a)) == a,
{
    let inv = edges_inverse(a);
    lemma_edges_invert_values(a, 12);
    lemma_edges_perm_onto(a);
    assert forall|j: int| 0 <= j < 12 implies {
        let k = #[trigger] edge_slot_source(a, j);
        0 <= k < 12 && eid(a[k]) == j && inv[j] == ecode(k, efl(a[k]))
    } by {
        assert(hits(edge_slot_map(a), 12, j));
        let k = choose|k: int| 0 <= k < 12 && #[trigger] edge_slot_map(a)(k) == j;
        assert(eid(a[k]) == j);
    }
    assert forall|i: int| 0 <= i < 12 implies #[trigger] edges_compose(inv, a)[i] == edges_ident()[i] by {
        let x = a[i];
        lemma_ecode_of(x);
        lemma_ecode(i, efl(x));
        assert(inv[eid(x)] == ecode(i, efl(x)));
        lemma_ecode(i, 0);
    }
    assert(edges_compose(inv, a) =~= edges_ident());
    assert forall|j: int| 0 <= j < 12 implies #[trigger] edges_compose(a, inv)[j] == edges_ident()[j] by {
        let k = edge_slot_source(a, j);
        lemma_ecode_of(a[k]);
        lemma_ecode(k, efl(a[k]));
        lemma_ecode(j, 0);
    }
    assert(edges_compose(a, inv) =~= edges_ident());
    assert(edges_perm(inv)) by {
        assert forall|j: int| 0 <= j < 12 implies edge_code_ok(#[trigger] inv[j]) by {
            let k = edge_slot_source(a, j);
            lemma_ecode_of(a[k]);
            lemma_ecode(k, efl(a[k]));
        }
        assert(edge_lanes(inv));
        assert forall|i: int, j: int| 0 <= i < 12 && 0 <= j < 12 && i != j implies eid(#[trigger] inv[i]) != eid(#[trigger] inv[j]) by {
            let ki = edge_slot_source(a, i);
            let kj = edge_slot_source(a, j);
            assert(0 <= ki < 12 && eid(a[ki]) == i && inv[i] == ecode(ki, efl(a[ki])));
            assert(0 <= kj < 12 && eid(a[kj]) == j && inv[j] == ecode(kj, efl(a[kj])));
            lemma_ecode_of(a[ki]);
            lemma_ecode_of(a[kj]);
            lemma_ecode(ki, efl(a[ki]));
            lemma_ecode(kj, efl(a[kj]));
            assert(eid(inv[i]) == ki);
            assert(eid(inv[j]) == kj);
        }
        assert(forall|i: int, j: int| 0 <= i < 12 && 0 <= j < 12 && i != j ==> eid(#[trigger] inv[i]) != eid(#[trigger] inv[j]));
    }
    let inv2 = edges_inverse(inv);
    lemma_edges_invert_values(inv, 12);
    assert forall|k: int| 0 <= k < 12 implies #[trigger] inv2[k] == a[k] by {
        let j = eid(a[k]);
        lemma_ecode_of(a[k]);
        assert(inv[j] == ecode(k, efl(a[k])));
        lemma_ecode(k, efl(a[k]));
        assert(inv2[eid(inv[j])] == ecode(j, efl(inv[j])));
    }
    assert(inv2 =~= a);
}

/// A position that undoes a permutation after it is its inverse.
pub proof fn lemma_edges_inverse_unique(a: Seq<u8>, b: Seq<u8>)
    requires
        edges_perm(a),
        edge_lanes(b),
        edges_compose(a, b) == edges_ident(),
    ensures
        b == edges_inverse(a),
{
    let inv = edges_inverse(a);
    law_edges_inverse(a);
    law_edges_identity(b);
    law_edges_identity(inv);
    law_edges_assoc(inv, a, b);
}

/// The sum of the flips as a sum over the slots.
proof fn lemma_flip_sum_is_sum(a: Seq<u8>, n: int)
    ensures
        flip_sum(a, n) == sum_upto(|i: int| efl(a[i]), n),
    decreases n,
{
    if n > 0 {
        lemma_flip_sum_is_sum(a, n - 1);
    }
}

/// The net flip adds up under composition with a permutation: the flips
/// that `b` adds come on top of those of `a`, which `b` only moves.
pub proof fn law_edges_net_flip(a: Seq<u8>, b: Seq<u8>)
    requires
        edge_lanes(a),
        edges_perm(b),
    ensures
        net_flip_spec(edges_compose(a, b)) == (net_flip_spec(a) + net_flip_spec(b)) % 2,
{
    let ab = edges_compose(a, b);
    let u = |i: int| efl(a[eid(b[i])]);
    let v = |i: int| efl(b[i]);
    let fa = |j: int| efl(a[j]);
    let p = |i: int| eid(b[i]);
    lemma_flip_sum_is_sum(ab, 12);
    lemma_flip_sum_is_sum(a, 12);
    lemma_flip_sum_is_sum(b, 12);
    assert forall|i: int| 0 <= i < 12 implies #[trigger] efl(ab[i]) == (u(i) + v(i)) % 2 by {
        lemma_ecode_of(b[i]);
        lemma_ecode_of(a[eid(b[i])]);
        lemma_ecode(eid(a[eid(b[i])]), (efl(a[eid(b[i])]) + efl(b[i])) % 2);
    }
    lemma_sum_same(|i: int| (u(i) + v(i)) % 2, |i: int| efl(ab[i]), 12);
    lemma_sum_mod(u, v, 2, 12);
    assert(injective_upto(p, 12)) by {
        assert forall|i: int, j: int| 0 <= i < 12 && 0 <= j < 12 && i != j implies #[trigger] p(i) != #[trigger] p(j) by {
            assert(eid(b[i]) != eid(b[j]));
        }
    }
    lemma_sum_permuted(fa, p, 12);
    lemma_sum_same(u, |i: int| fa(p(i)), 12);
    vstd::arithmetic::div_mod::lemma_add_mod_noop(sum_upto(fa, 12), sum_upto(v, 12), 2);
}

/// Every turn moves the edges by a permutation of the slots and adds no net
/// flip.
pub proof fn law_edge_turn_valid(t: Turn)
    ensures
        edges_perm(edge_turn(t)),
        net_flip_spec(edge_turn(t)) == 0,
{
    reveal_with_fuel(flip_sum, 13);
    let a = edge_turn(t);
    assert(edge_lanes(a));
    assert forall|i: int, j: int| 0 <= i < 12 && 0 <= j < 12 && i != j implies eid(#[trigger] a[i]) != eid(#[trigger] a[j]) by {
        match t {
            Turn::U1 => {},
            Turn::U2 => {},
            Turn::U3 => {},
            Turn::R1 => {},
            Turn::R2 => {},
            Turn::R3 => {},
            Turn::F1 => {},
            Turn::F2 => {},
            Turn::F3 => {},
            Turn::D1 => {},
            Turn::D2 => {},
            Turn::D3 => {},
            Turn::L1 => {},
            Turn::L2 => {},
            Turn::L3 => {},
            Turn::B1 => {},
            Turn::B2 => {},
            Turn::B3 => {},
        }
    }
}

/// The inverse as written over the solved position: for each slot `i` in
/// order, edge `i` with the same flip goes into the slot named by `a[i]`;
/// slots that no edge names keep their solved edge. For a permutation this
/// is the inverse position.
pub open spec fn edges_invert_over_ident(a: Seq<u8>, n: int) -> Seq<u8>
    decreases n,
{
    if n <= 0 {
        edges_ident()
    } else {
        edges_invert_over_ident(a, n - 1).update(eid(a[n - 1]), ecode(n - 1, efl(a[n - 1])))
    }
}

/// Writing the inverse over the solved position or over zeros gives the
/// same inverse for a permutation: every slot gets written.
pub proof fn law_inverse_over_ident(a: Seq<u8>)
    requires
        edges_perm(a),
    ensures
        edges_invert_over_ident(a, 12) == edges_inverse(a),
{
    lemma_edges_invert_values(a, 12);
    lemma_invert_over_values(a, 12);
    lemma_edges_perm_onto(a);
    let x = edges_invert_over_ident(a, 12);
    let y = edges_inverse(a);
    assert forall|j: int| 0 <= j < 12 implies #[trigger] x[j] == y[j] by {
        assert(hits(edge_slot_map(a), 12, j));
        let k = choose|k: int| 0 <= k < 12 && #[trigger] edge_slot_map(a)(k) == j;
        assert(eid(a[k]) == j);
    }
    assert(x =~= y);
}

/// What the inverse over the solved position holds after writing the first
/// `n` edges of a permutation.
proof fn lemma_invert_over_values(a: Seq<u8>, n: int)
    requires
        edges_perm(a),
        0 <= n <= 12,
    ensures
        edges_invert_over_ident(a, n).len() == 12,
        forall|k: int| 0 <= k < n ==> #[trigger] edges_invert_over_ident(a, n)[eid(a[k])] == ecode(k, efl(a[k])),
    decreases n,
{
    if n > 0 {
        lemma_invert_over_values(a, n - 1);
        let prev = edges_invert_over_ident(a, n - 1);
        let cur = edges_invert_over_ident(a, n);
        lemma_ecode_of(a[n - 1]);
        assert forall|k: int| 0 <= k < n implies #[trigger] cur[eid(a[k])] == ecode(k, efl(a[k])) by {
            lemma_ecode_of(a[k]);
            if k < n - 1 {
                assert(eid(a[k]) != eid(a[n - 1]));
            }
        }
    }
}

/// The number of one bits of the byte `v`.
pub open spec fn bits8(v: u8) -> int {
    (v & 1) + ((v >> 1u8) & 1) + ((v >> 2u8) & 1) + ((v >> 3u8) & 1) + ((v >> 4u8) & 1) + ((v >> 5u8) & 1)
        + ((v >> 6u8) & 1) + ((v >> 7u8) & 1)
}

/// The number of one bits of the first `n` bytes of `s`.
pub open spec fn lane_bits_sum(s: Seq<u8>, n: int) -> int
    decreases n,
{
    if n <= 0 {
        0
    } else {
        lane_bits_sum(s, n - 1) + bits8(s[n - 1])
    }
}

/// For a permutation, the parity of all the one bits of the codes is the
/// net flip: the slot bits of a permutation hold every slot number once,
/// whose bits add up to an even number.
pub proof fn law_bit_parity_is_net_flip(a: Seq<u8>)
    requires
        edges_perm(a),
    ensures
        lane_bits_sum(a, 12) % 2 == net_flip_spec(a),
{
    let f = |j: int| bits8(j as u8);
    let p = |i: int| eid(a[i]);
    assert forall|i: int| 0 <= i < 12 implies #[trigger] bits8(a[i]) == f(p(i)) + efl(a[i]) by {
        let v = a[i];
        let w = (v % 16) as u8;
        assert(bits8(v) == bits8(w) + v / 16) by (bit_vector)
            requires
                v < 32,
                w == v % 16,
        ;
    }
    lemma_bits_sum_split(a, 12);
    assert(injective_upto(p, 12)) by {
        assert forall|i: int, j: int| 0 <= i < 12 && 0 <= j < 12 && i != j implies #[trigger] p(i) != #[trigger] p(j) by {
            assert(eid(a[i]) != eid(a[j]));
        }
    }
    lemma_sum_permuted(f, p, 12);
    assert(sum_upto(f, 12) == 20) by {
        reveal_with_fuel(sum_upto, 13);
        assert(bits8(0) + bits8(1) + bits8(2) + bits8(3) + bits8(4) + bits8(5) + bits8(6) + bits8(7) + bits8(8)
            + bits8(9) + bits8(10) + bits8(11) == 20) by (bit_vector);
    }
    lemma_sum_same(|i: int| f(p(i)), |i: int| bits8(eid(a[i]) as u8), 12);
    lemma_flip_sum_is_sum(a, 12);
    let fl = flip_sum(a, 12);
    assert((20 + fl) % 2 == fl % 2) by {
        vstd::arithmetic::div_mod::lemma_fundamental_div_mod(fl, 2);
    }
}

/// The bits of the first `n` codes: those of the slots, plus the flips.
proof fn lemma_bits_sum_split(a: Seq<u8>, n: int)
    requires
        0 <= n <= 12,
        forall|i: int| 0 <= i < 12 ==> #[trigger] bits8(a[i]) == bits8(eid(a[i]) as u8) + efl(a[i]),
    ensures
        lane_bits_sum(a, n) == sum_upto(|i: int| bits8(eid(a[i]) as u8), n) + sum_upto(|i: int| efl(a[i]), n),
    decreases n,
{
    if n > 0 {
        lemma_bits_sum_split(a, n - 1);
    }
}

/// A representation of the twelve edges of a cube.
pub trait EdgesTrait: Sized + Copy {
    /// The codes of the twelve edges, slot first.
    spec fn lanes(&self) -> Seq<u8>;

    /// The cycles of the position.
    type Cycles: EdgeCyclesTrait;

    /// The parity of the permutation of the edges.
    fn parity(&self) -> (r: bool)
        ensures
            r == edge_parity(self.lanes()),
    ;

    /// The cycles of the position.
    fn cycles(&self) -> (r: Self::Cycles)
        ensures
            r.cycle_lanes() == edge_cycles(self.lanes()),
    ;

    /// The codes of the edges packed five bits each, the first edge lowest.
    fn pack(&self) -> (r: u64)
        ensures
            r == crate::corners::pack_upto(self.lanes(), 12),
    ;

    /// The net flip of the edges. For a permutation of the slots it is
    /// the sum of the flips modulo 2; what it is otherwise is up to the
    /// representation.
    fn net_flip(&self) -> (r: u8)
        ensures
            edges_perm(self.lanes()) ==> r == net_flip_spec(self.lanes()),
    ;
}

/// The cycles of a position of edges.
pub trait EdgeCyclesTrait {
    /// The edge codes of each cycle.
    spec fn cycle_lanes(&self) -> Seq<Seq<u8>>;

    /// The cycles in Speffz letters.
    fn speffz(&self) -> (r: String)
        ensures
            r@ == edge_cycles_text(self.cycle_lanes()),
    ;
}

} // verus!
