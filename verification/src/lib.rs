//! A model of the 3x3x3 cube group: positions of the corners and edges,
//! outer turns, and the Speffz lettering of pieces.
use vstd::prelude::*;

pub mod corners;
pub mod dr;
pub mod edges;
pub mod group;
pub mod lanes;
pub mod parity;
pub mod cycles;
pub mod perm;
pub mod speffz;
pub mod text;
pub mod turns;

pub use corners::corners_array::{Corner, CornerCycles, Corners};
pub use corners::{corners_array, corners_neon, CornerCyclesTrait, CornersOps, CornersTrait};
pub use edges::edges_array::{Edge, EdgeCycles, Edges};
pub use edges::{edges_array, edges_neon, EdgeCyclesTrait, EdgesTrait};
pub use speffz::{ParseSpeffzError, Speffz, SpeffzLetter};
pub use turns::{allturns, canonturns, parse_turn, Axis, Face, Turn, TurnIter, Turns, NTURNS};

use corners::{
    corner_cycles, corner_parity, corner_turn, corners_after, corners_compose, corners_ident,
    corners_inverse, net_twist_spec, pack_upto,
};
use edges::{
    edge_cycles, edge_parity, edge_turn, edges_after, edges_compose, edges_ident, edges_inverse,
    net_flip_spec,
};
use speffz::{
    all_corner_letters, all_edge_letters, corners_of_letters, edges_of_letters,
};
use cycles::{cycles_cover, cycles_distinct, cycles_follow, cycles_ordered, slot_cycles, slots};
use text::{push_char, str_chars};
use vstd::arithmetic::power2::pow2;

verus! {

/// Operations shared by the positions of a cube.
pub trait CubeOps: Sized + Copy {
}

/// A position of the whole cube: its corners and its edges.
#[derive(Clone, Copy, Debug, Hash, PartialOrd, Ord)]
pub struct Cube(Corners, Edges);

impl View for Cube {
    type V = (Seq<u8>, Seq<u8>);

    /// The codes of the corners and of the edges.
    closed spec fn view(&self) -> (Seq<u8>, Seq<u8>) {
        (self.0@, self.1@)
    }
}

impl Cube {
    /// The position with the corner codes `c` and the edge codes `e`.
    pub closed spec fn from_views(c: Seq<u8>, e: Seq<u8>) -> Cube {
        Cube(Corners::from_lanes(c), Edges::from_lanes(e))
    }

    /// Positions with the same codes are equal.
    pub proof fn lemma_view_eq(a: Cube, b: Cube)
        requires
            a@ == b@,
        ensures
            a == b,
    {
        Corners::lemma_view_eq(a.0, b.0);
        Edges::lemma_view_eq(a.1, b.1);
    }

    /// The position built from codes has those codes.
    pub proof fn lemma_from_views(c: Seq<u8>, e: Seq<u8>)
        requires
            c.len() == 8,
            e.len() == 12,
        ensures
            Cube::from_views(c, e)@ == (c, e),
    {
        Corners::lemma_from_lanes(c);
        Edges::lemma_from_lanes(e);
    }

    /// The position made of the corners `c` and the edges `e`.
    pub fn new(c: Corners, e: Edges) -> (r: Cube)
        ensures
            r@ == (c@, e@),
    {
        Cube(c, e)
    }

    /// The corners of the position.
    pub fn corners(&self) -> (r: Corners)
        ensures
            r@ == self@.0,
    {
        self.0
    }

    /// The edges of the position.
    pub fn edges(&self) -> (r: Edges)
        ensures
            r@ == self@.1,
    {
        self.1
    }
}

impl PartialEq for Cube {
    fn eq(&self, other: &Cube) -> (r: bool) {
        self.0 == other.0 && self.1 == other.1
    }
}

impl Eq for Cube {
}

impl vstd::std_specs::cmp::PartialEqSpecImpl for Cube {
    open spec fn obeys_eq_spec() -> bool {
        true
    }

    open spec fn eq_spec(&self, other: &Cube) -> bool {
        self@ == other@
    }
}

impl Default for Cube {
    /// The solved cube.
    fn default() -> (r: Cube)
        ensures
            r@ == (corners_ident(), edges_ident()),
    {
        Cube(Corners::default(), Edges::default())
    }
}

impl vstd::std_specs::ops::MulSpecImpl for Cube {
    open spec fn obeys_mul_spec() -> bool {
        true
    }

    open spec fn mul_req(self, rhs: Cube) -> bool {
        true
    }

    closed spec fn mul_spec(self, rhs: Cube) -> Cube {
        Cube::from_views(corners_compose(self@.0, rhs@.0), edges_compose(self@.1, rhs@.1))
    }
}

impl std::ops::Mul for Cube {
    type Output = Cube;

    /// The position reached by applying `rhs` after `self`.
    fn mul(self, rhs: Cube) -> (r: Cube)
        ensures
            r@ == (corners_compose(self@.0, rhs@.0), edges_compose(self@.1, rhs@.1)),
    {
        let r = Cube(self.0 * rhs.0, self.1 * rhs.1);
        proof {
            Cube::lemma_from_views(corners_compose(self@.0, rhs@.0), edges_compose(self@.1, rhs@.1));
            Cube::lemma_view_eq(r, Cube::from_views(corners_compose(self@.0, rhs@.0), edges_compose(self@.1, rhs@.1)));
        }
        r
    }
}

impl vstd::std_specs::ops::MulSpecImpl<Turn> for Cube {
    open spec fn obeys_mul_spec() -> bool {
        true
    }

    open spec fn mul_req(self, rhs: Turn) -> bool {
        true
    }

    closed spec fn mul_spec(self, rhs: Turn) -> Cube {
        Cube::from_views(corners_compose(self@.0, corner_turn(rhs)), edges_compose(self@.1, edge_turn(rhs)))
    }
}

impl std::ops::Mul<Turn> for Cube {
    type Output = Cube;

    /// The position after the turn `rhs`.
    fn mul(self, rhs: Turn) -> (r: Cube)
        ensures
            r@ == (corners_compose(self@.0, corner_turn(rhs)), edges_compose(self@.1, edge_turn(rhs))),
    {
        let r = Cube(self.0 * rhs, self.1 * rhs);
        proof {
            Cube::lemma_from_views(corners_compose(self@.0, corner_turn(rhs)), edges_compose(self@.1, edge_turn(rhs)));
            Cube::lemma_view_eq(r, Cube::from_views(corners_compose(self@.0, corner_turn(rhs)), edges_compose(self@.1, edge_turn(rhs))));
        }
        r
    }
}

impl vstd::std_specs::ops::NotSpecImpl for Cube {
    open spec fn obeys_not_spec() -> bool {
        true
    }

    open spec fn not_req(self) -> bool {
        true
    }

    closed spec fn not_spec(self) -> Cube {
        Cube::from_views(corners_inverse(self@.0), edges_inverse(self@.1))
    }
}

impl std::ops::Not for Cube {
    type Output = Cube;

    /// The inverse position.
    fn not(self) -> (r: Cube)
        ensures
            r@ == (corners_inverse(self@.0), edges_inverse(self@.1)),
    {
        let c = std::ops::Not::not(self.0);
        let e = std::ops::Not::not(self.1);
        c.valid_lanes();
        e.valid_lanes();
        let r = Cube(c, e);
        proof {
            Cube::lemma_from_views(c@, e@);
            Cube::lemma_view_eq(r, Cube::from_views(c@, e@));
        }
        r
    }
}

impl<'a> vstd::std_specs::ops::MulSpecImpl<&'a Turns> for Cube {
    open spec fn obeys_mul_spec() -> bool {
        true
    }

    open spec fn mul_req(self, rhs: &'a Turns) -> bool {
        true
    }

    closed spec fn mul_spec(self, rhs: &'a Turns) -> Cube {
        Cube::from_views(corners_after(self@.0, rhs@), edges_after(self@.1, rhs@))
    }
}

impl<'a> std::ops::Mul<&'a Turns> for Cube {
    type Output = Cube;

    /// The position after the turns `rhs`, in order.
    fn mul(self, rhs: &'a Turns) -> (r: Cube)
        ensures
            r@ == (corners_after(self@.0, rhs@), edges_after(self@.1, rhs@)),
    {
        let c = self.0.turns(rhs.as_slice());
        let e = self.1.turns(rhs.as_slice());
        c.valid_lanes();
        e.valid_lanes();
        let r = Cube(c, e);
        proof {
            Cube::lemma_from_views(r@.0, r@.1);
            Cube::lemma_view_eq(r, Cube::from_views(r@.0, r@.1));
        }
        r
    }
}

/// The whole cube position packed into 100 bits: the corners in the low 40
/// bits, the edges above them.
pub open spec fn cube_pack(c: Seq<u8>, e: Seq<u8>) -> int {
    pack_upto(c, 8) + pack_upto(e, 12) * pow2(40)
}

/// Packing tells cube positions apart: the same word means the same
/// corners and the same edges.
pub proof fn law_cube_pack_injective(c1: Seq<u8>, e1: Seq<u8>, c2: Seq<u8>, e2: Seq<u8>)
    requires
        crate::corners::corner_lanes(c1),
        crate::corners::corner_lanes(c2),
        crate::edges::edge_lanes(e1),
        crate::edges::edge_lanes(e2),
        cube_pack(c1, e1) == cube_pack(c2, e2),
    ensures
        c1 == c2,
        e1 == e2,
{
    assert(forall|i: int| 0 <= i < 12 ==> (#[trigger] e1[i]) < 32);
    assert(forall|i: int| 0 <= i < 12 ==> (#[trigger] e2[i]) < 32);
    lanes::lemma_pack_bound(c1, 8);
    lanes::lemma_pack_bound(c2, 8);
    lanes::lemma_pack_bound(e1, 12);
    lanes::lemma_pack_bound(e2, 12);
    let p = pow2(40);
    vstd::arithmetic::power2::lemma_pow2_pos(40);
    let x = cube_pack(c1, e1);
    vstd::arithmetic::mul::lemma_mul_is_commutative(pack_upto(e1, 12), p as int);
    vstd::arithmetic::mul::lemma_mul_is_commutative(pack_upto(e2, 12), p as int);
    vstd::arithmetic::div_mod::lemma_fundamental_div_mod_converse(x, p as int, pack_upto(e1, 12), pack_upto(c1, 8));
    vstd::arithmetic::div_mod::lemma_fundamental_div_mod_converse(x, p as int, pack_upto(e2, 12), pack_upto(c2, 8));
    lanes::law_pack_injective(c1, c2, 8);
    lanes::law_pack_injective(e1, e2, 12);
    assert(c1.take(8) =~= c1);
    assert(c2.take(8) =~= c2);
    assert(e1.take(12) =~= e1);
    assert(e2.take(12) =~= e2);
}

/// Packing the corners fits in 40 bits and tells corner positions apart:
/// two positions pack to the same word exactly when they are equal.
pub proof fn law_corners_pack(a: Seq<u8>, b: Seq<u8>)
    requires
        crate::corners::corner_lanes(a),
        crate::corners::corner_lanes(b),
    ensures
        0 <= pack_upto(a, 8) < pow2(40),
        (pack_upto(a, 8) == pack_upto(b, 8)) <==> a == b,
{
    lanes::lemma_pack_bound(a, 8);
    if pack_upto(a, 8) == pack_upto(b, 8) {
        lanes::law_pack_injective(a, b, 8);
        assert(a.take(8) =~= a);
        assert(b.take(8) =~= b);
    }
}

/// Packing the edges fits in 60 bits and tells edge positions apart: two
/// positions pack to the same word exactly when they are equal.
pub proof fn law_edges_pack(a: Seq<u8>, b: Seq<u8>)
    requires
        crate::edges::edge_lanes(a),
        crate::edges::edge_lanes(b),
    ensures
        0 <= pack_upto(a, 12) < pow2(60),
        (pack_upto(a, 12) == pack_upto(b, 12)) <==> a == b,
{
    assert(forall|i: int| 0 <= i < 12 ==> (#[trigger] a[i]) < 32);
    assert(forall|i: int| 0 <= i < 12 ==> (#[trigger] b[i]) < 32);
    lanes::lemma_pack_bound(a, 12);
    if pack_upto(a, 12) == pack_upto(b, 12) {
        lanes::law_pack_injective(a, b, 12);
        assert(a.take(12) =~= a);
        assert(b.take(12) =~= b);
    }
}

/// The cycles of a corner position are its cycles of slots, each slot
/// replaced by the corner code it holds. Those cycles follow where the
/// corners belong, list every corner out of place or twisted exactly once
/// and no other, each end with their lowest slot, and come in the order of
/// those lowest slots.
pub proof fn law_corner_cycles(a: Seq<u8>)
    requires
        crate::corners::corners_perm(a),
    ensures
        corner_cycles(a) == slot_cycles(corners::corner_ids(a), corners::corner_moved(a), 8).map_values(
            |s: Seq<int>| s.map_values(|x: int| a[x]),
        ),
        cycles_follow(slot_cycles(corners::corner_ids(a), corners::corner_moved(a), 8), corners::corner_ids(a), corners::corner_moved(a), 8),
        cycles_distinct(slot_cycles(corners::corner_ids(a), corners::corner_moved(a), 8)),
        cycles_cover(slot_cycles(corners::corner_ids(a), corners::corner_moved(a), 8), corners::corner_moved(a), 8),
        cycles_ordered(slot_cycles(corners::corner_ids(a), corners::corner_moved(a), 8)),
{
    let ids = corners::corner_ids(a);
    let moved = corners::corner_moved(a);
    parity::lemma_corner_ids_perm(a);
    assert forall|x: int| 0 <= x < 8 && ids[x] as int != x implies #[trigger] moved[x] by {
        if a[x] == x as u8 {
            assert(ids[x] == (a[x] % 8) as u8);
        }
    }
    cycles::law_slot_cycles(ids, moved, 8);
    let f = |x: int| a[x];
    perm::lemma_cycle_walk_map(slots(8), f, ids, moved, perm::first_positions(8), 0, Seq::empty(), Seq::empty());
    assert(slots(8).map_values(f) =~= a);
    assert(Seq::<int>::empty().map_values(f) =~= Seq::<u8>::empty());
    assert(Seq::<Seq<int>>::empty().map_values(|s: Seq<int>| s.map_values(f)) =~= Seq::<Seq<u8>>::empty());
}

/// The cycles of an edge position are its cycles of slots, each slot
/// replaced by the edge code it holds. Those cycles follow where the edges
/// belong, list every edge out of place or flipped exactly once and no
/// other, each end with their lowest slot, and come in the order of those
/// lowest slots.
pub proof fn law_edge_cycles(a: Seq<u8>)
    requires
        crate::edges::edges_perm(a),
    ensures
        edge_cycles(a) == slot_cycles(edges::edge_ids(a), edges::edge_moved(a), 12).map_values(
            |s: Seq<int>| s.map_values(|x: int| a[x]),
        ),
        cycles_follow(slot_cycles(edges::edge_ids(a), edges::edge_moved(a), 12), edges::edge_ids(a), edges::edge_moved(a), 12),
        cycles_distinct(slot_cycles(edges::edge_ids(a), edges::edge_moved(a), 12)),
        cycles_cover(slot_cycles(edges::edge_ids(a), edges::edge_moved(a), 12), edges::edge_moved(a), 12),
        cycles_ordered(slot_cycles(edges::edge_ids(a), edges::edge_moved(a), 12)),
{
    let ids = edges::edge_ids(a);
    let moved = edges::edge_moved(a);
    parity::lemma_edge_ids_perm(a);
    assert forall|x: int| 0 <= x < 12 && ids[x] as int != x implies #[trigger] moved[x] by {
        if a[x] == x as u8 {
            assert(ids[x] == (a[x] % 16) as u8);
        }
    }
    cycles::law_slot_cycles(ids, moved, 12);
    let f = |x: int| a[x];
    perm::lemma_cycle_walk_map(slots(12), f, ids, moved, perm::first_positions(12), 0, Seq::empty(), Seq::empty());
    assert(slots(12).map_values(f) =~= a);
    assert(Seq::<int>::empty().map_values(f) =~= Seq::<u8>::empty());
    assert(Seq::<Seq<int>>::empty().map_values(|s: Seq<int>| s.map_values(f)) =~= Seq::<Seq<u8>>::empty());
}

/// Every position that turns reach from the solved cube is valid: no net
/// twist, no net flip, and the corners and the edges permuted with the same
/// parity.
pub proof fn law_reachable_valid(ts: Seq<Turn>)
    ensures
        net_twist_spec(corners_after(corners_ident(), ts)) == 0,
        net_flip_spec(edges_after(edges_ident(), ts)) == 0,
        corner_parity(corners_after(corners_ident(), ts)) == edge_parity(edges_after(edges_ident(), ts)),
{
    group::law_reachable_no_twist_flip(ts);
    parity::law_reachable_parity(ts);
}

/// Whether the corners `c` and the edges `e` have no net twist, no net flip,
/// and the same parity.
pub open spec fn cube_valid(c: Seq<u8>, e: Seq<u8>) -> bool {
    net_twist_spec(c) == 0 && net_flip_spec(e) == 0 && corner_parity(c) == edge_parity(e)
}

/// The inverse of a permutation with no net twist and no net flip has none
/// either.
proof fn lemma_inverse_no_twist_flip(c: Seq<u8>, e: Seq<u8>)
    requires
        corners::corners_perm(c),
        edges::edges_perm(e),
        net_twist_spec(c) == 0,
        net_flip_spec(e) == 0,
    ensures
        net_twist_spec(corners_inverse(c)) == 0,
        net_flip_spec(edges_inverse(e)) == 0,
        corners::corners_perm(corners_inverse(c)),
        edges::edges_perm(edges_inverse(e)),
{
    corners::law_corners_inverse(c);
    edges::law_edges_inverse(e);
    let ic = corners_inverse(c);
    let ie = edges_inverse(e);
    corners::law_corners_net_twist(c, ic);
    edges::law_edges_net_flip(e, ie);
    group::lemma_ident_no_twist_flip();
}

/// Valid positions stay valid: the composition of two, the inverse of one,
/// and one after a turn are valid, and remain permutations.
pub proof fn law_valid_closed(c1: Seq<u8>, e1: Seq<u8>, c2: Seq<u8>, e2: Seq<u8>, t: Turn)
    requires
        corners::corners_perm(c1),
        edges::edges_perm(e1),
        corners::corners_perm(c2),
        edges::edges_perm(e2),
        cube_valid(c1, e1),
        cube_valid(c2, e2),
    ensures
        cube_valid(corners_compose(c1, c2), edges_compose(e1, e2)),
        cube_valid(corners_inverse(c1), edges_inverse(e1)),
        cube_valid(corners_compose(c1, corner_turn(t)), edges_compose(e1, edge_turn(t))),
        corners::corners_perm(corners_compose(c1, c2)) && edges::edges_perm(edges_compose(e1, e2)),
        corners::corners_perm(corners_inverse(c1)) && edges::edges_perm(edges_inverse(e1)),
{
    corners::law_corners_net_twist(c1, c2);
    edges::law_edges_net_flip(e1, e2);
    parity::law_parity_compose(c1, c2, e1, e2);
    group::lemma_corners_perm_compose(c1, c2);
    group::lemma_edges_perm_compose(e1, e2);
    lemma_inverse_no_twist_flip(c1, e1);
    parity::law_parity_inverse(c1, e1);
    corners::law_corner_turn_valid(t);
    edges::law_edge_turn_valid(t);
    corners::law_corners_net_twist(c1, corner_turn(t));
    edges::law_edges_net_flip(e1, edge_turn(t));
    parity::law_turn_parity(c1, e1, t);
}

/// The position of the first character `.` in `s` at or after `k`, if any.
pub open spec fn dot_from(s: Seq<char>, k: int) -> Option<int>
    decreases s.len() - k,
{
    if k >= s.len() || k < 0 {
        None
    } else if s[k] == '.' {
        Some(k)
    } else {
        dot_from(s, k + 1)
    }
}

/// The second part of `s` when split at the character `.`, the first part
/// ending at `d`: the characters after `d` up to the next `.` or the end.
pub open spec fn second_part(s: Seq<char>, d: int) -> Seq<char> {
    match dot_from(s, d + 1) {
        None => s.subrange(d + 1, s.len() as int),
        Some(e) => s.subrange(d + 1, e),
    }
}

/// What reading the string `s` as a cube gives: the corners are read from
/// the letters before the first `.`, the edges from those after it up to a
/// second `.` or the end; a string without `.` is a `MiscParseError`, and
/// the first error of the corners, or else of the edges, is returned.
pub open spec fn cube_parsed(s: Seq<char>, r: Result<Cube, ParseSpeffzError>) -> bool {
    match dot_from(s, 0) {
        None => r matches Err(ParseSpeffzError::MiscParseError),
        Some(d) => {
            let p1 = s.take(d);
            let p2 = second_part(s, d);
            let corners_ok = all_corner_letters(p1) && p1.len() == 8;
            let edges_ok = all_edge_letters(p2) && p2.len() == 12;
            match r {
                Ok(q) => corners_ok && edges_ok && q@ == (corners_of_letters(p1), edges_of_letters(p2)),
                Err(ParseSpeffzError::BadSpeffzLetter) => !all_corner_letters(p1) || (corners_ok && !all_edge_letters(p2)),
                Err(ParseSpeffzError::SliceError(_)) => (all_corner_letters(p1) && p1.len() != 8) || (corners_ok && all_edge_letters(p2) && p2.len() != 12),
                Err(ParseSpeffzError::MiscParseError) => false,
            }
        },
    }
}

/// The first `.` at or after `k` is at `j` when there is none between them
/// and `j` holds one; there is none at all when none is from `k` to the end.
proof fn lemma_dot_from_at(s: Seq<char>, k: int, j: int)
    requires
        0 <= k <= j <= s.len(),
        forall|i: int| k <= i < j ==> s[i] != '.',
        j < s.len() ==> s[j] == '.',
    ensures
        dot_from(s, k) == if j < s.len() {
            Some(j)
        } else {
            None::<int>
        },
    decreases j - k,
{
    if k < j {
        lemma_dot_from_at(s, k + 1, j);
    }
}

/// Reading the Speffz string of a cube position gives that position.
pub proof fn law_cube_speffz_roundtrip(c: Seq<u8>, e: Seq<u8>, r: Result<Cube, ParseSpeffzError>)
    requires
        crate::corners::corner_lanes(c),
        crate::edges::edge_lanes(e),
        cube_parsed(crate::corners::corner_letters(c) + seq!['.'] + crate::edges::edge_letters(e), r),
    ensures
        r matches Ok(x) && x@ == (c, e),
{
    let lc = crate::corners::corner_letters(c);
    let le = crate::edges::edge_letters(e);
    let s = lc + seq!['.'] + le;
    assert forall|i: int| 0 <= i < 8 implies s[i] != '.' by {
        assert(s[i] == crate::corners::corner_letter(c[i]));
    }
    lemma_dot_from_at(s, 0, 8);
    assert forall|i: int| 9 <= i < 21 implies s[i] != '.' by {
        assert(s[i] == crate::edges::edge_letter(e[i - 9]));
    }
    lemma_dot_from_at(s, 9, 21);
    assert(s.take(8) =~= lc);
    assert(second_part(s, 8) =~= le);
    assert(all_corner_letters(lc) && corners_of_letters(lc) == c) by {
        assert forall|i: int| 0 <= i < lc.len() implies (#[trigger] crate::corners::corner_of_letter(lc[i])) is Some by {
            crate::speffz::law_corner_letter_roundtrip(c[i]);
        }
        assert forall|i: int| 0 <= i < 8 implies #[trigger] corners_of_letters(lc)[i] == c[i] by {
            crate::speffz::law_corner_letter_roundtrip(c[i]);
        }
        assert(corners_of_letters(lc) =~= c);
    }
    assert(all_edge_letters(le) && edges_of_letters(le) == e) by {
        assert forall|i: int| 0 <= i < le.len() implies (#[trigger] crate::edges::edge_of_letter(le[i])) is Some by {
            crate::speffz::law_edge_letter_roundtrip(e[i]);
        }
        assert forall|i: int| 0 <= i < 12 implies #[trigger] edges_of_letters(le)[i] == e[i] by {
            crate::speffz::law_edge_letter_roundtrip(e[i]);
        }
        assert(edges_of_letters(le) =~= e);
    }
}

impl Cube {
    /// The position after the turns `t`, in order.
    pub fn turns(&self, t: &[Turn]) -> (r: Cube)
        ensures
            r@ == (corners_after(self@.0, t@), edges_after(self@.1, t@)),
    {
        Cube(self.0.turns(t), self.1.turns(t))
    }

    /// The cycles of the corners and of the edges.
    pub fn cycles(&self) -> (r: CubeCycles)
        ensures
            r@ == (corner_cycles(self@.0), edge_cycles(self@.1)),
    {
        CubeCycles(self.0.cycles(), self.1.cycles())
    }

    /// The position packed into 100 bits: the corners in the low 40 bits
    /// (see [`CornersTrait::pack`]), the edges above them.
    pub fn pack(&self) -> (r: u128)
        ensures
            r == cube_pack(self@.0, self@.1),
    {
        let c = self.0.pack();
        let e = self.1.pack();
        self.0.valid_lanes();
        self.1.valid_lanes();
        proof {
            lanes::lemma_pack_bound(self@.0, 8);
            lanes::lemma_pack_bound(self@.1, 12);
            lanes::lemma_pack_join(c, e);
        }
        c as u128 | (e as u128) << 40
    }

    /// The parity of the permutation of the corners. For a position that
    /// turns can reach it is the parity of the edges as well.
    pub fn parity(&self) -> (r: bool)
        ensures
            r == corner_parity(self@.0),
    {
        self.0.parity()
    }

    /// The corners, then `.`, then the edges, in Speffz letters.
    pub fn speffz(self) -> (r: String)
        ensures
            r@ == crate::corners::corner_letters(self@.0) + seq!['.'] + crate::edges::edge_letters(self@.1),
    {
        let mut out = self.0.speffz();
        push_char(&mut out, '.');
        let e = self.1.speffz();
        out.append(e.as_str());
        out
    }

    /// The net twist of the corners.
    pub fn net_twist(&self) -> (r: u8)
        ensures
            r == net_twist_spec(self@.0),
    {
        self.0.net_twist()
    }

    /// The net flip of the edges.
    pub fn net_flip(&self) -> (r: u8)
        ensures
            r == net_flip_spec(self@.1),
    {
        self.1.net_flip()
    }

    /// Whether the position can be reached by turns: no net twist, no net
    /// flip, and the corners and the edges permuted with the same parity.
    pub fn valid(&self) -> (r: bool)
        ensures
            r == cube_valid(self@.0, self@.1),
    {
        self.0.net_twist() == 0 && self.1.net_flip() == 0 && self.0.parity() == self.1.parity()
    }

    /// Reads a position written as the Speffz letters of the corners, `.`,
    /// and those of the edges.
    pub fn from_speffz(s: &str) -> (r: Result<Cube, ParseSpeffzError>)
        ensures
            cube_parsed(s@, r),
    {
        let v = str_chars(s);
        let n = v.len();
        let mut d: usize = 0;
        while d < n && v[d] != '.'
            invariant
                n == v@.len(),
                0 <= d <= n,
                dot_from(v@, 0) == dot_from(v@, d as int),
            decreases n - d,
        {
            d = d + 1;
        }
        if d == n {
            return Err(ParseSpeffzError::MiscParseError);
        }
        let mut e: usize = d + 1;
        while e < n && v[e] != '.'
            invariant
                n == v@.len(),
                d < e <= n,
                dot_from(v@, d + 1) == dot_from(v@, e as int),
            decreases n - e,
        {
            e = e + 1;
        }
        let mut p1: Vec<char> = Vec::new();
        let mut i: usize = 0;
        while i < d
            invariant
                d < n == v@.len(),
                0 <= i <= d,
                p1@ == v@.take(i as int),
            decreases d - i,
        {
            p1.push(v[i]);
            i = i + 1;
            assert(p1@ =~= v@.take(i as int));
        }
        let mut p2: Vec<char> = Vec::new();
        let mut i: usize = d + 1;
        while i < e
            invariant
                d < e <= n == v@.len(),
                d + 1 <= i <= e,
                p2@ == v@.subrange(d + 1, i as int),
            decreases e - i,
        {
            p2.push(v[i]);
            i = i + 1;
            assert(p2@ =~= v@.subrange(d + 1, i as int));
        }
        assert(p2@ == second_part(v@, d as int));
        let c = match Corners::from_letters(p1.as_slice()) {
            Ok(c) => c,
            Err(err) => { return Err(err); },
        };
        let ed = match Edges::from_letters(p2.as_slice()) {
            Ok(ed) => ed,
            Err(err) => { return Err(err); },
        };
        Ok(Cube(c, ed))
    }
}

/// The cycles of a whole cube position.
#[derive(Debug, Default)]
pub struct CubeCycles(CornerCycles, EdgeCycles);

impl View for CubeCycles {
    type V = (Seq<Seq<u8>>, Seq<Seq<u8>>);

    closed spec fn view(&self) -> (Seq<Seq<u8>>, Seq<Seq<u8>>) {
        (self.0@, self.1@)
    }
}

impl CubeCycles {
    /// The cycles of the corners, then `.`, then those of the edges, in
    /// Speffz letters.
    pub fn speffz(&self) -> (r: String)
        ensures
            r@ == crate::corners::corner_cycles_text(self@.0) + seq!['.'] + crate::edges::edge_cycles_text(self@.1),
    {
        let mut out = self.0.speffz();
        push_char(&mut out, '.');
        let e = self.1.speffz();
        out.append(e.as_str());
        out
    }
}

impl CubeOps for Cube {
}

} // verus!
