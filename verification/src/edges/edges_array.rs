//! Edges held as an array of twelve edge codes.
use vstd::prelude::*;

use crate::corners::pack_upto;
use crate::edges::{
    ecode, edge_code_ok, edge_cycle_scan, edge_cycle_text, edge_cycles, edge_cycles_text, edge_ids,
    edge_lanes, edge_letter, edge_moved, edge_parity, edge_turn, edges_after, edges_compose,
    edges_ident, edges_invert_upto, edges_inverse, efl, eid, flip_sum, net_flip_spec,
    EdgeCyclesTrait, EdgesTrait,
};
use crate::lanes::lemma_pack_step;
use crate::perm::{first_positions, lemma_cycle_walk_map, walk_cycles, walk_parity};
use crate::speffz::SpeffzLetter;
use crate::text::push_char;
use crate::turns::{Turn, Turns};

verus! {

/// An edge piece: its slot in the low four bits, its flip in bit four.
#[derive(Clone, Copy, Debug, PartialEq, Eq, Hash, PartialOrd, Ord, Structural)]
pub struct Edge(pub(crate) u8);

impl Edge {
    #[verifier::type_invariant]
    closed spec fn wf(self) -> bool {
        edge_code_ok(self.0)
    }
}

impl View for Edge {
    type V = u8;

    /// The code of the edge.
    closed spec fn view(&self) -> u8 {
        self.0
    }
}

impl Default for Edge {
    /// The edge of slot 0, unflipped.
    fn default() -> (r: Edge)
        ensures
            r@ == 0,
    {
        Edge(0)
    }
}

pub(crate) proof fn lemma_edge_bits(v: u8)
    ensures
        v & 0xf == v % 16,
        v & 0x10 == 16 * ((v / 16) % 2),
        (v & 0x10) >> 4 == (v / 16) % 2,
{
    assert(v & 0xf == v % 16 && v & 0x10 == 16 * ((v / 16) % 2) && (v & 0x10) >> 4 == (v / 16) % 2) by (bit_vector);
}

pub(crate) proof fn lemma_edge_flip(y: u8, x: u8)
    requires
        y < 32,
        x < 32,
    ensures
        y ^ (x & 0x10) == y % 16 + 16 * ((y / 16 + x / 16) % 2),
{
    assert(y ^ (x & 0x10) == y % 16 + 16 * ((y / 16 + x / 16) % 2)) by (bit_vector)
        requires
            y < 32,
            x < 32,
    ;
}

pub(crate) proof fn lemma_edge_join(i: u8, e: u8)
    requires
        i < 16,
        e < 32,
    ensures
        i | (e & 0x10) == i + 16 * (e / 16),
{
    assert(i | (e & 0x10) == i + 16 * (e / 16)) by (bit_vector)
        requires
            i < 16,
            e < 32,
    ;
}

impl Edge {
    /// The code of the edge.
    pub fn code(self) -> (r: u8)
        ensures
            r == self@,
            edge_code_ok(r),
    {
        proof {
            use_type_invariant(&self);
        }
        self.0
    }

    /// The edge with code `v`.
    pub closed spec fn with_code(v: u8) -> Edge {
        Edge(v)
    }

    /// The edge built with a code has that code.
    pub proof fn lemma_with_code(v: u8)
        ensures
            Edge::with_code(v)@ == v,
    {
    }

    /// The Singmaster name of the edge, such as `UB` or `BU` flipped.
    pub fn name(self) -> (r: &'static str)
        ensures
            r@ == crate::edges::edge_code_name(self@),
    {
        let v = self.code();
        proof {
            lemma_edge_bits(v);
        }
        crate::edges::edge_singmaster(((v & 0x10) >> 4) as usize, (v & 0xf) as usize)
    }

    /// The edge with code `v`.
    pub fn from_code(v: u8) -> (r: Edge)
        requires
            edge_code_ok(v),
        ensures
            r@ == v,
            r == Edge::with_code(v),
    {
        Edge(v)
    }
}

/// The twelve edges of a cube position: slot `i` holds the code of the edge
/// that is there.
#[derive(Clone, Copy, Debug, Hash, PartialOrd, Ord)]
pub struct Edges(pub(crate) [Edge; 12]);

impl Edges {
    #[verifier::type_invariant]
    closed spec fn wf(self) -> bool {
        forall|i: int| 0 <= i < 12 ==> edge_code_ok(#[trigger] self.0[i]@)
    }
}

impl View for Edges {
    type V = Seq<u8>;

    /// The codes of the twelve edges, slot first.
    closed spec fn view(&self) -> Seq<u8> {
        self.0@.map_values(|e: Edge| e@)
    }
}

impl Edges {
    /// The position whose edge codes are `s`.
    pub closed spec fn from_lanes(s: Seq<u8>) -> Edges {
        Edges(
            [
                Edge(s[0]),
                Edge(s[1]),
                Edge(s[2]),
                Edge(s[3]),
                Edge(s[4]),
                Edge(s[5]),
                Edge(s[6]),
                Edge(s[7]),
                Edge(s[8]),
                Edge(s[9]),
                Edge(s[10]),
                Edge(s[11]),
            ],
        )
    }

    /// Positions with the same edge codes are equal.
    pub proof fn lemma_view_eq(a: Edges, b: Edges)
        requires
            a@ == b@,
        ensures
            a == b,
    {
        broadcast use vstd::array::group_array_axioms;
        assert forall|i: int| 0 <= i < 12 implies a.0[i] == b.0[i] by {
            assert(a.0@.len() == 12);
            assert(a@[i] == a.0@[i]@);
            assert(b@[i] == b.0@[i]@);
        }
        assert(a.0 =~= b.0);
    }

    /// The position built from twelve codes has those codes.
    pub proof fn lemma_from_lanes(s: Seq<u8>)
        requires
            s.len() == 12,
        ensures
            Edges::from_lanes(s)@ == s,
    {
        assert(Edges::from_lanes(s)@ =~= s);
    }

    /// States that every position holds twelve valid edge codes; computes
    /// nothing.
    pub fn valid_lanes(&self)
        ensures
            edge_lanes(self@),
    {
        proof {
            use_type_invariant(self);
            assert(self.0@.len() == 12);
        }
    }

    /// The position whose slots hold the edges of `a`.
    pub fn from_array(a: [Edge; 12]) -> (r: Edges)
        requires
            forall|k: int| 0 <= k < 12 ==> edge_code_ok(#[trigger] a@[k]@),
        ensures
            r@ == a@.map_values(|e: Edge| e@),
    {
        Edges(a)
    }

    /// The edge in slot `i`.
    pub fn at(&self, i: u8) -> (r: Edge)
        requires
            i < 12,
        ensures
            r@ == self@[i as int],
            self@.len() == 12,
    {
        proof {
            assert(self.0@.len() == 12);
        }
        self.0[i as usize]
    }

    /// The position after the turns `t`, in order.
    pub fn turns(&self, t: &[Turn]) -> (r: Edges)
        ensures
            r@ == edges_after(self@, t@),
    {
        let mut out = *self;
        let mut i: usize = 0;
        while i < t.len()
            invariant
                0 <= i <= t@.len(),
                out@ == edges_after(self@, t@.take(i as int)),
            decreases t@.len() - i,
        {
            out = out * t[i];
            proof {
                assert(t@.take(i + 1).drop_last() == t@.take(i as int));
            }
            i = i + 1;
        }
        assert(t@.take(t@.len() as int) == t@);
        out
    }

    /// The slots named by the twelve edges.
    fn ids(&self) -> (r: [u8; 12])
        ensures
            r@ == edge_ids(self@),
            forall|k: int| 0 <= k < 12 ==> (#[trigger] r@[k]) < 12,
    {
        proof {
            use_type_invariant(self);
        }
        let mut ids: [u8; 12] = [0; 12];
        let mut i: usize = 0;
        while i < 12
            invariant
                0 <= i <= 12,
                self.0@.len() == 12,
                forall|j: int| 0 <= j < 12 ==> edge_code_ok(#[trigger] self.0[j]@),
                forall|j: int| 0 <= j < i ==> ids[j] == edge_ids(self@)[j],
                forall|j: int| 0 <= j < 12 ==> ids[j] < 12,
            decreases 12 - i,
        {
            let e = self.0[i].0;
            proof {
                lemma_edge_bits(e);
                assert(edge_code_ok(self.0[i as int]@));
            }
            ids[i] = e & 0xf;
            i = i + 1;
        }
        assert(ids@ =~= edge_ids(self@));
        ids
    }
}

impl PartialEq for Edges {
    fn eq(&self, other: &Edges) -> (r: bool) {
        let mut i: usize = 0;
        while i < 12
            invariant
                0 <= i <= 12,
                forall|j: int| 0 <= j < i ==> self@[j] == other@[j],
            decreases 12 - i,
        {
            if self.0[i].0 != other.0[i].0 {
                assert(self@[i as int] != other@[i as int]);
                return false;
            }
            i = i + 1;
        }
        assert(self@ =~= other@);
        true
    }
}

impl Eq for Edges {
}

impl vstd::std_specs::cmp::PartialEqSpecImpl for Edges {
    open spec fn obeys_eq_spec() -> bool {
        true
    }

    open spec fn eq_spec(&self, other: &Edges) -> bool {
        self@ == other@
    }
}

impl Default for Edges {
    /// The solved position.
    fn default() -> (r: Edges)
        ensures
            r@ == edges_ident(),
    {
        let r = Edges(
            [
                Edge(0),
                Edge(1),
                Edge(2),
                Edge(3),
                Edge(4),
                Edge(5),
                Edge(6),
                Edge(7),
                Edge(8),
                Edge(9),
                Edge(10),
                Edge(11),
            ],
        );
        assert(r@ =~= edges_ident());
        r
    }
}

/// The position of the edges after the turn `t` from the solved position.
pub(crate) fn edge_turn_table(t: Turn) -> (r: Edges)
    ensures
        r@ == edge_turn(t),
{
    let a = match t {
        Turn::U1 => [Edge(3), Edge(0), Edge(1), Edge(2), Edge(4), Edge(5), Edge(6), Edge(7), Edge(8), Edge(9), Edge(10), Edge(11)],
        Turn::U2 => [Edge(2), Edge(3), Edge(0), Edge(1), Edge(4), Edge(5), Edge(6), Edge(7), Edge(8), Edge(9), Edge(10), Edge(11)],
        Turn::U3 => [Edge(1), Edge(2), Edge(3), Edge(0), Edge(4), Edge(5), Edge(6), Edge(7), Edge(8), Edge(9), Edge(10), Edge(11)],
        Turn::R1 => [Edge(0), Edge(6), Edge(2), Edge(3), Edge(4), Edge(1), Edge(9), Edge(7), Edge(8), Edge(5), Edge(10), Edge(11)],
        Turn::R2 => [Edge(0), Edge(9), Edge(2), Edge(3), Edge(4), Edge(6), Edge(5), Edge(7), Edge(8), Edge(1), Edge(10), Edge(11)],
        Turn::R3 => [Edge(0), Edge(5), Edge(2), Edge(3), Edge(4), Edge(9), Edge(1), Edge(7), Edge(8), Edge(6), Edge(10), Edge(11)],
        Turn::F1 => [Edge(0), Edge(1), Edge(23), Edge(3), Edge(4), Edge(5), Edge(18), Edge(24), Edge(22), Edge(9), Edge(10), Edge(11)],
        Turn::F2 => [Edge(0), Edge(1), Edge(8), Edge(3), Edge(4), Edge(5), Edge(7), Edge(6), Edge(2), Edge(9), Edge(10), Edge(11)],
        Turn::F3 => [Edge(0), Edge(1), Edge(22), Edge(3), Edge(4), Edge(5), Edge(24), Edge(18), Edge(23), Edge(9), Edge(10), Edge(11)],
        Turn::D1 => [Edge(0), Edge(1), Edge(2), Edge(3), Edge(4), Edge(5), Edge(6), Edge(7), Edge(11), Edge(8), Edge(9), Edge(10)],
        Turn::D2 => [Edge(0), Edge(1), Edge(2), Edge(3), Edge(4), Edge(5), Edge(6), Edge(7), Edge(10), Edge(11), Edge(8), Edge(9)],
        Turn::D3 => [Edge(0), Edge(1), Edge(2), Edge(3), Edge(4), Edge(5), Edge(6), Edge(7), Edge(9), Edge(10), Edge(11), Edge(8)],
        Turn::L1 => [Edge(0), Edge(1), Edge(2), Edge(4), Edge(11), Edge(5), Edge(6), Edge(3), Edge(8), Edge(9), Edge(10), Edge(7)],
        Turn::L2 => [Edge(0), Edge(1), Edge(2), Edge(11), Edge(7), Edge(5), Edge(6), Edge(4), Edge(8), Edge(9), Edge(10), Edge(3)],
        Turn::L3 => [Edge(0), Edge(1), Edge(2), Edge(7), Edge(3), Edge(5), Edge(6), Edge(11), Edge(8), Edge(9), Edge(10), Edge(4)],
        Turn::B1 => [Edge(21), Edge(1), Edge(2), Edge(3), Edge(16), Edge(26), Edge(6), Edge(7), Edge(8), Edge(9), Edge(20), Edge(11)],
        Turn::B2 => [Edge(10), Edge(1), Edge(2), Edge(3), Edge(5), Edge(4), Edge(6), Edge(7), Edge(8), Edge(9), Edge(0), Edge(11)],
        Turn::B3 => [Edge(20), Edge(1), Edge(2), Edge(3), Edge(26), Edge(16), Edge(6), Edge(7), Edge(8), Edge(9), Edge(21), Edge(11)],
    };
    let r = Edges(a);
    assert(r@ =~= edge_turn(t));
    r
}

impl vstd::std_specs::ops::MulSpecImpl for Edges {
    open spec fn obeys_mul_spec() -> bool {
        true
    }

    open spec fn mul_req(self, rhs: Edges) -> bool {
        true
    }

    closed spec fn mul_spec(self, rhs: Edges) -> Edges {
        Edges::from_lanes(edges_compose(self@, rhs@))
    }
}

impl std::ops::Mul for Edges {
    type Output = Edges;

    /// The position reached by applying `rhs` after `self`.
    fn mul(self, rhs: Edges) -> (r: Edges)
        ensures
            r@ == edges_compose(self@, rhs@),
    {
        proof {
            use_type_invariant(&self);
            use_type_invariant(&rhs);
        }
        let mut a: [Edge; 12] = [Edge(0); 12];
        let mut i: usize = 0;
        while i < 12
            invariant
                0 <= i <= 12,
                self.0@.len() == 12,
                rhs.0@.len() == 12,
                forall|j: int| 0 <= j < 12 ==> edge_code_ok(#[trigger] self.0[j]@),
                forall|j: int| 0 <= j < 12 ==> edge_code_ok(#[trigger] rhs.0[j]@),
                forall|j: int| 0 <= j < i ==> (#[trigger] a[j])@ == edges_compose(self@, rhs@)[j],
            decreases 12 - i,
        {
            let x = rhs.0[i].0;
            proof {
                lemma_edge_bits(x);
                assert(edge_code_ok(rhs.0[i as int]@));
            }
            let y = self.0[(x & 0xf) as usize].0;
            proof {
                assert(edge_code_ok(self.0[(x % 16) as int]@));
                lemma_edge_flip(y, x);
                assert(rhs@[i as int] == x);
                assert(self@[eid(x)] == y);
            }
            a[i] = Edge(y ^ (x & 0x10));
            i = i + 1;
        }
        let r = Edges(a);
        proof {
            assert(r@ =~= edges_compose(self@, rhs@));
            Edges::lemma_from_lanes(edges_compose(self@, rhs@));
            Edges::lemma_view_eq(r, Edges::from_lanes(edges_compose(self@, rhs@)));
        }
        r
    }
}

impl vstd::std_specs::ops::MulSpecImpl<Turn> for Edges {
    open spec fn obeys_mul_spec() -> bool {
        true
    }

    open spec fn mul_req(self, rhs: Turn) -> bool {
        true
    }

    closed spec fn mul_spec(self, rhs: Turn) -> Edges {
        Edges::from_lanes(edges_compose(self@, edge_turn(rhs)))
    }
}

impl std::ops::Mul<Turn> for Edges {
    type Output = Edges;

    /// The position after the turn `rhs`.
    fn mul(self, rhs: Turn) -> (r: Edges)
        ensures
            r@ == edges_compose(self@, edge_turn(rhs)),
    {
        let r = self * edge_turn_table(rhs);
        proof {
            Edges::lemma_from_lanes(edges_compose(self@, edge_turn(rhs)));
            Edges::lemma_view_eq(r, Edges::from_lanes(edges_compose(self@, edge_turn(rhs))));
        }
        r
    }
}

/// Applying turns keeps twelve edges.
proof fn lemma_after_len(a: Seq<u8>, ts: Seq<Turn>)
    requires
        a.len() == 12,
    ensures
        edges_after(a, ts).len() == 12,
    decreases ts.len(),
{
    if ts.len() > 0 {
        lemma_after_len(a, ts.drop_last());
    }
}

impl<'a> vstd::std_specs::ops::MulSpecImpl<&'a Turns> for Edges {
    open spec fn obeys_mul_spec() -> bool {
        true
    }

    open spec fn mul_req(self, rhs: &'a Turns) -> bool {
        true
    }

    closed spec fn mul_spec(self, rhs: &'a Turns) -> Edges {
        Edges::from_lanes(edges_after(self@, rhs@))
    }
}

impl<'a> std::ops::Mul<&'a Turns> for Edges {
    type Output = Edges;

    /// The position after the turns `rhs`, in order.
    fn mul(self, rhs: &'a Turns) -> (r: Edges)
        ensures
            r@ == edges_after(self@, rhs@),
    {
        let r = self.turns(rhs.as_slice());
        proof {
            lemma_after_len(self@, rhs@);
            Edges::lemma_from_lanes(edges_after(self@, rhs@));
            Edges::lemma_view_eq(r, Edges::from_lanes(edges_after(self@, rhs@)));
        }
        r
    }
}

proof fn lemma_invert_len(a: Seq<u8>, n: int)
    requires
        edge_lanes(a),
        n <= 12,
    ensures
        edges_invert_upto(a, n).len() == 12,
    decreases n,
{
    if n > 0 {
        lemma_invert_len(a, n - 1);
        assert(edge_code_ok(a[n - 1]));
    }
}

impl vstd::std_specs::ops::NotSpecImpl for Edges {
    open spec fn obeys_not_spec() -> bool {
        true
    }

    open spec fn not_req(self) -> bool {
        true
    }

    closed spec fn not_spec(self) -> Edges {
        Edges::from_lanes(edges_inverse(self@))
    }
}

impl std::ops::Not for Edges {
    type Output = Edges;

    /// The inverse position: slot `self[i]` gets edge `i` with the same
    /// flip.
    fn not(self) -> (r: Edges)
        ensures
            r@ == edges_inverse(self@),
    {
        proof {
            use_type_invariant(&self);
            assert(self.0@.len() == 12);
        }
        let mut out = Edges([Edge(0); 12]);
        proof {
            assert(out@ =~= edges_invert_upto(self@, 0));
        }
        let mut i: u8 = 0;
        while i < 12
            invariant
                0 <= i <= 12,
                forall|j: int| 0 <= j < 12 ==> edge_code_ok(#[trigger] self.0[j]@),
                self.0@.len() == 12,
                out@ == edges_invert_upto(self@, i as int),
            decreases 12 - i,
        {
            let e = self.0[i as usize].0;
            proof {
                assert(edge_code_ok(self.0[i as int]@));
                lemma_invert_len(self@, i as int);
                use_type_invariant(&out);
                lemma_edge_bits(e);
                lemma_edge_join(i, e);
                assert(self@[i as int] == e);
            }
            out.0[(e & 0xf) as usize] = Edge(i | (e & 0x10));
            proof {
                assert(out@ =~= edges_invert_upto(self@, i as int).update(eid(e), ecode(i as int, efl(e))));
            }
            i = i + 1;
        }
        self.valid_lanes();
        proof {
            lemma_invert_len(self@, 12);
            Edges::lemma_from_lanes(edges_inverse(self@));
            Edges::lemma_view_eq(out, Edges::from_lanes(edges_inverse(self@)));
        }
        out
    }
}

impl crate::CubeOps for Edges {
}

impl EdgesTrait for Edges {
    open spec fn lanes(&self) -> Seq<u8> {
        self@
    }

    type Cycles = EdgeCycles;

    fn parity(&self) -> (r: bool) {
        let ids = self.ids();
        walk_parity(&ids)
    }

    fn cycles(&self) -> (r: EdgeCycles) {
        let ids = self.ids();
        self.valid_lanes();
        let mut moved: [bool; 12] = [false; 12];
        let mut i: u8 = 0;
        while i < 12
            invariant
                0 <= i <= 12,
                ids@ == edge_ids(self@),
                self@.len() == 12,
                forall|j: int| 0 <= j < i ==> moved[j] == edge_moved(self@)[j],
            decreases 12 - i,
        {
            moved[i as usize] = self.at(i).code() != i;
            i = i + 1;
        }
        proof {
            assert(moved@ =~= edge_moved(self@));
            assert(self.0@.map_values(|e: Edge| e@) == self@);
        }
        let v = walk_cycles(&self.0, &ids, &moved);
        let r = EdgeCycles(v);
        proof {
            assert(self.0@.len() == 12);
            assert(Seq::<Edge>::empty().map_values(|e: Edge| e@) =~= Seq::<u8>::empty());
            assert(Seq::<Seq<Edge>>::empty().map_values(|s: Seq<Edge>| s.map_values(|e: Edge| e@)) =~= Seq::<Seq<u8>>::empty());
            lemma_cycle_walk_map(self.0@, |e: Edge| e@, ids@, moved@, first_positions(12), 0, Seq::empty(), Seq::empty());
            assert(r@ =~= v@.map_values(|w: Vec<Edge>| w@).map_values(|s: Seq<Edge>| s.map_values(|e: Edge| e@)));
        }
        r
    }

    fn pack(&self) -> (r: u64) {
        proof {
            use_type_invariant(self);
            assert(self.0@.len() == 12);
            vstd::arithmetic::power2::lemma2_to64();
            assert(forall|k: int| 0 <= k < 12 ==> self@[k] == (#[trigger] self.0[k])@);
            assert(pack_upto(self@, 0) == 0);
        }
        let mut out = self.0[0].0 as u64;
        proof {
            lemma_pack_step(0, self.0[0]@, 0);
            assert(out == pack_upto(self@, 1));
            lemma_pack_step(out, self.0[1]@, 5);
        }
        out |= (self.0[1].0 as u64) << 5;
        proof {
            assert(out == pack_upto(self@, 2));
            lemma_pack_step(out, self.0[2]@, 10);
        }
        out |= (self.0[2].0 as u64) << 10;
        proof {
            assert(out == pack_upto(self@, 3));
            lemma_pack_step(out, self.0[3]@, 15);
        }
        out |= (self.0[3].0 as u64) << 15;
        proof {
            assert(out == pack_upto(self@, 4));
            lemma_pack_step(out, self.0[4]@, 20);
        }
        out |= (self.0[4].0 as u64) << 20;
        proof {
            assert(out == pack_upto(self@, 5));
            lemma_pack_step(out, self.0[5]@, 25);
        }
        out |= (self.0[5].0 as u64) << 25;
        proof {
            assert(out == pack_upto(self@, 6));
            lemma_pack_step(out, self.0[6]@, 30);
        }
        out |= (self.0[6].0 as u64) << 30;
        proof {
            assert(out == pack_upto(self@, 7));
            lemma_pack_step(out, self.0[7]@, 35);
        }
        out |= (self.0[7].0 as u64) << 35;
        proof {
            assert(out == pack_upto(self@, 8));
            lemma_pack_step(out, self.0[8]@, 40);
        }
        out |= (self.0[8].0 as u64) << 40;
        proof {
            assert(out == pack_upto(self@, 9));
            lemma_pack_step(out, self.0[9]@, 45);
        }
        out |= (self.0[9].0 as u64) << 45;
        proof {
            assert(out == pack_upto(self@, 10));
            lemma_pack_step(out, self.0[10]@, 50);
        }
        out |= (self.0[10].0 as u64) << 50;
        proof {
            assert(out == pack_upto(self@, 11));
            lemma_pack_step(out, self.0[11]@, 55);
        }
        out |= (self.0[11].0 as u64) << 55;
        out
    }

    /// The sum of the flips modulo 2.
    fn net_flip(&self) -> (r: u8)
        ensures
            r == net_flip_spec(self@),
    {
        proof {
            use_type_invariant(self);
            assert(self.0@.len() == 12);
        }
        let mut sum: u8 = 0;
        let mut i: usize = 0;
        while i < 12
            invariant
                0 <= i <= 12,
                self.0@.len() == 12,
                forall|j: int| 0 <= j < 12 ==> edge_code_ok(#[trigger] self.0[j]@),
                sum == flip_sum(self@, i as int),
                sum <= i,
            decreases 12 - i,
        {
            let e = self.0[i].0;
            proof {
                lemma_edge_bits(e);
                assert(self@[i as int] == e);
            }
            sum = sum + ((e & 0x10) >> 4);
            i = i + 1;
        }
        proof {
            assert(sum & 1 == sum % 2) by (bit_vector);
        }
        sum & 1
    }
}

/// The cycles of a position of edges, each a list of the edges met along
/// it.
#[derive(Debug)]
pub struct EdgeCycles(Vec<Vec<Edge>>);

impl View for EdgeCycles {
    type V = Seq<Seq<u8>>;

    closed spec fn view(&self) -> Seq<Seq<u8>> {
        self.0@.map_values(|v: Vec<Edge>| v@.map_values(|e: Edge| e@))
    }
}

impl Default for EdgeCycles {
    fn default() -> (r: EdgeCycles)
        ensures
            r@ == Seq::<Seq<u8>>::empty(),
    {
        let r = EdgeCycles(Vec::new());
        assert(r@ =~= Seq::<Seq<u8>>::empty());
        r
    }
}

impl EdgeCyclesTrait for EdgeCycles {
    open spec fn cycle_lanes(&self) -> Seq<Seq<u8>> {
        self@
    }

    fn speffz(&self) -> (r: String) {
        let mut out = String::new();
        let mut k: usize = 0;
        while k < self.0.len()
            invariant
                0 <= k <= self@.len(),
                self@.len() == self.0@.len(),
                out@ == edge_cycles_text(self@.take(k as int)),
            decreases self@.len() - k,
        {
            let cycle = &self.0[k];
            let ghost c = self@[k as int];
            assert(c == cycle@.map_values(|x: Edge| x@));
            let mut flip: u8 = 0;
            let mut s = String::new();
            let mut j: usize = 0;
            while j < cycle.len()
                invariant
                    0 <= j <= cycle@.len(),
                    c == cycle@.map_values(|x: Edge| x@),
                    (s@, flip as int / 16) == edge_cycle_scan(c.take(j as int)),
                    flip == 0 || flip == 16,
                decreases cycle@.len() - j,
            {
                let x = cycle[j].code();
                let pflip = flip;
                proof {
                    lemma_edge_bits(x);
                    assert(flip ^ (x & 0x10) == 16 * ((flip / 16 + x / 16) % 2)) by (bit_vector)
                        requires
                            flip == 0 || flip == 16,
                            x < 32,
                    ;
                    assert((x & 0xf) | pflip == x % 16 + pflip) by (bit_vector)
                        requires
                            pflip == 0 || pflip == 16,
                    ;
                    assert(c.take(j + 1).drop_last() == c.take(j as int));
                    assert(c[j as int] == x);
                }
                flip ^= x & 0x10;
                let l = Edge::from_code((x & 0xf) | pflip).speffz();
                push_char(&mut s, l);
                j = j + 1;
            }
            assert(c.take(c.len() as int) == c);
            push_char(&mut out, '(');
            out.append(s.as_str());
            push_char(&mut out, ')');
            if flip == 0x10 {
                push_char(&mut out, '+');
            }
            proof {
                assert(self@.take(k + 1).drop_last() == self@.take(k as int));
                assert(self@.take(k + 1).last() == c);
                let (ls, f) = edge_cycle_scan(c);
                assert(edge_cycle_text(c) == seq!['('] + ls + seq![')'] + if f == 1 {
                    seq!['+']
                } else {
                    Seq::empty()
                });
                assert(out@ =~= edge_cycles_text(self@.take(k as int)) + edge_cycle_text(c));
            }
            k = k + 1;
        }
        assert(self@.take(self@.len() as int) == self@);
        out
    }
}

impl Edges {
    /// The Singmaster names of the twelve edges, slot first, separated by
    /// single spaces.
    pub fn to_text(&self) -> (r: String)
        ensures
            r@ == crate::edges::edge_names_text(self@),
    {
        self.valid_lanes();
        let mut out = String::new();
        let mut i: u8 = 0;
        while i < 12
            invariant
                0 <= i <= 12,
                self@.len() == 12,
                out@ == crate::edges::edge_names_text(self@.take(i as int)),
            decreases 12 - i,
        {
            if i != 0 {
                push_char(&mut out, ' ');
            }
            out.append(self.at(i).name());
            proof {
                let t = self@.take(i + 1);
                assert(t.drop_last() == self@.take(i as int));
                assert(t.last() == self@[i as int]);
                if i == 0 {
                    assert(crate::edges::edge_names_text(t) == crate::edges::edge_code_name(t[0]));
                }
            }
            i = i + 1;
        }
        assert(self@.take(12) == self@);
        out
    }
}

impl EdgeCycles {
    /// The cycles in Singmaster names: each in brackets, its edges separated
    /// by commas and written with the flip carried along the cycle, then `+`
    /// for a flip left at its end.
    pub fn to_text(&self) -> (r: String)
        ensures
            r@ == crate::edges::edge_cycles_names_text(self@),
    {
        let mut out = String::new();
        let mut k: usize = 0;
        while k < self.0.len()
            invariant
                0 <= k <= self@.len(),
                self@.len() == self.0@.len(),
                out@ == crate::edges::edge_cycles_names_text(self@.take(k as int)),
            decreases self@.len() - k,
        {
            let cycle = &self.0[k];
            let ghost c = self@[k as int];
            assert(c == cycle@.map_values(|x: Edge| x@));
            let mut flip: u8 = 0;
            let mut s = String::new();
            let mut j: usize = 0;
            while j < cycle.len()
                invariant
                    0 <= j <= cycle@.len(),
                    c == cycle@.map_values(|x: Edge| x@),
                    (s@, flip as int / 16) == crate::edges::edge_cycle_names_scan(c.take(j as int)),
                    flip == 0 || flip == 16,
                decreases cycle@.len() - j,
            {
                let x = cycle[j].code();
                let pflip = flip;
                proof {
                    lemma_edge_bits(x);
                    assert(flip ^ (x & 0x10) == 16 * ((flip / 16 + x / 16) % 2) && (x & 0xf) | pflip == x % 16 + pflip) by (bit_vector)
                        requires
                            flip == 0 || flip == 16,
                            pflip == flip,
                            x < 32,
                    ;
                    assert(c.take(j + 1).drop_last() == c.take(j as int));
                    assert(c[j as int] == x);
                }
                flip ^= x & 0x10;
                if j != 0 {
                    push_char(&mut s, ',');
                }
                s.append(Edge::from_code((x & 0xf) | pflip).name());
                j = j + 1;
            }
            assert(c.take(c.len() as int) == c);
            push_char(&mut out, '(');
            out.append(s.as_str());
            push_char(&mut out, ')');
            if flip == 0x10 {
                push_char(&mut out, '+');
            }
            proof {
                assert(self@.take(k + 1).drop_last() == self@.take(k as int));
                assert(self@.take(k + 1).last() == c);
                let (ls, f) = crate::edges::edge_cycle_names_scan(c);
                assert(crate::edges::edge_cycle_names_text(c) == seq!['('] + ls + seq![')'] + if f == 1 {
                    seq!['+']
                } else {
                    Seq::empty()
                });
                assert(out@ =~= crate::edges::edge_cycles_names_text(self@.take(k as int)) + crate::edges::edge_cycle_names_text(c));
            }
            k = k + 1;
        }
        assert(self@.take(self@.len() as int) == self@);
        out
    }
}

} // verus!
