//! Edges held as sixteen byte lanes, one code per slot and four lanes of
//! padding that hold their own numbers, and worked on the way a vector unit
//! works on them: a table lookup and a flip per composition, a count of the
//! one bits of the whole vector for the net flip.
use vstd::prelude::*;

use crate::edges::edges_array;
use crate::edges::{
    bits8, ecode, edge_code_ok, edge_lanes, edge_turn, edges_after, edges_compose, edges_ident,
    edges_invert_over_ident, efl, eid, lane_bits_sum,
};
use crate::turns::{Turn, Turns};

verus! {

/// The twelve edges of a cube position, one code per byte lane, and four
/// lanes of padding: slot `i` holds the code of the edge that is there, and
/// lanes 12 to 15 hold 12 to 15. The lanes are kept last lane first, so that
/// positions compare as the word whose byte `i` is lane `i` does: lane 15
/// weighs most.
#[derive(Clone, Copy, Debug, Hash, PartialOrd, Ord)]
pub struct Edges([u8; 16]);

impl Edges {
    #[verifier::type_invariant]
    closed spec fn wf(self) -> bool {
        &&& forall|i: int| 0 <= i < 12 ==> edge_code_ok(#[trigger] self.lane_at(i))
        &&& self.padded()
    }

    /// Lane `i`, counted from slot 0.
    closed spec fn lane_at(self, i: int) -> u8 {
        self.0[15 - i]
    }

    /// Whether lanes 12 to 15 hold their own numbers.
    closed spec fn padded(self) -> bool {
        forall|i: int| 12 <= i < 16 ==> #[trigger] self.lane_at(i) == i
    }
}

impl View for Edges {
    type V = Seq<u8>;

    /// The codes of the twelve edges, slot first.
    closed spec fn view(&self) -> Seq<u8> {
        Seq::new(12, |i: int| self.lane_at(i))
    }
}

/// `u8::count_ones`: the number of one bits of `v`.
#[verifier::external_body]
fn count_ones_u8(v: u8) -> (r: u32)
    ensures
        r == bits8(v),
{
    v.count_ones()
}

impl Edges {
    /// The position whose edge codes are `s`, padded.
    pub closed spec fn from_lanes(s: Seq<u8>) -> Edges {
        Edges([15, 14, 13, 12, s[11], s[10], s[9], s[8], s[7], s[6], s[5], s[4], s[3], s[2], s[1], s[0]])
    }

    /// Padded positions with the same edge codes are equal.
    proof fn lemma_view_eq(a: Edges, b: Edges)
        requires
            a@ == b@,
            a.padded(),
            b.padded(),
        ensures
            a == b,
    {
        assert forall|j: int| 0 <= j < 16 implies a.0[j] == b.0[j] by {
            let i = 15 - j;
            assert(a.lane_at(i) == a.0[j]);
            assert(b.lane_at(i) == b.0[j]);
            if i < 12 {
                assert(a@[i] == a.lane_at(i));
                assert(b@[i] == b.lane_at(i));
            }
        }
        assert(a.0 =~= b.0);
    }

    /// The position built from twelve codes has those codes and is padded.
    proof fn lemma_from_lanes(s: Seq<u8>)
        requires
            s.len() == 12,
        ensures
            Edges::from_lanes(s)@ == s,
            Edges::from_lanes(s).padded(),
    {
        assert(Edges::from_lanes(s)@ =~= s);
    }

    /// The sixteen lanes, slot 0 first.
    fn lanes16(&self) -> (r: [u8; 16])
        ensures
            forall|i: int| 0 <= i < 12 ==> #[trigger] r[i] == self@[i],
            forall|i: int| 0 <= i < 12 ==> edge_code_ok(#[trigger] r[i]),
            forall|i: int| 12 <= i < 16 ==> #[trigger] r[i] == i,
            r@.take(12) == self@,
    {
        proof {
            use_type_invariant(self);
        }
        let x = self.0;
        let r = [x[15], x[14], x[13], x[12], x[11], x[10], x[9], x[8], x[7], x[6], x[5], x[4], x[3], x[2], x[1], x[0]];
        proof {
            assert forall|i: int| 0 <= i < 16 implies #[trigger] r[i] == self.lane_at(i) by {}
            assert(r@.take(12) =~= self@);
        }
        r
    }

    /// The position whose sixteen lanes, slot 0 first, are `l`.
    fn from_lanes16(l: [u8; 16]) -> (r: Edges)
        requires
            forall|i: int| 0 <= i < 12 ==> edge_code_ok(#[trigger] l[i]),
            forall|i: int| 12 <= i < 16 ==> #[trigger] l[i] == i,
        ensures
            r@ == l@.take(12),
            r.padded(),
    {
        let r = Edges([l[15], l[14], l[13], l[12], l[11], l[10], l[9], l[8], l[7], l[6], l[5], l[4], l[3], l[2], l[1], l[0]]);
        proof {
            assert forall|i: int| 0 <= i < 16 implies #[trigger] r.lane_at(i) == l[i] by {}
            assert(r@ =~= l@.take(12));
        }
        r
    }

    /// States that every position holds twelve valid edge codes; computes
    /// nothing.
    pub fn valid_lanes(&self)
        ensures
            edge_lanes(self@),
    {
        proof {
            use_type_invariant(self);
        }
    }

    /// The code of the edge in slot `i`.
    pub fn lane(&self, i: usize) -> (r: u8)
        requires
            i < 12,
        ensures
            r == self@[i as int],
            edge_code_ok(r),
    {
        proof {
            use_type_invariant(self);
        }
        self.0[15 - i]
    }
}

impl PartialEq for Edges {
    fn eq(&self, other: &Edges) -> (r: bool) {
        proof {
            use_type_invariant(self);
            use_type_invariant(other);
        }
        let mut i: usize = 0;
        while i < 16
            invariant
                0 <= i <= 16,
                self.padded(),
                other.padded(),
                forall|j: int| 0 <= j < i ==> self.0[j] == other.0[j],
            decreases 16 - i,
        {
            if self.0[i] != other.0[i] {
                proof {
                    let k = 15 - i;
                    assert(self.lane_at(k) == self.0[i as int]);
                    assert(other.lane_at(k) == other.0[i as int]);
                    if k >= 12 {
                        assert(self.lane_at(k) == other.lane_at(k));
                    } else {
                        assert(self@[k] != other@[k]);
                    }
                }
                return false;
            }
            i = i + 1;
        }
        assert forall|k: int| 0 <= k < 12 implies self@[k] == other@[k] by {
            assert(self.0[15 - k] == other.0[15 - k]);
        }
        assert(self@ =~= other@);
        true
    }
}

impl Eq for Edges {
}

impl vstd::std_specs::cmp::PartialEqSpecImpl for Edges {
    open spec fn obeys_eq_spec() -> bool {
        true
    }

    open spec fn eq_spec(&self, other: &Edges) -> bool {
        self@ == other@
    }
}

impl Default for Edges {
    /// The solved position.
    fn default() -> (r: Edges)
        ensures
            r@ == edges_ident(),
    {
        let r = Edges([15, 14, 13, 12, 11, 10, 9, 8, 7, 6, 5, 4, 3, 2, 1, 0]);
        assert(r@ =~= edges_ident());
        r
    }
}

impl vstd::std_specs::ops::MulSpecImpl for Edges {
    open spec fn obeys_mul_spec() -> bool {
        true
    }

    open spec fn mul_req(self, rhs: Edges) -> bool {
        true
    }

    closed spec fn mul_spec(self, rhs: Edges) -> Edges {
        Edges::from_lanes(edges_compose(self@, rhs@))
    }
}

impl std::ops::Mul for Edges {
    type Output = Edges;

    /// The position reached by applying `rhs` after `self`: each of the
    /// sixteen lanes looks up the lane of `self` that `rhs` names and flips
    /// it by the flip bit of `rhs`; the padding looks itself up.
    fn mul(self, rhs: Edges) -> (r: Edges)
        ensures
            r@ == edges_compose(self@, rhs@),
    {
        let a = self.lanes16();
        let b = rhs.lanes16();
        let mut out: [u8; 16] = [0; 16];
        let mut i: usize = 0;
        while i < 16
            invariant
                0 <= i <= 16,
                forall|j: int| 0 <= j < 12 ==> #[trigger] a[j] == self@[j],
                forall|j: int| 0 <= j < 12 ==> #[trigger] b[j] == rhs@[j],
                forall|j: int| 0 <= j < 12 ==> edge_code_ok(#[trigger] a[j]),
                forall|j: int| 0 <= j < 12 ==> edge_code_ok(#[trigger] b[j]),
                forall|j: int| 12 <= j < 16 ==> #[trigger] a[j] == j,
                forall|j: int| 12 <= j < 16 ==> #[trigger] b[j] == j,
                forall|j: int| 0 <= j < i && j < 12 ==> out[j] == edges_compose(self@, rhs@)[j],
                forall|j: int| 12 <= j < i ==> out[j] == j,
            decreases 16 - i,
        {
            let x = b[i];
            proof {
                edges_array::lemma_edge_bits(x);
            }
            let y = a[(x & 0x0f) as usize];
            proof {
                if i < 12 {
                    edges_array::lemma_edge_flip(y, x);
                    assert(rhs@[i as int] == x);
                    assert(self@[eid(x)] == y);
                } else {
                    assert(x == i);
                    assert(y == i);
                    edges_array::lemma_edge_flip(y, x);
                }
            }
            out[i] = y ^ (x & 0x10);
            i = i + 1;
        }
        proof {
            assert forall|j: int| 0 <= j < 12 implies edge_code_ok(#[trigger] out[j]) by {
                crate::edges::lemma_edges_compose_valid(self@, rhs@);
            }
        }
        let r = Edges::from_lanes16(out);
        proof {
            assert(r@ =~= edges_compose(self@, rhs@));
            Edges::lemma_from_lanes(edges_compose(self@, rhs@));
            Edges::lemma_view_eq(r, Edges::from_lanes(edges_compose(self@, rhs@)));
        }
        r
    }
}

impl vstd::std_specs::ops::MulSpecImpl<Turn> for Edges {
    open spec fn obeys_mul_spec() -> bool {
        true
    }

    open spec fn mul_req(self, rhs: Turn) -> bool {
        true
    }

    closed spec fn mul_spec(self, rhs: Turn) -> Edges {
        Edges::from_lanes(edges_compose(self@, edge_turn(rhs)))
    }
}

impl std::ops::Mul<Turn> for Edges {
    type Output = Edges;

    /// The position after the turn `rhs`.
    fn mul(self, rhs: Turn) -> (r: Edges)
        ensures
            r@ == edges_compose(self@, edge_turn(rhs)),
    {
        let r = self * Edges::from(edges_array::edge_turn_table(rhs));
        proof {
            use_type_invariant(&r);
            Edges::lemma_from_lanes(edges_compose(self@, edge_turn(rhs)));
            Edges::lemma_view_eq(r, Edges::from_lanes(edges_compose(self@, edge_turn(rhs))));
        }
        r
    }
}

impl<'a> vstd::std_specs::ops::MulSpecImpl<&'a Turns> for Edges {
    open spec fn obeys_mul_spec() -> bool {
        true
    }

    open spec fn mul_req(self, rhs: &'a Turns) -> bool {
        true
    }

    closed spec fn mul_spec(self, rhs: &'a Turns) -> Edges {
        Edges::from_lanes(edges_after(self@, rhs@))
    }
}

impl<'a> std::ops::Mul<&'a Turns> for Edges {
    type Output = Edges;

    /// The position after the turns `rhs`, in order.
    fn mul(self, rhs: &'a Turns) -> (r: Edges)
        ensures
            r@ == edges_after(self@, rhs@),
    {
        let t = rhs.as_slice();
        let mut out = self;
        let mut i: usize = 0;
        while i < t.len()
            invariant
                0 <= i <= t@.len(),
                t@ == rhs@,
                out@ == edges_after(self@, t@.take(i as int)),
            decreases t@.len() - i,
        {
            out = out * t[i];
            proof {
                assert(t@.take(i + 1).drop_last() == t@.take(i as int));
            }
            i = i + 1;
        }
        out.valid_lanes();
        proof {
            use_type_invariant(&out);
            assert(t@.take(t@.len() as int) == t@);
            Edges::lemma_from_lanes(edges_after(self@, rhs@));
            Edges::lemma_view_eq(out, Edges::from_lanes(edges_after(self@, rhs@)));
        }
        out
    }
}

/// The inverse over the solved position keeps valid codes and the padding.
proof fn lemma_invert_over_valid(a: Seq<u8>, n: int)
    requires
        edge_lanes(a),
        0 <= n <= 12,
    ensures
        edges_invert_over_ident(a, n).len() == 12,
        forall|j: int| 0 <= j < 12 ==> edge_code_ok(#[trigger] edges_invert_over_ident(a, n)[j]),
    decreases n,
{
    if n > 0 {
        lemma_invert_over_valid(a, n - 1);
        crate::edges::lemma_ecode_of(a[n - 1]);
        crate::edges::lemma_ecode(n - 1, efl(a[n - 1]));
    }
}

impl vstd::std_specs::ops::NotSpecImpl for Edges {
    open spec fn obeys_not_spec() -> bool {
        true
    }

    open spec fn not_req(self) -> bool {
        true
    }

    closed spec fn not_spec(self) -> Edges {
        Edges::from_lanes(edges_invert_over_ident(self@, 12))
    }
}

impl std::ops::Not for Edges {
    type Output = Edges;

    /// The inverse position, written over the solved position: slot
    /// `self[i]` gets edge `i` with the same flip. For a permutation this is
    /// the inverse (see `law_inverse_over_ident`).
    fn not(self) -> (r: Edges)
        ensures
            r@ == edges_invert_over_ident(self@, 12),
    {
        let a = self.lanes16();
        let mut out: [u8; 16] = [0, 1, 2, 3, 4, 5, 6, 7, 8, 9, 10, 11, 12, 13, 14, 15];
        proof {
            assert(out@.take(12) =~= edges_invert_over_ident(self@, 0));
        }
        let mut i: u8 = 0;
        while i < 12
            invariant
                0 <= i <= 12,
                forall|j: int| 0 <= j < 12 ==> #[trigger] a[j] == self@[j],
                forall|j: int| 0 <= j < 12 ==> edge_code_ok(#[trigger] a[j]),
                edge_lanes(self@),
                out@.take(12) == edges_invert_over_ident(self@, i as int),
                forall|j: int| 12 <= j < 16 ==> #[trigger] out[j] == j,
            decreases 12 - i,
        {
            let v = a[i as usize];
            proof {
                edges_array::lemma_edge_bits(v);
                edges_array::lemma_edge_join(i, v);
                assert(self@[i as int] == v);
                lemma_invert_over_valid(self@, i as int);
            }
            out[(v & 0x0f) as usize] = i | (v & 0x10);
            proof {
                assert(out@.take(12) =~= edges_invert_over_ident(self@, i as int).update(eid(v), ecode(i as int, efl(v))));
            }
            i = i + 1;
        }
        proof {
            lemma_invert_over_valid(self@, 12);
            assert forall|j: int| 0 <= j < 12 implies edge_code_ok(#[trigger] out[j]) by {
                assert(out[j] == out@.take(12)[j]);
            }
        }
        let r = Edges::from_lanes16(out);
        proof {
            Edges::lemma_from_lanes(edges_invert_over_ident(self@, 12));
            Edges::lemma_view_eq(r, Edges::from_lanes(edges_invert_over_ident(self@, 12)));
        }
        r
    }
}

impl std::convert::From<Edges> for edges_array::Edges {
    /// The same position, held as an array of edges.
    fn from(x: Edges) -> (r: edges_array::Edges)
        ensures
            r@ == x@,
    {
        let l = x.lanes16();
        let a = [
            edges_array::Edge::from_code(l[0]),
            edges_array::Edge::from_code(l[1]),
            edges_array::Edge::from_code(l[2]),
            edges_array::Edge::from_code(l[3]),
            edges_array::Edge::from_code(l[4]),
            edges_array::Edge::from_code(l[5]),
            edges_array::Edge::from_code(l[6]),
            edges_array::Edge::from_code(l[7]),
            edges_array::Edge::from_code(l[8]),
            edges_array::Edge::from_code(l[9]),
            edges_array::Edge::from_code(l[10]),
            edges_array::Edge::from_code(l[11]),
        ];
        let r = edges_array::Edges::from_array(a);
        proof {
            assert(r@ =~= x@);
            edges_array::Edges::lemma_from_lanes(x@);
            edges_array::Edges::lemma_view_eq(r, edges_array::Edges::from_lanes(x@));
        }
        r
    }
}

impl vstd::std_specs::convert::FromSpecImpl<Edges> for edges_array::Edges {
    open spec fn obeys_from_spec() -> bool {
        true
    }

    closed spec fn from_spec(v: Edges) -> edges_array::Edges {
        edges_array::Edges::from_lanes(v@)
    }
}

impl std::convert::From<edges_array::Edges> for Edges {
    /// The same position, held as sixteen byte lanes with the padding.
    fn from(x: edges_array::Edges) -> (r: Edges)
        ensures
            r@ == x@,
    {
        x.valid_lanes();
        let r = Edges::from_lanes16([
            x.at(0).code(),
            x.at(1).code(),
            x.at(2).code(),
            x.at(3).code(),
            x.at(4).code(),
            x.at(5).code(),
            x.at(6).code(),
            x.at(7).code(),
            x.at(8).code(),
            x.at(9).code(),
            x.at(10).code(),
            x.at(11).code(),
            12,
            13,
            14,
            15,
        ]);
        proof {
            assert(r@ =~= x@);
            Edges::lemma_from_lanes(x@);
            Edges::lemma_view_eq(r, Edges::from_lanes(x@));
        }
        r
    }
}

impl vstd::std_specs::convert::FromSpecImpl<edges_array::Edges> for Edges {
    open spec fn obeys_from_spec() -> bool {
        true
    }

    closed spec fn from_spec(v: edges_array::Edges) -> Edges {
        Edges::from_lanes(v@)
    }
}

impl crate::CubeOps for Edges {
}

impl crate::edges::EdgesTrait for Edges {
    open spec fn lanes(&self) -> Seq<u8> {
        self@
    }

    type Cycles = edges_array::EdgeCycles;

    fn parity(&self) -> (r: bool) {
        edges_array::Edges::from(*self).parity()
    }

    fn cycles(&self) -> (r: edges_array::EdgeCycles) {
        edges_array::Edges::from(*self).cycles()
    }

    fn pack(&self) -> (r: u64) {
        edges_array::Edges::from(*self).pack()
    }

    /// The parity of the number of one bits in all sixteen lanes; the
    /// padding adds an even number of them.
    fn net_flip(&self) -> (r: u8)
        ensures
            r == lane_bits_sum(self@, 12) % 2,
    {
        let l = self.lanes16();
        let mut ones: u32 = 0;
        let mut i: usize = 0;
        while i < 16
            invariant
                0 <= i <= 16,
                ones == lane_bits_sum(l@, i as int),
                ones <= 8 * i,
            decreases 16 - i,
        {
            proof {
                let v = l[i as int];
                assert(bits8(v) <= 8) by (bit_vector);
            }
            ones = ones + count_ones_u8(l[i]);
            i = i + 1;
        }
        proof {
            assert(lane_bits_sum(l@, 12) == lane_bits_sum(self@, 12)) by {
                lemma_bits_sum_prefix(l@, 12);
            }
            assert(bits8(12) + bits8(13) + bits8(14) + bits8(15) == 12) by (bit_vector);
            assert(l@[12] == 12 && l@[13] == 13 && l@[14] == 14 && l@[15] == 15);
            reveal_with_fuel(lane_bits_sum, 5);
            assert(lane_bits_sum(l@, 16) == lane_bits_sum(l@, 12) + 12);
            let x = lane_bits_sum(self@, 12);
            assert(ones & 1 == ones % 2) by (bit_vector);
            assert((x + 12) % 2 == x % 2) by {
                vstd::arithmetic::div_mod::lemma_fundamental_div_mod(x, 2);
            }
            if crate::edges::edges_perm(self@) {
                crate::edges::law_bit_parity_is_net_flip(self@);
            }
        }
        (ones & 1) as u8
    }
}

/// The bits of the first `n` bytes depend on those bytes only.
proof fn lemma_bits_sum_prefix(s: Seq<u8>, n: int)
    requires
        0 <= n <= s.len(),
    ensures
        lane_bits_sum(s, n) == lane_bits_sum(s.take(n), n),
    decreases n,
{
    if n > 0 {
        lemma_bits_sum_prefix(s, n - 1);
        assert(s.take(n - 1) =~= s.take(n).take(n - 1));
        lemma_bits_sum_prefix(s.take(n), n - 1);
    }
}

} // verus!
