//! Corners held as eight byte lanes, one code per slot, and worked on the
//! way a vector unit works on them: a table lookup and a few lane-wise
//! operations per composition, whole-word shifts for packing.
use vstd::prelude::*;

use crate::corners::corners_array;
use crate::corners::{
    ccode, cid, corner_lanes, corner_turn, corners_after, corners_compose, corners_ident,
    corners_invert_upto, corners_inverse, ctw, neg_twist,
};
use crate::lanes::lemma_pack_step;
use crate::turns::{Turn, Turns};

verus! {

/// The eight corners of a cube position, one code per byte lane: slot `i`
/// holds the code of the corner that is there. The lanes are kept last slot
/// first, so that positions compare as the word whose byte `i` is slot `i`
/// does: slot 7 weighs most.
#[derive(Clone, Copy, Debug, Hash, PartialOrd, Ord)]
pub struct Corners([u8; 8]);

impl Corners {
    #[verifier::type_invariant]
    closed spec fn wf(self) -> bool {
        forall|i: int| 0 <= i < 8 ==> #[trigger] self.0[i] < 24
    }
}

impl View for Corners {
    type V = Seq<u8>;

    /// The codes of the eight corners, slot first.
    closed spec fn view(&self) -> Seq<u8> {
        Seq::new(8, |i: int| self.0[7 - i])
    }
}

/// The slot and the twist of a code, as the masks of a vector unit read
/// them.
proof fn lemma_lane_bits(v: u8)
    requires
        v < 24,
    ensures
        v & 7 == cid(v),
        v & 0x18 == 8 * ctw(v),
        (v & 0x18) >> 3u8 == ctw(v),
{
    assert(v & 7 == v % 8 && v & 0x18 == 8 * (v / 8) && (v & 0x18) >> 3u8 == v / 8) by (bit_vector)
        requires
            v < 24,
    ;
}

impl Corners {
    /// The position whose corner codes are `s`.
    pub closed spec fn from_lanes(s: Seq<u8>) -> Corners {
        Corners([s[7], s[6], s[5], s[4], s[3], s[2], s[1], s[0]])
    }

    /// Positions with the same corner codes are equal.
    pub proof fn lemma_view_eq(a: Corners, b: Corners)
        requires
            a@ == b@,
        ensures
            a == b,
    {
        assert forall|i: int| 0 <= i < 8 implies a.0[i] == b.0[i] by {
            assert(a@[7 - i] == a.0[7 - (7 - i)]);
            assert(b@[7 - i] == b.0[7 - (7 - i)]);
        }
        assert(a.0 =~= b.0);
    }

    /// The position built from eight codes has those codes.
    pub proof fn lemma_from_lanes(s: Seq<u8>)
        requires
            s.len() == 8,
        ensures
            Corners::from_lanes(s)@ == s,
    {
        assert(Corners::from_lanes(s)@ =~= s);
    }

    /// States that every position holds eight valid corner codes; computes
    /// nothing.
    pub fn valid_lanes(&self)
        ensures
            corner_lanes(self@),
    {
        proof {
            use_type_invariant(self);
        }
    }

    /// The position whose lanes hold the codes `l`.
    pub fn from_codes(l: [u8; 8]) -> (r: Corners)
        requires
            forall|i: int| 0 <= i < 8 ==> #[trigger] l[i] < 24,
        ensures
            r@ == l@,
    {
        let r = Corners([l[7], l[6], l[5], l[4], l[3], l[2], l[1], l[0]]);
        assert(r@ =~= l@);
        r
    }

    /// The codes of the eight corners, slot first.
    fn lanes(&self) -> (r: [u8; 8])
        ensures
            r@ == self@,
            forall|i: int| 0 <= i < 8 ==> #[trigger] r[i] < 24,
    {
        proof {
            use_type_invariant(self);
        }
        let r = [self.0[7], self.0[6], self.0[5], self.0[4], self.0[3], self.0[2], self.0[1], self.0[0]];
        assert(r@ =~= self@);
        r
    }

    /// The code of the corner in slot `i`.
    pub fn lane(&self, i: usize) -> (r: u8)
        requires
            i < 8,
        ensures
            r == self@[i as int],
            r < 24,
    {
        proof {
            use_type_invariant(self);
        }
        self.0[7 - i]
    }
}

impl PartialEq for Corners {
    fn eq(&self, other: &Corners) -> (r: bool) {
        let mut i: usize = 0;
        while i < 8
            invariant
                0 <= i <= 8,
                forall|j: int| 0 <= j < i ==> self.0[j] == other.0[j],
            decreases 8 - i,
        {
            if self.0[i] != other.0[i] {
                assert(self@[7 - i] != other@[7 - i]);
                return false;
            }
            i = i + 1;
        }
        assert forall|j: int| 0 <= j < 8 implies self@[j] == other@[j] by {
            assert(self.0[7 - j] == other.0[7 - j]);
        }
        assert(self@ =~= other@);
        true
    }
}

impl Eq for Corners {
}

impl vstd::std_specs::cmp::PartialEqSpecImpl for Corners {
    open spec fn obeys_eq_spec() -> bool {
        true
    }

    open spec fn eq_spec(&self, other: &Corners) -> bool {
        self@ == other@
    }
}

impl Default for Corners {
    /// The solved position.
    fn default() -> (r: Corners)
        ensures
            r@ == corners_ident(),
    {
        let r = Corners([7, 6, 5, 4, 3, 2, 1, 0]);
        assert(r@ =~= corners_ident());
        r
    }
}

impl vstd::std_specs::ops::MulSpecImpl for Corners {
    open spec fn obeys_mul_spec() -> bool {
        true
    }

    open spec fn mul_req(self, rhs: Corners) -> bool {
        true
    }

    closed spec fn mul_spec(self, rhs: Corners) -> Corners {
        Corners::from_lanes(corners_compose(self@, rhs@))
    }
}

impl std::ops::Mul for Corners {
    type Output = Corners;

    /// The position reached by applying `rhs` after `self`: each lane looks
    /// up the lane of `self` that `rhs` names and adds the twist of `rhs`;
    /// a sum of twists of 3 or more is brought back by taking the smaller
    /// of the lane and the lane less three twists, which wraps around when
    /// there is nothing to take.
    fn mul(self, rhs: Corners) -> (r: Corners)
        ensures
            r@ == corners_compose(self@, rhs@),
    {
        let a = self.lanes();
        let b = rhs.lanes();
        let mut out: [u8; 8] = [0; 8];
        let mut i: usize = 0;
        while i < 8
            invariant
                0 <= i <= 8,
                a@ == self@,
                b@ == rhs@,
                forall|j: int| 0 <= j < 8 ==> #[trigger] a[j] < 24,
                forall|j: int| 0 <= j < 8 ==> #[trigger] b[j] < 24,
                forall|j: int| 0 <= j < i ==> out[j] == corners_compose(self@, rhs@)[j],
                forall|j: int| 0 <= j < 8 ==> #[trigger] out[j] < 24,
            decreases 8 - i,
        {
            let x = b[i];
            proof {
                lemma_lane_bits(x);
            }
            let y = a[(x & 0x07) as usize];
            proof {
                lemma_lane_bits(y);
            }
            let v = y + (x & 0x18);
            let w = v.wrapping_sub(0x18);
            let m = if w < v {
                w
            } else {
                v
            };
            proof {
                let s = ctw(y) + ctw(x);
                assert(v == cid(y) + 8 * s);
                crate::corners::lemma_ccode(cid(y), s % 3);
                if s >= 3 {
                    assert(w == v - 24);
                    assert(m == ccode(cid(y), s % 3));
                } else {
                    assert(w == v + 232);
                    assert(m == ccode(cid(y), s % 3));
                }
                assert(rhs@[i as int] == x);
                assert(self@[cid(x)] == y);
            }
            out[i] = m;
            i = i + 1;
        }
        let r = Corners::from_codes(out);
        proof {
            assert(r@ =~= corners_compose(self@, rhs@));
            Corners::lemma_from_lanes(corners_compose(self@, rhs@));
            Corners::lemma_view_eq(r, Corners::from_lanes(corners_compose(self@, rhs@)));
        }
        r
    }
}

impl vstd::std_specs::ops::MulSpecImpl<Turn> for Corners {
    open spec fn obeys_mul_spec() -> bool {
        true
    }

    open spec fn mul_req(self, rhs: Turn) -> bool {
        true
    }

    closed spec fn mul_spec(self, rhs: Turn) -> Corners {
        Corners::from_lanes(corners_compose(self@, corner_turn(rhs)))
    }
}

impl std::ops::Mul<Turn> for Corners {
    type Output = Corners;

    /// The position after the turn `rhs`.
    fn mul(self, rhs: Turn) -> (r: Corners)
        ensures
            r@ == corners_compose(self@, corner_turn(rhs)),
    {
        let r = self * Corners::from(corners_array::corner_turn_table(rhs));
        proof {
            Corners::lemma_from_lanes(corners_compose(self@, corner_turn(rhs)));
            Corners::lemma_view_eq(r, Corners::from_lanes(corners_compose(self@, corner_turn(rhs))));
        }
        r
    }
}

impl<'a> vstd::std_specs::ops::MulSpecImpl<&'a Turns> for Corners {
    open spec fn obeys_mul_spec() -> bool {
        true
    }

    open spec fn mul_req(self, rhs: &'a Turns) -> bool {
        true
    }

    closed spec fn mul_spec(self, rhs: &'a Turns) -> Corners {
        Corners::from_lanes(corners_after(self@, rhs@))
    }
}

impl<'a> std::ops::Mul<&'a Turns> for Corners {
    type Output = Corners;

    /// The position after the turns `rhs`, in order.
    fn mul(self, rhs: &'a Turns) -> (r: Corners)
        ensures
            r@ == corners_after(self@, rhs@),
    {
        let t = rhs.as_slice();
        let mut out = self;
        let mut i: usize = 0;
        while i < t.len()
            invariant
                0 <= i <= t@.len(),
                t@ == rhs@,
                out@ == corners_after(self@, t@.take(i as int)),
            decreases t@.len() - i,
        {
            out = out * t[i];
            proof {
                assert(t@.take(i + 1).drop_last() == t@.take(i as int));
            }
            i = i + 1;
        }
        out.valid_lanes();
        proof {
            assert(t@.take(t@.len() as int) == t@);
            Corners::lemma_from_lanes(corners_after(self@, rhs@));
            Corners::lemma_view_eq(out, Corners::from_lanes(corners_after(self@, rhs@)));
        }
        out
    }
}

/// What the inverse writes for a corner: its slot number with the twist
/// bits negated, and those bits as a vector unit finds them.
proof fn lemma_negated_lane(i: u8, v: u8, t: u8)
    requires
        i < 8,
        v < 24,
        t == (if v & 0x18 != 0 {
            (v & 0x18) ^ 0x18
        } else {
            v & 0x18
        }),
    ensures
        i | t == ccode(i as int, neg_twist(ctw(v))),
        i | t < 24,
        v & 7 == cid(v),
{
    lemma_lane_bits(v);
    assert(i | t == i + 8 * ((3 - v / 8) % 3) && i | t < 24) by (bit_vector)
        requires
            i < 8,
            v < 24,
            t == (if v & 0x18 != 0 {
                (v & 0x18) ^ 0x18
            } else {
                v & 0x18
            }),
    ;
}

/// The inverse as written so far keeps valid codes in every slot.
proof fn lemma_invert_upto_valid(a: Seq<u8>, n: int)
    requires
        corner_lanes(a),
        0 <= n <= 8,
    ensures
        corners_invert_upto(a, n).len() == 8,
        forall|j: int| 0 <= j < 8 ==> #[trigger] corners_invert_upto(a, n)[j] < 24,
    decreases n,
{
    if n > 0 {
        lemma_invert_upto_valid(a, n - 1);
        crate::corners::lemma_ccode_of(a[n - 1]);
        crate::corners::lemma_ccode(n - 1, neg_twist(ctw(a[n - 1])));
    }
}

impl vstd::std_specs::ops::NotSpecImpl for Corners {
    open spec fn obeys_not_spec() -> bool {
        true
    }

    open spec fn not_req(self) -> bool {
        true
    }

    closed spec fn not_spec(self) -> Corners {
        Corners::from_lanes(corners_inverse(self@))
    }
}

impl std::ops::Not for Corners {
    type Output = Corners;

    /// The inverse position: slot `self[i]` gets corner `i`, its twist
    /// negated by flipping both twist bits of a twisted corner.
    fn not(self) -> (r: Corners)
        ensures
            r@ == corners_inverse(self@),
    {
        let a = self.lanes();
        let mut out: [u8; 8] = [0; 8];
        let mut i: u8 = 0;
        while i < 8
            invariant
                0 <= i <= 8,
                a@ == self@,
                forall|j: int| 0 <= j < 8 ==> #[trigger] a[j] < 24,
                corner_lanes(self@),
                out@ == corners_invert_upto(self@, i as int),
            decreases 8 - i,
        {
            let v = a[i as usize];
            let slot = (v & 0x07) as usize;
            let mut twist = v & 0x18;
            if twist != 0x00 {
                twist = twist ^ 0x18;
            }
            proof {
                lemma_negated_lane(i, v, twist);
                assert(self@[i as int] == v);
            }
            out[slot] = i | twist;
            proof {
                assert(out@ =~= corners_invert_upto(self@, i as int).update(cid(v), ccode(i as int, neg_twist(ctw(v)))));
            }
            i = i + 1;
        }
        proof {
            lemma_invert_upto_valid(self@, 8);
            assert(forall|j: int| 0 <= j < 8 ==> out@[j] < 24);
        }
        let r = Corners::from_codes(out);
        proof {
            Corners::lemma_from_lanes(corners_inverse(self@));
            Corners::lemma_view_eq(r, Corners::from_lanes(corners_inverse(self@)));
        }
        r
    }
}

/// The eight lanes as one little-endian word.
fn lanes_word(l: [u8; 8]) -> (r: u64)
    requires
        forall|i: int| 0 <= i < 8 ==> #[trigger] l[i] < 32,
    ensures
        r & 0x1fu64 == l[0] as u64,
        (r >> 3u64) & (0x1fu64 << 5u64) == (l[1] as u64) << 5u64,
        (r >> 6u64) & (0x1fu64 << 10u64) == (l[2] as u64) << 10u64,
        (r >> 9u64) & (0x1fu64 << 15u64) == (l[3] as u64) << 15u64,
        (r >> 12u64) & (0x1fu64 << 20u64) == (l[4] as u64) << 20u64,
        (r >> 15u64) & (0x1fu64 << 25u64) == (l[5] as u64) << 25u64,
        (r >> 18u64) & (0x1fu64 << 30u64) == (l[6] as u64) << 30u64,
        (r >> 21u64) & (0x1fu64 << 35u64) == (l[7] as u64) << 35u64,
{
    let l0 = l[0] as u64;
    let l1 = l[1] as u64;
    let l2 = l[2] as u64;
    let l3 = l[3] as u64;
    let l4 = l[4] as u64;
    let l5 = l[5] as u64;
    let l6 = l[6] as u64;
    let l7 = l[7] as u64;
    let r = l0 | (l1 << 8u64) | (l2 << 16u64) | (l3 << 24u64) | (l4 << 32u64) | (l5 << 40u64)
        | (l6 << 48u64) | (l7 << 56u64);
    assert(r & 0x1fu64 == l0 && (r >> 3u64) & (0x1fu64 << 5u64) == l1 << 5u64
        && (r >> 6u64) & (0x1fu64 << 10u64) == l2 << 10u64 && (r >> 9u64) & (0x1fu64 << 15u64) == l3 << 15u64
        && (r >> 12u64) & (0x1fu64 << 20u64) == l4 << 20u64 && (r >> 15u64) & (0x1fu64 << 25u64) == l5 << 25u64
        && (r >> 18u64) & (0x1fu64 << 30u64) == l6 << 30u64 && (r >> 21u64) & (0x1fu64 << 35u64) == l7 << 35u64) by (bit_vector)
        requires
            l0 < 32,
            l1 < 32,
            l2 < 32,
            l3 < 32,
            l4 < 32,
            l5 < 32,
            l6 < 32,
            l7 < 32,
            r == l0 | (l1 << 8u64) | (l2 << 16u64) | (l3 << 24u64) | (l4 << 32u64) | (l5 << 40u64)
                | (l6 << 48u64) | (l7 << 56u64),
    ;
    r
}

impl crate::corners::CornersOps for Corners {
}

impl crate::CubeOps for Corners {
}

impl crate::corners::CornersTrait for Corners {
    open spec fn lanes(&self) -> Seq<u8> {
        self@
    }

    type Cycles = corners_array::CornerCycles;

    fn parity(&self) -> (r: bool) {
        corners_array::Corners::from(*self).parity()
    }

    fn cycles(&self) -> (r: corners_array::CornerCycles) {
        corners_array::Corners::from(*self).cycles()
    }

    fn pack(&self) -> (r: u64) {
        proof {
            use_type_invariant(self);
            vstd::arithmetic::power2::lemma2_to64();
            assert(crate::corners::pack_upto(self@, 0) == 0);
        }
        let l = self.lanes();
        let a = lanes_word(l);
        let mut out = a & 0x1f;
        proof {
            lemma_pack_step(0, l[0], 0);
            assert(out == crate::corners::pack_upto(self@, 1));
            lemma_pack_step(out, l[1], 5);
        }
        out = out | ((a >> 3) & (0x1f << 5));
        proof {
            assert(out == crate::corners::pack_upto(self@, 2));
            lemma_pack_step(out, l[2], 10);
        }
        out = out | ((a >> 6) & (0x1f << 10));
        proof {
            assert(out == crate::corners::pack_upto(self@, 3));
            lemma_pack_step(out, l[3], 15);
        }
        out = out | ((a >> 9) & (0x1f << 15));
        proof {
            assert(out == crate::corners::pack_upto(self@, 4));
            lemma_pack_step(out, l[4], 20);
        }
        out = out | ((a >> 12) & (0x1f << 20));
        proof {
            assert(out == crate::corners::pack_upto(self@, 5));
            lemma_pack_step(out, l[5], 25);
        }
        out = out | ((a >> 15) & (0x1f << 25));
        proof {
            assert(out == crate::corners::pack_upto(self@, 6));
            lemma_pack_step(out, l[6], 30);
        }
        out = out | ((a >> 18) & (0x1f << 30));
        proof {
            assert(out == crate::corners::pack_upto(self@, 7));
            lemma_pack_step(out, l[7], 35);
        }
        out = out | ((a >> 21) & (0x1f << 35));
        out
    }

    fn net_twist(&self) -> (r: u8) {
        let l = self.lanes();
        let mut sum: u8 = 0;
        let mut i: usize = 0;
        while i < 8
            invariant
                0 <= i <= 8,
                l@ == self@,
                forall|j: int| 0 <= j < 8 ==> #[trigger] l[j] < 24,
                sum == 8 * crate::corners::twist_sum(self@, i as int),
                crate::corners::twist_sum(self@, i as int) <= 2 * i,
            decreases 8 - i,
        {
            proof {
                lemma_lane_bits(l[i as int]);
                assert(self@[i as int] == l[i as int]);
            }
            sum = sum + (l[i] & 0x18);
            i = i + 1;
        }
        let t = sum >> 3;
        proof {
            let k = crate::corners::twist_sum(self@, 8);
            assert(t == k) by {
                let k8 = k as u8;
                assert(sum == 8 * k8);
                assert(sum >> 3u8 == k8) by (bit_vector)
                    requires
                        sum == 8 * k8,
                        k8 <= 16,
                ;
            }
        }
        t % 3
    }
}

impl std::convert::From<Corners> for corners_array::Corners {
    /// The same position, held as an array of corners.
    fn from(x: Corners) -> (r: corners_array::Corners)
        ensures
            r@ == x@,
    {
        let l = x.lanes();
        let a = [
            corners_array::Corner::from_code(l[0]),
            corners_array::Corner::from_code(l[1]),
            corners_array::Corner::from_code(l[2]),
            corners_array::Corner::from_code(l[3]),
            corners_array::Corner::from_code(l[4]),
            corners_array::Corner::from_code(l[5]),
            corners_array::Corner::from_code(l[6]),
            corners_array::Corner::from_code(l[7]),
        ];
        let r = corners_array::Corners::from_array(a);
        proof {
            assert(r@ =~= x@);
            corners_array::Corners::lemma_from_lanes(x@);
            corners_array::Corners::lemma_view_eq(r, corners_array::Corners::from_lanes(x@));
        }
        r
    }
}

impl vstd::std_specs::convert::FromSpecImpl<Corners> for corners_array::Corners {
    open spec fn obeys_from_spec() -> bool {
        true
    }

    closed spec fn from_spec(v: Corners) -> corners_array::Corners {
        corners_array::Corners::from_lanes(v@)
    }
}

impl std::convert::From<corners_array::Corners> for Corners {
    /// The same position, held as eight byte lanes.
    fn from(x: corners_array::Corners) -> (r: Corners)
        ensures
            r@ == x@,
    {
        x.valid_lanes();
        let r = Corners::from_codes([
            x.at(0).code(),
            x.at(1).code(),
            x.at(2).code(),
            x.at(3).code(),
            x.at(4).code(),
            x.at(5).code(),
            x.at(6).code(),
            x.at(7).code(),
        ]);
        proof {
            assert(r@ =~= x@);
            Corners::lemma_from_lanes(x@);
            Corners::lemma_view_eq(r, Corners::from_lanes(x@));
        }
        r
    }
}

impl vstd::std_specs::convert::FromSpecImpl<corners_array::Corners> for Corners {
    open spec fn obeys_from_spec() -> bool {
        true
    }

    closed spec fn from_spec(v: corners_array::Corners) -> Corners {
        Corners::from_lanes(v@)
    }
}

} // verus!
