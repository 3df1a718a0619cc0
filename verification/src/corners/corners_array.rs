//! Corners held as an array of eight corner codes.
use vstd::prelude::*;

use crate::corners::{
    ccode, cid, corner_cycles, corner_cycles_text, corner_ids, corner_lanes, corner_moved,
    corner_parity, corner_turn, corners_after, corners_compose, corners_ident, corners_invert_upto,
    corners_inverse, ctw, cycle_scan, corner_cycle_text, corner_letter, neg_twist, net_twist_spec,
    pack_upto, twist_sum, CornerCyclesTrait, CornersOps, CornersTrait,
};
use crate::lanes::lemma_pack_step;
use crate::speffz::SpeffzLetter;
use crate::perm::{first_positions, lemma_cycle_walk_map, walk_cycles, walk_parity};
use crate::text::push_char;
use crate::turns::{Turn, Turns};

verus! {

/// A corner piece: its slot in the low three bits, its twist in the two
/// bits above.
#[derive(Clone, Copy, Debug, PartialEq, Eq, Hash, PartialOrd, Ord, Structural)]
pub struct Corner(pub(crate) u8);

impl Corner {
    #[verifier::type_invariant]
    closed spec fn wf(self) -> bool {
        self.0 < 24
    }
}

impl View for Corner {
    type V = u8;

    /// The code of the corner.
    closed spec fn view(&self) -> u8 {
        self.0
    }
}

proof fn lemma_corner_bits(v: u8)
    ensures
        v & 7 == v % 8,
        v >> 3 == v / 8,
{
    assert(v & 7 == v % 8 && v >> 3 == v / 8) by (bit_vector);
}

proof fn lemma_corner_join(a: u8, k: u8)
    requires
        a < 8,
        k < 3,
    ensures
        a | (k << 3) == a + 8 * k,
{
    assert(a | (k << 3) == a + 8 * k) by (bit_vector)
        requires
            a < 8,
            k < 3,
    ;
}

impl Corner {
    /// States that the code of every corner is below 24; computes nothing.
    pub fn code_bound(&self)
        ensures
            self@ < 24,
    {
        proof {
            use_type_invariant(self);
        }
    }

    /// The code of the corner, which is below 24.
    pub fn code(self) -> (r: u8)
        ensures
            r == self@,
            r < 24,
    {
        proof {
            use_type_invariant(&self);
        }
        self.0
    }

    /// The corner with code `v`.
    pub closed spec fn with_code(v: u8) -> Corner {
        Corner(v)
    }

    /// The corner built with a code has that code.
    pub proof fn lemma_with_code(v: u8)
        ensures
            Corner::with_code(v)@ == v,
    {
    }

    /// The corner with code `v`.
    pub fn from_code(v: u8) -> (r: Corner)
        requires
            v < 24,
        ensures
            r@ == v,
            r == Corner::with_code(v),
    {
        Corner(v)
    }

    /// The slot of the corner.
    pub fn id(self) -> (r: u8)
        ensures
            r == cid(self@),
            r < 8,
    {
        proof {
            lemma_corner_bits(self.0);
        }
        self.0 & 7
    }

    /// The twist of the corner.
    pub fn twist(self) -> (r: u8)
        ensures
            r == ctw(self@),
            r < 3,
    {
        proof {
            use_type_invariant(&self);
            lemma_corner_bits(self.0);
        }
        self.0 >> 3
    }

    /// The same corner, twisted further by `t`.
    pub fn dotwist(self, t: u8) -> (r: Corner)
        requires
            t < 3,
        ensures
            r@ == ccode(cid(self@), (ctw(self@) + t) % 3),
    {
        let id = self.id();
        let tw = (self.twist() + t) % 3;
        proof {
            lemma_corner_join(id, tw);
        }
        Corner(id | (tw << 3))
    }

    /// The same corner, twisted back by `t`.
    pub fn untwist(self, t: u8) -> (r: Corner)
        requires
            t < 3,
        ensures
            r@ == ccode(cid(self@), (ctw(self@) + neg_twist(t as int)) % 3),
    {
        self.dotwist((3 - t) % 3)
    }
}

/// The eight corners of a cube position: slot `i` holds the code of the
/// corner that is there.
#[derive(Clone, Copy, Debug, Hash, PartialOrd, Ord)]
pub struct Corners(pub(crate) [Corner; 8]);

impl Corners {
    #[verifier::type_invariant]
    closed spec fn wf(self) -> bool {
        forall|i: int| 0 <= i < 8 ==> (#[trigger] self.0[i])@ < 24
    }
}

impl View for Corners {
    type V = Seq<u8>;

    /// The codes of the eight corners, slot first.
    closed spec fn view(&self) -> Seq<u8> {
        self.0@.map_values(|c: Corner| c@)
    }
}

impl Corners {
    /// The position whose corner codes are `s`.
    pub closed spec fn from_lanes(s: Seq<u8>) -> Corners {
        Corners([Corner(s[0]), Corner(s[1]), Corner(s[2]), Corner(s[3]), Corner(s[4]), Corner(s[5]), Corner(s[6]), Corner(s[7])])
    }

    /// Positions with the same corner codes are equal.
    pub proof fn lemma_view_eq(a: Corners, b: Corners)
        requires
            a@ == b@,
        ensures
            a == b,
    {
        broadcast use vstd::array::group_array_axioms;
        assert forall|i: int| 0 <= i < 8 implies a.0[i] == b.0[i] by {
            assert(a.0@.len() == 8);
            assert(a@[i] == a.0@[i]@);
            assert(b@[i] == b.0@[i]@);
        }
        assert(a.0 =~= b.0);
    }

    /// The position built from eight codes has those codes.
    pub proof fn lemma_from_lanes(s: Seq<u8>)
        requires
            s.len() == 8,
        ensures
            Corners::from_lanes(s)@ == s,
    {
        assert(Corners::from_lanes(s)@ =~= s);
    }

    /// States that every position holds eight valid corner codes; computes
    /// nothing.
    pub fn valid_lanes(&self)
        ensures
            corner_lanes(self@),
    {
        proof {
            use_type_invariant(self);
            assert(self.0@.len() == 8);
        }
    }

    /// The position whose slots hold the corners of `a`.
    pub fn from_array(a: [Corner; 8]) -> (r: Corners)
        requires
            forall|k: int| 0 <= k < 8 ==> (#[trigger] a@[k])@ < 24,
        ensures
            r@ == a@.map_values(|c: Corner| c@),
    {
        Corners(a)
    }

    /// The corner in slot `i`.
    pub fn at(&self, i: u8) -> (r: Corner)
        requires
            i < 8,
        ensures
            r@ == self@[i as int],
            self@.len() == 8,
    {
        proof {
            assert(self.0@.len() == 8);
        }
        self.0[i as usize]
    }

    /// A position with the code 0 in every slot.
    fn new() -> (r: Corners)
        ensures
            r@ == Seq::new(8, |i: int| 0u8),
    {
        let r = Corners([Corner(0); 8]);
        assert(r@ =~= Seq::new(8, |i: int| 0u8));
        r
    }

    /// The position after the turns `t`, in order.
    pub fn turns(&self, t: &[Turn]) -> (r: Corners)
        ensures
            r@ == corners_after(self@, t@),
    {
        let mut out = *self;
        let mut i: usize = 0;
        while i < t.len()
            invariant
                0 <= i <= t@.len(),
                out@ == corners_after(self@, t@.take(i as int)),
            decreases t@.len() - i,
        {
            out = out * t[i];
            proof {
                assert(t@.take(i + 1).drop_last() == t@.take(i as int));
            }
            i = i + 1;
        }
        assert(t@.take(t@.len() as int) == t@);
        out
    }
}

impl PartialEq for Corners {
    fn eq(&self, other: &Corners) -> (r: bool) {
        let mut i: usize = 0;
        while i < 8
            invariant
                0 <= i <= 8,
                forall|j: int| 0 <= j < i ==> self@[j] == other@[j],
            decreases 8 - i,
        {
            if self.0[i].0 != other.0[i].0 {
                assert(self@[i as int] != other@[i as int]);
                return false;
            }
            i = i + 1;
        }
        assert(self@ =~= other@);
        true
    }
}

impl Eq for Corners {
}

impl vstd::std_specs::cmp::PartialEqSpecImpl for Corners {
    open spec fn obeys_eq_spec() -> bool {
        true
    }

    open spec fn eq_spec(&self, other: &Corners) -> bool {
        self@ == other@
    }
}

impl Default for Corners {
    /// The solved position.
    fn default() -> (r: Corners)
        ensures
            r@ == corners_ident(),
    {
        let r = Corners([Corner(0), Corner(1), Corner(2), Corner(3), Corner(4), Corner(5), Corner(6), Corner(7)]);
        assert(r@ =~= corners_ident());
        r
    }
}

/// The position of the corners after the turn `t` from the solved position.
pub(crate) fn corner_turn_table(t: Turn) -> (r: Corners)
    ensures
        r@ == corner_turn(t),
{
    let a = match t {
        Turn::U1 => [Corner(3), Corner(0), Corner(1), Corner(2), Corner(4), Corner(5), Corner(6), Corner(7)],
        Turn::U2 => [Corner(2), Corner(3), Corner(0), Corner(1), Corner(4), Corner(5), Corner(6), Corner(7)],
        Turn::U3 => [Corner(1), Corner(2), Corner(3), Corner(0), Corner(4), Corner(5), Corner(6), Corner(7)],
        Turn::R1 => [Corner(0), Corner(10), Corner(21), Corner(3), Corner(4), Corner(14), Corner(17), Corner(7)],
        Turn::R2 => [Corner(0), Corner(5), Corner(6), Corner(3), Corner(4), Corner(1), Corner(2), Corner(7)],
        Turn::R3 => [Corner(0), Corner(14), Corner(17), Corner(3), Corner(4), Corner(10), Corner(21), Corner(7)],
        Turn::F1 => [Corner(0), Corner(1), Corner(11), Corner(20), Corner(13), Corner(18), Corner(6), Corner(7)],
        Turn::F2 => [Corner(0), Corner(1), Corner(4), Corner(5), Corner(2), Corner(3), Corner(6), Corner(7)],
        Turn::F3 => [Corner(0), Corner(1), Corner(13), Corner(18), Corner(11), Corner(20), Corner(6), Corner(7)],
        Turn::D1 => [Corner(0), Corner(1), Corner(2), Corner(3), Corner(7), Corner(4), Corner(5), Corner(6)],
        Turn::D2 => [Corner(0), Corner(1), Corner(2), Corner(3), Corner(6), Corner(7), Corner(4), Corner(5)],
        Turn::D3 => [Corner(0), Corner(1), Corner(2), Corner(3), Corner(5), Corner(6), Corner(7), Corner(4)],
        Turn::L1 => [Corner(23), Corner(1), Corner(2), Corner(8), Corner(19), Corner(5), Corner(6), Corner(12)],
        Turn::L2 => [Corner(4), Corner(1), Corner(2), Corner(7), Corner(0), Corner(5), Corner(6), Corner(3)],
        Turn::L3 => [Corner(19), Corner(1), Corner(2), Corner(12), Corner(23), Corner(5), Corner(6), Corner(8)],
        Turn::B1 => [Corner(9), Corner(22), Corner(2), Corner(3), Corner(4), Corner(5), Corner(15), Corner(16)],
        Turn::B2 => [Corner(6), Corner(7), Corner(2), Corner(3), Corner(4), Corner(5), Corner(0), Corner(1)],
        Turn::B3 => [Corner(15), Corner(16), Corner(2), Corner(3), Corner(4), Corner(5), Corner(9), Corner(22)],
    };
    let r = Corners(a);
    assert(r@ =~= corner_turn(t));
    r
}

impl vstd::std_specs::ops::MulSpecImpl for Corners {
    open spec fn obeys_mul_spec() -> bool {
        true
    }

    open spec fn mul_req(self, rhs: Corners) -> bool {
        true
    }

    closed spec fn mul_spec(self, rhs: Corners) -> Corners {
        Corners::from_lanes(corners_compose(self@, rhs@))
    }
}

impl std::ops::Mul for Corners {
    type Output = Corners;

    /// The position reached by applying `rhs` after `self`.
    fn mul(self, rhs: Corners) -> (r: Corners)
        ensures
            r@ == corners_compose(self@, rhs@),
    {
        proof {
            use_type_invariant(&self);
            use_type_invariant(&rhs);
        }
        let mut a: [Corner; 8] = [Corner(0); 8];
        let mut i: usize = 0;
        while i < 8
            invariant
                0 <= i <= 8,
                forall|j: int| 0 <= j < 8 ==> (#[trigger] self.0[j])@ < 24,
                forall|j: int| 0 <= j < i ==> (#[trigger] a[j])@ == corners_compose(self@, rhs@)[j],
            decreases 8 - i,
        {
            let x = rhs.0[i];
            let y = self.0[x.id() as usize];
            a[i] = y.dotwist(x.twist());
            proof {
                assert(self.0@.len() == 8);
                assert(rhs.0@.len() == 8);
                assert(rhs@[i as int] == x@);
                assert(self@[cid(x@)] == y@);
            }
            i = i + 1;
        }
        let r = Corners(a);
        proof {
            assert(r@ =~= corners_compose(self@, rhs@));
            Corners::lemma_from_lanes(corners_compose(self@, rhs@));
            Corners::lemma_view_eq(r, Corners::from_lanes(corners_compose(self@, rhs@)));
        }
        r
    }
}

impl vstd::std_specs::ops::MulSpecImpl<Turn> for Corners {
    open spec fn obeys_mul_spec() -> bool {
        true
    }

    open spec fn mul_req(self, rhs: Turn) -> bool {
        true
    }

    closed spec fn mul_spec(self, rhs: Turn) -> Corners {
        Corners::from_lanes(corners_compose(self@, corner_turn(rhs)))
    }
}

impl std::ops::Mul<Turn> for Corners {
    type Output = Corners;

    /// The position after the turn `rhs`.
    fn mul(self, rhs: Turn) -> (r: Corners)
        ensures
            r@ == corners_compose(self@, corner_turn(rhs)),
    {
        let r = self * corner_turn_table(rhs);
        proof {
            Corners::lemma_from_lanes(corners_compose(self@, corner_turn(rhs)));
            Corners::lemma_view_eq(r, Corners::from_lanes(corners_compose(self@, corner_turn(rhs))));
        }
        r
    }
}

impl<'a> vstd::std_specs::ops::MulSpecImpl<&'a Turns> for Corners {
    open spec fn obeys_mul_spec() -> bool {
        true
    }

    open spec fn mul_req(self, rhs: &'a Turns) -> bool {
        true
    }

    closed spec fn mul_spec(self, rhs: &'a Turns) -> Corners {
        Corners::from_lanes(corners_after(self@, rhs@))
    }
}

impl<'a> std::ops::Mul<&'a Turns> for Corners {
    type Output = Corners;

    /// The position after the turns `rhs`, in order.
    fn mul(self, rhs: &'a Turns) -> (r: Corners)
        ensures
            r@ == corners_after(self@, rhs@),
    {
        let r = self.turns(rhs.as_slice());
        proof {
            lemma_after_len(self@, rhs@);
            Corners::lemma_from_lanes(corners_after(self@, rhs@));
            Corners::lemma_view_eq(r, Corners::from_lanes(corners_after(self@, rhs@)));
        }
        r
    }
}

/// Applying turns keeps eight corners.
proof fn lemma_after_len(a: Seq<u8>, ts: Seq<Turn>)
    requires
        a.len() == 8,
    ensures
        corners_after(a, ts).len() == 8,
    decreases ts.len(),
{
    if ts.len() > 0 {
        lemma_after_len(a, ts.drop_last());
    }
}

impl vstd::std_specs::ops::NotSpecImpl for Corners {
    open spec fn obeys_not_spec() -> bool {
        true
    }

    open spec fn not_req(self) -> bool {
        true
    }

    closed spec fn not_spec(self) -> Corners {
        Corners::from_lanes(corners_inverse(self@))
    }
}

impl std::ops::Not for Corners {
    type Output = Corners;

    /// The inverse position: slot `self[i]` gets corner `i` with the twist
    /// undone.
    fn not(self) -> (r: Corners)
        ensures
            r@ == corners_inverse(self@),
    {
        proof {
            use_type_invariant(&self);
            assert(self.0@.len() == 8);
        }
        let mut out = Corners::new();
        let mut i: u8 = 0;
        while i < 8
            invariant
                0 <= i <= 8,
                forall|j: int| 0 <= j < 8 ==> (#[trigger] self.0[j])@ < 24,
                self.0@.len() == 8,
                out@ == corners_invert_upto(self@, i as int),
            decreases 8 - i,
        {
            let c = self.0[i as usize];
            let v = Corner(i).untwist(c.twist());
            proof {
                use_type_invariant(&v);
                use_type_invariant(&out);
            }
            out.0[c.id() as usize] = v;
            proof {
                assert(self@[i as int] == c@);
                assert(out@ =~= corners_invert_upto(self@, i as int).update(cid(c@), ccode(i as int, neg_twist(ctw(c@)))));
            }
            i = i + 1;
        }
        proof {
            Corners::lemma_from_lanes(corners_inverse(self@));
            lemma_invert_len(self@, 8);
            Corners::lemma_view_eq(out, Corners::from_lanes(corners_inverse(self@)));
        }
        out
    }
}

proof fn lemma_invert_len(a: Seq<u8>, n: int)
    ensures
        corners_invert_upto(a, n).len() == 8,
    decreases n,
{
    if n > 0 {
        lemma_invert_len(a, n - 1);
    }
}

impl CornersOps for Corners {
}

impl crate::CubeOps for Corners {
}

impl CornersTrait for Corners {
    open spec fn lanes(&self) -> Seq<u8> {
        self@
    }

    type Cycles = CornerCycles;

    fn parity(&self) -> (r: bool) {
        let ids = self.ids();
        walk_parity(&ids)
    }

    fn cycles(&self) -> (r: CornerCycles) {
        let ids = self.ids();
        let mut moved: [bool; 8] = [false; 8];
        let mut i: u8 = 0;
        while i < 8
            invariant
                0 <= i <= 8,
                ids@ == corner_ids(self@),
                self@.len() == 8,
                forall|j: int| 0 <= j < i ==> moved[j] == corner_moved(self@)[j],
            decreases 8 - i,
        {
            moved[i as usize] = self.at(i).code() != i;
            i = i + 1;
        }
        proof {
            assert(moved@ =~= corner_moved(self@));
            assert(self.0@ .map_values(|c: Corner| c@) == self@);
        }
        let v = walk_cycles(&self.0, &ids, &moved);
        let r = CornerCycles(v);
        proof {
            assert(self.0@.len() == 8);
            assert(Seq::<Corner>::empty().map_values(|c: Corner| c@) =~= Seq::<u8>::empty());
            assert(Seq::<Seq<Corner>>::empty().map_values(|s: Seq<Corner>| s.map_values(|c: Corner| c@)) =~= Seq::<Seq<u8>>::empty());
            lemma_cycle_walk_map(self.0@, |c: Corner| c@, ids@, moved@, first_positions(8), 0, Seq::empty(), Seq::empty());
            assert(r@ =~= v@.map_values(|w: Vec<Corner>| w@).map_values(|s: Seq<Corner>| s.map_values(|c: Corner| c@)));
        }
        r
    }

    fn pack(&self) -> (r: u64) {
        proof {
            use_type_invariant(self);
            assert(self.0@.len() == 8);
            vstd::arithmetic::power2::lemma2_to64();
            assert(forall|k: int| 0 <= k < 8 ==> self@[k] == (#[trigger] self.0[k])@);
            assert(pack_upto(self@, 0) == 0);
        }
        let mut out = self.0[0].0 as u64;
        proof {
            lemma_pack_step(0, self.0[0]@, 0);
            assert(out == pack_upto(self@, 1));
            lemma_pack_step(out, self.0[1]@, 5);
        }
        out |= (self.0[1].0 as u64) << 5;
        proof {
            assert(out == pack_upto(self@, 2));
            lemma_pack_step(out, self.0[2]@, 10);
        }
        out |= (self.0[2].0 as u64) << 10;
        proof {
            assert(out == pack_upto(self@, 3));
            lemma_pack_step(out, self.0[3]@, 15);
        }
        out |= (self.0[3].0 as u64) << 15;
        proof {
            assert(out == pack_upto(self@, 4));
            lemma_pack_step(out, self.0[4]@, 20);
        }
        out |= (self.0[4].0 as u64) << 20;
        proof {
            assert(out == pack_upto(self@, 5));
            lemma_pack_step(out, self.0[5]@, 25);
        }
        out |= (self.0[5].0 as u64) << 25;
        proof {
            assert(out == pack_upto(self@, 6));
            lemma_pack_step(out, self.0[6]@, 30);
        }
        out |= (self.0[6].0 as u64) << 30;
        proof {
            assert(out == pack_upto(self@, 7));
            lemma_pack_step(out, self.0[7]@, 35);
        }
        out |= (self.0[7].0 as u64) << 35;
        out
    }

    fn net_twist(&self) -> (r: u8) {
        proof {
            use_type_invariant(self);
            assert(self.0@.len() == 8);
        }
        let mut sum: u8 = 0;
        let mut i: usize = 0;
        while i < 8
            invariant
                0 <= i <= 8,
                self.0@.len() == 8,
                forall|j: int| 0 <= j < 8 ==> (#[trigger] self.0[j])@ < 24,
                sum == twist_sum(self@, i as int),
                sum <= 2 * i,
            decreases 8 - i,
        {
            sum = sum + self.0[i].twist();
            i = i + 1;
        }
        sum % 3
    }
}

impl Corners {
    /// The slots named by the eight corners.
    fn ids(&self) -> (r: [u8; 8])
        ensures
            r@ == corner_ids(self@),
            forall|k: int| 0 <= k < 8 ==> (#[trigger] r@[k]) < 8,
    {
        let mut ids: [u8; 8] = [0; 8];
        let mut i: usize = 0;
        while i < 8
            invariant
                0 <= i <= 8,
                self.0@.len() == 8,
                forall|j: int| 0 <= j < i ==> ids[j] == corner_ids(self@)[j],
                forall|j: int| 0 <= j < 8 ==> ids[j] < 8,
            decreases 8 - i,
        {
            ids[i] = self.0[i].id();
            i = i + 1;
        }
        assert(ids@ =~= corner_ids(self@));
        ids
    }
}

/// The cycles of a position of corners, each a list of the corners met
/// along it.
#[derive(Debug)]
pub struct CornerCycles(Vec<Vec<Corner>>);

impl View for CornerCycles {
    type V = Seq<Seq<u8>>;

    closed spec fn view(&self) -> Seq<Seq<u8>> {
        self.0@.map_values(|v: Vec<Corner>| v@.map_values(|c: Corner| c@))
    }
}

impl CornerCyclesTrait for CornerCycles {
    open spec fn cycle_lanes(&self) -> Seq<Seq<u8>> {
        self@
    }

    fn speffz(&self) -> (r: String) {
        let mut out = String::new();
        let mut k: usize = 0;
        while k < self.0.len()
            invariant
                0 <= k <= self@.len(),
                self@.len() == self.0@.len(),
                out@ == corner_cycles_text(self@.take(k as int)),
            decreases self@.len() - k,
        {
            let cycle = &self.0[k];
            let ghost c = self@[k as int];
            assert(c == cycle@.map_values(|x: Corner| x@));
            let mut twist: u8 = 0;
            let mut s = String::new();
            let mut j: usize = 0;
            while j < cycle.len()
                invariant
                    0 <= j <= cycle@.len(),
                    c == cycle@.map_values(|x: Corner| x@),
                    (s@, twist as int) == cycle_scan(c.take(j as int)),
                    twist < 3,
                decreases cycle@.len() - j,
            {
                let x = cycle[j];
                let ptwist = twist;
                twist = (twist + 3 - x.twist()) % 3;
                let l = Corner::from_code(x.id()).dotwist(ptwist).speffz();
                push_char(&mut s, l);
                proof {
                    assert(c.take(j + 1).drop_last() == c.take(j as int));
                    assert(c[j as int] == x@);
                }
                j = j + 1;
            }
            assert(c.take(c.len() as int) == c);
            push_char(&mut out, '(');
            out.append(s.as_str());
            push_char(&mut out, ')');
            if twist == 2 {
                push_char(&mut out, '+');
            } else if twist == 1 {
                push_char(&mut out, '-');
            }
            proof {
                assert(self@.take(k + 1).drop_last() == self@.take(k as int));
                assert(self@.take(k + 1).last() == c);
                let (ls, t) = cycle_scan(c);
                assert(corner_cycle_text(c) == seq!['('] + ls + seq![')'] + if t == 2 {
                    seq!['+']
                } else if t == 1 {
                    seq!['-']
                } else {
                    Seq::empty()
                });
                assert(out@ =~= corner_cycles_text(self@.take(k as int)) + corner_cycle_text(c));
            }
            k = k + 1;
        }
        assert(self@.take(self@.len() as int) == self@);
        out
    }
}

impl Default for CornerCycles {
    fn default() -> (r: CornerCycles)
        ensures
            r@ == Seq::<Seq<u8>>::empty(),
    {
        let r = CornerCycles(Vec::new());
        assert(r@ =~= Seq::<Seq<u8>>::empty());
        r
    }
}

} // verus!
