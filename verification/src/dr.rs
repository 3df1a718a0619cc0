//! Domino reduction coordinates
//!
//! Corner orientation: base 3 number (u16; 12 bits)
//! Edges orientation: base 2 number (u16; 11 bits)
//!
//! Orientation coordinates omit the most significant digit, because the
//! total twist/flip constraints make it redundant.
use vstd::prelude::*;
use vstd::arithmetic::power2::{lemma2_to64, lemma_pow2_adds, lemma_pow2_pos, pow2};
use vstd::bits::{lemma_u16_shl_is_mul, lemma_u16_shr_is_div};

use crate::corners::corners_array::{Corner, Corners};
use crate::corners::{ccode, co_spec, co_upto, corner_turn, corners_compose, ctw, neg_twist, pow3};
use crate::edges::edges_array::{Edge, Edges};
use crate::edges::{ecode, edge_turn, edges_compose, efl};
use crate::turns::{turn_of, Turn};

verus! {

/// The number of corner orientation coordinates: `3^7`.
pub const NCO: u16 = 2187;

/// The number of edge orientation coordinates: `2^11`.
pub const NEO: u16 = 2048;

/// Digit `i` of `co` in base 3.
pub open spec fn co_digit(co: int, i: nat) -> int {
    (co / pow3(i)) % 3
}

/// The powers of 3 up to `3^7`.
proof fn lemma_pow3_small(k: nat)
    requires
        k < 7,
    ensures
        1 <= pow3(k) <= 729,
        pow3(k + 1) == 3 * pow3(k),
        pow3(k + 1) <= 2187,
{
    reveal_with_fuel(pow3, 8);
}

/// The sum of the first `n` base 3 digits of `co`.
pub open spec fn co_digit_sum(co: int, n: nat) -> int
    decreases n,
{
    if n == 0 {
        0
    } else {
        co_digit_sum(co, (n - 1) as nat) + co_digit(co, (n - 1) as nat)
    }
}

/// The corners in their slots, the first seven twisted by the base 3 digits
/// of `co` and the last twisted so that the twists add up to a multiple of 3.
pub open spec fn corners_of_co(co: int) -> Seq<u8> {
    Seq::new(
        8,
        |i: int|
            if i < 7 {
                ccode(i, co_digit(co, i as nat))
            } else {
                ccode(7, neg_twist(co_digit_sum(co, 7) % 3))
            },
    )
}

/// The flips of the first `n` edges as a binary number, the first edge
/// least significant.
pub open spec fn eo_upto(a: Seq<u8>, n: int) -> int
    decreases n,
{
    if n <= 0 {
        0
    } else {
        eo_upto(a, n - 1) + efl(a[n - 1]) * pow2((n - 1) as nat)
    }
}

/// The edge orientation coordinate: the flips of the first eleven edges in
/// binary.
pub open spec fn eo_spec(a: Seq<u8>) -> int {
    eo_upto(a, 11)
}

/// Bit `i` of `x`.
pub open spec fn bit(x: int, i: nat) -> int {
    (x / (pow2(i) as int)) % 2
}

/// The number of one bits among the first `n` bits of `x`.
pub open spec fn ones_upto(x: int, n: nat) -> int
    decreases n,
{
    if n == 0 {
        0
    } else {
        ones_upto(x, (n - 1) as nat) + bit(x, (n - 1) as nat)
    }
}

/// The edges in their slots, the first eleven flipped by the bits of `eo`
/// (of which the eleven lowest are read) and the last flipped so that the
/// flips add up to an even number.
pub open spec fn edges_of_eo(eo: int) -> Seq<u8> {
    let y = eo % 2048;
    Seq::new(
        12,
        |i: int|
            if i < 11 {
                ecode(i, bit(y, i as nat))
            } else {
                ecode(11, ones_upto(y, 16) % 2)
            },
    )
}

/// Every power of 3 is positive.
proof fn lemma_pow3_pos(k: nat)
    ensures
        pow3(k) >= 1,
    decreases k,
{
    if k > 0 {
        lemma_pow3_pos((k - 1) as nat);
    }
}

/// The twists of the first `n` corners of `corners_of_co(co)` read back the
/// `n` lowest base 3 digits of `co`, and add up to their sum.
proof fn lemma_co_of_digits(co: int, n: nat)
    requires
        0 <= co,
        n <= 7,
    ensures
        co_upto(corners_of_co(co), n as int) == co % pow3(n),
        crate::corners::twist_sum(corners_of_co(co), n as int) == co_digit_sum(co, n),
    decreases n,
{
    let a = corners_of_co(co);
    if n == 0 {
        assert(co % 1 == 0);
    } else {
        let m = (n - 1) as nat;
        lemma_co_of_digits(co, m);
        let p = pow3(m);
        lemma_pow3_pos(m);
        crate::corners::lemma_ccode(m as int, co_digit(co, m));
        assert(ctw(a[m as int]) == co_digit(co, m));
        vstd::arithmetic::div_mod::lemma_mod_breakdown(co, p, 3);
        vstd::arithmetic::mul::lemma_mul_is_commutative(p, 3);
        vstd::arithmetic::mul::lemma_mul_is_commutative(p, co_digit(co, m));
        assert(pow3(n) == 3 * p);
    }
}

/// The twists of the first `n` corners, read as a base 3 number, are below
/// `3^n`.
proof fn lemma_co_upto_bound(a: Seq<u8>, n: int)
    requires
        crate::corners::corner_lanes(a),
        0 <= n <= 8,
    ensures
        0 <= co_upto(a, n) < pow3(n as nat),
    decreases n,
{
    lemma_pow3_pos(n as nat);
    if n > 0 {
        lemma_co_upto_bound(a, n - 1);
        let p = pow3((n - 1) as nat);
        crate::corners::lemma_ccode_of(a[n - 1]);
        let t = ctw(a[n - 1]);
        assert(t * p <= 2 * p) by (nonlinear_arith)
            requires
                0 <= t <= 2,
                p >= 1;
        assert(t * p >= 0) by (nonlinear_arith)
            requires
                0 <= t,
                p >= 1;
    }
}

/// Two positions whose first `n` twists read as the same base 3 number have
/// the same first `n` twists.
proof fn lemma_co_upto_injective(a: Seq<u8>, b: Seq<u8>, n: int)
    requires
        crate::corners::corner_lanes(a),
        crate::corners::corner_lanes(b),
        0 <= n <= 8,
        co_upto(a, n) == co_upto(b, n),
    ensures
        forall|i: int| 0 <= i < n ==> #[trigger] ctw(a[i]) == ctw(b[i]),
    decreases n,
{
    if n > 0 {
        let p = pow3((n - 1) as nat);
        lemma_co_upto_bound(a, n - 1);
        lemma_co_upto_bound(b, n - 1);
        crate::corners::lemma_ccode_of(a[n - 1]);
        crate::corners::lemma_ccode_of(b[n - 1]);
        let x = co_upto(a, n);
        vstd::arithmetic::mul::lemma_mul_is_commutative(ctw(a[n - 1]), p);
        vstd::arithmetic::mul::lemma_mul_is_commutative(ctw(b[n - 1]), p);
        vstd::arithmetic::div_mod::lemma_fundamental_div_mod_converse(x, p, ctw(a[n - 1]), co_upto(a, n - 1));
        vstd::arithmetic::div_mod::lemma_fundamental_div_mod_converse(x, p, ctw(b[n - 1]), co_upto(b, n - 1));
        lemma_co_upto_injective(a, b, n - 1);
    }
}

/// Reading the orientation coordinate of the corners that a coordinate
/// gives returns it: the corners stay in their slots and add no net twist.
pub proof fn law_co_roundtrip(co: int)
    requires
        0 <= co < NCO,
    ensures
        co_spec(corners_of_co(co)) == co,
        crate::corners::net_twist_spec(corners_of_co(co)) == 0,
        crate::corners::corners_perm(corners_of_co(co)),
        forall|i: int| 0 <= i < 8 ==> crate::corners::cid(#[trigger] corners_of_co(co)[i]) == i,
{
    let a = corners_of_co(co);
    lemma_co_of_digits(co, 7);
    reveal_with_fuel(pow3, 8);
    assert(pow3(7) == 2187);
    vstd::arithmetic::div_mod::lemma_small_mod(co as nat, 2187);
    let s = co_digit_sum(co, 7);
    crate::corners::lemma_ccode(7, neg_twist(s % 3));
    assert(crate::corners::twist_sum(a, 8) == s + neg_twist(s % 3));
    assert((s + neg_twist(s % 3)) % 3 == 0) by {
        vstd::arithmetic::div_mod::lemma_fundamental_div_mod(s, 3);
    }
    assert forall|i: int| 0 <= i < 8 implies crate::corners::cid(#[trigger] a[i]) == i && a[i] < 24 by {
        if i < 7 {
            crate::corners::lemma_ccode(i, co_digit(co, i as nat));
        }
    }
}

/// The orientation coordinate loses nothing of corners that stay in their
/// slots with no net twist: the corners that it gives are those corners.
pub proof fn law_co_oriented(a: Seq<u8>)
    requires
        crate::corners::corner_lanes(a),
        forall|i: int| 0 <= i < 8 ==> crate::corners::cid(#[trigger] a[i]) == i,
        crate::corners::net_twist_spec(a) == 0,
    ensures
        0 <= co_spec(a) < NCO,
        corners_of_co(co_spec(a)) == a,
{
    let co = co_spec(a);
    lemma_co_upto_bound(a, 7);
    reveal_with_fuel(pow3, 8);
    assert(pow3(7) == 2187);
    law_co_roundtrip(co);
    let b = corners_of_co(co);
    lemma_co_upto_injective(a, b, 7);
    lemma_twist_sum_same(a, b, 7);
    crate::corners::lemma_ccode_of(a[7]);
    crate::corners::lemma_ccode_of(b[7]);
    assert(ctw(a[7]) == ctw(b[7])) by {
        let s = crate::corners::twist_sum(a, 7);
        vstd::arithmetic::div_mod::lemma_fundamental_div_mod(s, 3);
    }
    assert forall|i: int| 0 <= i < 8 implies #[trigger] b[i] == a[i] by {
        crate::corners::lemma_ccode_of(a[i]);
        crate::corners::lemma_ccode_of(b[i]);
    }
    assert(b =~= a);
}

/// The corners that the coordinate of `x` gives have the twists of `x`
/// when `x` has no net twist.
proof fn lemma_co_keeps_twists(x: Seq<u8>)
    requires
        crate::corners::corner_lanes(x),
        crate::corners::net_twist_spec(x) == 0,
    ensures
        crate::corners::corner_lanes(corners_of_co(co_spec(x))),
        forall|i: int| 0 <= i < 8 ==> #[trigger] ctw(corners_of_co(co_spec(x))[i]) == ctw(x[i]),
{
    let co = co_spec(x);
    lemma_co_upto_bound(x, 7);
    reveal_with_fuel(pow3, 8);
    assert(pow3(7) == 2187);
    law_co_roundtrip(co);
    let b = corners_of_co(co);
    lemma_co_upto_injective(x, b, 7);
    lemma_twist_sum_same(x, b, 7);
    crate::corners::lemma_ccode_of(x[7]);
    crate::corners::lemma_ccode_of(b[7]);
    assert(ctw(x[7]) == ctw(b[7])) by {
        let s = crate::corners::twist_sum(x, 7);
        vstd::arithmetic::div_mod::lemma_fundamental_div_mod(s, 3);
    }
}

/// Positions with the same twists read as the same coordinate.
proof fn lemma_co_same_twists(a: Seq<u8>, b: Seq<u8>, n: int)
    requires
        forall|i: int| 0 <= i < n ==> #[trigger] ctw(a[i]) == ctw(b[i]),
    ensures
        co_upto(a, n) == co_upto(b, n),
    decreases n,
{
    if n > 0 {
        lemma_co_same_twists(a, b, n - 1);
    }
}

/// The table entry for a turn from the coordinate of a position with no net
/// twist is the coordinate of the turned position: the coordinate follows
/// the turns.
pub proof fn law_co_follows_turns(x: Seq<u8>, t: Turn)
    requires
        crate::corners::corner_lanes(x),
        crate::corners::net_twist_spec(x) == 0,
    ensures
        co_after(co_spec(x), t) == co_spec(corners_compose(x, corner_turn(t))),
{
    let y = corners_of_co(co_spec(x));
    lemma_co_keeps_twists(x);
    let tt = corner_turn(t);
    crate::corners::law_corner_turn_valid(t);
    assert forall|i: int| 0 <= i < 8 implies #[trigger] ctw(corners_compose(y, tt)[i]) == ctw(corners_compose(x, tt)[i]) by {
        let v = tt[i];
        let j = crate::corners::cid(v);
        crate::corners::lemma_ccode_of(v);
        crate::corners::lemma_ccode_of(x[j]);
        crate::corners::lemma_ccode_of(y[j]);
        crate::corners::lemma_ccode(crate::corners::cid(x[j]), (ctw(x[j]) + ctw(v)) % 3);
        crate::corners::lemma_ccode(crate::corners::cid(y[j]), (ctw(y[j]) + ctw(v)) % 3);
    }
    lemma_co_same_twists(corners_compose(y, tt), corners_compose(x, tt), 7);
}

/// Positions with the same first `n` twists have the same sum of them.
proof fn lemma_twist_sum_same(a: Seq<u8>, b: Seq<u8>, n: int)
    requires
        forall|i: int| 0 <= i < n ==> #[trigger] ctw(a[i]) == ctw(b[i]),
    ensures
        crate::corners::twist_sum(a, n) == crate::corners::twist_sum(b, n),
    decreases n,
{
    if n > 0 {
        lemma_twist_sum_same(a, b, n - 1);
    }
}

/// The number of one bits of `x`, as a `u32`.
pub open spec fn count_ones_spec(x: u16) -> u32 {
    ones_upto(x as int, 16) as u32
}

/// `u16::count_ones`: the number of ones in the binary representation of
/// `x`.
#[verifier::external_body]
fn count_ones(x: u16) -> (r: u32)
    ensures
        r == ones_upto(x as int, 16),
        r == count_ones_spec(x),
{
    x.count_ones()
}

/// Conversion between corners and their orientation coordinate.
pub trait COConv: Sized {
    /// The codes of the corners.
    spec fn co_lanes(&self) -> Seq<u8>;

    /// The orientation coordinate: the twists of the first seven corners in
    /// base 3.
    fn co(&self) -> (r: u16)
        ensures
            r == co_spec(self.co_lanes()),
    ;

    /// The corners in their slots with the twists that `co` gives.
    fn from_co(co: u16) -> (r: Self)
        ensures
            r.co_lanes() == corners_of_co(co as int),
    ;
}

/// Conversion between edges and their orientation coordinate.
pub trait EOConv: Sized {
    /// The codes of the edges.
    spec fn eo_lanes(&self) -> Seq<u8>;

    /// The orientation coordinate: the flips of the first eleven edges in
    /// binary.
    fn eo(&self) -> (r: u16)
        ensures
            r == eo_spec(self.eo_lanes()),
    ;

    /// The edges in their slots with the flips that `eo` gives.
    fn from_eo(eo: u16) -> (r: Self)
        ensures
            r.eo_lanes() == edges_of_eo(eo as int),
    ;
}

/// The corner orientation coordinate after the turn `t` from the corners
/// with coordinate `co`.
pub open spec fn co_after(co: int, t: Turn) -> int {
    co_spec(corners_compose(corners_of_co(co), corner_turn(t)))
}

/// The edge orientation coordinate after the turn `t` from the edges with
/// coordinate `eo`.
pub open spec fn eo_after(eo: int, t: Turn) -> int {
    eo_spec(edges_compose(edges_of_eo(eo), edge_turn(t)))
}

/// A table of the corner orientation coordinate after each turn from each
/// coordinate.
pub struct COMul(Vec<Vec<u16>>);

/// The corner orientation table: row `i` holds, for each turn in order of
/// its number, the coordinate after that turn from the coordinate `i`.
pub open spec fn co_table() -> Seq<Seq<int>> {
    Seq::new(NCO as nat, |i: int| Seq::new(18, |k: int| co_after(i, turn_of(k))))
}

impl View for COMul {
    type V = Seq<Seq<int>>;

    /// The entries of the table, row by row.
    closed spec fn view(&self) -> Seq<Seq<int>> {
        self.0@.map_values(|row: Vec<u16>| row@.map_values(|x: u16| x as int))
    }
}

impl COMul {
    #[verifier::type_invariant]
    closed spec fn wf(self) -> bool {
        &&& self.0@.len() == NCO
        &&& forall|i: int| 0 <= i < NCO ==> (#[trigger] self.0@[i])@.len() == 18
        &&& forall|i: int, k: int|
            0 <= i < NCO && 0 <= k < 18 ==> (#[trigger] self.0@[i]@[k]) == co_after(i, turn_of(k))
    }

    /// Builds the table.
    pub fn new() -> (r: COMul)
        ensures
            r@ == co_table(),
    {
        let mut v: Vec<Vec<u16>> = Vec::new();
        let mut i: u16 = 0;
        while i < NCO
            invariant
                0 <= i <= NCO,
                v@.len() == i,
                forall|j: int| 0 <= j < i ==> (#[trigger] v@[j])@.len() == 18,
                forall|j: int, k: int|
                    0 <= j < i && 0 <= k < 18 ==> (#[trigger] v@[j]@[k]) == co_after(j, turn_of(k)),
            decreases NCO - i,
        {
            let mut row: Vec<u16> = Vec::new();
            let mut k: u8 = 0;
            while k < 18
                invariant
                    0 <= k <= 18,
                    row@.len() == k,
                    forall|m: int| 0 <= m < k ==> row@[m] == co_after(i as int, turn_of(m)),
                decreases 18 - k,
            {
                let t = Turn::from_index(k);
                row.push((Corners::from_co(i) * t).co());
                k = k + 1;
            }
            v.push(row);
            i = i + 1;
        }
        let r = COMul(v);
        proof {
            assert forall|j: int| 0 <= j < NCO implies #[trigger] r@[j] == co_table()[j] by {
                assert(r@[j] =~= co_table()[j]);
            }
            assert(r@ =~= co_table());
        }
        r
    }

    /// The corner orientation coordinate after the turn `t` from the
    /// coordinate `co`.
    pub fn mul(&self, co: u16, t: Turn) -> (r: u16)
        requires
            co < NCO,
        ensures
            r == co_after(co as int, t),
    {
        proof {
            use_type_invariant(self);
        }
        self.0[co as usize][t.index()]
    }
}

/// A table of the edge orientation coordinate after each turn from each
/// coordinate.
pub struct EOMul(Vec<Vec<u16>>);

/// The edge orientation table: row `i` holds, for each turn in order of
/// its number, the coordinate after that turn from the coordinate `i`.
pub open spec fn eo_table() -> Seq<Seq<int>> {
    Seq::new(NEO as nat, |i: int| Seq::new(18, |k: int| eo_after(i, turn_of(k))))
}

impl View for EOMul {
    type V = Seq<Seq<int>>;

    /// The entries of the table, row by row.
    closed spec fn view(&self) -> Seq<Seq<int>> {
        self.0@.map_values(|row: Vec<u16>| row@.map_values(|x: u16| x as int))
    }
}

impl EOMul {
    #[verifier::type_invariant]
    closed spec fn wf(self) -> bool {
        &&& self.0@.len() == NEO
        &&& forall|i: int| 0 <= i < NEO ==> (#[trigger] self.0@[i])@.len() == 18
        &&& forall|i: int, k: int|
            0 <= i < NEO && 0 <= k < 18 ==> (#[trigger] self.0@[i]@[k]) == eo_after(i, turn_of(k))
    }

    /// Builds the table.
    pub fn new() -> (r: EOMul)
        ensures
            r@ == eo_table(),
    {
        let mut v: Vec<Vec<u16>> = Vec::new();
        let mut i: u16 = 0;
        while i < NEO
            invariant
                0 <= i <= NEO,
                v@.len() == i,
                forall|j: int| 0 <= j < i ==> (#[trigger] v@[j])@.len() == 18,
                forall|j: int, k: int|
                    0 <= j < i && 0 <= k < 18 ==> (#[trigger] v@[j]@[k]) == eo_after(j, turn_of(k)),
            decreases NEO - i,
        {
            let mut row: Vec<u16> = Vec::new();
            let mut k: u8 = 0;
            while k < 18
                invariant
                    0 <= k <= 18,
                    row@.len() == k,
                    forall|m: int| 0 <= m < k ==> row@[m] == eo_after(i as int, turn_of(m)),
                decreases 18 - k,
            {
                let t = Turn::from_index(k);
                row.push((Edges::from_eo(i) * t).eo());
                k = k + 1;
            }
            v.push(row);
            i = i + 1;
        }
        let r = EOMul(v);
        proof {
            assert forall|j: int| 0 <= j < NEO implies #[trigger] r@[j] == eo_table()[j] by {
                assert(r@[j] =~= eo_table()[j]);
            }
            assert(r@ =~= eo_table());
        }
        r
    }

    /// The edge orientation coordinate after the turn `t` from the
    /// coordinate `eo`.
    pub fn mul(&self, eo: u16, t: Turn) -> (r: u16)
        requires
            eo < NEO,
        ensures
            r == eo_after(eo as int, t),
    {
        proof {
            use_type_invariant(self);
        }
        self.0[eo as usize][t.index()]
    }
}

impl COConv for Corners {
    open spec fn co_lanes(&self) -> Seq<u8> {
        self@
    }

    fn co(&self) -> (r: u16) {
        self.valid_lanes();
        let mut sum: u16 = 0;
        let mut p: u16 = 1;
        let mut i: u8 = 0;
        while i < 7
            invariant
                0 <= i <= 7,
                crate::corners::corner_lanes(self@),
                p == pow3(i as nat),
                1 <= p <= 2187,
                sum == co_upto(self@, i as int),
                sum < p,
            decreases 7 - i,
        {
            let t = self.at(i).twist() as u16;
            proof {
                assert(t * p <= 2 * p) by (nonlinear_arith)
                    requires t <= 2;
            }
            sum = sum + t * p;
            proof {
                lemma_pow3_small(i as nat);
            }
            p = p * 3;
            i = i + 1;
        }
        sum
    }

    fn from_co(co: u16) -> (r: Corners) {
        let mut out = Corners::default();
        let mut net: u8 = 0;
        let mut p: u16 = 1;
        let mut i: u8 = 0;
        while i < 7
            invariant
                0 <= i <= 7,
                p == pow3(i as nat),
                1 <= p <= 2187,
                net == co_digit_sum(co as int, i as nat),
                net <= 2 * i,
                out@.len() == 8,
                forall|j: int| 0 <= j < i ==> out@[j] == corners_of_co(co as int)[j],
                forall|j: int| i <= j < 8 ==> out@[j] == j as u8,
            decreases 7 - i,
        {
            proof {
                lemma_pow3_small(i as nat);
            }
            let twist = ((co / p) % 3) as u8;
            let c = out.at(i).dotwist(twist);
            out = out.with(i, c);
            net = net + twist;
            p = p * 3;
            i = i + 1;
        }
        net = net % 3;
        let c = out.at(7).dotwist((3 - net) % 3);
        out = out.with(7, c);
        assert(out@ =~= corners_of_co(co as int));
        out
    }
}

impl COConv for crate::corners::corners_neon::Corners {
    open spec fn co_lanes(&self) -> Seq<u8> {
        self@
    }

    /// Each lane's twist, widened, times the power of 3 of its slot (0 for
    /// the last slot), all added up.
    fn co(&self) -> (r: u16) {
        self.valid_lanes();
        let mut sum: u16 = 0;
        let mut p: u16 = 1;
        let mut i: usize = 0;
        while i < 8
            invariant
                0 <= i <= 8,
                crate::corners::corner_lanes(self@),
                i <= 7 ==> p == pow3(i as nat),
                1 <= p <= 6561,
                sum == co_upto(self@, if i <= 7 { i as int } else { 7 }),
                sum < 2187,
                i <= 7 ==> sum < p,
            decreases 8 - i,
        {
            let v = self.lane(i);
            let t = (v >> 3) as u16;
            proof {
                assert(t == ctw(v)) by (bit_vector)
                    requires
                        t == (v >> 3u8) as u16,
                ;
                assert(v == self@[i as int]);
            }
            let f: u16 = if i < 7 {
                p
            } else {
                0
            };
            proof {
                assert(t * f <= 2 * f) by (nonlinear_arith)
                    requires
                        t <= 2,
                ;
                if i < 7 {
                    lemma_pow3_small(i as nat);
                }
            }
            sum = sum + t * f;
            if i < 7 {
                p = p * 3;
            }
            i = i + 1;
        }
        sum
    }

    fn from_co(co: u16) -> (r: crate::corners::corners_neon::Corners) {
        let a = Corners::from_co(co);
        crate::corners::corners_neon::Corners::from(a)
    }
}

impl Corners {
    /// The same position with the corner `c` in slot `i`.
    pub fn with(self, i: u8, c: Corner) -> (r: Corners)
        requires
            i < 8,
        ensures
            r@ == self@.update(i as int, c@),
    {
        let mut a: [Corner; 8] = [self.at(0), self.at(1), self.at(2), self.at(3), self.at(4), self.at(5), self.at(6), self.at(7)];
        a[i as usize] = c;
        self.valid_lanes();
        c.code_bound();
        let ghost s = self@;
        proof {
            assert forall|k: int| 0 <= k < 8 implies (#[trigger] a@[k])@ < 24 by {
                if k == i {
                    assert(a@[k] == c);
                } else {
                    assert(a@[k]@ == s[k]);
                }
            }
        }
        let r = Corners::from_array(a);
        assert(r@ =~= s.update(i as int, c@));
        r
    }
}

/// At most `n` of the first `n` bits are ones.
proof fn lemma_ones_bound(x: int, n: nat)
    requires
        x >= 0,
    ensures
        0 <= ones_upto(x, n) <= n,
    decreases n,
{
    if n > 0 {
        lemma_ones_bound(x, (n - 1) as nat);
        lemma_pow2_pos((n - 1) as nat);
    }
}

/// The flips of the first `n` edges are a number below `2^n`.
proof fn lemma_eo_bound(a: Seq<u8>, n: int)
    requires
        crate::edges::edge_lanes(a),
        0 <= n <= 12,
    ensures
        0 <= eo_upto(a, n) < pow2(n as nat),
    decreases n,
{
    lemma_pow2_pos(n as nat);
    if n > 0 {
        lemma_eo_bound(a, n - 1);
        lemma_pow2_adds((n - 1) as nat, 1);
        lemma2_to64();
        assert(crate::edges::edge_code_ok(a[n - 1]));
        assert(efl(a[n - 1]) * pow2((n - 1) as nat) <= pow2((n - 1) as nat)) by (nonlinear_arith)
            requires efl(a[n - 1]) <= 1, efl(a[n - 1]) >= 0;
    }
}

/// The flips of the first `n` edges of `edges_of_eo(eo)` read back the `n`
/// lowest bits of the eleven that it reads, and add up to the number of ones
/// among them.
proof fn lemma_eo_of_bits(eo: int, n: nat)
    requires
        0 <= eo,
        n <= 11,
    ensures
        eo_upto(edges_of_eo(eo), n as int) == (eo % 2048) % (pow2(n) as int),
        crate::edges::flip_sum(edges_of_eo(eo), n as int) == ones_upto(eo % 2048, n),
    decreases n,
{
    let a = edges_of_eo(eo);
    let y = eo % 2048;
    if n == 0 {
        lemma2_to64();
        assert(y % 1 == 0);
    } else {
        let m = (n - 1) as nat;
        lemma_eo_of_bits(eo, m);
        let p = pow2(m);
        lemma_pow2_pos(m);
        crate::edges::lemma_ecode(m as int, bit(y, m));
        vstd::arithmetic::div_mod::lemma_mod_breakdown(y, p as int, 2);
        vstd::arithmetic::mul::lemma_mul_is_commutative(p as int, 2);
        vstd::arithmetic::mul::lemma_mul_is_commutative(p as int, bit(y, m));
        lemma_pow2_adds(m, 1);
        lemma2_to64();
    }
}

/// The bits of a number below `2^11` from bit 11 on are zero, so it has as
/// many ones among its first sixteen bits as among its first eleven.
proof fn lemma_ones_high_zero(y: int, n: nat)
    requires
        0 <= y < 2048,
        11 <= n <= 16,
    ensures
        ones_upto(y, n) == ones_upto(y, 11),
    decreases n,
{
    if n > 11 {
        lemma_ones_high_zero(y, (n - 1) as nat);
        let m = (n - 1) as nat;
        lemma_pow2_adds(11, (m - 11) as nat);
        lemma_pow2_pos((m - 11) as nat);
        lemma2_to64();
        assert(pow2(m) >= 2048) by (nonlinear_arith)
            requires
                pow2(m) == pow2(11) * pow2((m - 11) as nat),
                pow2(11) == 2048,
                pow2((m - 11) as nat) >= 1;
        vstd::arithmetic::div_mod::lemma_basic_div(y, pow2(m) as int);
    }
}

/// Two positions whose first `n` flips read as the same binary number have
/// the same first `n` flips.
proof fn lemma_eo_upto_injective(a: Seq<u8>, b: Seq<u8>, n: int)
    requires
        crate::edges::edge_lanes(a),
        crate::edges::edge_lanes(b),
        0 <= n <= 12,
        eo_upto(a, n) == eo_upto(b, n),
    ensures
        forall|i: int| 0 <= i < n ==> #[trigger] efl(a[i]) == efl(b[i]),
    decreases n,
{
    if n > 0 {
        let p = pow2((n - 1) as nat);
        lemma_pow2_pos((n - 1) as nat);
        lemma_eo_bound(a, n - 1);
        lemma_eo_bound(b, n - 1);
        crate::edges::lemma_ecode_of(a[n - 1]);
        crate::edges::lemma_ecode_of(b[n - 1]);
        let x = eo_upto(a, n);
        vstd::arithmetic::mul::lemma_mul_is_commutative(efl(a[n - 1]), p as int);
        vstd::arithmetic::mul::lemma_mul_is_commutative(efl(b[n - 1]), p as int);
        vstd::arithmetic::div_mod::lemma_fundamental_div_mod_converse(x, p as int, efl(a[n - 1]), eo_upto(a, n - 1));
        vstd::arithmetic::div_mod::lemma_fundamental_div_mod_converse(x, p as int, efl(b[n - 1]), eo_upto(b, n - 1));
        lemma_eo_upto_injective(a, b, n - 1);
    }
}

/// Reading the orientation coordinate of the edges that a coordinate gives
/// returns its eleven low bits: the edges stay in their slots and add no net
/// flip.
pub proof fn law_eo_roundtrip(eo: int)
    requires
        0 <= eo,
    ensures
        eo_spec(edges_of_eo(eo)) == eo % 2048,
        crate::edges::net_flip_spec(edges_of_eo(eo)) == 0,
        crate::edges::edges_perm(edges_of_eo(eo)),
        forall|i: int| 0 <= i < 12 ==> crate::edges::eid(#[trigger] edges_of_eo(eo)[i]) == i,
{
    let a = edges_of_eo(eo);
    let y = eo % 2048;
    lemma_eo_of_bits(eo, 11);
    lemma2_to64();
    vstd::arithmetic::div_mod::lemma_small_mod(y as nat, 2048);
    lemma_ones_high_zero(y, 16);
    lemma_ones_bound(y, 11);
    let s = ones_upto(y, 11);
    crate::edges::lemma_ecode(11, s % 2);
    assert(crate::edges::flip_sum(a, 12) == s + s % 2);
    assert((s + s % 2) % 2 == 0) by {
        vstd::arithmetic::div_mod::lemma_fundamental_div_mod(s, 2);
    }
    assert forall|i: int| 0 <= i < 12 implies crate::edges::eid(#[trigger] a[i]) == i && crate::edges::edge_code_ok(a[i]) by {
        if i < 11 {
            crate::edges::lemma_ecode(i, bit(y, i as nat));
        }
    }
}

/// The orientation coordinate loses nothing of edges that stay in their
/// slots with no net flip: the edges that it gives are those edges.
pub proof fn law_eo_oriented(a: Seq<u8>)
    requires
        crate::edges::edge_lanes(a),
        forall|i: int| 0 <= i < 12 ==> crate::edges::eid(#[trigger] a[i]) == i,
        crate::edges::net_flip_spec(a) == 0,
    ensures
        0 <= eo_spec(a) < NEO,
        edges_of_eo(eo_spec(a)) == a,
{
    let eo = eo_spec(a);
    lemma_eo_bound(a, 11);
    lemma2_to64();
    law_eo_roundtrip(eo);
    vstd::arithmetic::div_mod::lemma_small_mod(eo as nat, 2048);
    let b = edges_of_eo(eo);
    lemma_eo_upto_injective(a, b, 11);
    lemma_flip_sum_same(a, b, 11);
    crate::edges::lemma_ecode_of(a[11]);
    crate::edges::lemma_ecode_of(b[11]);
    assert(efl(a[11]) == efl(b[11])) by {
        let s = crate::edges::flip_sum(a, 11);
        vstd::arithmetic::div_mod::lemma_fundamental_div_mod(s, 2);
    }
    assert forall|i: int| 0 <= i < 12 implies #[trigger] b[i] == a[i] by {
        crate::edges::lemma_ecode_of(a[i]);
        crate::edges::lemma_ecode_of(b[i]);
    }
    assert(b =~= a);
}

/// The edges that the coordinate of `x` gives have the flips of `x` when
/// `x` has no net flip.
proof fn lemma_eo_keeps_flips(x: Seq<u8>)
    requires
        crate::edges::edge_lanes(x),
        crate::edges::net_flip_spec(x) == 0,
    ensures
        crate::edges::edge_lanes(edges_of_eo(eo_spec(x))),
        forall|i: int| 0 <= i < 12 ==> #[trigger] efl(edges_of_eo(eo_spec(x))[i]) == efl(x[i]),
{
    let eo = eo_spec(x);
    lemma_eo_bound(x, 11);
    lemma2_to64();
    law_eo_roundtrip(eo);
    vstd::arithmetic::div_mod::lemma_small_mod(eo as nat, 2048);
    let b = edges_of_eo(eo);
    lemma_eo_upto_injective(x, b, 11);
    lemma_flip_sum_same(x, b, 11);
    crate::edges::lemma_ecode_of(x[11]);
    crate::edges::lemma_ecode_of(b[11]);
    assert(efl(x[11]) == efl(b[11])) by {
        let s = crate::edges::flip_sum(x, 11);
        vstd::arithmetic::div_mod::lemma_fundamental_div_mod(s, 2);
    }
}

/// Positions with the same flips read as the same coordinate.
proof fn lemma_eo_same_flips(a: Seq<u8>, b: Seq<u8>, n: int)
    requires
        forall|i: int| 0 <= i < n ==> #[trigger] efl(a[i]) == efl(b[i]),
    ensures
        eo_upto(a, n) == eo_upto(b, n),
    decreases n,
{
    if n > 0 {
        lemma_eo_same_flips(a, b, n - 1);
    }
}

/// The table entry for a turn from the coordinate of a position with no net
/// flip is the coordinate of the turned position: the coordinate follows
/// the turns.
pub proof fn law_eo_follows_turns(x: Seq<u8>, t: Turn)
    requires
        crate::edges::edge_lanes(x),
        crate::edges::net_flip_spec(x) == 0,
    ensures
        eo_after(eo_spec(x), t) == eo_spec(edges_compose(x, edge_turn(t))),
{
    let y = edges_of_eo(eo_spec(x));
    lemma_eo_keeps_flips(x);
    let tt = edge_turn(t);
    crate::edges::law_edge_turn_valid(t);
    assert forall|i: int| 0 <= i < 12 implies #[trigger] efl(edges_compose(y, tt)[i]) == efl(edges_compose(x, tt)[i]) by {
        let v = tt[i];
        crate::edges::lemma_ecode_of(v);
        let j = crate::edges::eid(v);
        crate::edges::lemma_ecode_of(x[j]);
        crate::edges::lemma_ecode_of(y[j]);
        crate::edges::lemma_ecode(crate::edges::eid(x[j]), (efl(x[j]) + efl(v)) % 2);
        crate::edges::lemma_ecode(crate::edges::eid(y[j]), (efl(y[j]) + efl(v)) % 2);
    }
    lemma_eo_same_flips(edges_compose(y, tt), edges_compose(x, tt), 11);
}

/// In the orientation tables a turn followed by its inverse comes back to
/// the coordinate it started from.
pub proof fn law_table_inverse(co: int, eo: int, t: Turn)
    requires
        0 <= co < NCO,
        0 <= eo < NEO,
    ensures
        co_after(co_after(co, t), crate::turns::turn_inverse(t)) == co,
        eo_after(eo_after(eo, t), crate::turns::turn_inverse(t)) == eo,
{
    let u = crate::turns::turn_inverse(t);
    let x = corners_of_co(co);
    law_co_roundtrip(co);
    crate::corners::law_corner_turn_valid(t);
    crate::corners::law_corner_turn_valid(u);
    let y = corners_compose(x, corner_turn(t));
    crate::corners::lemma_compose_valid(x, corner_turn(t));
    crate::corners::law_corners_net_twist(x, corner_turn(t));
    law_co_follows_turns(y, u);
    crate::corners::law_corners_assoc(x, corner_turn(t), corner_turn(u));
    crate::group::law_turn_inverse(t);
    crate::corners::law_corners_identity(x);
    let e = edges_of_eo(eo);
    law_eo_roundtrip(eo);
    vstd::arithmetic::div_mod::lemma_small_mod(eo as nat, 2048);
    crate::edges::law_edge_turn_valid(t);
    crate::edges::law_edge_turn_valid(u);
    let f = edges_compose(e, edge_turn(t));
    crate::edges::lemma_edges_compose_valid(e, edge_turn(t));
    crate::edges::law_edges_net_flip(e, edge_turn(t));
    law_eo_follows_turns(f, u);
    crate::edges::law_edges_assoc(e, edge_turn(t), edge_turn(u));
    crate::edges::law_edges_identity(e);
}

/// Positions with the same first `n` flips have the same sum of them.
proof fn lemma_flip_sum_same(a: Seq<u8>, b: Seq<u8>, n: int)
    requires
        forall|i: int| 0 <= i < n ==> #[trigger] efl(a[i]) == efl(b[i]),
    ensures
        crate::edges::flip_sum(a, n) == crate::edges::flip_sum(b, n),
    decreases n,
{
    if n > 0 {
        lemma_flip_sum_same(a, b, n - 1);
    }
}

/// Setting the flip bit of a position above the bits that `acc` uses.
proof fn lemma_eo_step(acc: u16, b: u16, i: u16)
    requires
        i < 12,
        b <= 1,
        acc < pow2(i as nat),
    ensures
        acc | (b << i) == acc + b * pow2(i as nat),
        acc + b * pow2(i as nat) < pow2((i + 1) as nat),
{
    lemma_pow2_adds(i as nat, 1);
    lemma_pow2_pos(i as nat);
    lemma2_to64();
    vstd::bits::lemma_u16_pow2_no_overflow((i + 1) as nat);
    assert(b * pow2(i as nat) <= pow2(i as nat)) by (nonlinear_arith)
        requires b <= 1;
    lemma_u16_shl_is_mul(b, i);
    lemma_u16_shl_is_mul(1u16, i);
    let bs = b << i;
    assert(acc | bs == acc + bs) by (bit_vector)
        requires
            acc < (1u16 << i),
            i < 12,
            b <= 1,
            bs == b << i;
}

/// Bit `i` of `x`, as read by a shift and a mask.
proof fn lemma_bit_of(x: u16, i: u16)
    requires
        i < 16,
    ensures
        (x >> i) & 1 == bit(x as int, i as nat),
        ((((x >> i) << 4u16) as u8) & 0x10u8) == 16 * bit(x as int, i as nat),
{
    lemma_u16_shr_is_div(x, i);
    let w = x >> i;
    assert(w & 1 == w % 2) by (bit_vector);
    assert((((w << 4u16) as u8) & 0x10u8) == 16 * (w % 2)) by (bit_vector);
}

impl EOConv for Edges {
    open spec fn eo_lanes(&self) -> Seq<u8> {
        self@
    }

    fn eo(&self) -> (r: u16) {
        self.valid_lanes();
        proof {
            lemma2_to64();
        }
        let mut out: u16 = 0;
        let mut i: u8 = 0;
        while i < 12
            invariant
                0 <= i <= 12,
                crate::edges::edge_lanes(self@),
                out == eo_upto(self@, i as int),
                out < pow2(i as nat),
            decreases 12 - i,
        {
            let e = self.at(i).code();
            let b = (e as u16) >> 4;
            proof {
                assert(crate::edges::edge_code_ok(self@[i as int]));
                assert(b == efl(e)) by (bit_vector)
                    requires b == (e as u16) >> 4;
                lemma_eo_step(out, b, i as u16);
            }
            out |= b << i;
            i = i + 1;
        }
        let r = out & 0x7ff;
        proof {
            lemma_eo_bound(self@, 11);
            let o11 = eo_upto(self@, 11) as u16;
            assert(pow2(11) == 2048);
            assert(o11 < 2048);
            assert(crate::edges::edge_code_ok(self@[11]));
            let b11 = efl(self@[11]) as u16;
            assert(out == o11 + b11 * 2048);
            assert(out & 0x7ff == o11) by (bit_vector)
                requires
                    out == o11 + b11 * 2048,
                    o11 < 2048,
                    b11 <= 1;
        }
        r
    }

    fn from_eo(eo: u16) -> (r: Edges) {
        let y = eo & 0x7ff;
        let parity = ((count_ones(y) & 1) << 11) as u16;
        let w = y | parity;
        proof {
            assert(y == eo % 2048) by (bit_vector)
                requires y == eo & 0x7ff;
            let c = count_ones_spec(y);
            assert(parity & 0x7ff == 0) by (bit_vector)
                requires parity == ((c & 1) << 11) as u16;
            lemma_ones_bound(y as int, 16);
        }
        let mut out = Edges::default();
        let mut i: u8 = 0;
        while i < 12
            invariant
                0 <= i <= 12,
                y == eo % 2048,
                w == y | parity,
                parity == ((count_ones_spec(y) & 1) << 11) as u16,
                parity & 0x7ff == 0,
                0 <= ones_upto(y as int, 16) <= 16,
                out@.len() == 12,
                forall|j: int| 0 <= j < i ==> out@[j] == edges_of_eo(eo as int)[j],
                forall|j: int| i <= j < 12 ==> out@[j] == j as u8,
            decreases 12 - i,
        {
            proof {
                lemma_bit_of(w, i as u16);
                if i < 11 {
                    lemma_bit_of(y, i as u16);
                    let ii = i as u16;
                    assert((w >> ii) & 1 == (y >> ii) & 1) by (bit_vector)
                        requires
                            w == y | parity,
                            parity & 0x7ff == 0,
                            ii < 11;
                } else {
                    let c = count_ones_spec(y);
                    assert((w >> 11u16) & 1 == (c & 1) as u16) by (bit_vector)
                        requires
                            w == y | parity,
                            y < 2048,
                            parity == ((c & 1) << 11) as u16;
                    assert(c & 1 == c % 2) by (bit_vector);
                }
            }
            let f = ((w >> i) << 4) as u8 & 0x10;
            let e = out.at(i).code();
            let v = e | f;
            proof {
                assert(e == i);
                assert(v == e + f) by (bit_vector)
                    requires
                        e < 12,
                        f == 0 || f == 16,
                        v == e | f;
            }
            out = out.with(i, Edge::from_code(v));
            i = i + 1;
        }
        assert(out@ =~= edges_of_eo(eo as int));
        out
    }
}

impl EOConv for crate::edges::edges_neon::Edges {
    open spec fn eo_lanes(&self) -> Seq<u8> {
        self@
    }

    fn eo(&self) -> (r: u16) {
        Edges::from(*self).eo()
    }

    fn from_eo(eo: u16) -> (r: crate::edges::edges_neon::Edges) {
        crate::edges::edges_neon::Edges::from(Edges::from_eo(eo))
    }
}

impl Edges {
    /// The same position with the edge `e` in slot `i`.
    pub fn with(self, i: u8, e: Edge) -> (r: Edges)
        requires
            i < 12,
        ensures
            r@ == self@.update(i as int, e@),
    {
        let mut a: [Edge; 12] = [
            self.at(0),
            self.at(1),
            self.at(2),
            self.at(3),
            self.at(4),
            self.at(5),
            self.at(6),
            self.at(7),
            self.at(8),
            self.at(9),
            self.at(10),
            self.at(11),
        ];
        a[i as usize] = e;
        self.valid_lanes();
        let c = e.code();
        let ghost s = self@;
        proof {
            assert forall|k: int| 0 <= k < 12 implies crate::edges::edge_code_ok(#[trigger] a@[k]@) by {
                if k == i {
                    assert(a@[k] == e);
                } else {
                    assert(a@[k]@ == s[k]);
                }
            }
        }
        let r = Edges::from_array(a);
        assert(r@ =~= s.update(i as int, e@));
        r
    }
}

} // verus!
