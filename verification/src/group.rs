//! How the turns combine: a turn and its inverse cancel, two turns of one
//! face amount to at most one, and turns of the faces on one axis commute.
use vstd::prelude::*;

use crate::corners::{
    corner_lanes, corner_turn, corners_after, corners_compose, corners_ident, corners_inverse,
    corners_perm, law_corner_turn_valid, law_corners_assoc, law_corners_net_twist,
    lemma_compose_valid, lemma_corners_inverse_unique, net_twist_spec,
};
use crate::edges::{
    edge_lanes, edge_turn, edges_after, edges_compose, edges_ident, edges_inverse, edges_perm,
    law_edge_turn_valid, law_edges_assoc, law_edges_net_flip, lemma_edges_compose_valid,
    lemma_edges_inverse_unique, net_flip_spec,
};
use crate::turns::{face_merge, turn_inverse, turn_of, Turn};

verus! {

/// What turning one face twice does to the corners and the edges.
pub open spec fn merged(a: Turn, b: Turn) -> bool {
    &&& corners_compose(corner_turn(a), corner_turn(b)) =~= match face_merge(a, b) {
        None => corners_ident(),
        Some(c) => corner_turn(c),
    }
    &&& edges_compose(edge_turn(a), edge_turn(b)) =~= match face_merge(a, b) {
        None => edges_ident(),
        Some(c) => edge_turn(c),
    }
}

/// Two turns of face U, each pair worked out.
#[verifier::rlimit(80)]
#[verifier::spinoff_prover]
proof fn lemma_merge_u(a: Turn, b: Turn)
    requires
        a.face_num() == 0,
        b.face_num() == 0,
    ensures
        merged(a, b),
{
    match a {
        Turn::U1 => match b {
            Turn::U1 => {},
            Turn::U2 => {},
            Turn::U3 => {},
            _ => {},
        },
        Turn::U2 => match b {
            Turn::U1 => {},
            Turn::U2 => {},
            Turn::U3 => {},
            _ => {},
        },
        Turn::U3 => match b {
            Turn::U1 => {},
            Turn::U2 => {},
            Turn::U3 => {},
            _ => {},
        },
        _ => {},
    }
}

/// Two turns of face R, each pair worked out.
#[verifier::rlimit(80)]
#[verifier::spinoff_prover]
proof fn lemma_merge_r(a: Turn, b: Turn)
    requires
        a.face_num() == 1,
        b.face_num() == 1,
    ensures
        merged(a, b),
{
    match a {
        Turn::R1 => match b {
            Turn::R1 => {},
            Turn::R2 => {},
            Turn::R3 => {},
            _ => {},
        },
        Turn::R2 => match b {
            Turn::R1 => {},
            Turn::R2 => {},
            Turn::R3 => {},
            _ => {},
        },
        Turn::R3 => match b {
            Turn::R1 => {},
            Turn::R2 => {},
            Turn::R3 => {},
            _ => {},
        },
        _ => {},
    }
}

/// Two turns of face F, each pair worked out.
#[verifier::rlimit(80)]
#[verifier::spinoff_prover]
proof fn lemma_merge_f(a: Turn, b: Turn)
    requires
        a.face_num() == 2,
        b.face_num() == 2,
    ensures
        merged(a, b),
{
    match a {
        Turn::F1 => match b {
            Turn::F1 => {},
            Turn::F2 => {},
            Turn::F3 => {},
            _ => {},
        },
        Turn::F2 => match b {
            Turn::F1 => {},
            Turn::F2 => {},
            Turn::F3 => {},
            _ => {},
        },
        Turn::F3 => match b {
            Turn::F1 => {},
            Turn::F2 => {},
            Turn::F3 => {},
            _ => {},
        },
        _ => {},
    }
}

/// Two turns of face D, each pair worked out.
#[verifier::rlimit(80)]
#[verifier::spinoff_prover]
proof fn lemma_merge_d(a: Turn, b: Turn)
    requires
        a.face_num() == 3,
        b.face_num() == 3,
    ensures
        merged(a, b),
{
    match a {
        Turn::D1 => match b {
            Turn::D1 => {},
            Turn::D2 => {},
            Turn::D3 => {},
            _ => {},
        },
        Turn::D2 => match b {
            Turn::D1 => {},
            Turn::D2 => {},
            Turn::D3 => {},
            _ => {},
        },
        Turn::D3 => match b {
            Turn::D1 => {},
            Turn::D2 => {},
            Turn::D3 => {},
            _ => {},
        },
        _ => {},
    }
}

/// Two turns of face L, each pair worked out.
#[verifier::rlimit(80)]
#[verifier::spinoff_prover]
proof fn lemma_merge_l(a: Turn, b: Turn)
    requires
        a.face_num() == 4,
        b.face_num() == 4,
    ensures
        merged(a, b),
{
    match a {
        Turn::L1 => match b {
            Turn::L1 => {},
            Turn::L2 => {},
            Turn::L3 => {},
            _ => {},
        },
        Turn::L2 => match b {
            Turn::L1 => {},
            Turn::L2 => {},
            Turn::L3 => {},
            _ => {},
        },
        Turn::L3 => match b {
            Turn::L1 => {},
            Turn::L2 => {},
            Turn::L3 => {},
            _ => {},
        },
        _ => {},
    }
}

/// Two turns of face B, each pair worked out.
#[verifier::rlimit(80)]
#[verifier::spinoff_prover]
proof fn lemma_merge_b(a: Turn, b: Turn)
    requires
        a.face_num() == 5,
        b.face_num() == 5,
    ensures
        merged(a, b),
{
    match a {
        Turn::B1 => match b {
            Turn::B1 => {},
            Turn::B2 => {},
            Turn::B3 => {},
            _ => {},
        },
        Turn::B2 => match b {
            Turn::B1 => {},
            Turn::B2 => {},
            Turn::B3 => {},
            _ => {},
        },
        Turn::B3 => match b {
            Turn::B1 => {},
            Turn::B2 => {},
            Turn::B3 => {},
            _ => {},
        },
        _ => {},
    }
}

/// Whether the turns `a` and `b` give the same position in either order.
pub open spec fn commutes(a: Turn, b: Turn) -> bool {
    &&& corners_compose(corner_turn(a), corner_turn(b)) =~= corners_compose(corner_turn(b), corner_turn(a))
    &&& edges_compose(edge_turn(a), edge_turn(b)) =~= edges_compose(edge_turn(b), edge_turn(a))
}

/// A turn of face U and a turn of a face on its axis, each pair worked
/// out.
#[verifier::rlimit(60)]
#[verifier::spinoff_prover]
proof fn lemma_commute_u(a: Turn, b: Turn)
    requires
        a.face_num() == 0,
        b.axis_num() == 0,
    ensures
        commutes(a, b),
{
    match a {
        Turn::U1 => match b {
            Turn::U1 => {},
            Turn::U2 => {},
            Turn::U3 => {},
            Turn::D1 => {},
            Turn::D2 => {},
            Turn::D3 => {},
            _ => {},
        },
        Turn::U2 => match b {
            Turn::U1 => {},
            Turn::U2 => {},
            Turn::U3 => {},
            Turn::D1 => {},
            Turn::D2 => {},
            Turn::D3 => {},
            _ => {},
        },
        Turn::U3 => match b {
            Turn::U1 => {},
            Turn::U2 => {},
            Turn::U3 => {},
            Turn::D1 => {},
            Turn::D2 => {},
            Turn::D3 => {},
            _ => {},
        },
        _ => {},
    }
}

/// A turn of face R and a turn of a face on its axis, each pair worked
/// out.
#[verifier::rlimit(60)]
#[verifier::spinoff_prover]
proof fn lemma_commute_r(a: Turn, b: Turn)
    requires
        a.face_num() == 1,
        b.axis_num() == 1,
    ensures
        commutes(a, b),
{
    match a {
        Turn::R1 => match b {
            Turn::R1 => {},
            Turn::R2 => {},
            Turn::R3 => {},
            Turn::L1 => {},
            Turn::L2 => {},
            Turn::L3 => {},
            _ => {},
        },
        Turn::R2 => match b {
            Turn::R1 => {},
            Turn::R2 => {},
            Turn::R3 => {},
            Turn::L1 => {},
            Turn::L2 => {},
            Turn::L3 => {},
            _ => {},
        },
        Turn::R3 => match b {
            Turn::R1 => {},
            Turn::R2 => {},
            Turn::R3 => {},
            Turn::L1 => {},
            Turn::L2 => {},
            Turn::L3 => {},
            _ => {},
        },
        _ => {},
    }
}

/// A turn of face F and a turn of a face on its axis, each pair worked
/// out.
#[verifier::rlimit(60)]
#[verifier::spinoff_prover]
proof fn lemma_commute_f(a: Turn, b: Turn)
    requires
        a.face_num() == 2,
        b.axis_num() == 2,
    ensures
        commutes(a, b),
{
    match a {
        Turn::F1 => match b {
            Turn::F1 => {},
            Turn::F2 => {},
            Turn::F3 => {},
            Turn::B1 => {},
            Turn::B2 => {},
            Turn::B3 => {},
            _ => {},
        },
        Turn::F2 => match b {
            Turn::F1 => {},
            Turn::F2 => {},
            Turn::F3 => {},
            Turn::B1 => {},
            Turn::B2 => {},
            Turn::B3 => {},
            _ => {},
        },
        Turn::F3 => match b {
            Turn::F1 => {},
            Turn::F2 => {},
            Turn::F3 => {},
            Turn::B1 => {},
            Turn::B2 => {},
            Turn::B3 => {},
            _ => {},
        },
        _ => {},
    }
}

/// A turn of face D and a turn of a face on its axis, each pair worked
/// out.
#[verifier::rlimit(60)]
#[verifier::spinoff_prover]
proof fn lemma_commute_d(a: Turn, b: Turn)
    requires
        a.face_num() == 3,
        b.axis_num() == 0,
    ensures
        commutes(a, b),
{
    match a {
        Turn::D1 => match b {
            Turn::U1 => {},
            Turn::U2 => {},
            Turn::U3 => {},
            Turn::D1 => {},
            Turn::D2 => {},
            Turn::D3 => {},
            _ => {},
        },
        Turn::D2 => match b {
            Turn::U1 => {},
            Turn::U2 => {},
            Turn::U3 => {},
            Turn::D1 => {},
            Turn::D2 => {},
            Turn::D3 => {},
            _ => {},
        },
        Turn::D3 => match b {
            Turn::U1 => {},
            Turn::U2 => {},
            Turn::U3 => {},
            Turn::D1 => {},
            Turn::D2 => {},
            Turn::D3 => {},
            _ => {},
        },
        _ => {},
    }
}

/// A turn of face L and a turn of a face on its axis, each pair worked
/// out.
#[verifier::rlimit(60)]
#[verifier::spinoff_prover]
proof fn lemma_commute_l(a: Turn, b: Turn)
    requires
        a.face_num() == 4,
        b.axis_num() == 1,
    ensures
        commutes(a, b),
{
    match a {
        Turn::L1 => match b {
            Turn::R1 => {},
            Turn::R2 => {},
            Turn::R3 => {},
            Turn::L1 => {},
            Turn::L2 => {},
            Turn::L3 => {},
            _ => {},
        },
        Turn::L2 => match b {
            Turn::R1 => {},
            Turn::R2 => {},
            Turn::R3 => {},
            Turn::L1 => {},
            Turn::L2 => {},
            Turn::L3 => {},
            _ => {},
        },
        Turn::L3 => match b {
            Turn::R1 => {},
            Turn::R2 => {},
            Turn::R3 => {},
            Turn::L1 => {},
            Turn::L2 => {},
            Turn::L3 => {},
            _ => {},
        },
        _ => {},
    }
}

/// A turn of face B and a turn of a face on its axis, each pair worked
/// out.
#[verifier::rlimit(60)]
#[verifier::spinoff_prover]
proof fn lemma_commute_b(a: Turn, b: Turn)
    requires
        a.face_num() == 5,
        b.axis_num() == 2,
    ensures
        commutes(a, b),
{
    match a {
        Turn::B1 => match b {
            Turn::F1 => {},
            Turn::F2 => {},
            Turn::F3 => {},
            Turn::B1 => {},
            Turn::B2 => {},
            Turn::B3 => {},
            _ => {},
        },
        Turn::B2 => match b {
            Turn::F1 => {},
            Turn::F2 => {},
            Turn::F3 => {},
            Turn::B1 => {},
            Turn::B2 => {},
            Turn::B3 => {},
            _ => {},
        },
        Turn::B3 => match b {
            Turn::F1 => {},
            Turn::F2 => {},
            Turn::F3 => {},
            Turn::B1 => {},
            Turn::B2 => {},
            Turn::B3 => {},
            _ => {},
        },
        _ => {},
    }
}

/// Every turn has a number from 0 to 17, and is the turn of that number; its
/// inverse turns the same face.
proof fn lemma_turn_facts(t: Turn)
    ensures
        0 <= t.num() < 18,
        turn_of(t.num()) == t,
        turn_inverse(t).face_num() == t.face_num(),
        face_merge(t, turn_inverse(t)) is None,
{
    match t {
        Turn::U1 => {},
        Turn::U2 => {},
        Turn::U3 => {},
        Turn::R1 => {},
        Turn::R2 => {},
        Turn::R3 => {},
        Turn::F1 => {},
        Turn::F2 => {},
        Turn::F3 => {},
        Turn::D1 => {},
        Turn::D2 => {},
        Turn::D3 => {},
        Turn::L1 => {},
        Turn::L2 => {},
        Turn::L3 => {},
        Turn::B1 => {},
        Turn::B2 => {},
        Turn::B3 => {},
    }
}

/// Two turns of the same face amount to one turn of that face, or to none
/// when their quarter turns make a whole turn.
pub proof fn law_same_face(a: Turn, b: Turn)
    requires
        a.face_num() == b.face_num(),
    ensures
        corners_compose(corner_turn(a), corner_turn(b)) == match face_merge(a, b) {
            None => corners_ident(),
            Some(c) => corner_turn(c),
        },
        edges_compose(edge_turn(a), edge_turn(b)) == match face_merge(a, b) {
            None => edges_ident(),
            Some(c) => edge_turn(c),
        },
{
    lemma_turn_facts(a);
    let f = a.face_num();
    if f == 0 {
        lemma_merge_u(a, b);
    } else if f == 1 {
        lemma_merge_r(a, b);
    } else if f == 2 {
        lemma_merge_f(a, b);
    } else if f == 3 {
        lemma_merge_d(a, b);
    } else if f == 4 {
        lemma_merge_l(a, b);
    } else {
        lemma_merge_b(a, b);
    }
}

/// Turns of faces on the same axis commute: in either order they give the
/// same position.
pub proof fn law_same_axis(a: Turn, b: Turn)
    requires
        a.axis_num() == b.axis_num(),
    ensures
        corners_compose(corner_turn(a), corner_turn(b)) == corners_compose(corner_turn(b), corner_turn(a)),
        edges_compose(edge_turn(a), edge_turn(b)) == edges_compose(edge_turn(b), edge_turn(a)),
{
    lemma_turn_facts(a);
    let f = a.face_num();
    if f == 0 {
        lemma_commute_u(a, b);
    } else if f == 1 {
        lemma_commute_r(a, b);
    } else if f == 2 {
        lemma_commute_f(a, b);
    } else if f == 3 {
        lemma_commute_d(a, b);
    } else if f == 4 {
        lemma_commute_l(a, b);
    } else {
        lemma_commute_b(a, b);
    }
}

/// The inverse of a turn undoes it: together they leave the solved position,
/// and the position that a turn makes has the position of its inverse turn
/// as its inverse.
pub proof fn law_turn_inverse(t: Turn)
    ensures
        corners_compose(corner_turn(t), corner_turn(turn_inverse(t))) == corners_ident(),
        edges_compose(edge_turn(t), edge_turn(turn_inverse(t))) == edges_ident(),
        corners_inverse(corner_turn(t)) == corner_turn(turn_inverse(t)),
        edges_inverse(edge_turn(t)) == edge_turn(turn_inverse(t)),
{
    lemma_turn_facts(t);
    law_same_face(t, turn_inverse(t));
    law_corner_turn_valid(t);
    law_corner_turn_valid(turn_inverse(t));
    law_edge_turn_valid(t);
    law_edge_turn_valid(turn_inverse(t));
    lemma_corners_inverse_unique(corner_turn(t), corner_turn(turn_inverse(t)));
    lemma_edges_inverse_unique(edge_turn(t), edge_turn(turn_inverse(t)));
}

/// Turning `a` then `b` from the corners `c` and the edges `e`.
proof fn lemma_after_two(c: Seq<u8>, e: Seq<u8>, a: Turn, b: Turn)
    requires
        corner_lanes(c),
        edge_lanes(e),
    ensures
        corners_after(c, seq![a, b]) == corners_compose(c, corners_compose(corner_turn(a), corner_turn(b))),
        edges_after(e, seq![a, b]) == edges_compose(e, edges_compose(edge_turn(a), edge_turn(b))),
        corners_after(c, seq![a]) == corners_compose(c, corner_turn(a)),
        edges_after(e, seq![a]) == edges_compose(e, edge_turn(a)),
{
    reveal_with_fuel(corners_after, 3);
    reveal_with_fuel(edges_after, 3);
    assert(seq![a, b].drop_last() =~= seq![a]);
    assert(seq![a].drop_last() =~= Seq::<Turn>::empty());
    assert(seq![a, b].last() == b);
    assert(seq![a].last() == a);
    law_corner_turn_valid(a);
    law_corner_turn_valid(b);
    law_edge_turn_valid(a);
    law_edge_turn_valid(b);
    law_corners_assoc(c, corner_turn(a), corner_turn(b));
    law_edges_assoc(e, edge_turn(a), edge_turn(b));
}

/// From any position, a turn followed by its inverse comes back to it.
pub proof fn law_turn_then_inverse(c: Seq<u8>, e: Seq<u8>, t: Turn)
    requires
        corner_lanes(c),
        edge_lanes(e),
    ensures
        corners_after(c, seq![t, turn_inverse(t)]) == c,
        edges_after(e, seq![t, turn_inverse(t)]) == e,
{
    lemma_after_two(c, e, t, turn_inverse(t));
    law_turn_inverse(t);
    crate::corners::law_corners_identity(c);
    crate::edges::law_edges_identity(e);
}

/// From any position, two turns of the same face give the position of the
/// one turn they amount to, or the position itself.
pub proof fn law_same_face_from(c: Seq<u8>, e: Seq<u8>, a: Turn, b: Turn)
    requires
        corner_lanes(c),
        edge_lanes(e),
        a.face_num() == b.face_num(),
    ensures
        corners_after(c, seq![a, b]) == match face_merge(a, b) {
            None => c,
            Some(t) => corners_after(c, seq![t]),
        },
        edges_after(e, seq![a, b]) == match face_merge(a, b) {
            None => e,
            Some(t) => edges_after(e, seq![t]),
        },
{
    lemma_after_two(c, e, a, b);
    law_same_face(a, b);
    match face_merge(a, b) {
        None => {
            crate::corners::law_corners_identity(c);
            crate::edges::law_edges_identity(e);
        },
        Some(t) => {
            lemma_after_two(c, e, t, t);
        },
    }
}

/// From any position, two turns of faces on the same axis give the same
/// position in either order.
pub proof fn law_same_axis_from(c: Seq<u8>, e: Seq<u8>, a: Turn, b: Turn)
    requires
        corner_lanes(c),
        edge_lanes(e),
        a.axis_num() == b.axis_num(),
    ensures
        corners_after(c, seq![a, b]) == corners_after(c, seq![b, a]),
        edges_after(e, seq![a, b]) == edges_after(e, seq![b, a]),
{
    lemma_after_two(c, e, a, b);
    lemma_after_two(c, e, b, a);
    law_same_axis(a, b);
}

/// Composing two permutations of the corners gives a permutation.
pub proof fn lemma_corners_perm_compose(a: Seq<u8>, b: Seq<u8>)
    requires
        corners_perm(a),
        corners_perm(b),
    ensures
        corners_perm(corners_compose(a, b)),
{
    let ab = corners_compose(a, b);
    lemma_compose_valid(a, b);
    assert forall|i: int, j: int| 0 <= i < 8 && 0 <= j < 8 && i != j implies crate::corners::cid(#[trigger] ab[i]) != crate::corners::cid(#[trigger] ab[j]) by {
        let bi = b[i];
        let bj = b[j];
        let yi = a[crate::corners::cid(bi)];
        let yj = a[crate::corners::cid(bj)];
        assert(crate::corners::cid(bi) != crate::corners::cid(bj));
        assert(crate::corners::cid(yi) != crate::corners::cid(yj));
        crate::corners::lemma_ccode(crate::corners::cid(yi), (crate::corners::ctw(yi) + crate::corners::ctw(bi)) % 3);
        crate::corners::lemma_ccode(crate::corners::cid(yj), (crate::corners::ctw(yj) + crate::corners::ctw(bj)) % 3);
    }
}

/// Composing two permutations of the edges gives a permutation.
pub proof fn lemma_edges_perm_compose(a: Seq<u8>, b: Seq<u8>)
    requires
        edges_perm(a),
        edges_perm(b),
    ensures
        edges_perm(edges_compose(a, b)),
{
    let ab = edges_compose(a, b);
    lemma_edges_compose_valid(a, b);
    assert forall|i: int, j: int| 0 <= i < 12 && 0 <= j < 12 && i != j implies crate::edges::eid(#[trigger] ab[i]) != crate::edges::eid(#[trigger] ab[j]) by {
        let bi = b[i];
        let bj = b[j];
        crate::edges::lemma_ecode_of(bi);
        crate::edges::lemma_ecode_of(bj);
        let yi = a[crate::edges::eid(bi)];
        let yj = a[crate::edges::eid(bj)];
        crate::edges::lemma_ecode_of(yi);
        crate::edges::lemma_ecode_of(yj);
        assert(crate::edges::eid(bi) != crate::edges::eid(bj));
        assert(crate::edges::eid(yi) != crate::edges::eid(yj));
        crate::edges::lemma_ecode(crate::edges::eid(yi), (crate::edges::efl(yi) + crate::edges::efl(bi)) % 2);
        crate::edges::lemma_ecode(crate::edges::eid(yj), (crate::edges::efl(yj) + crate::edges::efl(bj)) % 2);
    }
}

/// Turns keep the net twist of the corners and the net flip of the edges,
/// keep the codes valid, and keep a permutation a permutation.
pub proof fn law_turns_keep_twist_flip(c: Seq<u8>, e: Seq<u8>, ts: Seq<Turn>)
    requires
        corner_lanes(c),
        edge_lanes(e),
    ensures
        corner_lanes(corners_after(c, ts)),
        edge_lanes(edges_after(e, ts)),
        net_twist_spec(corners_after(c, ts)) == net_twist_spec(c),
        net_flip_spec(edges_after(e, ts)) == net_flip_spec(e),
        corners_perm(c) ==> corners_perm(corners_after(c, ts)),
        edges_perm(e) ==> edges_perm(edges_after(e, ts)),
    decreases ts.len(),
{
    if ts.len() > 0 {
        let t = ts.last();
        law_turns_keep_twist_flip(c, e, ts.drop_last());
        let c0 = corners_after(c, ts.drop_last());
        let e0 = edges_after(e, ts.drop_last());
        law_corner_turn_valid(t);
        law_edge_turn_valid(t);
        lemma_compose_valid(c0, corner_turn(t));
        lemma_edges_compose_valid(e0, edge_turn(t));
        law_corners_net_twist(c0, corner_turn(t));
        law_edges_net_flip(e0, edge_turn(t));
        assert(0 <= net_twist_spec(c0) < 3);
        assert(0 <= net_flip_spec(e0) < 2);
        if corners_perm(c) {
            lemma_corners_perm_compose(c0, corner_turn(t));
        }
        if edges_perm(e) {
            lemma_edges_perm_compose(e0, edge_turn(t));
        }
    }
}

/// Every position that turns reach from the solved cube has no net twist
/// and no net flip, and permutes both the corners and the edges.
pub proof fn law_reachable_no_twist_flip(ts: Seq<Turn>)
    ensures
        net_twist_spec(corners_after(corners_ident(), ts)) == 0,
        net_flip_spec(edges_after(edges_ident(), ts)) == 0,
        corners_perm(corners_after(corners_ident(), ts)),
        edges_perm(edges_after(edges_ident(), ts)),
{
    lemma_ident_no_twist_flip();
    law_turns_keep_twist_flip(corners_ident(), edges_ident(), ts);
}

/// The solved position permutes the pieces and has no net twist and no net
/// flip.
pub proof fn lemma_ident_no_twist_flip()
    ensures
        net_twist_spec(corners_ident()) == 0,
        net_flip_spec(edges_ident()) == 0,
        corners_perm(corners_ident()),
        edges_perm(edges_ident()),
{
    reveal_with_fuel(crate::corners::twist_sum, 9);
    reveal_with_fuel(crate::edges::flip_sum, 13);
    assert(corners_perm(corners_ident()));
    assert(edges_perm(edges_ident()));
    assert(net_twist_spec(corners_ident()) == 0);
    assert(net_flip_spec(edges_ident()) == 0);
}

/// The inverse of a composition of permutations is the composition of their
/// inverses in the other order.
pub proof fn law_inverse_compose(c1: Seq<u8>, c2: Seq<u8>, e1: Seq<u8>, e2: Seq<u8>)
    requires
        corners_perm(c1),
        corners_perm(c2),
        edges_perm(e1),
        edges_perm(e2),
    ensures
        corners_inverse(corners_compose(c1, c2)) == corners_compose(corners_inverse(c2), corners_inverse(c1)),
        edges_inverse(edges_compose(e1, e2)) == edges_compose(edges_inverse(e2), edges_inverse(e1)),
{
    crate::corners::law_corners_inverse(c1);
    crate::corners::law_corners_inverse(c2);
    let i1 = corners_inverse(c1);
    let i2 = corners_inverse(c2);
    let x = corners_compose(c1, c2);
    let y = corners_compose(i2, i1);
    lemma_corners_perm_compose(c1, c2);
    lemma_compose_valid(i2, i1);
    law_corners_assoc(c1, c2, y);
    law_corners_assoc(c2, i2, i1);
    crate::corners::law_corners_identity(i1);
    lemma_corners_inverse_unique(x, y);
    crate::edges::law_edges_inverse(e1);
    crate::edges::law_edges_inverse(e2);
    let j1 = edges_inverse(e1);
    let j2 = edges_inverse(e2);
    let u = edges_compose(e1, e2);
    let v = edges_compose(j2, j1);
    lemma_edges_perm_compose(e1, e2);
    lemma_edges_compose_valid(j2, j1);
    law_edges_assoc(e1, e2, v);
    law_edges_assoc(e2, j2, j1);
    crate::edges::law_edges_identity(j1);
    lemma_edges_inverse_unique(u, v);
}

} // verus!
