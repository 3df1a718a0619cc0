use cubegroup::turns::Turn::{B1, B3, D1, D2, D3, F1, F2, F3, L1, L2, R1, R2, R3, U1, U2, U3};
use cubegroup::{allturns, canonturns, corners_array, corners_neon, edges_array, edges_neon, Cube, CornersTrait, EdgesTrait, Turn, Turns};

#[test]
fn identity_changes_nothing() {
    let id = Cube::default();
    let r = id * R1 * U1;
    assert_eq!(r * id, r);
    assert_eq!(id * r, r);
}

#[test]
fn composition_is_associative() {
    let a = Cube::default() * R1 * U2;
    let b = Cube::default() * F1 * D3;
    let c = Cube::default() * L2 * B1;
    assert_eq!((a * b) * c, a * (b * c));
}

#[test]
fn inverse_undoes_a_position() {
    let a = Cube::default().turns(&[R1, U1, R3, U3, F1]);
    assert_eq!(a * !a, Cube::default());
    assert_eq!(!a * a, Cube::default());
    assert_eq!(!!a, a);
}

#[test]
fn turn_and_its_inverse_cancel() {
    let start = Cube::default().turns(&[F1, R2]);
    for (t, u) in [(U1, U3), (U2, U2), (R1, R3), (D1, D3)] {
        assert_eq!(start * t * u, start);
    }
}

#[test]
fn same_face_turns_merge() {
    let id = Cube::default();
    assert_eq!(id * U1 * U1, id * U2);
    assert_eq!(id * U1 * U2, id * U3);
    assert_eq!(id * U2 * U2, id);
    assert_eq!(id * U3 * U3, id * U2);
}

#[test]
fn opposite_faces_commute() {
    let start = Cube::default().turns(&[F1]);
    assert_eq!(start * U1 * D3, start * D3 * U1);
    assert_eq!(start * R2 * L1, start * L1 * R2);
    assert_ne!(start * U1 * R1, start * R1 * U1);
}

#[test]
fn canonical_order_of_opposite_faces() {
    // After U, D may follow; after D, U may not.
    assert!(canonturns(Some(U1)).any(|t| t == D1));
    assert!(!canonturns(Some(D1)).any(|t| t == U1));
    assert!(!canonturns(Some(R2)).any(|t| t == R1));
    assert_eq!(canonturns(Some(B1)).count(), 12);
    assert_eq!(canonturns(Some(U1)).count(), 15);
}

#[test]
fn reachable_positions_are_valid() {
    let mut cube = Cube::default();
    for t in allturns() {
        cube = cube * t;
        assert!(cube.valid());
        assert_eq!(cube.net_twist(), 0);
        assert_eq!(cube.net_flip(), 0);
    }
}

#[test]
fn positions_that_turns_cannot_reach() {
    let twisted = Cube::from_speffz("RBCDUVWX.ABCDRTJLUVWX").unwrap();
    assert_eq!(twisted.net_twist(), 1);
    assert!(!twisted.valid());
    let flipped = Cube::from_speffz("ABCDUVWX.QBCDRTJLUVWX").unwrap();
    assert_eq!(flipped.net_flip(), 1);
    assert!(!flipped.valid());
    let swapped = Cube::from_speffz("ABCDUVWX.BACDRTJLUVWX").unwrap();
    assert!(!swapped.parity());
    assert!(swapped.edges().parity());
    assert!(!swapped.valid());
}

#[test]
fn pack_tells_positions_apart() {
    let id = Cube::default();
    assert_eq!(corners_array::Corners::default().pack(), 0x39_8a41_8820);
    assert_eq!(edges_array::Edges::default().pack(), 0x5a9_2839_8a41_8820);
    assert_ne!((id * R1).pack(), (id * R3).pack());
    assert_eq!(id.pack() & ((1u128 << 40) - 1), corners_array::Corners::default().pack() as u128);
    assert_eq!(id.pack() >> 40, edges_array::Edges::default().pack() as u128);
    assert_eq!(corners_neon::Corners::default().pack(), corners_array::Corners::default().pack());
    assert_eq!(edges_neon::Edges::default().pack(), edges_array::Edges::default().pack());
}

#[test]
fn sequences_apply_in_order() {
    let t = Turns::from_slice(&[R1, U1]);
    let c = Cube::default();
    assert_eq!(c * &t, c * R1 * U1);
    assert_eq!(c.turns(t.as_slice()), c * R1 * U1);
    assert_ne!(c * R1 * U1, c * U1 * R1);
}

#[test]
fn sledgehammer_cycles() {
    let c = Cube::default().turns(&[R3, F1, R1, F3]);
    assert!(!c.parity());
    let e = edges_array::Edges::default() * &"R' F R F'".parse::<Turns>().unwrap();
    assert!(!e.parity());
    assert_eq!(Turn::R1.name(), "R");
}

#[test]
fn parity_counts_quarter_turns() {
    let c = Cube::default().turns(&[R1, U2, F3]);
    assert!(!c.parity());
    assert_eq!(c.corners().parity(), c.edges().parity());
    let d = Cube::default().turns(&[R1, U2, F3, D1]);
    assert!(d.parity());
    assert_eq!(d.corners().parity(), d.edges().parity());
    assert!(d.valid());
}

#[test]
fn parity_of_products_and_inverses() {
    let a = Cube::default().turns(&[R1, U2, F3]);
    let b = Cube::default().turns(&[D1, L2, B1, U3]);
    for (x, y) in [(a, b), (b, a), (a, a), (b, b)] {
        assert_eq!((x * y).parity(), x.parity() != y.parity());
        assert_eq!((x * y).corners().parity(), x.corners().parity() != y.corners().parity());
        assert_eq!((x * y).edges().parity(), x.edges().parity() != y.edges().parity());
        assert_eq!((!x).parity(), x.parity());
        assert_eq!((!x).edges().parity(), x.edges().parity());
    }
    assert!(!Cube::default().parity());
    assert!(!corners_array::Corners::default().parity());
    assert!(!edges_array::Edges::default().parity());
}

#[test]
fn inverse_of_a_product() {
    let a = Cube::default().turns(&[R1, U1, F3]);
    let b = Cube::default().turns(&[L2, D1, B1]);
    assert_eq!(!(a * b), !b * !a);
    assert_ne!(!(a * b), !a * !b);
    assert_eq!(!!(Cube::default() * U1), Cube::default() * U1);
}

#[test]
fn valid_positions_stay_valid() {
    let a = Cube::default().turns(&[R1, U1, R3, U3]);
    let b = Cube::default().turns(&[F2, D3, L1]);
    assert!((a * b).valid());
    assert!((!a).valid());
    for t in allturns() {
        assert!((a * t).valid());
    }
    let swapped = Cube::from_speffz("ABCDUVWX.BACDRTJLUVWX").unwrap();
    assert!(!(swapped * a).valid());
    assert!(!(!swapped).valid());
}

#[test]
fn component_packs_fit_their_width() {
    let a = Cube::default().turns(&[R1, U1, F3, D2, B1]);
    let b = Cube::default().turns(&[R1, U1, F3, D2, B3]);
    assert!(a.corners().pack() < 1u64 << 40);
    assert!(a.edges().pack() < 1u64 << 60);
    assert_ne!(a.corners().pack(), b.corners().pack());
    assert_eq!(a.pack() >> 40, a.edges().pack() as u128);
}
