use cubegroup::turns::Turn::{B1, B2, B3, D1, D2, D3, F1, F2, F3, L1, L2, L3, R1, R2, R3, U1, U2, U3};
use cubegroup::{allturns, corners_array, corners_neon, edges_array, edges_neon, Cube, CornersTrait, EdgesTrait, Turns};

#[test]
fn test_mul() {
    let corners = corners_neon::Corners::default();
    let s = corners * &Turns::from_slice(&[R1, U1, R3, U3]);
    assert_eq!(s * s, corners * &Turns::from_slice(&[R1, U1, R3, U3, R1, U1, R3, U3]));
}

#[test]
fn test_inverses() {
    let corners = corners_neon::Corners::default();
    let edges = edges_neon::Edges::default();
    let cube = Cube::default();
    for (lhs, rhs) in [
        (U1, U3), (U2, U2), (U3, U1),
        (R1, R3), (R2, R2), (R3, R1),
        (F1, F3), (F2, F2), (F3, F1),
        (D1, D3), (D2, D2), (D3, D1),
        (B1, B3), (B2, B2), (B3, B1),
        (L1, L3), (L2, L2), (L3, L1),
    ] {
        assert_eq!(corners * lhs, !(corners * rhs));
        assert_eq!(edges * lhs, !(edges * rhs));
        assert_eq!(cube * lhs, !(cube * rhs));
    }
    for t in allturns() {
        assert_eq!(!!(cube * t), cube * t);
    }
}

#[test]
fn test_parity() {
    let corners = corners_neon::Corners::default();
    let edges = edges_neon::Edges::default();
    let cube = Cube::default();
    for (lhs, rhs) in [
        (U1, true), (U2, false), (U3, true),
        (R1, true), (R2, false), (R3, true),
        (F1, true), (F2, false), (F3, true),
        (D1, true), (D2, false), (D3, true),
        (B1, true), (B2, false), (B3, true),
        (L1, true), (L2, false), (L3, true),
    ] {
        assert_eq!((corners * lhs).parity(), rhs);
        assert_eq!((edges * lhs).parity(), rhs);
        assert_eq!((cube * lhs).parity(), rhs);
    }
    assert!(!(cube * &Turns::from_slice(&[R3, F1, R1, F3])).parity());
}

#[test]
fn test_twist() {
    let c_array = corners_array::Corners::default();
    let c_neon = corners_neon::Corners::default();
    for t in allturns() {
        assert_eq!((c_array * t).net_twist(), 0);
        assert_eq!((c_neon * t).net_twist(), 0);
    }
}

#[test]
fn test_flip() {
    let e_array = edges_array::Edges::default();
    let e_neon = edges_neon::Edges::default();
    for t in allturns() {
        assert_eq!((e_array * t).net_flip(), 0);
        assert_eq!((e_neon * t).net_flip(), 0);
    }
}

#[test]
fn test_valid() {
    let cube = Cube::default();
    for t in allturns() {
        assert!((cube * t).valid())
    }
}

#[test]
fn cycles_list_moved_pieces_once_in_order() {
    let c = |v: u8| corners_array::Corner::from_code(v);
    let corners = corners_array::Corners::from_array([c(1), c(2), c(0), c(4), c(3), c(13), c(6), c(7)]);
    assert_eq!(
        format!("{:?}", corners.cycles()),
        "CornerCycles([[Corner(0), Corner(2), Corner(1)], [Corner(3), Corner(4)], [Corner(13)]])"
    );
    let e = |v: u8| edges_array::Edge::from_code(v);
    let edges = edges_array::Edges::from_array([e(1), e(0), e(2), e(3), e(20), e(5), e(6), e(7), e(8), e(9), e(10), e(11)]);
    assert_eq!(format!("{:?}", edges.cycles()), "EdgeCycles([[Edge(0), Edge(1)], [Edge(20)]])");
    assert_eq!(format!("{:?}", corners_array::Corners::default().cycles()), "CornerCycles([])");
}
