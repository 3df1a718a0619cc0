use cubegroup::dr::{COConv, COMul, EOConv, EOMul, NCO, NEO};
use cubegroup::{allturns, corners_array, corners_neon, edges_array, edges_neon, CornersTrait, EdgesTrait, Speffz, Turn};

#[test]
fn co_of_solved_is_zero() {
    assert_eq!(corners_array::Corners::default().co(), 0);
    assert_eq!(corners_neon::Corners::default().co(), 0);
    assert_eq!(corners_array::Corners::from_co(0), corners_array::Corners::default());
}

#[test]
fn co_roundtrip_on_every_coordinate() {
    for co in 0..NCO {
        let c = corners_array::Corners::from_co(co);
        assert_eq!(c.co(), co);
        assert_eq!(c.net_twist(), 0);
        let n = corners_neon::Corners::from_co(co);
        assert_eq!(n.co(), co);
        assert_eq!(corners_array::Corners::from(n), c);
    }
}

#[test]
fn co_digits_are_twists() {
    // 34 = 1 + 2*3 + 0*9 + 1*27: corner 0 twisted once, corner 1 twice,
    // corner 3 once, and the last corner twice to make the sum 6 a multiple
    // of 3.
    let c = corners_array::Corners::from_co(34);
    assert_eq!(c.speffz(), "RQCFUVWS");
    assert_eq!(c.co(), 34);
}

#[test]
fn eo_roundtrip_on_every_coordinate() {
    for eo in 0..NEO {
        let e = edges_array::Edges::from_eo(eo);
        assert_eq!(e.eo(), eo);
        assert_eq!(e.net_flip(), 0);
        let n = edges_neon::Edges::from_eo(eo);
        assert_eq!(n.eo(), eo);
        assert_eq!(n.net_flip(), 0);
    }
}

#[test]
fn eo_reads_eleven_bits() {
    // Bit 11 and above are dropped; one flipped edge makes the last one
    // flipped too.
    let e = edges_array::Edges::from_eo(0x801);
    assert_eq!(e.eo(), 1);
    assert_eq!(e.speffz(), "QBCDRTJLUVWG");
}

#[test]
fn co_table_matches_turning() {
    let t = COMul::new();
    for co in [0u16, 1, 34, 1000, NCO - 1] {
        for turn in allturns() {
            let expected = (corners_array::Corners::from_co(co) * turn).co();
            assert_eq!(t.mul(co, turn), expected);
        }
    }
    assert_eq!(t.mul(0, Turn::U1), 0);
    assert_ne!(t.mul(0, Turn::R1), 0);
}

#[test]
fn eo_table_matches_turning() {
    let t = EOMul::new();
    for eo in [0u16, 1, 777, NEO - 1] {
        for turn in allturns() {
            let expected = (edges_array::Edges::from_eo(eo) * turn).eo();
            assert_eq!(t.mul(eo, turn), expected);
        }
    }
    assert_eq!(t.mul(0, Turn::R1), 0);
    assert_ne!(t.mul(0, Turn::F1), 0);
}

#[test]
fn tables_follow_turning_real_positions() {
    let ct = COMul::new();
    let et = EOMul::new();
    let x = corners_array::Corners::default().turns(&[Turn::R1, Turn::F1, Turn::U3]);
    let y = edges_array::Edges::default().turns(&[Turn::R1, Turn::F1, Turn::U3]);
    for t in allturns() {
        assert_eq!(ct.mul(x.co(), t), (x * t).co());
        assert_eq!(et.mul(y.eo(), t), (y * t).eo());
    }
}

#[test]
fn tables_undo_with_inverse_turns() {
    let ct = COMul::new();
    let et = EOMul::new();
    for (t, u) in [(Turn::R1, Turn::R3), (Turn::F2, Turn::F2), (Turn::B3, Turn::B1)] {
        for co in [0u16, 5, 100, 2000] {
            assert_eq!(ct.mul(ct.mul(co, t), u), co);
        }
        for eo in [0u16, 3, 1024, 2047] {
            assert_eq!(et.mul(et.mul(eo, t), u), eo);
        }
    }
}
