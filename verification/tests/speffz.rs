use cubegroup::edges::{edge_singmaster, NEDGES, NFLIP};
use cubegroup::{corners_array, corners_neon, edges_array, edges_neon, Corner, Cube, Edge, EdgesTrait, ParseSpeffzError, Speffz, SpeffzLetter};

#[test]
fn corners_test_speffz() {
    assert_eq!(corners_array::Corners::from_speffz("ABCDUVWX").unwrap(), corners_array::Corners::default());
    assert_eq!(corners_neon::Corners::from_speffz("ABCDUVWX").unwrap(), corners_neon::Corners::default());
    assert_ne!(corners_array::Corners::from_speffz("BCDAUVWX").unwrap(), corners_array::Corners::default());
    assert_ne!(corners_neon::Corners::from_speffz("BCDAUVWX").unwrap(), corners_neon::Corners::default());
}

#[test]
fn edges_test_speffz() {
    assert_eq!(edges_array::Edges::from_speffz("ABCDRTJLUVWX").unwrap(), edges_array::Edges::default());
    assert_eq!(edges_neon::Edges::from_speffz("ABCDRTJLUVWX").unwrap(), edges_neon::Edges::default());
    assert_ne!(edges_array::Edges::from_speffz("BCDARTJLUVWX").unwrap(), edges_array::Edges::default());
    assert_ne!(edges_neon::Edges::from_speffz("BCDARTJLUVWX").unwrap(), edges_neon::Edges::default());
}

#[test]
fn test_speffz_roundtrip() {
    for s in 'A'..='X' {
        let c = Corner::from_speffz(s).unwrap();
        let e = Edge::from_speffz(s).unwrap();
        assert_eq!(s, c.speffz());
        assert_eq!(s, e.speffz());
    }
}

#[test]
fn test_singmaster() {
    for flip in 0..NFLIP {
        for id in 0..NEDGES {
            let s = edge_singmaster(flip, id);
            // Make sure that strings are consistent with flips
            assert_eq!(s[flip..].to_string() + &s[..flip], edge_singmaster(0, id));
        }
    }
}

#[test]
fn letters_outside_speffz_are_refused() {
    assert!(matches!(Corner::from_speffz('Y'), Err(ParseSpeffzError::BadSpeffzLetter)));
    assert!(matches!(Edge::from_speffz('a'), Err(ParseSpeffzError::BadSpeffzLetter)));
    assert!(matches!(corners_array::Corners::from_speffz("ABCDUVWZ"), Err(ParseSpeffzError::BadSpeffzLetter)));
    assert!(matches!(edges_array::Edges::from_speffz("ABCDRTJLUVW?"), Err(ParseSpeffzError::BadSpeffzLetter)));
}

#[test]
fn wrong_lengths_are_slice_errors() {
    assert!(matches!(corners_array::Corners::from_speffz("ABCD"), Err(ParseSpeffzError::SliceError(_))));
    assert!(matches!(edges_array::Edges::from_speffz("ABCDRTJLUVWXA"), Err(ParseSpeffzError::SliceError(_))));
    assert!(matches!(corners_neon::Corners::from_speffz("ABCDUVWXY"), Err(ParseSpeffzError::SliceError(_))));
    assert!(matches!(edges_neon::Edges::from_speffz(""), Err(ParseSpeffzError::SliceError(_))));
}

#[test]
fn lane_corners_check_the_length_before_the_letters() {
    // Eight bytes are read first; a short string is a length error even
    // with a bad letter in it.
    assert!(matches!(corners_neon::Corners::from_speffz("AB?"), Err(ParseSpeffzError::SliceError(_))));
    assert!(matches!(corners_array::Corners::from_speffz("AB?"), Err(ParseSpeffzError::BadSpeffzLetter)));
    assert!(matches!(corners_neon::Corners::from_speffz("ABCDUVW@"), Err(ParseSpeffzError::BadSpeffzLetter)));
    assert!(matches!(corners_neon::Corners::from_speffz("ABCDUVWY"), Err(ParseSpeffzError::BadSpeffzLetter)));
}

#[test]
fn twisted_corner_letters() {
    let c = corners_array::Corners::from_speffz("RNJFLPTH").unwrap();
    assert_eq!(c.speffz(), "RNJFLPTH");
    let n = corners_neon::Corners::from_speffz("EQMIGKOS").unwrap();
    assert_eq!(n.speffz(), "EQMIGKOS");
    let e = edges_array::Edges::from_speffz("QMIEHNPFKOSG").unwrap();
    assert_eq!(e.speffz(), "QMIEHNPFKOSG");
}

#[test]
fn cube_speffz_roundtrip() {
    let cube = Cube::default();
    assert_eq!(cube.speffz(), "ABCDUVWX.ABCDRTJLUVWX");
    let back = Cube::from_speffz(&cube.speffz()).unwrap();
    assert_eq!(back, cube);
    let r = Cube::default() * cubegroup::Turn::R1;
    assert_eq!(Cube::from_speffz(&r.speffz()).unwrap(), r);
    // a third part after a second `.` is not read
    assert_eq!(Cube::from_speffz("ABCDUVWX.ABCDRTJLUVWX.junk").unwrap(), cube);
}

#[test]
fn cube_speffz_errors() {
    assert!(matches!(Cube::from_speffz("ABCDUVWX"), Err(ParseSpeffzError::MiscParseError)));
    assert!(matches!(Cube::from_speffz("ABCDUVWZ.ABCDRTJLUVWX"), Err(ParseSpeffzError::BadSpeffzLetter)));
    assert!(matches!(Cube::from_speffz("ABCDUVWX.ABCDRTJLUVW"), Err(ParseSpeffzError::SliceError(_))));
}

#[test]
fn edge_names() {
    assert_eq!(edges_array::Edges::default().to_text(), "UB UR UF UL BL BR FR FL DF DR DB DL");
    let f = edges_array::Edges::default() * cubegroup::Turn::F1;
    assert_eq!(f.to_text(), "UB UR LF UL BL BR FU FD RF DR DB DL");
}

#[test]
fn lane_net_flip_counts_bits() {
    let one = edges_neon::Edges::from_speffz("QBCDRTJLUVWX").unwrap();
    assert_eq!(one.net_flip(), 1);
    let arr = edges_array::Edges::from_speffz("QBCDRTJLUVWX").unwrap();
    assert_eq!(arr.net_flip(), 1);
    // Outside permutations the lanes count all their bits: the slot bits of
    // eleven edges in slot 1 and one in slot 0 are odd.
    let odd = edges_neon::Edges::from_speffz("ABBBBBBBBBBB").unwrap();
    assert_eq!(odd.net_flip(), 1);
    let arr = edges_array::Edges::from_speffz("ABBBBBBBBBBB").unwrap();
    assert_eq!(arr.net_flip(), 0);
}

#[test]
fn lane_and_array_positions_agree() {
    let seq = [cubegroup::Turn::R1, cubegroup::Turn::U2, cubegroup::Turn::F3];
    let mut c = corners_array::Corners::default();
    let mut n = corners_neon::Corners::default();
    let mut e = edges_array::Edges::default();
    let mut m = edges_neon::Edges::default();
    for t in seq {
        c = c * t;
        n = n * t;
        e = e * t;
        m = m * t;
    }
    assert_eq!(corners_array::Corners::from(n), c);
    assert_eq!(corners_neon::Corners::from(c), n);
    assert_eq!(edges_array::Edges::from(m), e);
    assert_eq!(edges_neon::Edges::from(e), m);
    assert_eq!(corners_array::Corners::from(!n), !c);
    assert_eq!(edges_array::Edges::from(!m), !e);
    assert_eq!(n.speffz(), c.speffz());
    assert_eq!(m.speffz(), e.speffz());
}

#[test]
fn inverse_outside_permutations() {
    // The array inverse writes over zeros, the lane inverse over the solved
    // position; they differ only where no edge names a slot.
    let e = edges_array::Edges::from_speffz("AAAAAAAAAAAA").unwrap();
    assert_eq!((!e).speffz(), "XAAAAAAAAAAA");
    let m = edges_neon::Edges::from_speffz("AAAAAAAAAAAA").unwrap();
    assert_eq!((!m).speffz(), "XBCDRTJLUVWX");
}

#[test]
fn lane_positions_order_by_the_last_slot_first() {
    // The lane representations order positions as the word whose byte `i`
    // is slot `i`; the arrays order them slot 0 first.
    let a = corners_neon::Corners::from_speffz("BACDUVWX").unwrap();
    let b = corners_neon::Corners::from_speffz("ABCDUVWX").unwrap();
    assert!(a < b);
    let c = corners_neon::Corners::from_speffz("ABCDUVWS").unwrap();
    assert!(c > a && c > b);
    let x = corners_array::Corners::from_speffz("BACDUVWX").unwrap();
    let y = corners_array::Corners::from_speffz("ABCDUVWX").unwrap();
    assert!(x > y);
    let e = edges_neon::Edges::from_speffz("BACDRTJLUVWX").unwrap();
    let f = edges_neon::Edges::from_speffz("ABCDRTJLUVWX").unwrap();
    assert!(e < f);
    let g = edges_neon::Edges::from_speffz("ABCDRTJLUVWG").unwrap();
    assert!(g > e && g > f);
}
