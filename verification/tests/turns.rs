use cubegroup::turns::Turn::{B1, B2, B3, D1, D2, D3, F1, F2, F3, L1, L2, L3, R1, R2, R3, U1, U2, U3};
use cubegroup::{allturns, canonturns, parse_turn, Turn, Turns};

#[test]
fn test_turns() {
    let a = [
        ([U1, U2, U3], vec![R1, R2, R3, F1, F2, F3, D1, D2, D3, L1, L2, L3, B1, B2, B3]),
        ([R1, R2, R3], vec![U1, U2, U3, F1, F2, F3, D1, D2, D3, L1, L2, L3, B1, B2, B3]),
        ([F1, F2, F3], vec![U1, U2, U3, R1, R2, R3, D1, D2, D3, L1, L2, L3, B1, B2, B3]),
        ([D1, D2, D3], vec![R1, R2, R3, F1, F2, F3, L1, L2, L3, B1, B2, B3]),
        ([L1, L2, L3], vec![U1, U2, U3, F1, F2, F3, D1, D2, D3, B1, B2, B3]),
        ([B1, B2, B3], vec![U1, U2, U3, R1, R2, R3, D1, D2, D3, L1, L2, L3]),
    ];
    for (turns, seq) in a {
        for t in turns {
            assert_eq!(t.into_iter().collect::<Vec<_>>(), seq);
        }
    }
}

#[test]
fn allturns_lists_every_turn_in_order() {
    let v: Vec<Turn> = allturns().collect();
    assert_eq!(v.len(), 18);
    for (i, t) in v.iter().enumerate() {
        assert_eq!(t.index(), i);
    }
    assert_eq!(canonturns(None).collect::<Vec<_>>(), v);
}

#[test]
fn parse_single_turns() {
    assert_eq!(parse_turn("U"), Ok(U1));
    assert_eq!(parse_turn("R2"), Ok(R2));
    assert_eq!(parse_turn("F'"), Ok(F3));
    assert_eq!(parse_turn("B3"), Ok(B3));
    assert_eq!(parse_turn("L1"), Ok(L1));
    assert_eq!(parse_turn("D2xyz"), Ok(D2));
    assert_eq!(parse_turn("X"), Err(()));
    assert_eq!(parse_turn("U4"), Err(()));
    assert_eq!(parse_turn(""), Err(()));
    assert_eq!("R'".parse::<Turn>(), Ok(R3));
}

#[test]
fn parse_and_print_sequences() {
    let t = "F    R U R' U' F'".parse::<Turns>().unwrap();
    assert_eq!(t.as_slice(), &[F1, R1, U1, R3, U3, F3]);
    assert_eq!(t.to_text(), "F R U R' U' F'");
    assert!("R U Q".parse::<Turns>().is_err());
    assert_eq!("  ".parse::<Turns>().unwrap().as_slice(), &[]);
    assert_eq!(Turns::from_slice(&[R2, D3]).to_text(), "R2 D'");
}

#[test]
fn any_whitespace_separates_turns() {
    let t = "R\tU\n F2\r\nB'".parse::<Turns>().unwrap();
    assert_eq!(t.as_slice(), &[R1, U1, F2, B3]);
    assert_eq!(Turns::parse(&t.to_text()).unwrap().as_slice(), t.as_slice());
}

#[test]
fn names_read_back() {
    for t in allturns() {
        assert_eq!(parse_turn(t.name()), Ok(t));
    }
}

#[test]
fn unicode_whitespace_separates_turns() {
    let t = "R\u{3000}U\u{a0}F2\u{2028}\u{85}B'".parse::<Turns>().unwrap();
    assert_eq!(t.as_slice(), &[R1, U1, F2, B3]);
    assert!("R\u{200b}U".parse::<Turns>().is_err());
}
