//! Speffz lettering of corners and edges.
use vstd::prelude::*;
use vstd::string::StringSliceAdditionalSpecFns;

use crate::corners::corners_array::{Corner, Corners};
use crate::corners::corners_neon;
use crate::edges::edges_neon;
use crate::edges::edges_array::{Edge, Edges};
use crate::edges::{edge_code_ok, edge_lanes, edge_letter, edge_letters, edge_of_letter};
use crate::corners::{corner_lanes, corner_letter, corner_letters, corner_of_letter};
use crate::text::{array_from_slice, push_char, str_chars};

verus! {

/// `std::array::TryFromSliceError`, the error of converting a slice of the
/// wrong length into an array.
#[verifier::external_type_specification]
#[verifier::external_body]
pub struct ExTryFromSliceError(std::array::TryFromSliceError);

/// Why a Speffz string could not be read.
#[derive(Debug)]
pub enum ParseSpeffzError {
    /// A character is not a Speffz letter.
    BadSpeffzLetter,
    /// The number of letters is not the number of pieces.
    SliceError(std::array::TryFromSliceError),
    /// The string does not have the expected parts.
    MiscParseError,
}

/// A piece that has a Speffz letter.
pub trait SpeffzLetter: Sized {
    /// The letter of the piece.
    spec fn letter(&self) -> char;

    /// Whether `c` is the letter of a piece.
    spec fn is_letter(c: char) -> bool;

    /// The piece of the letter `c`.
    spec fn of_letter(c: char) -> Self;

    /// The piece of the Speffz letter `c`.
    fn from_speffz(c: char) -> (r: Result<Self, ParseSpeffzError>)
        ensures
            match r {
                Ok(p) => Self::is_letter(c) && p == Self::of_letter(c),
                Err(e) => !Self::is_letter(c) && e is BadSpeffzLetter,
            },
    ;

    /// The Speffz letter of the piece.
    fn speffz(self) -> (r: char)
        ensures
            r == self.letter(),
    ;
}

impl SpeffzLetter for Corner {
    open spec fn letter(&self) -> char {
        corner_letter(self@)
    }

    open spec fn is_letter(c: char) -> bool {
        corner_of_letter(c) is Some
    }

    open spec fn of_letter(c: char) -> Corner {
        Corner::with_code(corner_of_letter(c)->0)
    }

    fn from_speffz(c: char) -> (r: Result<Corner, ParseSpeffzError>) {
        let v: u8 = match c {
            'A' => 0,
            'B' => 1,
            'C' => 2,
            'D' => 3,
            'E' => 16,
            'F' => 11,
            'G' => 20,
            'H' => 15,
            'I' => 19,
            'J' => 10,
            'K' => 21,
            'L' => 12,
            'M' => 18,
            'N' => 9,
            'O' => 22,
            'P' => 13,
            'Q' => 17,
            'R' => 8,
            'S' => 23,
            'T' => 14,
            'U' => 4,
            'V' => 5,
            'W' => 6,
            'X' => 7,
            _ => { return Err(ParseSpeffzError::BadSpeffzLetter); },
        };
        Ok(Corner::from_code(v))
    }

    fn speffz(self) -> (r: char) {
        match self.code() {
            0 => 'A',
            1 => 'B',
            2 => 'C',
            3 => 'D',
            4 => 'U',
            5 => 'V',
            6 => 'W',
            7 => 'X',
            8 => 'R',
            9 => 'N',
            10 => 'J',
            11 => 'F',
            12 => 'L',
            13 => 'P',
            14 => 'T',
            15 => 'H',
            16 => 'E',
            17 => 'Q',
            18 => 'M',
            19 => 'I',
            20 => 'G',
            21 => 'K',
            22 => 'O',
            _ => 'S',
        }
    }
}

impl SpeffzLetter for Edge {
    open spec fn letter(&self) -> char {
        edge_letter(self@)
    }

    open spec fn is_letter(c: char) -> bool {
        edge_of_letter(c) is Some
    }

    open spec fn of_letter(c: char) -> Edge {
        Edge::with_code(edge_of_letter(c)->0)
    }

    fn from_speffz(c: char) -> (r: Result<Edge, ParseSpeffzError>) {
        let v: u8 = match c {
            'A' => 0,
            'B' => 1,
            'C' => 2,
            'D' => 3,
            'E' => 19,
            'F' => 23,
            'G' => 27,
            'H' => 20,
            'I' => 18,
            'J' => 6,
            'K' => 24,
            'L' => 7,
            'M' => 17,
            'N' => 21,
            'O' => 25,
            'P' => 22,
            'Q' => 16,
            'R' => 4,
            'S' => 26,
            'T' => 5,
            'U' => 8,
            'V' => 9,
            'W' => 10,
            'X' => 11,
            _ => { return Err(ParseSpeffzError::BadSpeffzLetter); },
        };
        Ok(Edge::from_code(v))
    }

    fn speffz(self) -> (r: char) {
        match self.code() {
            0 => 'A',
            1 => 'B',
            2 => 'C',
            3 => 'D',
            4 => 'R',
            5 => 'T',
            6 => 'J',
            7 => 'L',
            8 => 'U',
            9 => 'V',
            10 => 'W',
            11 => 'X',
            16 => 'Q',
            17 => 'M',
            18 => 'I',
            19 => 'E',
            20 => 'H',
            21 => 'N',
            22 => 'P',
            23 => 'F',
            24 => 'K',
            25 => 'O',
            26 => 'S',
            _ => 'G',
        }
    }
}

/// A position that is written as a string of Speffz letters.
pub trait Speffz: Sized {
    /// The letters of the position.
    spec fn letters(&self) -> Seq<char>;

    /// Whether `r` is what reading `s` gives.
    spec fn parses_to(s: &str, r: Result<Self, ParseSpeffzError>) -> bool;

    /// Reads a position from Speffz letters.
    fn from_speffz(s: &str) -> (r: Result<Self, ParseSpeffzError>)
        ensures
            Self::parses_to(s, r),
    ;

    /// The position in Speffz letters.
    fn speffz(self) -> (r: String)
        ensures
            r@ == self.letters(),
    ;
}

/// Whether every character of `s` is a Speffz letter of a corner.
pub open spec fn all_corner_letters(s: Seq<char>) -> bool {
    forall|i: int| 0 <= i < s.len() ==> (#[trigger] corner_of_letter(s[i])) is Some
}

/// The corner codes of the letters `s`.
pub open spec fn corners_of_letters(s: Seq<char>) -> Seq<u8> {
    s.map_values(|c: char| corner_of_letter(c)->0)
}

/// What reading the letters `s` as the eight corners gives: the corners
/// when all eight are letters, `BadSpeffzLetter` when a character is not a
/// letter, and `SliceError` when there are not eight letters.
pub open spec fn corners_parsed(s: Seq<char>, r: Result<Corners, ParseSpeffzError>) -> bool {
    match r {
        Ok(c) => all_corner_letters(s) && s.len() == 8 && c@ == corners_of_letters(s),
        Err(ParseSpeffzError::BadSpeffzLetter) => !all_corner_letters(s),
        Err(ParseSpeffzError::SliceError(_)) => all_corner_letters(s) && s.len() != 8,
        Err(ParseSpeffzError::MiscParseError) => false,
    }
}

impl Corners {
    /// Reads the eight corners from the Speffz letters `s`.
    pub fn from_letters(s: &[char]) -> (r: Result<Corners, ParseSpeffzError>)
        ensures
            corners_parsed(s@, r),
    {
        let mut v: Vec<Corner> = Vec::new();
        let mut i: usize = 0;
        while i < s.len()
            invariant
                0 <= i <= s@.len(),
                all_corner_letters(s@.take(i as int)),
                v@.map_values(|c: Corner| c@) == corners_of_letters(s@.take(i as int)),
            decreases s@.len() - i,
        {
            let c = match Corner::from_speffz(s[i]) {
                Ok(c) => c,
                Err(e) => {
                    assert(corner_of_letter(s@[i as int]) is None);
                    return Err(e);
                },
            };
            proof {
                Corner::lemma_with_code(corner_of_letter(s@[i as int])->0);
                assert(c@ == corner_of_letter(s@[i as int])->0);
            }
            let ghost old_v = v@;
            v.push(c);
            proof {
                assert(v@ == old_v.push(c));
                assert(v@.map_values(|c: Corner| c@) =~= old_v.map_values(|c: Corner| c@).push(c@));
                let t = s@.take(i + 1);
                assert(t.drop_last() == s@.take(i as int));
                assert forall|k: int| 0 <= k < t.len() implies (#[trigger] corner_of_letter(t[k])) is Some by {
                    if k < i {
                        assert(t[k] == s@.take(i as int)[k]);
                    }
                }
                assert(v@.map_values(|c: Corner| c@) =~= corners_of_letters(t));
            }
            i = i + 1;
        }
        assert(s@.take(s@.len() as int) == s@);
        match array_from_slice::<Corner, 8>(v.as_slice()) {
            Ok(a) => {
                proof {
                    assert forall|k: int| 0 <= k < 8 implies (#[trigger] a@[k])@ < 24 by {
                        assert(a@[k]@ == corners_of_letters(s@)[k]);
                    }
                }
                let c = Corners::from_array(a);
                proof {
                    assert(c@ =~= corners_of_letters(s@));
                }
                Ok(c)
            },
            Err(e) => Err(ParseSpeffzError::SliceError(e)),
        }
    }
}

impl Speffz for Corners {
    open spec fn letters(&self) -> Seq<char> {
        corner_letters(self@)
    }

    open spec fn parses_to(s: &str, r: Result<Corners, ParseSpeffzError>) -> bool {
        corners_parsed(s@, r)
    }

    fn from_speffz(s: &str) -> (r: Result<Corners, ParseSpeffzError>) {
        let v = str_chars(s);
        Corners::from_letters(v.as_slice())
    }

    fn speffz(self) -> (r: String) {
        self.valid_lanes();
        let mut out = String::new();
        let mut i: u8 = 0;
        while i < 8
            invariant
                0 <= i <= 8,
                self@.len() == 8,
                out@ == corner_letters(self@).take(i as int),
            decreases 8 - i,
        {
            push_char(&mut out, self.at(i).speffz());
            assert(out@ =~= corner_letters(self@).take(i + 1));
            i = i + 1;
        }
        assert(corner_letters(self@).take(8) =~= corner_letters(self@));
        out
    }
}

/// Whether the byte `b` is the ASCII code of a letter from `A` to `X`.
pub open spec fn speffz_byte(b: u8) -> bool {
    65 <= b <= 88
}

/// What reading the bytes `b` as the eight corners gives: the length is
/// checked first, so eight bytes are needed; then every byte must be a
/// letter from `A` to `X`.
pub open spec fn corners_parsed_bytes(b: Seq<u8>, r: Result<corners_neon::Corners, ParseSpeffzError>) -> bool {
    match r {
        Ok(c) => b.len() == 8 && (forall|i: int| 0 <= i < 8 ==> #[trigger] speffz_byte(b[i]))
            && c@ == b.map_values(|x: u8| corner_of_letter(x as char)->0),
        Err(ParseSpeffzError::BadSpeffzLetter) => b.len() == 8 && exists|i: int| 0 <= i < 8 && !#[trigger] speffz_byte(b[i]),
        Err(ParseSpeffzError::SliceError(_)) => b.len() != 8,
        Err(ParseSpeffzError::MiscParseError) => false,
    }
}

/// The corner code of the letter `k` places after `A`.
fn corner_code_at(k: u8) -> (r: u8)
    requires
        k < 24,
    ensures
        r == corner_of_letter((k + 65) as char)->0,
        r < 24,
{
    match k {
        0 => 0,
        1 => 1,
        2 => 2,
        3 => 3,
        4 => 16,
        5 => 11,
        6 => 20,
        7 => 15,
        8 => 19,
        9 => 10,
        10 => 21,
        11 => 12,
        12 => 18,
        13 => 9,
        14 => 22,
        15 => 13,
        16 => 17,
        17 => 8,
        18 => 23,
        19 => 14,
        20 => 4,
        21 => 5,
        22 => 6,
        _ => 7,
    }
}

impl Speffz for corners_neon::Corners {
    open spec fn letters(&self) -> Seq<char> {
        corner_letters(self@)
    }

    open spec fn parses_to(s: &str, r: Result<corners_neon::Corners, ParseSpeffzError>) -> bool {
        corners_parsed_bytes(s.spec_bytes(), r)
    }

    /// Reads the eight bytes of `s`: each less `A` must be below 24, which
    /// the largest of them tells, and names the code in a table.
    fn from_speffz(s: &str) -> (r: Result<corners_neon::Corners, ParseSpeffzError>) {
        let a: [u8; 8] = match array_from_slice::<u8, 8>(s.as_bytes()) {
            Ok(a) => a,
            Err(e) => {
                return Err(ParseSpeffzError::SliceError(e));
            },
        };
        let mut idx: [u8; 8] = [0; 8];
        let mut i: usize = 0;
        while i < 8
            invariant
                0 <= i <= 8,
                forall|j: int| 0 <= j < i ==> #[trigger] idx[j] == (if a[j] >= 65 { a[j] - 65 } else { a[j] + 191 }),
            decreases 8 - i,
        {
            idx[i] = a[i].wrapping_sub(65);  // the ASCII code of `A`
            i = i + 1;
        }
        let mut err: u8 = idx[0];
        let ghost mut at: int = 0;
        let mut i: usize = 1;
        while i < 8
            invariant
                1 <= i <= 8,
                forall|j: int| 0 <= j < i ==> #[trigger] idx[j] <= err,
                0 <= at < i,
                idx[at] == err,
            decreases 8 - i,
        {
            if idx[i] > err {
                err = idx[i];
                proof {
                    at = i as int;
                }
            }
            i = i + 1;
        }
        if err < 24 {
            let mut lanes: [u8; 8] = [0; 8];
            let mut i: usize = 0;
            while i < 8
                invariant
                    0 <= i <= 8,
                    forall|j: int| 0 <= j < 8 ==> #[trigger] idx[j] < 24,
                    forall|j: int| 0 <= j < 8 ==> #[trigger] idx[j] == (if a[j] >= 65 { a[j] - 65 } else { a[j] + 191 }),
                    forall|j: int| 0 <= j < i ==> #[trigger] lanes[j] == corner_of_letter((a[j] as int) as char)->0,
                    forall|j: int| 0 <= j < 8 ==> #[trigger] lanes[j] < 24,
                decreases 8 - i,
            {
                lanes[i] = corner_code_at(idx[i]);
                i = i + 1;
            }
            let c = corners_neon::Corners::from_codes(lanes);
            proof {
                assert forall|j: int| 0 <= j < 8 implies #[trigger] speffz_byte(a@[j]) by {
                    assert(idx[j] < 24);
                }
                assert(c@ =~= a@.map_values(|x: u8| corner_of_letter(x as char)->0));
            }
            Ok(c)
        } else {
            proof {
                assert(!speffz_byte(a@[at]));
            }
            Err(ParseSpeffzError::BadSpeffzLetter)
        }
    }

    fn speffz(self) -> (r: String) {
        self.valid_lanes();
        let mut out = String::new();
        let mut i: usize = 0;
        while i < 8
            invariant
                0 <= i <= 8,
                corner_lanes(self@),
                out@ == corner_letters(self@).take(i as int),
            decreases 8 - i,
        {
            push_char(&mut out, Corner::from_code(self.lane(i)).speffz());
            assert(out@ =~= corner_letters(self@).take(i + 1));
            i = i + 1;
        }
        assert(corner_letters(self@).take(8) =~= corner_letters(self@));
        out
    }
}

/// Whether every character of `s` is a Speffz letter of an edge.
pub open spec fn all_edge_letters(s: Seq<char>) -> bool {
    forall|i: int| 0 <= i < s.len() ==> (#[trigger] edge_of_letter(s[i])) is Some
}

/// The edge codes of the letters `s`.
pub open spec fn edges_of_letters(s: Seq<char>) -> Seq<u8> {
    s.map_values(|c: char| edge_of_letter(c)->0)
}

/// What reading the letters `s` as the twelve edges gives: the edges when
/// all twelve are letters, `BadSpeffzLetter` when a character is not a
/// letter, and `SliceError` when there are not twelve letters.
pub open spec fn edges_parsed(s: Seq<char>, r: Result<Edges, ParseSpeffzError>) -> bool {
    match r {
        Ok(e) => all_edge_letters(s) && s.len() == 12 && e@ == edges_of_letters(s),
        Err(ParseSpeffzError::BadSpeffzLetter) => !all_edge_letters(s),
        Err(ParseSpeffzError::SliceError(_)) => all_edge_letters(s) && s.len() != 12,
        Err(ParseSpeffzError::MiscParseError) => false,
    }
}

impl Edges {
    /// Reads the twelve edges from the Speffz letters `s`.
    pub fn from_letters(s: &[char]) -> (r: Result<Edges, ParseSpeffzError>)
        ensures
            edges_parsed(s@, r),
    {
        let mut v: Vec<Edge> = Vec::new();
        let mut i: usize = 0;
        while i < s.len()
            invariant
                0 <= i <= s@.len(),
                all_edge_letters(s@.take(i as int)),
                v@.map_values(|e: Edge| e@) == edges_of_letters(s@.take(i as int)),
            decreases s@.len() - i,
        {
            let e = match Edge::from_speffz(s[i]) {
                Ok(e) => e,
                Err(err) => {
                    assert(edge_of_letter(s@[i as int]) is None);
                    return Err(err);
                },
            };
            proof {
                Edge::lemma_with_code(edge_of_letter(s@[i as int])->0);
                assert(e@ == edge_of_letter(s@[i as int])->0);
            }
            let ghost old_v = v@;
            v.push(e);
            proof {
                assert(v@ == old_v.push(e));
                assert(v@.map_values(|e: Edge| e@) =~= old_v.map_values(|e: Edge| e@).push(e@));
                let t = s@.take(i + 1);
                assert(t.drop_last() == s@.take(i as int));
                assert forall|k: int| 0 <= k < t.len() implies (#[trigger] edge_of_letter(t[k])) is Some by {
                    if k < i {
                        assert(t[k] == s@.take(i as int)[k]);
                    }
                }
                assert(v@.map_values(|e: Edge| e@) =~= edges_of_letters(t));
            }
            i = i + 1;
        }
        assert(s@.take(s@.len() as int) == s@);
        match array_from_slice::<Edge, 12>(v.as_slice()) {
            Ok(a) => {
                proof {
                    assert forall|k: int| 0 <= k < 12 implies edge_code_ok(#[trigger] a@[k]@) by {
                        assert(a@[k]@ == edges_of_letters(s@)[k]);
                    }
                }
                let e = Edges::from_array(a);
                proof {
                    assert(e@ =~= edges_of_letters(s@));
                }
                Ok(e)
            },
            Err(err) => Err(ParseSpeffzError::SliceError(err)),
        }
    }
}

impl Speffz for Edges {
    open spec fn letters(&self) -> Seq<char> {
        edge_letters(self@)
    }

    open spec fn parses_to(s: &str, r: Result<Edges, ParseSpeffzError>) -> bool {
        edges_parsed(s@, r)
    }

    fn from_speffz(s: &str) -> (r: Result<Edges, ParseSpeffzError>) {
        let v = str_chars(s);
        Edges::from_letters(v.as_slice())
    }

    fn speffz(self) -> (r: String) {
        self.valid_lanes();
        let mut out = String::new();
        let mut i: u8 = 0;
        while i < 12
            invariant
                0 <= i <= 12,
                self@.len() == 12,
                out@ == edge_letters(self@).take(i as int),
            decreases 12 - i,
        {
            push_char(&mut out, self.at(i).speffz());
            assert(out@ =~= edge_letters(self@).take(i + 1));
            i = i + 1;
        }
        assert(edge_letters(self@).take(12) =~= edge_letters(self@));
        out
    }
}

/// The Speffz letter of a corner is the entry of the Speffz table for its
/// slot, in the row of its twist: untwisted `ABCDUVWX`, twisted once
/// `RNJFLPTH`, twisted twice `EQMIGKOS`. A letter reads as a code exactly
/// when it is that code's letter.
pub proof fn law_corner_letter_table(v: u8, c: char)
    requires
        v < 24,
    ensures
        corner_letter(v) == (if crate::corners::ctw(v) == 0 {
            seq!['A', 'B', 'C', 'D', 'U', 'V', 'W', 'X']
        } else if crate::corners::ctw(v) == 1 {
            seq!['R', 'N', 'J', 'F', 'L', 'P', 'T', 'H']
        } else {
            seq!['E', 'Q', 'M', 'I', 'G', 'K', 'O', 'S']
        })[crate::corners::cid(v)],
        corner_of_letter(c) == Some(v) <==> c == corner_letter(v),
{
    let r0 = seq!['A', 'B', 'C', 'D', 'U', 'V', 'W', 'X'];
    let r1 = seq!['R', 'N', 'J', 'F', 'L', 'P', 'T', 'H'];
    let r2 = seq!['E', 'Q', 'M', 'I', 'G', 'K', 'O', 'S'];
    assert(r0[0] == 'A' && r0[1] == 'B' && r0[2] == 'C' && r0[3] == 'D' && r0[4] == 'U' && r0[5] == 'V' && r0[6] == 'W' && r0[7] == 'X');
    assert(r1[0] == 'R' && r1[1] == 'N' && r1[2] == 'J' && r1[3] == 'F' && r1[4] == 'L' && r1[5] == 'P' && r1[6] == 'T' && r1[7] == 'H');
    assert(r2[0] == 'E' && r2[1] == 'Q' && r2[2] == 'M' && r2[3] == 'I' && r2[4] == 'G' && r2[5] == 'K' && r2[6] == 'O' && r2[7] == 'S');
    law_corner_letter_roundtrip(v);
    if corner_of_letter(c) == Some(v) {
        law_corner_of_letter_roundtrip(c);
    }
}

/// The Speffz letter of an edge is the entry of the Speffz table for its
/// slot, in the row of its flip: unflipped `ABCDRTJLUVWX`, flipped
/// `QMIEHNPFKOSG`. A letter reads as a code exactly when it is that code's
/// letter.
pub proof fn law_edge_letter_table(v: u8, c: char)
    requires
        edge_code_ok(v),
    ensures
        edge_letter(v) == (if crate::edges::efl(v) == 0 {
            seq!['A', 'B', 'C', 'D', 'R', 'T', 'J', 'L', 'U', 'V', 'W', 'X']
        } else {
            seq!['Q', 'M', 'I', 'E', 'H', 'N', 'P', 'F', 'K', 'O', 'S', 'G']
        })[crate::edges::eid(v)],
        edge_of_letter(c) == Some(v) <==> c == edge_letter(v),
{
    let r0 = seq!['A', 'B', 'C', 'D', 'R', 'T', 'J', 'L', 'U', 'V', 'W', 'X'];
    let r1 = seq!['Q', 'M', 'I', 'E', 'H', 'N', 'P', 'F', 'K', 'O', 'S', 'G'];
    assert(r0[0] == 'A' && r0[1] == 'B' && r0[2] == 'C' && r0[3] == 'D' && r0[4] == 'R' && r0[5] == 'T' && r0[6] == 'J' && r0[7] == 'L' && r0[8] == 'U' && r0[9] == 'V' && r0[10] == 'W' && r0[11] == 'X');
    assert(r1[0] == 'Q' && r1[1] == 'M' && r1[2] == 'I' && r1[3] == 'E' && r1[4] == 'H' && r1[5] == 'N' && r1[6] == 'P' && r1[7] == 'F' && r1[8] == 'K' && r1[9] == 'O' && r1[10] == 'S' && r1[11] == 'G');
    law_edge_letter_roundtrip(v);
    if edge_of_letter(c) == Some(v) {
        law_edge_of_letter_roundtrip(c);
    }
}

/// Every corner code has a Speffz letter that reads back as that code.
pub proof fn law_corner_letter_roundtrip(v: u8)
    requires
        v < 24,
    ensures
        corner_of_letter(corner_letter(v)) == Some(v),
{
}

/// Every Speffz letter of a corner reads as a code whose letter it is.
pub proof fn law_corner_of_letter_roundtrip(c: char)
    requires
        corner_of_letter(c) is Some,
    ensures
        corner_of_letter(c)->0 < 24,
        corner_letter(corner_of_letter(c)->0) == c,
{
}

/// Every edge code has a Speffz letter that reads back as that code.
pub proof fn law_edge_letter_roundtrip(v: u8)
    requires
        edge_code_ok(v),
    ensures
        edge_of_letter(edge_letter(v)) == Some(v),
{
}

/// Every Speffz letter of an edge reads as a code whose letter it is.
pub proof fn law_edge_of_letter_roundtrip(c: char)
    requires
        edge_of_letter(c) is Some,
    ensures
        edge_code_ok(edge_of_letter(c)->0),
        edge_letter(edge_of_letter(c)->0) == c,
{
}

/// Reading the Speffz letters of a position of corners gives that position.
pub proof fn law_corners_speffz_roundtrip(a: Seq<u8>, r: Result<Corners, ParseSpeffzError>)
    requires
        corner_lanes(a),
        corners_parsed(corner_letters(a), r),
    ensures
        r matches Ok(x) && x@ == a,
{
    let s = corner_letters(a);
    assert forall|i: int| 0 <= i < s.len() implies (#[trigger] corner_of_letter(s[i])) is Some by {
        law_corner_letter_roundtrip(a[i]);
    }
    assert forall|i: int| 0 <= i < 8 implies #[trigger] corners_of_letters(s)[i] == a[i] by {
        law_corner_letter_roundtrip(a[i]);
    }
    assert(corners_of_letters(s) =~= a);
}

/// Reading the Speffz letters of a position of edges gives that position.
pub proof fn law_edges_speffz_roundtrip(a: Seq<u8>, r: Result<Edges, ParseSpeffzError>)
    requires
        edge_lanes(a),
        edges_parsed(edge_letters(a), r),
    ensures
        r matches Ok(x) && x@ == a,
{
    let s = edge_letters(a);
    assert forall|i: int| 0 <= i < s.len() implies (#[trigger] edge_of_letter(s[i])) is Some by {
        law_edge_letter_roundtrip(a[i]);
    }
    assert forall|i: int| 0 <= i < 12 implies #[trigger] edges_of_letters(s)[i] == a[i] by {
        law_edge_letter_roundtrip(a[i]);
    }
    assert(edges_of_letters(s) =~= a);
}

impl Speffz for edges_neon::Edges {
    open spec fn letters(&self) -> Seq<char> {
        edge_letters(self@)
    }

    open spec fn parses_to(s: &str, r: Result<edges_neon::Edges, ParseSpeffzError>) -> bool {
        match r {
            Ok(e) => all_edge_letters(s@) && s@.len() == 12 && e@ == edges_of_letters(s@),
            Err(err) => edges_parsed(s@, Err(err)),
        }
    }

    fn from_speffz(s: &str) -> (r: Result<edges_neon::Edges, ParseSpeffzError>) {
        match Edges::from_speffz(s) {
            Ok(e) => Ok(edges_neon::Edges::from(e)),
            Err(err) => Err(err),
        }
    }

    fn speffz(self) -> (r: String) {
        Edges::from(self).speffz()
    }
}

/// Reading back, byte by byte, the Speffz letters that the lane
/// representation writes gives the same corners: the letters are ASCII, so
/// their bytes are the letters themselves.
pub proof fn law_lane_corners_speffz_roundtrip(a: Seq<u8>, r: Result<corners_neon::Corners, ParseSpeffzError>)
    requires
        corner_lanes(a),
        corners_parsed_bytes(vstd::utf8::encode_utf8(corner_letters(a)), r),
    ensures
        r matches Ok(x) && x@ == a,
{
    let s = corner_letters(a);
    assert forall|i: int| 0 <= i < s.len() implies '\0' <= #[trigger] s[i] <= '\u{7f}' by {
        law_corner_letter_roundtrip(a[i]);
    }
    assert(vstd::utf8::is_ascii_chars(s));
    vstd::utf8::is_ascii_chars_encode_utf8(s);
    let b = vstd::utf8::encode_utf8(s);
    assert forall|i: int| 0 <= i < 8 implies #[trigger] speffz_byte(b[i]) && corner_of_letter(b[i] as char)->0 == a[i] by {
        law_corner_letter_roundtrip(a[i]);
        assert(s[i] as u8 == b[i]);
    }
    assert(b.map_values(|x: u8| corner_of_letter(x as char)->0) =~= a);
}

} // verus!
