use vstd::prelude::*;
use vstd::std_specs::iter::IteratorSpec;

use crate::text::{is_whitespace, push_char, white_space};

verus! {

/// The number of outer turns of a 3x3x3 cube.
pub const NTURNS: usize = 18;

/// A face of the cube.
#[derive(Clone, Copy, Debug, PartialEq, Eq, Structural)]
pub enum Face {
    U,
    R,
    F,
    D,
    L,
    B,
}

/// An axis of the cube; opposite faces share an axis.
#[derive(Clone, Copy, Debug, PartialEq, Eq, Structural)]
pub enum Axis {
    Y,
    X,
    Z,
}

impl Face {
    /// The number of the face: U, R, F, D, L, B are 0 to 5.
    pub open spec fn num(self) -> int {
        match self {
            Face::U => 0,
            Face::R => 1,
            Face::F => 2,
            Face::D => 3,
            Face::L => 4,
            Face::B => 5,
        }
    }
}

impl Axis {
    /// The number of the axis: Y, X, Z are 0 to 2.
    pub open spec fn num(self) -> int {
        match self {
            Axis::Y => 0,
            Axis::X => 1,
            Axis::Z => 2,
        }
    }
}

/// An outer turn of a 3x3x3 cube.
///
/// U1 = U, U3 = U', etc.
///
/// Turns of the same face are grouped together, the clockwise quarter turn
/// first, and turns of opposite faces are in opposite halves of the
/// numbering.
#[derive(Clone, Copy, Debug, PartialEq, Eq, Structural)]
pub enum Turn {
    U1,
    U2,
    U3,
    R1,
    R2,
    R3,
    F1,
    F2,
    F3,
    D1,
    D2,
    D3,
    L1,
    L2,
    L3,
    B1,
    B2,
    B3,
}

/// The turn with number `n` (0 to 17).
pub open spec fn turn_of(n: int) -> Turn {
    if n == 0 { Turn::U1 }
    else if n == 1 { Turn::U2 }
    else if n == 2 { Turn::U3 }
    else if n == 3 { Turn::R1 }
    else if n == 4 { Turn::R2 }
    else if n == 5 { Turn::R3 }
    else if n == 6 { Turn::F1 }
    else if n == 7 { Turn::F2 }
    else if n == 8 { Turn::F3 }
    else if n == 9 { Turn::D1 }
    else if n == 10 { Turn::D2 }
    else if n == 11 { Turn::D3 }
    else if n == 12 { Turn::L1 }
    else if n == 13 { Turn::L2 }
    else if n == 14 { Turn::L3 }
    else if n == 15 { Turn::B1 }
    else if n == 16 { Turn::B2 }
    else { Turn::B3 }
}

/// The number of clockwise quarter turns that `t` makes: 1, 2 or 3.
pub open spec fn quarters(t: Turn) -> int {
    t.num() % 3 + 1
}

/// The turn of the face numbered `f` by `q` clockwise quarter turns (1 to
/// 3).
pub open spec fn face_turn(f: int, q: int) -> Turn {
    turn_of(3 * f + q - 1)
}

/// The turn that undoes `t`: the same face, turned back.
pub open spec fn turn_inverse(t: Turn) -> Turn {
    face_turn(t.face_num(), 4 - quarters(t))
}

/// What two turns of the same face amount to: one turn of that face, or
/// none when the quarter turns add up to a whole turn.
pub open spec fn face_merge(a: Turn, b: Turn) -> Option<Turn> {
    let q = (quarters(a) + quarters(b)) % 4;
    if q == 0 {
        None
    } else {
        Some(face_turn(a.face_num(), q))
    }
}

impl Turn {
    /// The number of the turn, from 0 (U1) to 17 (B3).
    pub open spec fn num(self) -> int {
        match self {
            Turn::U1 => 0,
            Turn::U2 => 1,
            Turn::U3 => 2,
            Turn::R1 => 3,
            Turn::R2 => 4,
            Turn::R3 => 5,
            Turn::F1 => 6,
            Turn::F2 => 7,
            Turn::F3 => 8,
            Turn::D1 => 9,
            Turn::D2 => 10,
            Turn::D3 => 11,
            Turn::L1 => 12,
            Turn::L2 => 13,
            Turn::L3 => 14,
            Turn::B1 => 15,
            Turn::B2 => 16,
            Turn::B3 => 17,
        }
    }

    /// The number of the face that the turn turns.
    pub open spec fn face_num(self) -> int {
        self.num() / 3
    }

    /// The number of the axis of the turned face.
    pub open spec fn axis_num(self) -> int {
        self.face_num() % 3
    }

    /// Whether the turned face is in the second half (D, L, B).
    pub open spec fn face_sign_spec(self) -> bool {
        self.num() / 9 != 0
    }

    /// Whether `self` may follow `prev` in a canonical sequence.
    pub open spec fn follows(self, prev: Option<Turn>) -> bool {
        match prev {
            None => true,
            Some(p) => self.face_num() != p.face_num() && (!p.face_sign_spec() || p.axis_num()
                != self.axis_num()),
        }
    }

    /// The number of the turn.
    pub fn index(self) -> (r: usize)
        ensures
            r == self.num(),
    {
        match self {
            Turn::U1 => 0,
            Turn::U2 => 1,
            Turn::U3 => 2,
            Turn::R1 => 3,
            Turn::R2 => 4,
            Turn::R3 => 5,
            Turn::F1 => 6,
            Turn::F2 => 7,
            Turn::F3 => 8,
            Turn::D1 => 9,
            Turn::D2 => 10,
            Turn::D3 => 11,
            Turn::L1 => 12,
            Turn::L2 => 13,
            Turn::L3 => 14,
            Turn::B1 => 15,
            Turn::B2 => 16,
            Turn::B3 => 17,
        }
    }

    /// The turn with number `n`.
    pub fn from_index(n: u8) -> (t: Turn)
        requires
            n < 18,
        ensures
            t.num() == n,
            t == turn_of(n as int),
    {
        if n == 0 { Turn::U1 }
        else if n == 1 { Turn::U2 }
        else if n == 2 { Turn::U3 }
        else if n == 3 { Turn::R1 }
        else if n == 4 { Turn::R2 }
        else if n == 5 { Turn::R3 }
        else if n == 6 { Turn::F1 }
        else if n == 7 { Turn::F2 }
        else if n == 8 { Turn::F3 }
        else if n == 9 { Turn::D1 }
        else if n == 10 { Turn::D2 }
        else if n == 11 { Turn::D3 }
        else if n == 12 { Turn::L1 }
        else if n == 13 { Turn::L2 }
        else if n == 14 { Turn::L3 }
        else if n == 15 { Turn::B1 }
        else if n == 16 { Turn::B2 }
        else { Turn::B3 }
    }
}

impl Turn {
    /// The axis of the turned face.
    pub fn axis(self) -> (r: Axis)
        ensures
            r.num() == self.axis_num(),
    {
        match self.face() {
            Face::U | Face::D => Axis::Y,
            Face::R | Face::L => Axis::X,
            Face::F | Face::B => Axis::Z,
        }
    }

    /// The turned face.
    pub fn face(self) -> (r: Face)
        ensures
            r.num() == self.face_num(),
    {
        let n = self.index() as u8 / 3;
        if n == 0 {
            Face::U
        } else if n == 1 {
            Face::R
        } else if n == 2 {
            Face::F
        } else if n == 3 {
            Face::D
        } else if n == 4 {
            Face::L
        } else {
            Face::B
        }
    }

    /// Whether the turned face is D, L or B, the second half of the faces.
    pub fn face_sign(self) -> (r: bool)
        ensures
            r == self.face_sign_spec(),
    {
        (self.index() as u8 / 9) != 0
    }

    /// Whether `self` is an allowed next move following `prev` in a canonical
    /// sequence: never a turn of the same face, and of two opposite faces only
    /// the first half (U, R, F) may be followed by the other.
    pub fn optfilter(self, prev: Option<Turn>) -> (r: bool)
        ensures
            r == self.follows(prev),
    {
        let prev = match prev {
            None => { return true; },
            Some(p) => p,
        };
        if self.face() == prev.face() {
            return false;
        }
        !prev.face_sign() || prev.axis() != self.axis()
    }
}

/// The turns, in order of their numbers, that may follow `prev`.
pub open spec fn canon_seq(prev: Option<Turn>) -> Seq<Turn> {
    Seq::new(NTURNS as nat, |i: int| turn_of(i)).filter(|t: Turn| t.follows(prev))
}

/// An iterator over possible turns.
pub type TurnIter = std::vec::IntoIter<Turn>;

/// The turns that may follow `prev`, in order of their numbers.
fn turn_list(prev: Option<Turn>) -> (r: Vec<Turn>)
    ensures
        r@ == canon_seq(prev),
{
    let ghost all = Seq::new(NTURNS as nat, |i: int| turn_of(i));
    let mut v: Vec<Turn> = Vec::new();
    let mut i: u8 = 0;
    while i < 18
        invariant
            0 <= i <= 18,
            all == Seq::new(NTURNS as nat, |i: int| turn_of(i)),
            v@ == all.take(i as int).filter(|t: Turn| t.follows(prev)),
        decreases 18 - i,
    {
        let t = Turn::from_index(i);
        assert(all.take(i + 1).drop_last() == all.take(i as int));
        reveal_with_fuel(Seq::filter, 1);
        if t.optfilter(prev) {
            v.push(t);
        }
        i = i + 1;
    }
    assert(all.take(18) == all);
    v
}

/// Filtering by a predicate that holds everywhere keeps the sequence.
proof fn lemma_filter_everything<A>(s: Seq<A>, p: spec_fn(A) -> bool)
    requires
        forall|x: A| #[trigger] p(x),
    ensures
        s.filter(p) == s,
    decreases s.len(),
{
    reveal(Seq::filter);
    if s.len() > 0 {
        lemma_filter_everything(s.drop_last(), p);
        assert(s.drop_last().push(s.last()) == s);
    }
}

/// An iterator over all possible turns.
pub fn allturns() -> (r: TurnIter)
    ensures
        r.remaining() == canon_seq(None),
        canon_seq(None) == Seq::new(NTURNS as nat, |i: int| turn_of(i)),
{
    proof {
        lemma_filter_everything(
            Seq::new(NTURNS as nat, |i: int| turn_of(i)),
            |t: Turn| t.follows(None),
        );
    }
    canonturns(None)
}

/// An iterator over all canonical turns that are allowed to follow `prev`.
/// If `prev` is `None`, all turns are allowed.
pub fn canonturns(prev: Option<Turn>) -> (r: TurnIter)
    ensures
        r.remaining() == canon_seq(prev),
{
    broadcast use vstd::std_specs::vec::axiom_spec_into_iter;
    turn_list(prev).into_iter()
}

impl IntoIterator for Turn {
    type Item = Turn;
    type IntoIter = TurnIter;

    /// An iterator over possible canonical moves following `self`.
    fn into_iter(self) -> (r: TurnIter)
        ensures
            r.remaining() == canon_seq(Some(self)),
    {
        canonturns(Some(self))
    }
}

/// The face turned by a move written with the letter `c`, as the number of
/// its clockwise quarter turn.
pub open spec fn face_base(c: char) -> Option<int> {
    if c == 'U' {
        Some(0)
    } else if c == 'R' {
        Some(3)
    } else if c == 'F' {
        Some(6)
    } else if c == 'D' {
        Some(9)
    } else if c == 'L' {
        Some(12)
    } else if c == 'B' {
        Some(15)
    } else {
        None
    }
}

/// How far past the clockwise quarter turn the suffix `c` moves: `1` keeps
/// it, `2` makes a half turn, `'` or `3` a counterclockwise quarter turn.
pub open spec fn suffix_offset(c: char) -> Option<int> {
    if c == '1' {
        Some(0)
    } else if c == '2' {
        Some(1)
    } else if c == '\'' || c == '3' {
        Some(2)
    } else {
        None
    }
}

/// The turn that a word of characters denotes: a face letter, optionally
/// followed by a suffix. Characters after the second are not looked at.
pub open spec fn parse_turn_spec(s: Seq<char>) -> Option<Turn> {
    if s.len() == 0 {
        None
    } else {
        match face_base(s[0]) {
            None => None,
            Some(b) => if s.len() == 1 {
                Some(turn_of(b))
            } else {
                match suffix_offset(s[1]) {
                    None => None,
                    Some(o) => Some(turn_of(b + o)),
                }
            },
        }
    }
}

/// The usual notation of a turn: the face letter, then nothing, `2` or `'`.
pub open spec fn turn_name(t: Turn) -> Seq<char> {
    let face = if t.face_num() == 0 {
        'U'
    } else if t.face_num() == 1 {
        'R'
    } else if t.face_num() == 2 {
        'F'
    } else if t.face_num() == 3 {
        'D'
    } else if t.face_num() == 4 {
        'L'
    } else {
        'B'
    };
    if t.num() % 3 == 0 {
        seq![face]
    } else if t.num() % 3 == 1 {
        seq![face, '2']
    } else {
        seq![face, '\'']
    }
}

/// Reading the usual notation of a turn gives the turn back.
pub proof fn law_turn_name_roundtrip(t: Turn)
    ensures
        parse_turn_spec(turn_name(t)) == Some(t),
        turn_name(t).len() >= 1,
{
    match t {
        Turn::U1 => {},
        Turn::U2 => {},
        Turn::U3 => {},
        Turn::R1 => {},
        Turn::R2 => {},
        Turn::R3 => {},
        Turn::F1 => {},
        Turn::F2 => {},
        Turn::F3 => {},
        Turn::D1 => {},
        Turn::D2 => {},
        Turn::D3 => {},
        Turn::L1 => {},
        Turn::L2 => {},
        Turn::L3 => {},
        Turn::B1 => {},
        Turn::B2 => {},
        Turn::B3 => {},
    }
}

/// A canonical sequence never turns the same face twice in a row; a turn of
/// another axis may always follow; of two turns of opposite faces, exactly
/// one order is canonical, the one that turns the face of the first half
/// (U, R, F) first.
pub proof fn law_canonical_order(p: Turn, t: Turn)
    ensures
        t.face_num() == p.face_num() ==> !t.follows(Some(p)),
        t.axis_num() != p.axis_num() ==> t.follows(Some(p)),
        t.axis_num() == p.axis_num() && t.face_num() != p.face_num() ==> (t.follows(Some(p)) <==> !p.follows(Some(t))),
        t.axis_num() == p.axis_num() && t.face_num() != p.face_num() ==> (t.follows(Some(p)) <==> !p.face_sign_spec()),
{
    match p {
        Turn::U1 => {},
        Turn::U2 => {},
        Turn::U3 => {},
        Turn::R1 => {},
        Turn::R2 => {},
        Turn::R3 => {},
        Turn::F1 => {},
        Turn::F2 => {},
        Turn::F3 => {},
        Turn::D1 => {},
        Turn::D2 => {},
        Turn::D3 => {},
        Turn::L1 => {},
        Turn::L2 => {},
        Turn::L3 => {},
        Turn::B1 => {},
        Turn::B2 => {},
        Turn::B3 => {},
    }
}

/// The turn given by the first two characters of a word.
fn turn_from_chars(first: Option<char>, second: Option<char>) -> (r: Result<Turn, ()>)
    ensures
        match r {
            Ok(t) => first matches Some(c0) && ({
                let b = face_base(c0);
                &&& b is Some
                &&& match second {
                    None => t == turn_of(b->0),
                    Some(c1) => suffix_offset(c1) is Some && t == turn_of(b->0 + suffix_offset(c1)->0),
                }
            }),
            Err(_) => match first {
                None => true,
                Some(c0) => face_base(c0) is None || (second matches Some(c1) && suffix_offset(c1) is None),
            },
        },
{
    let base: u8 = match first {
        Some('U') => 0,
        Some('R') => 3,
        Some('F') => 6,
        Some('D') => 9,
        Some('B') => 15,
        Some('L') => 12,
        _ => { return Err(()); },
    };
    let out: u8 = match second {
        Some('\'') | Some('3') => base + 2,
        Some('1') => base,
        Some('2') => base + 1,
        None => base,
        _ => { return Err(()); },
    };
    Ok(Turn::from_index(out))
}

/// Parses a turn written in the usual notation: a face letter (U, R, F, D, L,
/// B), optionally followed by `1`, `2`, `3` or `'`. Only the first two
/// characters are read.
pub fn parse_turn(s: &str) -> (r: Result<Turn, ()>)
    ensures
        match r {
            Ok(t) => parse_turn_spec(s@) == Some(t),
            Err(_) => parse_turn_spec(s@) is None,
        },
{
    broadcast use vstd::string::group_string_axioms;
    let mut c = s.chars();
    let first = c.next();
    let second = c.next();
    proof {
        if s@.len() >= 2 {
            assert(s@.drop_first()[0] == s@[1]);
        }
    }
    turn_from_chars(first, second)
}

impl Turn {
    /// The usual notation of the turn, such as `U`, `R2` or `F'`.
    pub fn name(self) -> (r: &'static str)
        ensures
            r@ == turn_name(self),
    {
        match self {
            Turn::U1 => { proof { reveal_strlit("U"); } "U" },
            Turn::U2 => { proof { reveal_strlit("U2"); } "U2" },
            Turn::U3 => { proof { reveal_strlit("U'"); } "U'" },
            Turn::R1 => { proof { reveal_strlit("R"); } "R" },
            Turn::R2 => { proof { reveal_strlit("R2"); } "R2" },
            Turn::R3 => { proof { reveal_strlit("R'"); } "R'" },
            Turn::F1 => { proof { reveal_strlit("F"); } "F" },
            Turn::F2 => { proof { reveal_strlit("F2"); } "F2" },
            Turn::F3 => { proof { reveal_strlit("F'"); } "F'" },
            Turn::D1 => { proof { reveal_strlit("D"); } "D" },
            Turn::D2 => { proof { reveal_strlit("D2"); } "D2" },
            Turn::D3 => { proof { reveal_strlit("D'"); } "D'" },
            Turn::L1 => { proof { reveal_strlit("L"); } "L" },
            Turn::L2 => { proof { reveal_strlit("L2"); } "L2" },
            Turn::L3 => { proof { reveal_strlit("L'"); } "L'" },
            Turn::B1 => { proof { reveal_strlit("B"); } "B" },
            Turn::B2 => { proof { reveal_strlit("B2"); } "B2" },
            Turn::B3 => { proof { reveal_strlit("B'"); } "B'" },
        }
    }
}

impl std::str::FromStr for Turn {
    type Err = ();

    /// Parses a turn as `parse_turn` does.
    fn from_str(s: &str) -> (r: Result<Turn, ()>)
        ensures
            match r {
                Ok(t) => parse_turn_spec(s@) == Some(t),
                Err(_) => parse_turn_spec(s@) is None,
            },
    {
        parse_turn(s)
    }
}

/// The state of splitting on whitespace after reading `s`: the finished
/// words, and the word being read.
pub open spec fn scan_words(s: Seq<char>) -> (Seq<Seq<char>>, Seq<char>)
    decreases s.len(),
{
    if s.len() == 0 {
        (Seq::empty(), Seq::empty())
    } else {
        let (done, cur) = scan_words(s.drop_last());
        let c = s.last();
        if white_space(c) {
            if cur.len() > 0 {
                (done.push(cur), Seq::empty())
            } else {
                (done, Seq::empty())
            }
        } else {
            (done, cur.push(c))
        }
    }
}

/// The words of `s`: its maximal runs of characters that are not whitespace,
/// in order.
pub open spec fn words(s: Seq<char>) -> Seq<Seq<char>> {
    let (done, cur) = scan_words(s);
    if cur.len() > 0 {
        done.push(cur)
    } else {
        done
    }
}

/// Whether every word of `w` denotes a turn.
pub open spec fn all_parse(w: Seq<Seq<char>>) -> bool {
    forall|i: int| 0 <= i < w.len() ==> (#[trigger] parse_turn_spec(w[i])) is Some
}

/// The turns that the words of `w` denote.
pub open spec fn parse_words(w: Seq<Seq<char>>) -> Seq<Turn> {
    w.map_values(|x: Seq<char>| parse_turn_spec(x)->0)
}

/// The words of `ts` joined by single spaces.
pub open spec fn turns_text(ts: Seq<Turn>) -> Seq<char>
    decreases ts.len(),
{
    if ts.len() == 0 {
        Seq::empty()
    } else if ts.len() == 1 {
        turn_name(ts[0])
    } else {
        turns_text(ts.drop_last()) + seq![' '] + turn_name(ts.last())
    }
}

/// The usual notations of the turns `ts`, one word each.
pub open spec fn turn_names(ts: Seq<Turn>) -> Seq<Seq<char>> {
    ts.map_values(|t: Turn| turn_name(t))
}

/// No character of the notation of a turn is whitespace.
proof fn lemma_name_not_white(t: Turn)
    ensures
        forall|i: int| 0 <= i < turn_name(t).len() ==> !white_space(#[trigger] turn_name(t)[i]),
{
    law_turn_name_roundtrip(t);
}

/// Reading characters that are not whitespace extends the current word.
proof fn lemma_scan_word(s: Seq<char>, w: Seq<char>)
    requires
        forall|i: int| 0 <= i < w.len() ==> !white_space(#[trigger] w[i]),
    ensures
        scan_words(s + w) == (scan_words(s).0, scan_words(s).1 + w),
    decreases w.len(),
{
    if w.len() == 0 {
        assert(s + w =~= s);
        assert(scan_words(s).1 + w =~= scan_words(s).1);
    } else {
        lemma_scan_word(s, w.drop_last());
        assert((s + w).drop_last() =~= s + w.drop_last());
        assert((s + w).last() == w.last());
        assert(scan_words(s).1 + w =~= (scan_words(s).1 + w.drop_last()).push(w.last()));
    }
}

/// Reading the text of the turns `ts` leaves the notations of all of them
/// but the last as finished words, and the notation of the last as the
/// current word.
proof fn lemma_scan_text(ts: Seq<Turn>)
    requires
        ts.len() >= 1,
    ensures
        scan_words(turns_text(ts)) == (turn_names(ts.drop_last()), turn_name(ts.last())),
    decreases ts.len(),
{
    let t = ts.last();
    lemma_name_not_white(t);
    if ts.len() == 1 {
        lemma_scan_word(Seq::empty(), turn_name(t));
        assert(Seq::<char>::empty() + turn_name(t) =~= turn_name(t));
        assert(Seq::<char>::empty() + turn_name(t) =~= turn_name(ts[0]));
        assert(turn_names(ts.drop_last()) =~= Seq::empty());
    } else {
        let rest = ts.drop_last();
        lemma_scan_text(rest);
        law_turn_name_roundtrip(rest.last());
        let a = turns_text(rest) + seq![' '];
        assert(a.drop_last() =~= turns_text(rest));
        assert(a.last() == ' ');
        assert(scan_words(a) == (turn_names(rest.drop_last()).push(turn_name(rest.last())), Seq::<char>::empty()));
        assert(turn_names(rest.drop_last()).push(turn_name(rest.last())) =~= turn_names(rest));
        lemma_scan_word(a, turn_name(t));
        assert(Seq::<char>::empty() + turn_name(t) =~= turn_name(t));
    }
}

/// Reading the text that `Turns::to_text` writes gives the same turns back.
pub proof fn law_turns_text_roundtrip(ts: Seq<Turn>)
    ensures
        all_parse(words(turns_text(ts))),
        parse_words(words(turns_text(ts))) == ts,
{
    if ts.len() == 0 {
        assert(words(turns_text(ts)) =~= Seq::<Seq<char>>::empty());
        assert(parse_words(words(turns_text(ts))) =~= ts);
    } else {
        lemma_scan_text(ts);
        law_turn_name_roundtrip(ts.last());
        let w = words(turns_text(ts));
        assert(w =~= turn_names(ts));
        assert forall|i: int| 0 <= i < w.len() implies (#[trigger] parse_turn_spec(w[i])) is Some by {
            law_turn_name_roundtrip(ts[i]);
        }
        assert forall|i: int| 0 <= i < ts.len() implies #[trigger] parse_words(w)[i] == ts[i] by {
            law_turn_name_roundtrip(ts[i]);
        }
        assert(parse_words(w) =~= ts);
    }
}

/// A sequence of turns.
#[derive(Debug)]
pub struct Turns(pub(crate) Vec<Turn>);

impl View for Turns {
    type V = Seq<Turn>;

    closed spec fn view(&self) -> Seq<Turn> {
        self.0@
    }
}

impl Default for Turns {
    fn default() -> (r: Turns)
        ensures
            r@ == Seq::<Turn>::empty(),
    {
        Turns(Vec::new())
    }
}

impl Turns {
    /// The sequence of the turns in `t`.
    pub fn from_slice(t: &[Turn]) -> (r: Turns)
        ensures
            r@ == t@,
    {
        let mut v: Vec<Turn> = Vec::new();
        let mut i: usize = 0;
        while i < t.len()
            invariant
                0 <= i <= t@.len(),
                v@ == t@.take(i as int),
            decreases t@.len() - i,
        {
            v.push(t[i]);
            i = i + 1;
            assert(v@ == t@.take(i as int));
        }
        assert(t@.take(t@.len() as int) == t@);
        Turns(v)
    }

    /// The turns, as a slice.
    pub fn as_slice(&self) -> (r: &[Turn])
        ensures
            r@ == self@,
    {
        self.0.as_slice()
    }

    /// The turns in the usual notation, separated by single spaces.
    pub fn to_text(&self) -> (r: String)
        ensures
            r@ == turns_text(self@),
    {
        let mut out = String::new();
        let mut i: usize = 0;
        while i < self.0.len()
            invariant
                0 <= i <= self@.len(),
                out@ == turns_text(self@.take(i as int)),
            decreases self@.len() - i,
        {
            if i != 0 {
                push_char(&mut out, ' ');
            }
            out.append(self.0[i].name());
            proof {
                let t = self@.take(i + 1);
                assert(t.drop_last() == self@.take(i as int));
                if i == 0 {
                    assert(turns_text(t) == turn_name(t[0]));
                    assert(out@ == turn_name(t[0]));
                }
            }
            i = i + 1;
        }
        assert(self@.take(self@.len() as int) == self@);
        out
    }

    /// Parses turns written in the usual notation and separated by
    /// whitespace. Fails if a word is not a turn.
    pub fn parse(s: &str) -> (r: Result<Turns, ()>)
        ensures
            match r {
                Ok(ts) => all_parse(words(s@)) && ts@ == parse_words(words(s@)),
                Err(_) => !all_parse(words(s@)),
            },
    {
        broadcast use vstd::string::group_string_axioms;
        let mut it = s.chars();
        let ghost text = s@;
        let mut out: Vec<Turn> = Vec::new();
        let mut first: Option<char> = None;
        let mut second: Option<char> = None;
        let mut cur_len: usize = 0;
        let ghost mut read: Seq<char> = Seq::empty();
        let ghost mut cur: Seq<char> = Seq::empty();
        loop
            invariant
                text == s@,
                read + it.remaining() == text,
                scan_words(read).1 == cur,
                all_parse(scan_words(read).0),
                out@ == parse_words(scan_words(read).0),
                cur_len == (if cur.len() < 2 { cur.len() } else { 2 }),
                first == (if cur.len() > 0 { Some(cur[0]) } else { None::<char> }),
                second == (if cur.len() > 1 { Some(cur[1]) } else { None::<char> }),
            ensures
                read == text,
                scan_words(read).1 == cur,
                all_parse(scan_words(read).0),
                out@ == parse_words(scan_words(read).0),
                first == (if cur.len() > 0 { Some(cur[0]) } else { None::<char> }),
                second == (if cur.len() > 1 { Some(cur[1]) } else { None::<char> }),
            decreases text.len() - read.len(),
        {
            let ghost rem = it.remaining();
            let next = it.next();
            match next {
                None => {
                    assert(read == text);
                    break;
                },
                Some(c) => {
                    proof {
                        assert(rem[0] == c);
                        assert((read + rem).drop_last() == read + rem.drop_last()) by {
                            assert(rem.len() > 0);
                        }
                        assert(read.push(c) + it.remaining() == text) by {
                            assert(it.remaining() == rem.drop_first());
                            assert(read.push(c) + rem.drop_first() =~= read + rem);
                        }
                    }
                    let ghost old_read = read;
                    proof {
                        read = read.push(c);
                        assert(read.drop_last() == old_read);
                    }
                    if is_whitespace(c) {
                        if cur_len > 0 {
                            match turn_from_chars(first, second) {
                                Ok(t) => {
                                    proof {
                                        let w = scan_words(old_read).0;
                                        assert(parse_turn_spec(cur) == Some(t));
                                        assert(scan_words(read).0 == w.push(cur));
                                        assert forall|k: int| 0 <= k < w.push(cur).len() implies
                                            (#[trigger] parse_turn_spec(w.push(cur)[k])) is Some by {
                                            if k < w.len() {
                                                assert(w.push(cur)[k] == w[k]);
                                            }
                                        }
                                    }
                                    out.push(t);
                                    proof {
                                        assert(out@ == parse_words(scan_words(read).0));
                                    }
                                },
                                Err(_) => {
                                    proof {
                                        assert(parse_turn_spec(cur) is None);
                                        assert(text.take(read.len() as int) == read);
                                        lemma_words_keep_finished(text, read);
                                        assert(words(text).take(scan_words(read).0.len() as int) == scan_words(read).0);
                                        let k = scan_words(old_read).0.len() as int;
                                        assert(scan_words(read).0[k] == cur);
                                        assert(words(text)[k] == cur);
                                        assert(parse_turn_spec(words(text)[k]) is None);
                                    }
                                    return Err(());
                                },
                            }
                        }
                        first = None;
                        second = None;
                        cur_len = 0;
                        proof {
                            cur = Seq::empty();
                        }
                    } else {
                        if cur_len == 0 {
                            first = Some(c);
                        } else if cur_len == 1 {
                            second = Some(c);
                        }
                        proof {
                            cur = cur.push(c);
                        }
                        if cur_len < 2 {
                            cur_len = cur_len + 1;
                        }
                    }
                },
            }
        }
        if cur_len > 0 {
            match turn_from_chars(first, second) {
                Ok(t) => {
                    out.push(t);
                    proof {
                        let w = scan_words(read).0;
                        assert(words(text) == w.push(cur));
                        assert forall|k: int| 0 <= k < w.push(cur).len() implies
                            (#[trigger] parse_turn_spec(w.push(cur)[k])) is Some by {
                            if k < w.len() {
                                assert(w.push(cur)[k] == w[k]);
                            }
                        }
                        assert(out@ == parse_words(words(text)));
                    }
                },
                Err(_) => {
                    proof {
                        let w = scan_words(read).0;
                        assert(words(text) == w.push(cur));
                        assert(words(text)[w.len() as int] == cur);
                        assert(parse_turn_spec(words(text)[w.len() as int]) is None);
                    }
                    return Err(());
                },
            }
        }
        Ok(Turns(out))
    }
}

/// The finished words after reading a prefix of `s` are the first words of
/// `s`.
proof fn lemma_words_keep_finished(s: Seq<char>, p: Seq<char>)
    requires
        p.len() <= s.len(),
        p == s.take(p.len() as int),
    ensures
        scan_words(p).0.len() <= words(s).len(),
        words(s).take(scan_words(p).0.len() as int) == scan_words(p).0,
        scan_words(p).1.len() > 0 && (p.len() == s.len() || white_space(s[p.len() as int]))
            ==> words(s).len() > scan_words(p).0.len() && words(s)[scan_words(p).0.len() as int] == scan_words(p).1,
    decreases s.len() - p.len(),
{
    if p.len() == s.len() {
        assert(p == s);
    } else {
        let q = s.take(p.len() + 1 as int);
        assert(q.drop_last() == p);
        lemma_words_keep_finished(s, q);
        let c = s[p.len() as int];
        assert(q.last() == c);
        let n = scan_words(p).0.len() as int;
        if white_space(c) {
            if scan_words(p).1.len() > 0 {
                assert(scan_words(q).0 == scan_words(p).0.push(scan_words(p).1));
                assert(scan_words(q).0.take(n) == scan_words(p).0);
                assert(words(s).take(n) == words(s).take(n + 1).take(n));
                assert(words(s)[n] == words(s).take(n + 1)[n]);
            }
        } else {
            assert(scan_words(q).0 == scan_words(p).0);
            assert(scan_words(q).1 == scan_words(p).1.push(c));
        }
    }
}

impl std::str::FromStr for Turns {
    type Err = ();

    /// Parses turns as `Turns::parse` does.
    fn from_str(s: &str) -> (r: Result<Turns, ()>)
        ensures
            match r {
                Ok(ts) => all_parse(words(s@)) && ts@ == parse_words(words(s@)),
                Err(_) => !all_parse(words(s@)),
            },
    {
        Turns::parse(s)
    }
}

} // verus!
