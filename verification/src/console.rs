//! Reading a square typed at the console: one part per axis from the last axis down,
//! letters on the odd axes and 1-based numbers on the even ones (`e4` is file `e`, rank 4).
use vstd::prelude::*;
use vstd::string::*;
use crate::decimal::{is_digit, digits_value};
use crate::fen::{is_ws, is_whitespace_char};
use crate::models::{Coordinate, Move, PieceType};

verus! {

/// Why a typed square was refused.
#[derive(Debug, Clone, PartialEq, Eq)]
pub enum CoordError {
    /// The input ran out before every axis had its part.
    Insufficient { dim: usize },
    /// A letter was due for the axis numbered `axis` (from 1).
    ExpectedLetter { axis: usize },
    /// The letters name a file past the last one, `max`.
    LetterOutOfBounds { letters: String, max: char },
    /// A number was due for the axis numbered `axis` (from 1).
    ExpectedNumber { axis: usize },
    /// The digits do not fit in a `usize`.
    InvalidNumber,
    /// The number is 0 or past the side of the board.
    NumberOutOfBounds { value: usize, side: usize },
}

/// Why a typed square was refused, with the letters as characters.
pub enum CoordFault {
    Insufficient { dim: nat },
    ExpectedLetter { axis: nat },
    LetterOutOfBounds { letters: Seq<char>, max: char },
    ExpectedNumber { axis: nat },
    InvalidNumber,
    NumberOutOfBounds { value: nat, side: nat },
}

impl CoordError {
    pub open spec fn view(&self) -> CoordFault {
        match self {
            CoordError::Insufficient { dim } => CoordFault::Insufficient { dim: *dim as nat },
            CoordError::ExpectedLetter { axis } => CoordFault::ExpectedLetter { axis: *axis as nat },
            CoordError::LetterOutOfBounds { letters, max } => CoordFault::LetterOutOfBounds {
                letters: letters@,
                max: *max,
            },
            CoordError::ExpectedNumber { axis } => CoordFault::ExpectedNumber { axis: *axis as nat },
            CoordError::InvalidNumber => CoordFault::InvalidNumber,
            CoordError::NumberOutOfBounds { value, side } => CoordFault::NumberOutOfBounds {
                value: *value as nat,
                side: *side as nat,
            },
        }
    }
}

/// An ASCII letter.
pub open spec fn is_letter(c: char) -> bool {
    ('a' <= c <= 'z') || ('A' <= c <= 'Z')
}

/// The file a letter names: `A` or `a` is 0.
pub open spec fn letter_value(c: char) -> nat {
    if 'a' <= c <= 'z' {
        (c as nat - 'a' as nat) as nat
    } else {
        (c as nat - 'A' as nat) as nat
    }
}

/// Where the run of letters (or of digits) that starts at `pos` ends.
pub open spec fn run_end(s: Seq<char>, pos: int, letters: bool) -> int
    decreases s.len() - pos,
{
    if pos >= s.len() {
        s.len() as int
    } else if (letters && is_letter(s[pos])) || (!letters && is_digit(s[pos])) {
        run_end(s, pos + 1, letters)
    } else {
        pos
    }
}

/// The first character that is not white space, at or after `i`.
pub open spec fn first_non_ws(s: Seq<char>, i: int) -> int
    decreases s.len() - i,
{
    if i >= s.len() {
        s.len() as int
    } else if is_ws(s[i]) {
        first_non_ws(s, i + 1)
    } else {
        i
    }
}

/// One past the last character that is not white space, at or before `j`.
pub open spec fn last_non_ws(s: Seq<char>, j: int) -> int
    decreases j,
{
    if j <= 0 {
        0
    } else if is_ws(s[j - 1]) {
        last_non_ws(s, j - 1)
    } else {
        j
    }
}

/// The text without leading and trailing white space, as `str::trim` gives it.
pub open spec fn trimmed(s: Seq<char>) -> Seq<char> {
    let a = first_non_ws(s, 0);
    let b = last_non_ws(s, s.len() as int);
    if a >= b {
        Seq::empty()
    } else {
        s.subrange(a, b)
    }
}

/// The axes `d` down to 0 read from `s` at `pos` into `acc`.
pub open spec fn parse_axes(s: Seq<char>, pos: int, d: int, dim: nat, side: nat, acc: Seq<u8>) -> Result<
    Seq<u8>,
    CoordFault,
>
    decreases d + 1,
{
    if d < 0 {
        Ok(acc)
    } else if pos >= s.len() {
        Err(CoordFault::Insufficient { dim })
    } else if d % 2 != 0 {
        let e = run_end(s, pos, true);
        if e == pos {
            Err(CoordFault::ExpectedLetter { axis: (d + 1) as nat })
        } else if letter_value(s[e - 1]) >= side {
            Err(CoordFault::LetterOutOfBounds { letters: s.subrange(pos, e), max: (65 + side - 1) as char })
        } else {
            parse_axes(s, e, d - 1, dim, side, acc.update(d, letter_value(s[e - 1]) as u8))
        }
    } else {
        let e = run_end(s, pos, false);
        if e == pos {
            Err(CoordFault::ExpectedNumber { axis: (d + 1) as nat })
        } else if digits_value(s.subrange(pos, e)) > usize::MAX {
            Err(CoordFault::InvalidNumber)
        } else if digits_value(s.subrange(pos, e)) == 0 || digits_value(s.subrange(pos, e)) > side {
            Err(CoordFault::NumberOutOfBounds { value: digits_value(s.subrange(pos, e)) as nat, side })
        } else {
            parse_axes(s, e, d - 1, dim, side, acc.update(d, (digits_value(s.subrange(pos, e)) - 1) as u8))
        }
    }
}

/// What typing `s` gives on a board with `dim` axes of `side` squares.
pub open spec fn coordinate_parse(s: Seq<char>, dim: nat, side: nat) -> Result<Seq<u8>, CoordFault> {
    parse_axes(trimmed(s), 0, dim - 1, dim, side, Seq::new(dim, |i: int| 0u8))
}

/// Every character from `pos` up to where its run ends is of the run's kind.
proof fn lemma_run_end(s: Seq<char>, pos: int, letters: bool)
    requires
        0 <= pos <= s.len(),
    ensures
        pos <= run_end(s, pos, letters) <= s.len(),
        forall|k: int|
            pos <= k < run_end(s, pos, letters) ==> (letters && is_letter(#[trigger] s[k])) || (!letters
                && is_digit(s[k])),
    decreases s.len() - pos,
{
    if pos < s.len() && ((letters && is_letter(s[pos])) || (!letters && is_digit(s[pos]))) {
        lemma_run_end(s, pos + 1, letters);
    }
}

/// Where the run of letters (or digits) that starts at `pos` ends.
fn scan_run(t: &str, pos: usize, letters: bool) -> (r: usize)
    requires
        pos <= t@.len(),
    ensures
        r == run_end(t@, pos as int, letters),
{
    let n = t.unicode_len();
    let mut k = pos;
    while k < n
        invariant
            n == t@.len(),
            pos <= k <= n,
            run_end(t@, pos as int, letters) == run_end(t@, k as int, letters),
        decreases n - k,
    {
        let c = t.get_char(k);
        let ok = if letters {
            ('a' <= c && c <= 'z') || ('A' <= c && c <= 'Z')
        } else {
            '0' <= c && c <= '9'
        };
        if !ok {
            return k;
        }
        k += 1;
    }
    k
}

/// The value of the digits of `t` from `pos` to `e`, when it fits in a `usize`.
fn read_number(t: &str, pos: usize, e: usize) -> (r: Option<usize>)
    requires
        pos < e <= t@.len(),
        forall|k: int| pos <= k < e ==> is_digit(#[trigger] t@[k]),
    ensures
        r == if digits_value(t@.subrange(pos as int, e as int)) > usize::MAX {
            None::<usize>
        } else {
            Some(digits_value(t@.subrange(pos as int, e as int)) as usize)
        },
        r matches Some(v) ==> v as int == digits_value(t@.subrange(pos as int, e as int)),
{
    let ghost d = t@.subrange(pos as int, e as int);
    assert(crate::decimal::all_digits(d));
    let mut value: u128 = 0;
    let mut k = pos;
    while k < e
        invariant
            pos <= k <= e,
            e <= t@.len(),
            d == t@.subrange(pos as int, e as int),
            crate::decimal::all_digits(d),
            value == digits_value(d.take(k - pos)),
            value <= usize::MAX,
        decreases e - k,
    {
        let c = t.get_char(k);
        proof {
            assert(d[k - pos] == c);
            assert(d.take(k - pos + 1).drop_last() =~= d.take(k - pos));
        }
        value = value * 10 + (c as u32 - '0' as u32) as u128;
        if value > usize::MAX as u128 {
            proof {
                crate::decimal::lemma_digits_grow(d, (k - pos + 1) as nat);
            }
            return None;
        }
        k += 1;
    }
    proof {
        assert(d.take(e - pos) =~= d);
    }
    Some(value as usize)
}

/// The index of the first character that is not white space, and one past the last.
fn trim_bounds(s: &str) -> (r: (usize, usize))
    ensures
        r.0 == first_non_ws(s@, 0),
        r.1 == last_non_ws(s@, s@.len() as int),
        r.0 <= s@.len(),
        r.1 <= s@.len(),
{
    let n = s.unicode_len();
    let mut i: usize = 0;
    while i < n && is_whitespace_char(s.get_char(i))
        invariant
            n == s@.len(),
            i <= n,
            first_non_ws(s@, 0) == first_non_ws(s@, i as int),
        decreases n - i,
    {
        i += 1;
    }
    let mut j: usize = n;
    while j > 0 && is_whitespace_char(s.get_char(j - 1))
        invariant
            n == s@.len(),
            j <= n,
            last_non_ws(s@, n as int) == last_non_ws(s@, j as int),
        decreases j,
    {
        j -= 1;
    }
    (i, j)
}

/// A player entering moves at the console.
pub struct HumanConsolePlayer;

impl HumanConsolePlayer {
    pub fn new() -> (r: HumanConsolePlayer) {
        HumanConsolePlayer
    }

    /// Reads a square typed as one part per axis from the last axis down (see
    /// `coordinate_parse`).
    pub fn parse_coordinate(input: &str, dim: usize, side: usize) -> (r: Result<Coordinate, CoordError>)
        requires
            1 <= side <= 256,
        ensures
            match coordinate_parse(input@, dim as nat, side as nat) {
                Ok(v) => r is Ok && r->Ok_0@ == v,
                Err(f) => r is Err && r->Err_0.view() == f,
            },
    {
        let (a, b) = trim_bounds(input);
        let t: &str = if a < b {
            input.substring_char(a, b)
        } else {
            input.substring_char(0, 0)
        };
        proof {
            assert(t@ =~= trimmed(input@));
        }
        let n = t.unicode_len();
        let mut coords: Vec<u8> = Vec::new();
        let mut q: usize = 0;
        while q < dim
            invariant
                q <= dim,
                coords@ == Seq::new(q as nat, |i: int| 0u8),
            decreases dim - q,
        {
            coords.push(0);
            q += 1;
            proof {
                assert(coords@ =~= Seq::new(q as nat, |i: int| 0u8));
            }
        }
        let mut pos: usize = 0;
        let mut d: usize = dim;
        while d > 0
            invariant
                n == t@.len(),
                t@ == trimmed(input@),
                1 <= side <= 256,
                d <= dim,
                pos <= n,
                coords@.len() == dim,
                coordinate_parse(input@, dim as nat, side as nat) == parse_axes(
                    t@,
                    pos as int,
                    d - 1,
                    dim as nat,
                    side as nat,
                    coords@,
                ),
            decreases d,
        {
            let axis = d - 1;
            let ghost old_coords = coords@;
            if pos >= n {
                return Err(CoordError::Insufficient { dim });
            }
            if axis % 2 != 0 {
                let e = scan_run(t, pos, true);
                proof {
                    lemma_run_end(t@, pos as int, true);
                }
                if e == pos {
                    return Err(CoordError::ExpectedLetter { axis: axis + 1 });
                }
                let c = t.get_char(e - 1);
                let val: usize = if 'a' <= c && c <= 'z' {
                    (c as u32 - 'a' as u32) as usize
                } else {
                    (c as u32 - 'A' as u32) as usize
                };
                if val >= side {
                    let letters = t.substring_char(pos, e).to_owned();
                    let max = ((65 + side - 1) as u8) as char;
                    return Err(CoordError::LetterOutOfBounds { letters, max });
                }
                coords.set(axis, val as u8);
                proof {
                    assert(letter_value(t@[e - 1]) == val);
                    assert(coords@ == old_coords.update(axis as int, letter_value(t@[e - 1]) as u8));
                    assert(parse_axes(t@, pos as int, axis as int, dim as nat, side as nat, old_coords)
                        == parse_axes(t@, e as int, axis - 1, dim as nat, side as nat, coords@));
                }
                pos = e;
            } else {
                let e = scan_run(t, pos, false);
                proof {
                    lemma_run_end(t@, pos as int, false);
                }
                if e == pos {
                    return Err(CoordError::ExpectedNumber { axis: axis + 1 });
                }
                match read_number(t, pos, e) {
                    None => {
                        return Err(CoordError::InvalidNumber);
                    },
                    Some(value) => {
                        let ghost dv = digits_value(t@.subrange(pos as int, e as int));
                        assert(dv == value);
                        if value == 0 || value > side {
                            assert(parse_axes(t@, pos as int, axis as int, dim as nat, side as nat, old_coords)
                                == Err::<Seq<u8>, CoordFault>(CoordFault::NumberOutOfBounds { value: dv as nat, side: side as nat }));
                            return Err(CoordError::NumberOutOfBounds { value, side });
                        }
                        coords.set(axis, (value - 1) as u8);
                        proof {
                            assert(coords@ == old_coords.update(axis as int, (dv - 1) as u8));
                            assert(parse_axes(t@, pos as int, axis as int, dim as nat, side as nat, old_coords)
                                == parse_axes(t@, e as int, axis - 1, dim as nat, side as nat, coords@));
                        }
                    },
                }
                pos = e;
            }
            d -= 1;
        }
        Ok(Coordinate::new(coords))
    }
}

/// Where the word starting at `i` ends: the first white space at or after `i`.
pub open spec fn word_end(s: Seq<char>, i: int) -> int
    decreases s.len() - i,
{
    if i >= s.len() {
        s.len() as int
    } else if i < 0 || is_ws(s[i]) {
        i
    } else {
        word_end(s, i + 1)
    }
}

/// The start and end of word `k` (from 0) of `s`, words being runs of characters other
/// than white space, as `str::split_whitespace` gives them; the start is past the end of
/// `s` when there are fewer words.
pub open spec fn word_span(s: Seq<char>, k: nat) -> (int, int)
    decreases k,
{
    let from = if k == 0 {
        0
    } else {
        word_span(s, (k - 1) as nat).1
    };
    let a = first_non_ws(s, from);
    (a, word_end(s, a))
}

/// The character is `l` or, when `l` is a lower-case ASCII letter, its upper-case form.
pub open spec fn folds_to(c: char, l: char) -> bool {
    c == l || ('A' <= c <= 'Z' && c as u32 + 32 == l as u32)
}

/// The word, in ASCII lower case, is `w`.
pub open spec fn word_is(word: Seq<char>, w: Seq<char>) -> bool {
    word.len() == w.len() && forall|i: int| 0 <= i < w.len() ==> folds_to(#[trigger] word[i], w[i])
}

/// The promotion a word names, in either case: `q`, `queen` or `4` a queen; `r`, `rook`
/// or `3` a rook; `b`, `bishop` or `2` a bishop; `n`, `knight` or `1` a knight.
pub open spec fn promotion_named(word: Seq<char>) -> Option<PieceType> {
    if word_is(word, seq!['q']) || word_is(word, seq!['q', 'u', 'e', 'e', 'n']) || word_is(word, seq!['4']) {
        Some(PieceType::Queen)
    } else if word_is(word, seq!['r']) || word_is(word, seq!['r', 'o', 'o', 'k']) || word_is(word, seq!['3']) {
        Some(PieceType::Rook)
    } else if word_is(word, seq!['b']) || word_is(word, seq!['b', 'i', 's', 'h', 'o', 'p']) || word_is(word, seq!['2']) {
        Some(PieceType::Bishop)
    } else if word_is(word, seq!['n']) || word_is(word, seq!['k', 'n', 'i', 'g', 'h', 't']) || word_is(word, seq!['1']) {
        Some(PieceType::Knight)
    } else {
        None
    }
}

/// Why a typed move was refused.
#[derive(Debug, Clone, PartialEq, Eq)]
pub enum MoveLineError {
    /// Fewer than two words.
    MissingSquare,
    /// The first word is no square.
    BadFrom(CoordError),
    /// The second word is no square.
    BadTo(CoordError),
}

/// A typed move: the first two words are the squares (see `coordinate_parse`), a third
/// word names a promotion (see `promotion_named`); with fewer than two words, or a word
/// that is no square (the first one first), the line is refused.
pub open spec fn move_line_parse(s: Seq<char>, dim: nat, side: nat) -> Result<(Seq<u8>, Seq<u8>, Option<PieceType>), int> {
    let w0 = word_span(s, 0);
    let w1 = word_span(s, 1);
    let w2 = word_span(s, 2);
    if w1.0 >= s.len() {
        Err(0)
    } else {
        match (coordinate_parse(s.subrange(w0.0, w0.1), dim, side), coordinate_parse(s.subrange(w1.0, w1.1), dim, side)) {
            (Ok(f), Ok(t)) => Ok((f, t, if w2.0 < s.len() {
                promotion_named(s.subrange(w2.0, w2.1))
            } else {
                None
            })),
            (Err(_), _) => Err(1),
            (_, Err(_)) => Err(2),
        }
    }
}

/// The first character that is not white space at or after `i`, and where the word there
/// ends.
fn next_word(s: &str, i: usize) -> (r: (usize, usize))
    requires
        i <= s@.len(),
    ensures
        r.0 == first_non_ws(s@, i as int),
        r.1 == word_end(s@, r.0 as int),
        i <= r.0 <= r.1 <= s@.len(),
{
    let n = s.unicode_len();
    let mut a: usize = i;
    while a < n && is_whitespace_char(s.get_char(a))
        invariant
            n == s@.len(),
            i <= a <= n,
            first_non_ws(s@, i as int) == first_non_ws(s@, a as int),
        decreases n - a,
    {
        a += 1;
    }
    let mut e: usize = a;
    while e < n && !is_whitespace_char(s.get_char(e))
        invariant
            n == s@.len(),
            a <= e <= n,
            word_end(s@, a as int) == word_end(s@, e as int),
        decreases n - e,
    {
        e += 1;
    }
    (a, e)
}

/// Whether the character is `l` or the upper-case form of the lower-case letter `l`.
fn char_folds_to(c: char, l: char) -> (r: bool)
    ensures
        r == folds_to(c, l),
{
    c == l || ('A' <= c && c <= 'Z' && (c as u32) + 32 == (l as u32))
}

/// Whether the word, in ASCII lower case, is `w`.
fn word_matches(word: &str, w: &[char]) -> (r: bool)
    ensures
        r == word_is(word@, w@),
{
    let n = word.unicode_len();
    if n != w.len() {
        return false;
    }
    let mut i: usize = 0;
    while i < n
        invariant
            n == word@.len(),
            n == w@.len(),
            i <= n,
            forall|j: int| 0 <= j < i ==> folds_to(#[trigger] word@[j], w@[j]),
        decreases n - i,
    {
        if !char_folds_to(word.get_char(i), w[i]) {
            return false;
        }
        i += 1;
    }
    true
}

impl HumanConsolePlayer {
    /// The promotion a word names (see `promotion_named`).
    pub fn parse_promotion(word: &str) -> (r: Option<PieceType>)
        ensures
            r == promotion_named(word@),
    {
        if word_matches(word, &['q']) || word_matches(word, &['q', 'u', 'e', 'e', 'n']) || word_matches(word, &['4']) {
            Some(PieceType::Queen)
        } else if word_matches(word, &['r']) || word_matches(word, &['r', 'o', 'o', 'k']) || word_matches(word, &['3']) {
            Some(PieceType::Rook)
        } else if word_matches(word, &['b']) || word_matches(word, &['b', 'i', 's', 'h', 'o', 'p']) || word_matches(word, &['2']) {
            Some(PieceType::Bishop)
        } else if word_matches(word, &['n']) || word_matches(word, &['k', 'n', 'i', 'g', 'h', 't']) || word_matches(word, &['1']) {
            Some(PieceType::Knight)
        } else {
            None
        }
    }

    /// Reads a typed move (see `move_line_parse`): the squares and the promotion, or why the
    /// line is refused.
    pub fn parse_move_line(line: &str, dim: usize, side: usize) -> (r: Result<Move, MoveLineError>)
        requires
            1 <= side <= 256,
        ensures
            match move_line_parse(line@, dim as nat, side as nat) {
                Ok((f, t, p)) => r matches Ok(m) && m.from@ == f && m.to@ == t && m.promotion == p,
                Err(k) => r matches Err(e) && (k == 0 <==> e is MissingSquare) && (k == 1 <==> e is BadFrom)
                    && (k == 2 <==> e is BadTo),
            },
    {
        let n = line.unicode_len();
        let (a0, e0) = next_word(line, 0);
        let (a1, e1) = next_word(line, e0);
        if a1 >= n {
            return Err(MoveLineError::MissingSquare);
        }
        let (a2, e2) = next_word(line, e1);
        proof {
            reveal_with_fuel(word_span, 3);
        }
        let from = Self::parse_coordinate(line.substring_char(a0, e0), dim, side);
        let to = Self::parse_coordinate(line.substring_char(a1, e1), dim, side);
        match (from, to) {
            (Ok(f), Ok(t)) => {
                let promotion = if a2 < n {
                    Self::parse_promotion(line.substring_char(a2, e2))
                } else {
                    None
                };
                Ok(Move { from: f, to: t, promotion })
            },
            (Err(e), _) => Err(MoveLineError::BadFrom(e)),
            (_, Err(e)) => Err(MoveLineError::BadTo(e)),
        }
    }
}

} // verus!
