//! The plain parts of the game service: the shapes of its requests and answers, how a
//! game mode names the bots, which listed move a request picks, and what a stored session
//! says of whose turn it is.
use vstd::prelude::*;
use vstd::string::*;
use crate::board::Board;
use crate::eval::{cells_of, player_cells};
use crate::game::Game;
use crate::geometry::coords_of;
use crate::inline::MoveList;
use crate::models::{GameResult, Move, PieceType, Player};

verus! {

/// What a listed move does.
#[derive(Debug, Clone, Copy, PartialEq, Eq, Structural)]
pub enum MoveConsequence {
    Capture,
    NoEffect,
    Victory,
}

/// A piece on the board, with its coordinate.
pub struct ApiPiece {
    pub piece_type: PieceType,
    pub owner: Player,
    pub coordinate: Vec<usize>,
}

/// A move from some square: where it goes and what it does.
pub struct ApiValidMove {
    pub to: Vec<usize>,
    pub consequence: MoveConsequence,
}

/// What a client is shown of a game; the valid moves are grouped by the square they
/// start from, in the order of first appearance.
pub struct ApiGameState {
    pub pieces: Vec<ApiPiece>,
    pub current_player: Player,
    pub valid_moves: Vec<(Vec<usize>, Vec<ApiValidMove>)>,
    pub status: GameResult,
    pub dimension: usize,
    pub side: usize,
    pub in_check: bool,
    pub sequence: usize,
}

/// A request for a new game: the mode (`cc`, `hc`, `ch` or `hh`, white first, `c` for a
/// bot) and the shape, 2 axes of 8 when not given.
pub struct NewGameRequest {
    pub mode: String,
    pub dimension: Option<usize>,
    pub side: Option<usize>,
}

/// A move request: the game and the two squares.
pub struct TurnRequest {
    pub uuid: String,
    pub start: Vec<usize>,
    pub end: Vec<usize>,
}

/// The answer to a new game: its identifier.
pub struct NewGameResponse {
    pub uuid: String,
}

/// How a bot of a stored session is rebuilt.
#[derive(Clone, Copy, Debug, PartialEq, Eq)]
pub struct BotConfig {
    pub dimension: usize,
    pub side: usize,
}

/// A stored game with the bots of each side.
pub struct RedisSession {
    pub game: Game,
    pub white_bot_config: Option<BotConfig>,
    pub black_bot_config: Option<BotConfig>,
}

impl RedisSession {
    /// Whether the side to move is played by a bot.
    pub fn is_bot_turn(&self) -> (r: bool)
        ensures
            r == match self.game.spec_turn() {
                Player::White => self.white_bot_config is Some,
                Player::Black => self.black_bot_config is Some,
            },
    {
        match self.game.current_turn() {
            Player::White => self.white_bot_config.is_some(),
            Player::Black => self.black_bot_config.is_some(),
        }
    }
}

/// The character in lower case, for ASCII letters; any other character as it is.
pub open spec fn ascii_lower(c: char) -> char {
    if 'A' <= c <= 'Z' {
        ((c as u32) + 32) as char
    } else {
        c
    }
}

/// Which sides a game mode gives to bots, white first: the mode in lower case is one of
/// `cc`, `hc`, `ch`, `hh`. (No character but `C` and `H` lowers to `c` or `h`.)
pub open spec fn mode_bots(s: Seq<char>) -> Option<(bool, bool)> {
    if s.len() == 2 && (ascii_lower(s[0]) == 'c' || ascii_lower(s[0]) == 'h') && (ascii_lower(s[1])
        == 'c' || ascii_lower(s[1]) == 'h') {
        Some((ascii_lower(s[0]) == 'c', ascii_lower(s[1]) == 'c'))
    } else {
        None
    }
}

/// Which sides the mode gives to bots (see `mode_bots`); `None` for an unknown mode.
pub fn parse_mode(mode: &str) -> (r: Option<(bool, bool)>)
    ensures
        r == mode_bots(mode@),
{
    if mode.unicode_len() != 2 {
        return None;
    }
    let a = mode.get_char(0);
    let b = mode.get_char(1);
    let a_bot = a == 'c' || a == 'C';
    let a_human = a == 'h' || a == 'H';
    let b_bot = b == 'c' || b == 'C';
    let b_human = b == 'h' || b == 'H';
    if (a_bot || a_human) && (b_bot || b_human) {
        Some((a_bot, b_bot))
    } else {
        None
    }
}

/// Each value cut to a byte, as a cast to `u8` does.
pub open spec fn bytes_of(v: Seq<usize>) -> Seq<u8> {
    v.map_values(|x: usize| (x % 256) as u8)
}

/// The move `m` goes between the squares asked for, and is not a promotion to another
/// piece than a queen.
pub open spec fn picked(m: Move, start: Seq<usize>, end: Seq<usize>) -> bool {
    &&& m.from@ == bytes_of(start)
    &&& m.to@ == bytes_of(end)
    &&& (m.promotion is None || m.promotion == Some(PieceType::Queen))
}

fn to_bytes(v: &Vec<usize>) -> (r: Vec<u8>)
    ensures
        r@ == bytes_of(v@),
{
    let mut out: Vec<u8> = Vec::new();
    let mut k: usize = 0;
    while k < v.len()
        invariant
            k <= v.len(),
            out@ == bytes_of(v@.take(k as int)),
        decreases v.len() - k,
    {
        let x = v[k];
        out.push(x as u8);
        k += 1;
        proof {
            assert(x as u8 == (x % 256) as u8) by (bit_vector);
            assert(bytes_of(v@.take(k as int)) =~= bytes_of(v@.take(k - 1)).push((x % 256) as u8));
            assert(out@ =~= bytes_of(v@.take(k as int)));
        }
    }
    proof {
        assert(v@.take(v.len() as int) =~= v@);
    }
    out
}

fn same_values(a: &crate::models::Coordinate, b: &Vec<u8>) -> (r: bool)
    ensures
        r == (a@ == b@),
{
    let n = a.dim();
    if n != b.len() {
        return false;
    }
    let mut k: usize = 0;
    while k < n
        invariant
            n == a@.len(),
            n == b@.len(),
            k <= n,
            forall|q: int| 0 <= q < k ==> a@[q] == b@[q],
        decreases n - k,
    {
        if a.values.get(k) != b[k] {
            return false;
        }
        k += 1;
    }
    proof {
        assert(a@ =~= b@);
    }
    true
}

/// The first listed move between the squares asked for that is not a promotion to another
/// piece than a queen.
pub fn choose_move(candidates: &MoveList, start: &Vec<usize>, end: &Vec<usize>) -> (r: Option<Move>)
    ensures
        r is None ==> forall|k: int| 0 <= k < candidates@.len() ==> !picked(#[trigger] candidates@[k], start@, end@),
        r matches Some(m) ==> exists|k: int|
            0 <= k < candidates@.len() && picked(#[trigger] candidates@[k], start@, end@) && (forall|j: int|
                0 <= j < k ==> !picked(#[trigger] candidates@[j], start@, end@)) && m.from@ == candidates@[k].from@
                && m.to@ == candidates@[k].to@ && m.promotion == candidates@[k].promotion,
{
    let s = to_bytes(start);
    let e = to_bytes(end);
    let list = candidates.moves();
    let mut k: usize = 0;
    while k < list.len()
        invariant
            list@ == candidates@,
            s@ == bytes_of(start@),
            e@ == bytes_of(end@),
            k <= list.len(),
            forall|j: int| 0 <= j < k ==> !picked(#[trigger] candidates@[j], start@, end@),
        decreases list.len() - k,
    {
        let m = &list[k];
        if same_values(&m.from, &s) && same_values(&m.to, &e) {
            let ok = match m.promotion {
                None => true,
                Some(p) => p == PieceType::Queen,
            };
            if ok {
                assert(picked(candidates@[k as int], start@, end@));
                return Some(m.duplicate());
            }
        }
        k += 1;
    }
    None
}

/// The pieces of the board as the client sees them: White's by increasing cell, then
/// Black's, each with its coordinate.
pub open spec fn api_pieces(b: Board, out: Seq<ApiPiece>) -> bool {
    let w = cells_of(b, Player::White);
    let k = cells_of(b, Player::Black);
    let cells = w + k;
    &&& out.len() == cells.len()
    &&& forall|q: int|
        0 <= q < cells.len() ==> {
            let c = cells[q] as int;
            &&& b.piece_at(c) == Some(crate::models::Piece { piece_type: (#[trigger] out[q]).piece_type, owner: out[q].owner })
            &&& out[q].coordinate@ == coords_of(c as nat, b.geo.dimension as nat, b.geo.side as nat).map_values(|x: u8| x as usize)
        }
}

fn coords_usize(board: &Board, c: usize) -> (r: Vec<usize>)
    requires
        board.wf(),
        c < board.total(),
    ensures
        r@ == coords_of(c as nat, board.geo.dimension as nat, board.geo.side as nat).map_values(|x: u8| x as usize),
{
    let vals = board.index_to_coords(c);
    let n = vals.dim();
    let mut out: Vec<usize> = Vec::new();
    let mut k: usize = 0;
    while k < n
        invariant
            n == vals@.len(),
            k <= n,
            out@ == vals@.take(k as int).map_values(|x: u8| x as usize),
        decreases n - k,
    {
        out.push(vals.get(k) as usize);
        k += 1;
        proof {
            assert(out@ =~= vals@.take(k as int).map_values(|x: u8| x as usize));
        }
    }
    proof {
        assert(vals@.take(n as int) =~= vals@);
    }
    out
}

/// The pieces of the board as the client sees them (see `api_pieces`).
pub fn game_pieces(board: &Board) -> (r: Vec<ApiPiece>)
    requires
        board.wf(),
        crate::make_move::clean(*board),
    ensures
        api_pieces(*board, r@),
{
    let w = player_cells(board, Player::White);
    let k = player_cells(board, Player::Black);
    let ghost cells = w@ + k@;
    proof {
        crate::mobility::lemma_sorted_cells_len(crate::movegen::owned_pred(*board, Player::White), board.total());
        crate::mobility::lemma_sorted_cells_len(crate::movegen::owned_pred(*board, Player::Black), board.total());
    }
    let mut out: Vec<ApiPiece> = Vec::new();
    let mut q: usize = 0;
    let total_len = w.len() + k.len();
    while q < total_len
        invariant
            board.wf(),
            crate::make_move::clean(*board),
            cells == w@ + k@,
            w@ == cells_of(*board, Player::White),
            k@ == cells_of(*board, Player::Black),
            total_len == w.len() + k.len(),
            forall|j: int| 0 <= j < w.len() ==> (#[trigger] w@[j] as int) < board.total() && crate::attacks::owned(*board, w@[j] as int, Player::White),
            forall|j: int| 0 <= j < k.len() ==> (#[trigger] k@[j] as int) < board.total() && crate::attacks::owned(*board, k@[j] as int, Player::Black),
            q <= total_len,
            out.len() == q,
            forall|j: int|
                0 <= j < q ==> {
                    let c = cells[j] as int;
                    &&& board.piece_at(c) == Some(crate::models::Piece { piece_type: (#[trigger] out@[j]).piece_type, owner: out@[j].owner })
                    &&& out@[j].coordinate@ == coords_of(c as nat, board.geo.dimension as nat, board.geo.side as nat).map_values(|x: u8| x as usize)
                },
        decreases total_len - q,
    {
        let c = if q < w.len() {
            w[q]
        } else {
            k[q - w.len()]
        };
        assert(cells[q as int] == c);
        let p = match board.get_piece_at_index(c) {
            Some(p) => p,
            None => {
                proof {
                    assert(crate::attacks::owned(*board, c as int, Player::White) || crate::attacks::owned(*board, c as int, Player::Black));
                    assert(board.pieces.bits(c as int) == crate::pieces::empty_bits());
                }
                return out;
            },
        };
        let coordinate = coords_usize(board, c);
        out.push(ApiPiece { piece_type: p.piece_type, owner: p.owner, coordinate });
        q += 1;
    }
    out
}

} // verus!
