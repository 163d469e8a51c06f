//! A game: a board, the side to move, the result so far and the moves played.
use vstd::prelude::*;
use crate::board::Board;
use crate::make_move::{applied, move_error, move_ok};
use crate::models::{GameResult, Move, Player};

verus! {

/// Why a turn was refused.
#[derive(Debug)]
pub enum GameError {
    InvalidMove(String),
}

/// A game in progress or over.
pub struct Game {
    board: Board,
    turn: Player,
    status: GameResult,
    move_history: Vec<(Player, Move)>,
}

impl Game {
    /// The board is well formed.
    pub closed spec fn wf(&self) -> bool {
        self.board.wf()
    }

    /// The board of the game.
    pub closed spec fn spec_board(&self) -> Board {
        self.board
    }

    /// The side to move.
    pub closed spec fn spec_turn(&self) -> Player {
        self.turn
    }

    /// The result so far.
    pub closed spec fn spec_status(&self) -> GameResult {
        self.status
    }

    /// The sides and moves played, in order.
    pub closed spec fn spec_history(&self) -> Seq<(Player, Move)> {
        self.move_history@
    }

    /// A new game on `board`: White to move, in progress, no move played.
    pub fn new(board: Board) -> (r: Game)
        requires
            board.wf(),
        ensures
            r.wf(),
            r.spec_board() == board,
            r.spec_turn() == Player::White,
            r.spec_status() == GameResult::InProgress,
            r.spec_history() == Seq::<(Player, Move)>::empty(),
    {
        Game {
            board,
            turn: Player::White,
            status: GameResult::InProgress,
            move_history: Vec::new(),
        }
    }

    /// Starts (or restarts) the game: in progress, White to move.
    pub fn start(&mut self)
        ensures
            final(self).wf() == old(self).wf(),
            final(self).spec_board() == old(self).spec_board(),
            final(self).spec_turn() == Player::White,
            final(self).spec_status() == GameResult::InProgress,
            final(self).spec_history() == old(self).spec_history(),
    {
        self.status = GameResult::InProgress;
        self.turn = Player::White;
    }

    /// Plays `mv` for the side to move. A game that is over, or a move that cannot be made
    /// (a square off the board or no piece to move), is refused and nothing changes.
    /// Otherwise the move is made and recorded, the result is read from the board (always
    /// in progress), and the turn passes.
    pub fn play_turn(&mut self, mv: Move) -> (r: Result<GameResult, GameError>)
        requires
            old(self).wf(),
            mv.from@.len() == old(self).spec_board().geo.dimension,
            mv.to@.len() == old(self).spec_board().geo.dimension,
        ensures
            final(self).wf(),
            old(self).spec_status() != GameResult::InProgress ==> *final(self) == *old(self) && (
            r matches Err(GameError::InvalidMove(s)) && s@ == "Game is already over"@),
            old(self).spec_status() == GameResult::InProgress && !move_ok(
                old(self).spec_board(),
                mv,
            ) ==> (r matches Err(GameError::InvalidMove(s)) && s@ == move_error(
                old(self).spec_board(),
                mv,
            )) && final(self).spec_board() == old(self).spec_board()
                && final(self).spec_turn() == old(self).spec_turn() && final(self).spec_status()
                == old(self).spec_status() && final(self).spec_history() == old(
                self,
            ).spec_history(),
            old(self).spec_status() == GameResult::InProgress && move_ok(old(self).spec_board(), mv)
                ==> {
                &&& r == Ok::<GameResult, GameError>(GameResult::InProgress)
                &&& applied(old(self).spec_board(), mv, final(self).spec_board())
                &&& final(self).spec_status() == GameResult::InProgress
                &&& final(self).spec_turn() == old(self).spec_turn().spec_opponent()
                &&& final(self).spec_history().len() == old(self).spec_history().len() + 1
                &&& final(self).spec_history().drop_last() == old(self).spec_history()
                &&& final(self).spec_history().last().0 == old(self).spec_turn()
                &&& final(self).spec_history().last().1.from@ == mv.from@
                &&& final(self).spec_history().last().1.to@ == mv.to@
                &&& final(self).spec_history().last().1.promotion == mv.promotion
            },
    {
        if self.status != GameResult::InProgress {
            return Err(GameError::InvalidMove("Game is already over".to_owned()));
        }
        match self.board.apply_move(&mv) {
            Ok(_) => {},
            Err(e) => {
                return Err(GameError::InvalidMove(e));
            },
        }
        let copy = mv.duplicate();
        self.move_history.push((self.turn, copy));
        let result = self.board.check_status(self.turn);
        self.status = result;
        if result == GameResult::InProgress {
            self.turn = self.turn.opponent();
        }
        Ok(result)
    }

    /// The side to move.
    pub fn current_turn(&self) -> (r: Player)
        ensures
            r == self.spec_turn(),
    {
        self.turn
    }

    /// The result so far.
    pub fn status(&self) -> (r: GameResult)
        ensures
            r == self.spec_status(),
    {
        self.status
    }

    /// The board of the game.
    pub fn board(&self) -> (r: &Board)
        ensures
            *r == self.spec_board(),
    {
        &self.board
    }

    /// The sides and moves played, in order.
    pub fn move_history(&self) -> (r: &Vec<(Player, Move)>)
        ensures
            r@ == self.spec_history(),
    {
        &self.move_history
    }
}

} // verus!
