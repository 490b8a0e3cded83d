//! The game record: the board, the positions before each move, and the
//! moves, with the rules that say which move may come next.

use rand::Rng;
use vstd::prelude::*;
use crate::game::board::{settled, Board, Move, State};
use crate::game::error::Error;
use crate::game::grid::lemma_index_of;
use crate::game::matrix::{on_board, vertex_index};
use crate::game::player::Player;
use crate::game::vertex::Vertex;

verus! {

/// The size of the board of a new game.
pub const DEFAULT_BOARD_SIZE: usize = 19;

/// A game with more moves than this is over.
pub const MAX_MOVES: usize = 512;

/// Fixed or Free placement of the handicap stones.
#[derive(Clone, Copy, Debug, PartialEq, Eq, Structural)]
pub enum Handicap {
    /// Placement of stones along the star points.
    Fixed,
    /// Placement determined by the egine or client.
    Free,
}

/// The time settings for a game.
#[derive(Clone, Copy, Debug, PartialEq, Eq, Structural)]
pub enum Clock {
    /// Neither player can lose on time.
    Unlimited,
}

/// One of major Go variations.
#[derive(Clone, Copy, Debug, PartialEq, Eq, Structural)]
pub enum RuleSet {
    /// [Chinese ruleset](http://senseis.xmp.net/?ChineseRules)
    Chinese,
}

/// This structure includes everything needed for playing real Go games.
#[derive(Debug)]
pub struct Game {
    /// The current state of the board.
    board: Board,
    /// All previous board states.
    previous_boards: Vec<Board>,
    /// All moves in the game record.
    move_history: Vec<Move>,
    _time_settings: Clock,
    /// Has KGS told us a game just ended?
    pub kgs_game_over: bool,
    /// The variation of Go being played.
    pub rule_set: RuleSet,
}

/// The number of moves that put a stone on the board.
pub open spec fn stone_moves(moves: Seq<Move>) -> nat
    decreases moves.len(),
{
    if moves.len() == 0 {
        0
    } else {
        stone_moves(moves.drop_last()) + if moves.last().vertex is Some {
            1nat
        } else {
            0nat
        }
    }
}

/// The cells after the player has put a stone on each of the vertices in
/// turn, or the reason why one of them could not take a stone: it is not
/// on the board, or it holds a stone when its turn comes.
pub open spec fn place_each(cells: Seq<State>, size: int, player: Player, verts: Seq<Vertex>) -> Result<
    Seq<State>,
    Error,
>
    decreases verts.len(),
{
    if verts.len() == 0 {
        Ok(cells)
    } else {
        match place_each(cells, size, player, verts.drop_last()) {
            Err(e) => Err(e),
            Ok(placed) => {
                let vertex = verts.last();
                let at = vertex_index(size, vertex);
                if !on_board(size, vertex) {
                    Err(Error::OutOfBounds)
                } else if placed[at] != State::Empty {
                    Err(Error::Occupied)
                } else {
                    Ok(settled(placed, size, player, at))
                }
            },
        }
    }
}

/// A vertex is turned down for one of two reasons only.
pub proof fn lemma_place_each_errors(cells: Seq<State>, size: int, player: Player, verts: Seq<Vertex>)
    ensures
        place_each(cells, size, player, verts) matches Err(e) ==> e == Error::OutOfBounds || e
            == Error::Occupied,
    decreases verts.len(),
{
    if verts.len() > 0 {
        lemma_place_each_errors(cells, size, player, verts.drop_last());
    }
}

/// A number picked by chance, below `len`.
///
/// Calls `thread_rng` and `gen_range` of `rand` with the range from 0 to
/// `len`. `gen_range` panics on an empty range, which `len > 0` rules out;
/// `thread_rng` gives up only where the system has no randomness to seed
/// it with. Nothing is claimed of the number but that it lies in the range.
#[verifier::external_body]
fn random_index(len: usize) -> (r: usize)
    requires
        len > 0,
    ensures
        r < len,
{
    rand::thread_rng().gen_range(0..len)
}

impl Game {
    /// The board as it stands.
    pub closed spec fn spec_board(&self) -> Board {
        self.board
    }

    /// The boards as they stood before each move that put a stone.
    pub closed spec fn past(&self) -> Seq<Board> {
        self.previous_boards@
    }

    /// The moves of the game, passes too.
    pub closed spec fn moves(&self) -> Seq<Move> {
        self.move_history@
    }

    /// Whether KGS has said that the game has ended.
    pub closed spec fn ended(&self) -> bool {
        self.kgs_game_over
    }

    /// The rules in force.
    pub closed spec fn rules(&self) -> RuleSet {
        self.rule_set
    }

    /// The number of lines of the board.
    pub open spec fn spec_size(&self) -> int {
        self.spec_board().spec_size() as int
    }

    /// The board is well formed, and so is each of the earlier boards, of
    /// which there is one of the same size for each move that put a stone.
    pub open spec fn wf(&self) -> bool {
        &&& self.spec_board().wf()
        &&& self.past().len() == stone_moves(self.moves())
        &&& forall|k: int|
            0 <= k < self.past().len() ==> (#[trigger] self.past()[k]).wf()
                && self.past()[k].spec_size() == self.spec_board().spec_size()
    }

    /// The cells after the move has been made on the board as it stands.
    pub open spec fn outcome(&self, player: Player, vertex: Vertex) -> Seq<State> {
        settled(self.spec_board()@, self.spec_size(), player, vertex_index(self.spec_size(), vertex))
    }

    /// The position after the move is one that the game has seen before.
    pub open spec fn repeats(&self, player: Player, vertex: Vertex) -> bool {
        exists|k: int|
            0 <= k < self.past().len() && (#[trigger] self.past()[k])@ == self.outcome(
                player,
                vertex,
            )
    }

    /// The move is legal: it is a pass, or it puts a stone on an empty
    /// vertex of the board, the stone is still there once the captures are
    /// made (no suicide), and the position is none that the game has seen
    /// before (positional superko).
    pub open spec fn legal(&self, mov: Move) -> bool {
        match mov.vertex {
            None => true,
            Some(vertex) => {
                let at = vertex_index(self.spec_size(), vertex);
                &&& on_board(self.spec_size(), vertex)
                &&& self.spec_board()@[at] == State::Empty
                &&& self.outcome(mov.player, vertex)[at] != State::Empty
                &&& !self.repeats(mov.player, vertex)
            },
        }
    }

    /// The player may put a stone on the vertex.
    pub open spec fn legal_at(&self, player: Player, vertex: Vertex) -> bool {
        self.legal(Move { player, vertex: Some(vertex) })
    }

    /// The list holds the vertices on which the player may put a stone, in
    /// the order of their cells.
    pub open spec fn legal_list(&self, player: Player, list: Seq<Vertex>) -> bool {
        &&& forall|k: int| 0 <= k < list.len() ==> self.legal_at(player, #[trigger] list[k])
        &&& forall|k: int, l: int|
            0 <= k < l < list.len() ==> vertex_index(self.spec_size(), list[k]) < vertex_index(
                self.spec_size(),
                list[l],
            )
        &&& forall|vertex: Vertex| #[trigger]
            self.legal_at(player, vertex) ==> list.contains(vertex)
    }

    /// Why a handicap of so many stones is turned down before any stone is
    /// placed, if it is: it has fewer than two stones, or more than the
    /// board has points but one, or there are stones on the board.
    pub open spec fn handicap_refused(&self, stones: int) -> Option<Error> {
        if stones < 2 {
            Some(Error::HandicapTooSmall)
        } else if stones > self.spec_size() * self.spec_size() - 1 {
            Some(Error::HandicapTooLarge)
        } else if !self.spec_board().bare() {
            Some(Error::BoardNotEmpty)
        } else {
            None
        }
    }

    /// The game is a new game on a board of the given size: the board is
    /// empty, and no move has been made.
    pub open spec fn fresh(&self, size: int) -> bool {
        &&& self.wf()
        &&& self.spec_size() == size
        &&& self.moves().len() == 0
        &&& self.past().len() == 0
        &&& !self.ended()
        &&& self.spec_board().bare()
    }

    /// `next` is this game with another board, and all else the same.
    pub open spec fn with_cells(&self, cells: Seq<State>, next: Game) -> bool {
        &&& next.spec_board()@ == cells
        &&& next.spec_size() == self.spec_size()
        &&& next.moves() == self.moves()
        &&& next.past() == self.past()
        &&& next.ended() == self.ended()
        &&& next.rules() == self.rules()
    }

    /// `next` is the game after the move has been played in this game: the
    /// move is added to the record; where it puts a stone, the board as it
    /// stood is added to the earlier boards, and the stone is placed.
    pub open spec fn followed_by(&self, mov: Move, next: Game) -> bool {
        &&& next.moves() == self.moves().push(mov)
        &&& next.ended() == self.ended()
        &&& next.rules() == self.rules()
        &&& next.spec_size() == self.spec_size()
        &&& match mov.vertex {
            None => next.spec_board() == self.spec_board() && next.past() == self.past(),
            Some(vertex) => {
                &&& next.spec_board()@ == self.outcome(mov.player, vertex)
                &&& next.past().len() == self.past().len() + 1
                &&& next.past().last()@ == self.spec_board()@
                &&& forall|k: int|
                    0 <= k < self.past().len() ==> #[trigger] next.past()[k] == self.past()[k]
            },
        }
    }

    /// `next` is this game after its last move has been taken back: the
    /// move is off the record; where it put a stone, the board is the last
    /// of the earlier boards, which is no longer one of them.
    pub open spec fn taken_back(&self, next: Game) -> bool {
        &&& self.moves().len() > 0
        &&& next.moves() == self.moves().drop_last()
        &&& next.ended() == self.ended()
        &&& next.rules() == self.rules()
        &&& if self.moves().last().vertex is Some {
            &&& next.spec_board() == self.past().last()
            &&& next.past() == self.past().drop_last()
        } else {
            &&& next.spec_board() == self.spec_board()
            &&& next.past() == self.past()
        }
    }

    /// A move that is played and taken back leaves the game as it was: the
    /// same stones on the board, the same moves, the same earlier boards.
    pub proof fn lemma_undo_restores(&self, mov: Move, played: Game, undone: Game)
        requires
            self.followed_by(mov, played),
            played.taken_back(undone),
        ensures
            undone.spec_board()@ == self.spec_board()@,
            undone.moves() == self.moves(),
            undone.past() == self.past(),
            undone.ended() == self.ended(),
            undone.rules() == self.rules(),
    {
        assert(played.moves().drop_last() =~= self.moves());
        assert(played.moves().last() == mov);
        if mov.vertex is Some {
            assert(played.past().drop_last() =~= self.past());
        }
    }

    /// Returns a shared reference to the game board.
    pub fn board(&self) -> (r: &Board)
        ensures
            *r == self.spec_board(),
    {
        &self.board
    }

    /// The moves of the game so far.
    pub fn history(&self) -> (r: &Vec<Move>)
        ensures
            r@ == self.moves(),
    {
        &self.move_history
    }

    /// Clears all of the stones off the board and deletes the move history.
    pub fn clear_board(&mut self)
        requires
            old(self).wf(),
        ensures
            final(self).wf(),
            final(self).spec_size() == old(self).spec_size(),
            final(self).moves().len() == 0,
            final(self).past().len() == 0,
            forall|i: int|
                0 <= i < final(self).spec_board()@.len() ==> final(self).spec_board()@[i]
                    == State::Empty,
            final(self).ended() == old(self).ended(),
            final(self).rules() == old(self).rules(),
    {
        self.previous_boards.clear();
        self.move_history.clear();
        self.board.clear();
    }

    /// Notes that KGS has said whether the game has ended.
    pub fn set_kgs_game_over(&mut self, over: bool)
        ensures
            final(self).ended() == over,
            final(self).spec_board() == old(self).spec_board(),
            final(self).moves() == old(self).moves(),
            final(self).past() == old(self).past(),
            final(self).rules() == old(self).rules(),
    {
        self.kgs_game_over = over;
    }

    /// Returns a new game with the given board size. A size that is not
    /// between 1 and 19 is turned down.
    pub fn with_board_size(board_size: usize) -> (r: Result<Self, Error>)
        ensures
            r is Ok <==> 1 <= board_size <= 19,
            r matches Ok(game) ==> game.fresh(board_size as int),
            r matches Err(e) ==> e == Error::InvalidSize,
    {
        match Board::with_size(board_size) {
            Ok(board) => Ok(
                Game {
                    board,
                    previous_boards: Vec::new(),
                    move_history: Vec::new(),
                    _time_settings: Clock::Unlimited,
                    kgs_game_over: false,
                    rule_set: RuleSet::Chinese,
                },
            ),
            Err(e) => Err(e),
        }
    }

    /// Returns a new game with the default board size.
    pub fn new() -> (r: Self)
        ensures
            r.fresh(DEFAULT_BOARD_SIZE as int),
    {
        Game::with_board_size(DEFAULT_BOARD_SIZE).unwrap()
    }

    /// Whether the move is legal. A pass always is.
    #[verifier::loop_isolation(false)]
    pub fn is_legal_move(&self, mov: &Move) -> (r: bool)
        requires
            self.wf(),
        ensures
            r == self.legal(*mov),
    {
        if let Some(vertex) = mov.vertex {
            // The vertex must exist and be empty.
            if !self.board.is_vacant(vertex) {
                return false;
            }
            // Also, check the suicide and ko rules:

            let mut test_board = self.board.clone();
            let placed = test_board.place_stone(mov.player, vertex);
            assert(placed is Ok);
            match self.rule_set {
                RuleSet::Chinese => {
                    // Check if the move committed suicide.
                    if test_board.is_vacant(vertex) {
                        return false;
                    }
                    // Check whether the super-ko rule was broken.

                    let mut k: usize = 0;
                    while k < self.previous_boards.len()
                        invariant
                            self.wf(),
                            test_board.spec_size() == self.spec_size(),
                            test_board@ == self.outcome(mov.player, vertex),
                            k <= self.previous_boards@.len(),
                            forall|l: int|
                                0 <= l < k ==> (#[trigger] self.past()[l])@ != test_board@,
                        decreases self.previous_boards@.len() - k,
                    {
                        assert(self.past()[k as int].wf());
                        if test_board.same(&self.previous_boards[k]) {
                            assert(self.past()[k as int]@ == self.outcome(mov.player, vertex));
                            return false;
                        }
                        k += 1;
                    }
                },
            }
        }
        true
    }

    /// Attempts to play a move. A move that is not legal is turned down, and
    /// the game stays as it is.
    pub fn play(&mut self, mov: &Move) -> (r: Result<(), Error>)
        requires
            old(self).wf(),
        ensures
            final(self).wf(),
            r is Ok <==> old(self).legal(*mov),
            r is Ok ==> old(self).followed_by(*mov, *final(self)),
            r matches Err(e) ==> e == Error::IllegalMove && *final(self) == *old(self),
    {
        if !self.is_legal_move(mov) {
            return Err(Error::IllegalMove);
        }
        let ghost moves0 = self.move_history@;
        if let Some(vertex) = mov.vertex {
            let ghost past0 = self.previous_boards@;
            self.previous_boards.push(self.board.clone());
            let placed = self.board.place_stone(mov.player, vertex);
            assert(placed is Ok);
            proof {
                assert forall|k: int| 0 <= k < self.past().len() implies (#[trigger] self.past()[k]).wf()
                    && self.past()[k].spec_size() == self.spec_board().spec_size() by {
                    if k < past0.len() {
                        assert(self.past()[k] == past0[k]);
                    }
                }
            }
        }
        self.move_history.push(*mov);
        proof {
            assert(self.move_history@.drop_last() =~= moves0);
        }
        Ok(())
    }

    /// Undo the last move. Where there is none, the game stays as it is.
    pub fn undo(&mut self) -> (r: Result<(), Error>)
        requires
            old(self).wf(),
        ensures
            final(self).wf(),
            r is Ok <==> old(self).moves().len() > 0,
            r is Ok ==> old(self).taken_back(*final(self)),
            r matches Err(e) ==> e == Error::NothingToUndo && *final(self) == *old(self),
    {
        let ghost moves0 = self.move_history@;
        if self.move_history.len() == 0 {
            return Err(Error::NothingToUndo);
        }
        match self.move_history.pop() {
            Some(mov) => {
                assert(self.move_history@ =~= moves0.drop_last());
                if mov.vertex.is_some() {
                    let ghost past0 = self.previous_boards@;
                    assert(past0.len() > 0);
                    assert(past0[past0.len() - 1].wf());
                    match self.previous_boards.pop() {
                        Some(board) => {
                            self.board = board;
                        },
                        None => {},
                    }
                    assert(self.previous_boards@ =~= past0.drop_last());
                    proof {
                        assert forall|k: int| 0 <= k < self.past().len() implies (#[trigger] self.past()[k]).wf()
                            && self.past()[k].spec_size() == self.spec_board().spec_size() by {
                            assert(self.past()[k] == past0[k]);
                        }
                    }
                }
                Ok(())
            },
            None => Err(Error::NothingToUndo),
        }
    }

    /// Whose turn it is to play next.
    pub fn player_turn(&self) -> (r: Player)
        ensures
            r == if self.moves().len() > 0 {
                self.moves().last().player.spec_enemy()
            } else if forall|i: int|
                0 <= i < self.spec_board()@.len() ==> self.spec_board()@[i] == State::Empty {
                Player::Black
            } else {
                Player::White
            },
    {
        let len = self.move_history.len();
        if len > 0 {
            self.move_history[len - 1].player.enemy()
        } else if self.board.is_empty() {
            Player::Black
        } else {
            Player::White
        }
    }

    /// Whether the game has ended or not: the last two moves were passes, or
    /// the game has gone on for more than 512 moves.
    pub fn is_over(&self) -> (r: bool)
        ensures
            r == (self.moves().len() > MAX_MOVES || (self.moves().len() > 1
                && self.moves()[self.moves().len() - 1].vertex is None
                && self.moves()[self.moves().len() - 2].vertex is None)),
    {
        let move_count = self.move_history.len();

        move_count > MAX_MOVES || move_count > 1 && self.move_history[move_count
            - 1].vertex.is_none() && self.move_history[move_count - 2].vertex.is_none()
    }
}

impl Clone for Game {
    /// A copy of the game, with boards of its own.
    fn clone(&self) -> (r: Self)
        ensures
            r.spec_board()@ == self.spec_board()@,
            r.spec_size() == self.spec_size(),
            r.moves() == self.moves(),
            r.past().len() == self.past().len(),
            forall|k: int|
                0 <= k < r.past().len() ==> (#[trigger] r.past()[k])@ == self.past()[k]@
                    && r.past()[k].spec_size() == self.past()[k].spec_size(),
            r.ended() == self.ended(),
            r.rules() == self.rules(),
            self.wf() ==> r.wf(),
    {
        let mut previous_boards: Vec<Board> = Vec::new();
        let mut k: usize = 0;
        while k < self.previous_boards.len()
            invariant
                k <= self.previous_boards@.len(),
                previous_boards@.len() == k,
                forall|l: int|
                    0 <= l < k ==> (#[trigger] previous_boards@[l])@ == self.previous_boards@[l]@
                        && previous_boards@[l].spec_size() == self.previous_boards@[l].spec_size()
                        && (self.previous_boards@[l].wf() ==> previous_boards@[l].wf()),
            decreases self.previous_boards@.len() - k,
        {
            previous_boards.push(self.previous_boards[k].clone());
            k += 1;
        }
        let mut move_history: Vec<Move> = Vec::new();
        let mut i: usize = 0;
        while i < self.move_history.len()
            invariant
                i <= self.move_history@.len(),
                move_history@ == self.move_history@.take(i as int),
            decreases self.move_history@.len() - i,
        {
            move_history.push(self.move_history[i]);
            assert(self.move_history@.take(i + 1) =~= self.move_history@.take(i as int).push(
                self.move_history@[i as int],
            ));
            i += 1;
        }
        assert(self.move_history@.take(i as int) =~= self.move_history@);
        proof {
            if self.wf() {
                assert forall|l: int| 0 <= l < previous_boards@.len() implies (#[trigger] previous_boards@[l]).wf()
                    && previous_boards@[l].spec_size() == self.board.spec_size() by {
                    assert(self.past()[l].wf());
                }
            }
        }
        Game {
            board: self.board.clone(),
            previous_boards,
            move_history,
            _time_settings: self._time_settings,
            kgs_game_over: self.kgs_game_over,
            rule_set: self.rule_set,
        }
    }
}

impl Default for Game {
    /// A new game with the default board size.
    fn default() -> (r: Self)
        ensures
            r.fresh(DEFAULT_BOARD_SIZE as int),
    {
        Self::new()
    }
}

/// A vertex of the board is known by the index of its cell.
pub proof fn lemma_vertex_by_index(size: int, a: Vertex, b: Vertex)
    requires
        on_board(size, a),
        on_board(size, b),
        vertex_index(size, a) == vertex_index(size, b),
    ensures
        a == b,
{
    lemma_index_of(size, a.x as int, a.y as int);
    lemma_index_of(size, b.x as int, b.y as int);
}

impl Game {
    /// Returns a vector containing all of the legal moves for a player.
    pub fn all_legal_moves(&self, player: Player) -> (r: Vec<Vertex>)
        requires
            self.wf(),
        ensures
            self.legal_list(player, r@),
    {
        let mut legal_moves: Vec<Vertex> = Vec::new();
        let empties = self.board.empty_verts();
        let ghost size = self.spec_size();
        let mut i: usize = 0;
        while i < empties.len()
            invariant
                self.wf(),
                size == self.spec_size(),
                i <= empties@.len(),
                forall|k: int|
                    0 <= k < empties@.len() ==> on_board(size, #[trigger] empties@[k]),
                forall|k: int, l: int|
                    0 <= k < l < empties@.len() ==> vertex_index(size, empties@[k]) < vertex_index(
                        size,
                        empties@[l],
                    ),
                forall|k: int|
                    0 <= k < legal_moves@.len() ==> self.legal_at(player, #[trigger] legal_moves@[k])
                        && i > 0 && vertex_index(size, legal_moves@[k]) <= vertex_index(
                        size,
                        empties@[i - 1],
                    ),
                forall|k: int, l: int|
                    0 <= k < l < legal_moves@.len() ==> vertex_index(size, legal_moves@[k])
                        < vertex_index(size, legal_moves@[l]),
                forall|k: int|
                    0 <= k < i && self.legal_at(player, #[trigger] empties@[k])
                        ==> legal_moves@.contains(empties@[k]),
            decreases empties@.len() - i,
        {
            let vertex = empties[i];
            let ghost before = legal_moves@;
            if self.is_legal_move(&Move { player, vertex: Some(vertex) }) {
                legal_moves.push(vertex);
                proof {
                    assert(legal_moves@[before.len() as int] == vertex);
                    assert forall|k: int|
                        0 <= k < i && self.legal_at(player, #[trigger] empties@[k])
                        implies legal_moves@.contains(empties@[k]) by {
                        let l = choose|l: int| 0 <= l < before.len() && before[l] == empties@[k];
                        assert(legal_moves@[l] == empties@[k]);
                    }
                }
            }
            i += 1;
        }
        proof {
            assert forall|vertex: Vertex| #[trigger]
                self.legal_at(player, vertex) implies legal_moves@.contains(vertex) by {
                let at = vertex_index(size, vertex);
                lemma_index_of(size, vertex.x as int, vertex.y as int);
                let k = choose|k: int|
                    0 <= k < empties@.len() && #[trigger] vertex_index(size, empties@[k]) == at;
                lemma_vertex_by_index(size, vertex, empties@[k]);
            }
        }
        legal_moves
    }

    /// Returns the difference in moves left for each player. Positive values mean Black is ahead.
    pub fn value(&self) -> (r: i32)
        requires
            self.wf(),
        ensures
            exists|black: Seq<Vertex>, white: Seq<Vertex>|
                #![trigger self.legal_list(Player::Black, black), self.legal_list(Player::White, white)]
                self.legal_list(Player::Black, black) && self.legal_list(Player::White, white)
                    && r == black.len() - white.len(),
    {
        let black = self.all_legal_moves(Player::Black);
        let white = self.all_legal_moves(Player::White);
        proof {
            self.lemma_legal_list_short(Player::Black, black@);
            self.lemma_legal_list_short(Player::White, white@);
        }
        (black.len() as i32) - (white.len() as i32)
    }

    /// A list of legal moves is no longer than the board has points.
    pub proof fn lemma_legal_list_short(&self, player: Player, list: Seq<Vertex>)
        requires
            self.wf(),
            self.legal_list(player, list),
        ensures
            list.len() <= 361,
    {
        let size = self.spec_size();
        assert(size * size <= 361) by (nonlinear_arith)
            requires
                1 <= size <= 19,
        ;
        if list.len() > 0 {
            lemma_rising(size, list, list.len() - 1);
            let last = list[list.len() - 1];
            assert(self.legal_at(player, last));
            lemma_index_of(size, last.x as int, last.y as int);
        }
    }

    /// Tries the candidate with the given place in the list as a move of the
    /// player. Where the move is legal it is played; where it is not, the
    /// candidate is taken off the list, the last one taking its place.
    pub fn try_candidate(
        &mut self,
        player: Player,
        candidates: &mut Vec<Vertex>,
        index: usize,
    ) -> (r: Option<Move>)
        requires
            old(self).wf(),
            index < old(candidates)@.len(),
        ensures
            final(self).wf(),
            match r {
                Some(mov) => {
                    &&& mov == Move { player, vertex: Some(old(candidates)@[index as int]) }
                    &&& old(self).legal(mov)
                    &&& old(self).followed_by(mov, *final(self))
                    &&& final(candidates)@ == old(candidates)@
                },
                None => {
                    &&& !old(self).legal_at(player, old(candidates)@[index as int])
                    &&& *final(self) == *old(self)
                    &&& final(candidates)@ == old(candidates)@.update(
                        index as int,
                        old(candidates)@.last(),
                    ).drop_last()
                },
            },
    {
        let mov = Move { player, vertex: Some(candidates[index]) };
        match self.play(&mov) {
            Ok(()) => Some(mov),
            Err(_) => {
                candidates.swap_remove(index);
                None
            },
        }
    }

    /// Picks a move uniform randomly from all the the possible legal moves,
    /// and plays it. Where the player has no legal move that puts a stone,
    /// the move is a pass.
    pub fn genmove_random(&mut self, player: Player) -> (mov: Move)
        requires
            old(self).wf(),
        ensures
            final(self).wf(),
            mov.player == player,
            old(self).legal(mov),
            old(self).followed_by(mov, *final(self)),
            mov.vertex is None ==> forall|vertex: Vertex| !old(self).legal_at(player, vertex),
    {
        let mut possible_moves = self.board.empty_verts();
        let ghost size = self.spec_size();
        proof {
            assert forall|vertex: Vertex| #[trigger]
                self.legal_at(player, vertex) implies possible_moves@.contains(vertex) by {
                let at = vertex_index(size, vertex);
                lemma_index_of(size, vertex.x as int, vertex.y as int);
                let k = choose|k: int|
                    0 <= k < possible_moves@.len() && #[trigger] vertex_index(
                        size,
                        possible_moves@[k],
                    ) == at;
                lemma_vertex_by_index(size, vertex, possible_moves@[k]);
            }
        }
        while possible_moves.len() > 0
            invariant
                *self == *old(self),
                self.wf(),
                forall|vertex: Vertex| #[trigger]
                    self.legal_at(player, vertex) ==> possible_moves@.contains(vertex),
            decreases possible_moves@.len(),
        {
            let index = random_index(possible_moves.len());
            let ghost before = possible_moves@;
            match self.try_candidate(player, &mut possible_moves, index) {
                Some(mov) => {
                    return mov;
                },
                None => {
                    proof {
                        assert forall|vertex: Vertex| #[trigger]
                            self.legal_at(player, vertex) implies possible_moves@.contains(
                            vertex,
                        ) by {
                            let k = choose|k: int| 0 <= k < before.len() && before[k] == vertex;
                            if k == before.len() - 1 {
                                assert(possible_moves@[index as int] == vertex);
                            } else {
                                assert(possible_moves@[k] == vertex);
                            }
                        }
                    }
                },
            }
        }
        let pass = Move { player, vertex: None };
        let played = self.play(&pass);
        assert(played is Ok);
        pass
    }

    /// Places handicap stones in fixed locations based on the number requested and the size of
    /// the board.
    ///
    /// The request is turned down, and the game stays as it is, if fewer
    /// than two stones are asked for, if the board is not empty, if a free
    /// handicap asks for more stones than the board has points but one, or
    /// if a fixed handicap asks for more stones than the board has handicap
    /// points.
    pub fn place_handicap(&mut self, stones: usize, handicap: Handicap) -> (r: Result<
        Vec<Vertex>,
        Error,
    >)
        requires
            old(self).wf(),
        ensures
            final(self).wf(),
            r is Err ==> *final(self) == *old(self),
            ({
                let size = old(self).spec_size();
                let points = crate::game::board::fixed_handicaps_of(size, stones as int);
                if stones < 2 {
                    r == Err::<Vec<Vertex>, Error>(Error::HandicapTooSmall)
                } else if handicap == Handicap::Free && stones > size * size - 1 {
                    r == Err::<Vec<Vertex>, Error>(Error::HandicapTooLarge)
                } else if !old(self).spec_board().bare() {
                    r == Err::<Vec<Vertex>, Error>(Error::BoardNotEmpty)
                } else if handicap == Handicap::Fixed && stones > points.len() {
                    r == Err::<Vec<Vertex>, Error>(Error::HandicapTooLarge)
                } else {
                    match place_each(old(self).spec_board()@, size, Player::Black, points) {
                        Ok(cells) => r matches Ok(verts) && verts@ == points && old(
                            self,
                        ).with_cells(cells, *final(self)),
                        Err(e) => r == Err::<Vec<Vertex>, Error>(e),
                    }
                }
            }),
    {
        if stones < 2 {
            return Err(Error::HandicapTooSmall);
        }
        let size = self.board.size();
        assert(size * size <= 361) by (nonlinear_arith)
            requires
                1 <= size <= 19,
        ;
        assert(size * size >= 1) by (nonlinear_arith)
            requires
                1 <= size <= 19,
        ;
        if let Handicap::Free = handicap {
            let max_handicaps = size * size - 1;
            if stones > max_handicaps {
                return Err(Error::HandicapTooLarge);
            }
        }
        if !self.board.is_empty() {
            return Err(Error::BoardNotEmpty);
        }
        let verts = self.board.fixed_handicaps(stones);

        if let Handicap::Fixed = handicap {
            if stones > verts.len() {
                return Err(Error::HandicapTooLarge);
            }
        }
        match place_stones(&self.board, Player::Black, &verts) {
            Ok(board) => {
                self.board = board;
                Ok(verts)
            },
            Err(e) => Err(e),
        }
    }

    /// Places the given vertices as handicaps on the board, in their order.
    ///
    /// The request is turned down, and the game stays as it is, if fewer
    /// than two vertices are given, if more are given than the board has
    /// points but one, if the board is not empty, or if one of the
    /// vertices is not on the board or is given twice.
    pub fn set_free_handicap(&mut self, verts: &Vec<Vertex>) -> (r: Result<(), Error>)
        requires
            old(self).wf(),
        ensures
            final(self).wf(),
            r is Err ==> *final(self) == *old(self),
            match old(self).handicap_refused(verts@.len() as int) {
                Some(e) => r == Err::<(), Error>(e),
                None => match place_each(
                    old(self).spec_board()@,
                    old(self).spec_size(),
                    Player::Black,
                    verts@,
                ) {
                    Ok(cells) => r is Ok && old(self).with_cells(cells, *final(self)),
                    Err(e) => r == Err::<(), Error>(e),
                },
            },
    {
        if verts.len() < 2 {
            return Err(Error::HandicapTooSmall);
        }
        let size = self.board.size();
        assert(size * size <= 361) by (nonlinear_arith)
            requires
                1 <= size <= 19,
        ;
        assert(size * size >= 1) by (nonlinear_arith)
            requires
                1 <= size <= 19,
        ;
        let max_handicaps = size * size - 1;
        if verts.len() > max_handicaps {
            return Err(Error::HandicapTooLarge);
        }
        if !self.board.is_empty() {
            return Err(Error::BoardNotEmpty);
        }
        match place_stones(&self.board, Player::Black, verts) {
            Ok(board) => {
                self.board = board;
                Ok(())
            },
            Err(e) => Err(e),
        }
    }
}

/// The indices of a list in rising order of their cells are at least their
/// places in the list.
proof fn lemma_rising(size: int, list: Seq<Vertex>, k: int)
    requires
        0 <= k < list.len(),
        forall|i: int| 0 <= i < list.len() ==> 0 <= vertex_index(size, #[trigger] list[i]),
        forall|i: int, j: int|
            0 <= i < j < list.len() ==> vertex_index(size, list[i]) < vertex_index(size, list[j]),
    ensures
        k <= vertex_index(size, list[k]),
    decreases k,
{
    if k > 0 {
        lemma_rising(size, list, k - 1);
    }
}

/// A copy of the board on which the player has put a stone on each of the
/// vertices in turn, or the reason why one of them could not take a stone.
fn place_stones(board: &Board, player: Player, verts: &Vec<Vertex>) -> (r: Result<Board, Error>)
    requires
        board.wf(),
    ensures
        match place_each(board@, board.spec_size() as int, player, verts@) {
            Ok(cells) => r matches Ok(placed) && placed.wf() && placed.spec_size()
                == board.spec_size() && placed@ == cells,
            Err(e) => r matches Err(f) && f == e,
        },
{
    let mut scratch = board.clone();
    let ghost size = board.spec_size() as int;
    let mut k: usize = 0;
    assert(verts@.take(0) =~= Seq::<Vertex>::empty());
    while k < verts.len()
        invariant
            scratch.wf(),
            scratch.spec_size() == size,
            size == board.spec_size(),
            k <= verts@.len(),
            place_each(board@, size, player, verts@.take(k as int)) == Ok::<Seq<State>, Error>(
                scratch@,
            ),
        decreases verts@.len() - k,
    {
        let ghost next = verts@.take(k + 1);
        proof {
            assert(next.drop_last() =~= verts@.take(k as int));
            assert(next.last() == verts@[k as int]);
        }
        match scratch.place_stone(player, verts[k]) {
            Ok(()) => {},
            Err(e) => {
                proof {
                    lemma_refused_stays(board@, size, player, verts@, k + 1);
                    assert(verts@.take(verts@.len() as int) =~= verts@);
                }
                return Err(e);
            },
        }
        k += 1;
    }
    assert(verts@.take(k as int) =~= verts@);
    Ok(scratch)
}

/// Once a vertex has been turned down, the vertices after it change
/// nothing.
proof fn lemma_refused_stays(cells: Seq<State>, size: int, player: Player, verts: Seq<Vertex>, k: int)
    requires
        0 <= k <= verts.len(),
        place_each(cells, size, player, verts.take(k)) is Err,
    ensures
        forall|l: int|
            k <= l <= verts.len() ==> place_each(cells, size, player, #[trigger] verts.take(l))
                == place_each(cells, size, player, verts.take(k)),
{
    assert forall|l: int| k <= l <= verts.len() implies place_each(
        cells,
        size,
        player,
        #[trigger] verts.take(l),
    ) == place_each(cells, size, player, verts.take(k)) by {
        lemma_refused_stays_at(cells, size, player, verts, k, l);
    }
}

/// The step of the proof above.
proof fn lemma_refused_stays_at(
    cells: Seq<State>,
    size: int,
    player: Player,
    verts: Seq<Vertex>,
    k: int,
    l: int,
)
    requires
        0 <= k <= l <= verts.len(),
        place_each(cells, size, player, verts.take(k)) is Err,
    ensures
        place_each(cells, size, player, verts.take(l)) == place_each(
            cells,
            size,
            player,
            verts.take(k),
        ),
    decreases l - k,
{
    if l > k {
        lemma_refused_stays_at(cells, size, player, verts, k, l - 1);
        assert(verts.take(l).drop_last() =~= verts.take(l - 1));
    }
}

} // verus!
