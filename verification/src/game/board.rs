//! The board: the arrangement of stones, and the rules that a placed stone
//! sets to work.

use vstd::prelude::*;
use crate::game::error::Error;
use crate::game::graph::Graph;
use crate::game::region::{member, Region};
use crate::game::regions::{
    lemma_region_cells, lemma_shift_settles, lemma_shift_spares, partitions, seed, shifted,
    touches_value,
};
use crate::game::matrix::{on_board, vertex_index, CellValue};
use crate::game::player::Player;
use crate::game::vertex::Vertex;

verus! {

/// The largest board.
pub const BOARD_MAX_SIZE: usize = 19;

/// The smallest board.
pub const BOARD_MIN_SIZE: usize = 1;

/// The possible board states.
#[derive(Clone, Copy, Debug, PartialEq, Eq, Hash, Structural)]
pub enum State {
    /// A stone from second player.
    White,
    /// No stone.
    Empty,
    /// A stone from the first player.
    Black,
}

impl Default for State {
    fn default() -> (r: Self)
        ensures
            r == State::Empty,
    {
        State::Empty
    }
}

impl CellValue for State {
    open spec fn blank_value() -> State {
        State::Empty
    }

    fn blank() -> (r: State) {
        State::Empty
    }

    fn same(&self, other: &State) -> (r: bool) {
        *self == *other
    }
}

/// The stone of a player.
pub open spec fn stone(player: Player) -> State {
    match player {
        Player::White => State::White,
        Player::Black => State::Black,
    }
}

impl From<Player> for State {
    fn from(player: Player) -> (r: State) {
        match player {
            Player::White => State::White,
            Player::Black => State::Black,
        }
    }
}

impl vstd::std_specs::convert::FromSpecImpl<Player> for State {
    open spec fn obeys_from_spec() -> bool {
        true
    }

    open spec fn from_spec(player: Player) -> State {
        stone(player)
    }
}

/// Includes a player and a location on the board, or None for pass.
#[derive(Clone, Copy, Debug, PartialEq, Eq, Structural)]
pub struct Move {
    /// The player taking the move.
    pub player: Player,
    /// A coordinate on the Go board.
    pub vertex: Option<Vertex>,
}

/// Every stone is in a region that has a liberty: it touches an empty cell.
pub open spec fn alive(cells: Seq<State>, order: int) -> bool {
    forall|i: int|
        0 <= i < cells.len() && #[trigger] cells[i] != State::Empty ==> touches_value(
            cells,
            order,
            i,
            State::Empty,
        )
}

/// The cells after the regions of the player that have no liberty have
/// been taken off.
pub open spec fn captured(cells: Seq<State>, order: int, player: Player) -> Seq<State> {
    shifted(cells, order, stone(player), State::Empty)
}

/// The cells after the player has put a stone on the cell `at`: the stone
/// is set, then the regions of the opponent that have no liberty are taken
/// off, then those of the player that have none after that.
pub open spec fn settled(cells: Seq<State>, order: int, player: Player, at: int) -> Seq<State> {
    captured(
        captured(cells.update(at, stone(player)), order, player.spec_enemy()),
        order,
        player,
    )
}

/// Once both colours have been cleared of regions without a liberty, the
/// opponent's first, every stone that is left has one.
pub proof fn lemma_captures_settle(cells: Seq<State>, order: int, player: Player)
    ensures
        alive(captured(captured(cells, order, player.spec_enemy()), order, player), order),
{
    let enemy = player.spec_enemy();
    let first = captured(cells, order, enemy);
    let last = captured(first, order, player);
    assert forall|i: int| 0 <= i < last.len() && #[trigger] last[i] != State::Empty implies touches_value(
        last,
        order,
        i,
        State::Empty,
    ) by {
        if last[i] == stone(player) {
            lemma_shift_settles(first, order, stone(player), State::Empty, i);
        } else {
            assert(last[i] == stone(enemy));
            assert(first[i] == stone(enemy));
            lemma_shift_settles(cells, order, stone(enemy), State::Empty, i);
            lemma_shift_spares(first, order, stone(player), State::Empty, i);
        }
    }
}

/// Where every stone has a liberty, every region of stones lists an empty
/// cell among the cells next to it: its number of liberties is not zero.
pub proof fn lemma_regions_have_liberties(
    cells: Seq<State>,
    order: int,
    regions: Seq<Region>,
    i: int,
)
    requires
        partitions(cells, order, regions),
        alive(cells, order),
        0 <= i < regions.len(),
        cells[seed(regions[i])] != State::Empty,
    ensures
        exists|l: int|
            0 <= l < regions[i].adjacency_seq().len() && cells[#[trigger] regions[i].adjacency_seq()[l] as int]
                == State::Empty,
{
    let region = regions[i];
    let s = seed(region);
    assert(region.node_seq()[0] == s);
    assert(member(region.node_seq(), s));
    lemma_region_cells(cells, order, region, s, State::Empty);
    assert(touches_value(cells, order, s, State::Empty));
}

/// The line of the star points nearest to the edge.
pub open spec fn star_line(size: int) -> int {
    if size > 12 {
        3
    } else {
        2
    }
}

/// The vertex with the given coordinates.
pub open spec fn vertex_at(x: int, y: int) -> Vertex {
    Vertex { x: x as usize, y: y as usize }
}

/// The center point of a board of odd size. A board of even size has none.
pub open spec fn center_of(size: int) -> Option<Vertex> {
    if size % 2 == 0 {
        None
    } else {
        Some(vertex_at(size / 2, size / 2))
    }
}

/// The star points of a board: none below size 7, the four corner points
/// from size 7 on, and the four edge points too on a larger board of odd
/// size.
pub open spec fn star_points_of(size: int) -> Seq<Vertex> {
    if size < 7 {
        Seq::empty()
    } else {
        let low = star_line(size);
        let high = size - low - 1;
        let corners = seq![
            vertex_at(low, low),
            vertex_at(high, high),
            vertex_at(low, high),
            vertex_at(high, low),
        ];
        if size == 7 || size % 2 == 0 {
            corners
        } else {
            let mid = size / 2;
            corners + seq![
                vertex_at(low, mid),
                vertex_at(high, mid),
                vertex_at(mid, low),
                vertex_at(mid, high),
            ]
        }
    }
}

/// The first `count` items, or all of them where there are fewer.
pub open spec fn first_of<A>(list: Seq<A>, count: int) -> Seq<A> {
    if count < list.len() {
        list.take(count)
    } else {
        list
    }
}

/// The fixed handicap points for a number of stones: the first star
/// points, with the center point in place of the last one where the number
/// is 5, 7, or 9 and more, and the board is larger than 7 and has a center.
pub open spec fn fixed_handicaps_of(size: int, stones: int) -> Seq<Vertex> {
    let points = star_points_of(size);
    if size > 7 && (stones == 5 || stones == 7 || stones >= 9) {
        let first = first_of(points, stones - 1);
        match center_of(size) {
            Some(center) => first.push(center),
            None => first,
        }
    } else {
        first_of(points, stones)
    }
}

/// What a stone counts for under the ancient rules.
pub open spec fn stone_value(state: State) -> int {
    match state {
        State::Empty => 0,
        State::Black => 1,
        State::White => -1,
    }
}

/// The number of black stones minus the number of white stones.
pub open spec fn ancient_score(cells: Seq<State>) -> int
    decreases cells.len(),
{
    if cells.len() == 0 {
        0
    } else {
        ancient_score(cells.drop_last()) + stone_value(cells.last())
    }
}

/// A representation of the board state.
#[derive(Debug)]
pub struct Board {
    /// The stones, and the regions they make.
    graph: Graph<State>,
}

impl View for Board {
    type V = Seq<State>;

    /// The cells, row by row from the bottom row up.
    closed spec fn view(&self) -> Seq<State> {
        self.graph@
    }
}

impl Board {
    /// The number of lines of the board.
    pub closed spec fn spec_size(&self) -> usize {
        self.graph.spec_order()
    }

    /// The regions are those of the stones.
    pub closed spec fn regions_ok(&self) -> bool {
        self.graph.wf()
    }

    /// The board has a size between 1 and 19, one cell for each vertex, and
    /// no stone on it is without a liberty.
    pub open spec fn wf(&self) -> bool {
        &&& self.regions_ok()
        &&& BOARD_MIN_SIZE <= self.spec_size() <= BOARD_MAX_SIZE
        &&& self@.len() == self.spec_size() * self.spec_size()
        &&& alive(self@, self.spec_size() as int)
    }

    /// There is no stone on the board.
    pub open spec fn bare(&self) -> bool {
        forall|i: int| 0 <= i < self@.len() ==> self@[i] == State::Empty
    }

    /// Returns the center point (天元 tengen) of the board. Note that even size boards don't have a
    /// center point.
    pub fn center_point(&self) -> (r: Option<Vertex>)
        ensures
            r == center_of(self.spec_size() as int),
    {
        let board_size = self.size();

        if board_size % 2 == 0 {
            None
        } else {
            let center = board_size / 2;
            Some(Vertex { x: center, y: center })
        }
    }

    /// Returns the edge star points (星 hoshi), which are traditionally marked with a small dot on
    /// the board.
    pub fn star_points(&self) -> (r: Vec<Vertex>)
        ensures
            r@ == star_points_of(self.spec_size() as int),
    {
        let board_size = self.size();
        let mut star_points: Vec<Vertex> = Vec::new();
        if board_size < 7 {
            return star_points;
        }
        let min_line: usize = if board_size > 12 {
            3
        } else {
            2
        };
        let max_line: usize = board_size - min_line - 1;
        star_points.push(Vertex { x: min_line, y: min_line });
        star_points.push(Vertex { x: max_line, y: max_line });
        star_points.push(Vertex { x: min_line, y: max_line });
        star_points.push(Vertex { x: max_line, y: min_line });
        assert(star_points@ =~= seq![
            vertex_at(min_line as int, min_line as int),
            vertex_at(max_line as int, max_line as int),
            vertex_at(min_line as int, max_line as int),
            vertex_at(max_line as int, min_line as int),
        ]);
        if board_size == 7 {
            return star_points;
        }
        let center_line = match self.center_point() {
            Some(center) => center.x,
            None => {
                return star_points;
            },
        };
        let ghost corners = star_points@;
        star_points.push(Vertex { x: min_line, y: center_line });
        star_points.push(Vertex { x: max_line, y: center_line });
        star_points.push(Vertex { x: center_line, y: min_line });
        star_points.push(Vertex { x: center_line, y: max_line });
        assert(star_points@ =~= corners + seq![
            vertex_at(min_line as int, center_line as int),
            vertex_at(max_line as int, center_line as int),
            vertex_at(center_line as int, min_line as int),
            vertex_at(center_line as int, max_line as int),
        ]);
        star_points
    }

    /// Returns a list of handicap verticies given a board size and desired number of stones. The
    /// number of handicaps returned will be as large as possible given the number of valid
    /// handicaps, but may be less than requested.
    pub fn fixed_handicaps(&self, stones: usize) -> (r: Vec<Vertex>)
        ensures
            r@ == fixed_handicaps_of(self.spec_size() as int, stones as int),
    {
        let board_size = self.size();

        let mut handicaps = self.star_points();
        if board_size > 7 && (stones == 5 || stones == 7 || stones >= 9) {
            handicaps.truncate(stones - 1);
            match self.center_point() {
                Some(center) => handicaps.push(center),
                None => (),
            }
        } else {
            handicaps.truncate(stones);
        }
        handicaps
    }

    /// Returns true if there are no stones on the board.
    pub fn is_empty(&self) -> (r: bool)
        ensures
            r == self.bare(),
    {
        let values = self.graph.values();
        let mut i: usize = 0;
        while i < values.len()
            invariant
                values@ == self@,
                i <= values@.len(),
                forall|k: int| 0 <= k < i ==> values@[k] == State::Empty,
            decreases values@.len() - i,
        {
            if values[i] != State::Empty {
                return false;
            }
            i += 1;
        }
        true
    }

    /// Returns true if the vertex exists and is empty.
    pub fn is_vacant(&self, vertex: Vertex) -> (r: bool)
        requires
            self.wf(),
        ensures
            r == (on_board(self.spec_size() as int, vertex) && self@[vertex_index(
                self.spec_size() as int,
                vertex,
            )] == State::Empty),
    {
        match self.graph.get(vertex) {
            Some(state) => *state == State::Empty,
            None => false,
        }
    }

    /// Returns the state of the vertex, or none if the vertex is not on the
    /// board.
    pub fn get(&self, vertex: Vertex) -> (r: Option<State>)
        requires
            self.wf(),
        ensures
            r is Some <==> on_board(self.spec_size() as int, vertex),
            r matches Some(state) ==> state == self@[vertex_index(
                self.spec_size() as int,
                vertex,
            )],
    {
        match self.graph.get(vertex) {
            Some(state) => Some(*state),
            None => None,
        }
    }

    /// Returns a list of all the empty verticies, in the order of their
    /// cells.
    pub fn empty_verts(&self) -> (r: Vec<Vertex>)
        requires
            self.wf(),
        ensures
            forall|k: int|
                0 <= k < r@.len() ==> on_board(self.spec_size() as int, #[trigger] r@[k])
                    && self@[vertex_index(self.spec_size() as int, r@[k])] == State::Empty,
            forall|k: int, l: int|
                0 <= k < l < r@.len() ==> vertex_index(self.spec_size() as int, r@[k])
                    < vertex_index(self.spec_size() as int, r@[l]),
            forall|i: int|
                0 <= i < self@.len() && self@[i] == State::Empty ==> exists|k: int|
                    0 <= k < r@.len() && #[trigger] vertex_index(self.spec_size() as int, r@[k])
                        == i,
    {
        self.graph.matrix().verts_in_state(State::Empty)
    }

    /// Removes all of the stones from the board.
    pub fn clear(&mut self)
        requires
            old(self).wf(),
        ensures
            final(self).wf(),
            final(self).spec_size() == old(self).spec_size(),
            forall|i: int| 0 <= i < final(self)@.len() ==> final(self)@[i] == State::Empty,
    {
        self.graph.reset();
    }

    /// Creates a new board with the given size. A full size game is 19, but 13 and 9 are also
    /// common. A size that is not between 1 and 19 is turned down.
    pub fn with_size(size: usize) -> (r: Result<Self, Error>)
        ensures
            r is Ok <==> BOARD_MIN_SIZE <= size <= BOARD_MAX_SIZE,
            r matches Ok(board) ==> board.wf() && board.spec_size() == size && forall|i: int|
                0 <= i < board@.len() ==> board@[i] == State::Empty,
            r matches Err(e) ==> e == Error::InvalidSize,
    {
        if size < BOARD_MIN_SIZE || size > BOARD_MAX_SIZE {
            Err(Error::InvalidSize)
        } else {
            assert(size * size <= 361) by (nonlinear_arith)
                requires
                    size <= 19,
            ;
            Ok(Board { graph: Graph::with_matrix_order(size) })
        }
    }

    /// Takes off the board the regions of the player that have no liberty.
    fn remove_captures(&mut self, player: Player)
        requires
            old(self).regions_ok(),
        ensures
            final(self).regions_ok(),
            final(self).spec_size() == old(self).spec_size(),
            final(self)@ == captured(old(self)@, old(self).spec_size() as int, player),
    {
        self.graph.shift_regions(State::from(player), State::Empty);
    }

    /// Updates the board with a move: puts the stone of the player on the
    /// vertex, takes off the stones that the move captures, and then the
    /// stones of the player that are left without a liberty.
    ///
    /// A vertex that is not on the board or that holds a stone is turned
    /// down, and the board stays as it is.
    pub fn place_stone(&mut self, player: Player, vertex: Vertex) -> (r: Result<(), Error>)
        requires
            old(self).wf(),
        ensures
            final(self).wf(),
            final(self).spec_size() == old(self).spec_size(),
            match r {
                Ok(()) => {
                    &&& on_board(old(self).spec_size() as int, vertex)
                    &&& old(self)@[vertex_index(old(self).spec_size() as int, vertex)]
                        == State::Empty
                    &&& final(self)@ == settled(
                        old(self)@,
                        old(self).spec_size() as int,
                        player,
                        vertex_index(old(self).spec_size() as int, vertex),
                    )
                },
                Err(e) => {
                    &&& *final(self) == *old(self)
                    &&& if on_board(old(self).spec_size() as int, vertex) {
                        e == Error::Occupied && old(self)@[vertex_index(
                            old(self).spec_size() as int,
                            vertex,
                        )] != State::Empty
                    } else {
                        e == Error::OutOfBounds
                    }
                },
            },
    {
        match self.graph.get(vertex) {
            None => {
                return Err(Error::OutOfBounds);
            },
            Some(state) => {
                if *state != State::Empty {
                    return Err(Error::Occupied);
                }
            },
        }
        let ghost order = self.graph.spec_order() as int;
        let ghost at = vertex_index(order, vertex);
        let ghost cells = self.graph@;
        let placed = self.graph.set(vertex, State::from(player));
        assert(placed is Ok);
        self.remove_captures(player.enemy());
        // Remove suicides.
        self.remove_captures(player);
        proof {
            lemma_captures_settle(cells.update(at, stone(player)), order, player);
        }
        Ok(())
    }

    /// The stones of the board with the regions they make.
    pub fn graph(&self) -> (r: &Graph<State>)
        requires
            self.wf(),
        ensures
            r.wf(),
            r@ == self@,
            r.spec_order() == self.spec_size(),
    {
        &self.graph
    }

    /// Returns the current size of the board.
    #[verifier::when_used_as_spec(spec_size)]
    pub fn size(&self) -> (r: usize)
        ensures
            r == self.spec_size(),
    {
        self.graph.grid_length()
    }

    /// The score according to ancient rules (count of black stones minus count of white stones).
    pub fn score_ancient(&self) -> (r: i32)
        requires
            self.wf(),
        ensures
            r == ancient_score(self@),
    {
        let values = self.graph.values();
        let mut score: i32 = 0;
        let mut i: usize = 0;
        assert(values@.len() <= 361) by (nonlinear_arith)
            requires
                values@.len() == self.spec_size() * self.spec_size(),
                self.spec_size() <= 19,
        ;
        assert(values@.take(0) =~= Seq::<State>::empty());
        while i < values.len()
            invariant
                values@ == self@,
                values@.len() <= 361,
                i <= values@.len(),
                score == ancient_score(values@.take(i as int)),
                -i <= score <= i,
            decreases values@.len() - i,
        {
            proof {
                let next = values@.take(i + 1);
                assert(next.drop_last() =~= values@.take(i as int));
                assert(next.last() == values@[i as int]);
            }
            match values[i] {
                State::Empty => {},
                State::Black => {
                    score = score + 1;
                },
                State::White => {
                    score = score - 1;
                },
            }
            i += 1;
        }
        assert(values@.take(i as int) =~= values@);
        score
    }

    /// Whether the two boards have the same size and hold the same stones.
    pub fn same(&self, other: &Board) -> (r: bool)
        ensures
            r == (self.spec_size() == other.spec_size() && self@ == other@),
    {
        self.graph.matrix().same(other.graph.matrix())
    }
}

impl PartialEq for Board {
    /// Two boards are equal if they have the same size and hold the same
    /// stones.
    fn eq(&self, other: &Board) -> (r: bool) {
        self.same(other)
    }
}

impl vstd::std_specs::cmp::PartialEqSpecImpl for Board {
    open spec fn obeys_eq_spec() -> bool {
        true
    }

    open spec fn eq_spec(&self, other: &Board) -> bool {
        self.spec_size() == other.spec_size() && self@ == other@
    }
}

impl Clone for Board {
    /// A copy of the board, with regions of its own.
    fn clone(&self) -> (r: Self)
        ensures
            r@ == self@,
            r.spec_size() == self.spec_size(),
            self.wf() ==> r.wf(),
    {
        Board { graph: self.graph.clone() }
    }
}

} // verus!
