//! What the commands of the Go Text Protocol do to a game: each takes the
//! arguments of the command and the game, and gives the reply.

use vstd::prelude::*;
use crate::game::board::{fixed_handicaps_of, star_points_of, Move};
use crate::game::error::Error;
use crate::game::matrix::on_board;
use crate::game::player::Player;
use crate::game::record::{place_each, Game, Handicap};
use crate::game::render::render;
use crate::game::vertex::{
    parse_vertex, vertex_text, vertices_text, Vertex, VertexError, Vertices, COLUMNS,
};
use crate::gtp::command::texts;
use crate::gtp::response::CommandResult;
use crate::text::{
    chars_of, decimal, decimal_digits, decimal_u32, lowercase, parse_u32, push_char, push_chars,
    to_lowercase, to_uppercase, uppercase,
};

verus! {

/// The character as the standard library writes it for debugging: between
/// quotes, with escapes for what cannot be seen.
pub uninterp spec fn debug_text(c: char) -> Seq<char>;

/// The character as `format!` of the standard library writes it with
/// `{:?}`.
#[verifier::external_body]
fn char_debug(c: char) -> (r: String)
    ensures
        r@ == debug_text(c),
{
    format!("{:?}", c)
}

/// Whether the text is the word.
#[verifier::loop_isolation(false)]
fn text_is(text: &str, word: &str) -> (r: bool)
    ensures
        r == (text@ == word@),
{
    let a = chars_of(text);
    let b = chars_of(word);
    if a.len() != b.len() {
        return false;
    }
    let mut i: usize = 0;
    while i < a.len()
        invariant
            a@.len() == b@.len(),
            i <= a@.len(),
            forall|k: int| 0 <= k < i ==> a@[k] == b@[k],
        decreases a@.len() - i,
    {
        if a[i] != b[i] {
            return false;
        }
        i += 1;
    }
    assert(a@ =~= b@);
    true
}

/// The two texts, one after the other.
fn joined(first: &str, second: &str) -> (r: String)
    ensures
        r@ == first@ + second@,
{
    let mut text = first.to_owned();
    let rest = chars_of(second);
    push_chars(&mut text, &rest);
    text
}

/// The player that a colour names: `b` or `black`, `w` or `white`.
pub open spec fn color_of(name: Seq<char>) -> Option<Player> {
    if name == "b"@ || name == "black"@ {
        Some(Player::Black)
    } else if name == "w"@ || name == "white"@ {
        Some(Player::White)
    } else {
        None
    }
}

/// The player that the text names, in capital or small letters, or the
/// complaint that it names none.
pub open spec fn color_asked(color: Seq<char>) -> Result<Player, Seq<char>> {
    match color_of(lowercase(color)) {
        Some(player) => Ok(player),
        None => Err("invalid color: "@ + color),
    }
}

/// What is the same in two results: success with the same text or with
/// none, or failure with the same message.
pub open spec fn replies(result: CommandResult, wanted: Result<Option<Seq<char>>, Seq<char>>) -> bool {
    crate::gtp::response::result_text(result) == wanted
}

/// Reads the colour of a player.
pub fn parse_color(color: &str) -> (r: Result<Player, String>)
    ensures
        match color_asked(color@) {
            Ok(player) => r matches Ok(read) && read == player,
            Err(message) => r matches Err(said) && said@ == message,
        },
{
    let lower = to_lowercase(color);
    if text_is(lower.as_str(), "b") || text_is(lower.as_str(), "black") {
        Ok(Player::Black)
    } else if text_is(lower.as_str(), "w") || text_is(lower.as_str(), "white") {
        Ok(Player::White)
    } else {
        Err(joined("invalid color: ", color))
    }
}

/// The board size that the arguments ask for, or the complaint about them.
pub open spec fn boardsize_asked(args: Seq<Seq<char>>) -> Result<int, Seq<char>> {
    if args.len() < 1 {
        Err("boardsize not given"@)
    } else {
        match decimal_u32(args[0]) {
            None => Err("boardsize not a u32"@),
            Some(size) => if 1 <= size <= 19 {
                Ok(size as int)
            } else {
                Err("unacceptable size"@)
            },
        }
    }
}

/// Reads a number from the whole of a text, as a `u32` is read.
fn parse_number(text: &str) -> (r: Option<u32>)
    ensures
        r == decimal_u32(text@),
{
    let chars = chars_of(text);
    assert(chars@.subrange(0, chars@.len() as int) =~= text@);
    parse_u32(&chars, 0, chars.len())
}

/// `boardsize`: starts a new game on a board of the size asked for. Where
/// the size is missing, no number, or none that a board can have, the game
/// stays as it is.
pub fn gtp_boardsize(args: &Vec<String>, game: &mut Game) -> (r: CommandResult)
    requires
        old(game).wf(),
    ensures
        final(game).wf(),
        match boardsize_asked(texts(args@)) {
            Ok(size) => r == Ok::<Option<String>, String>(None) && final(game).fresh(size),
            Err(message) => replies(r, Err(message)) && *final(game) == *old(game),
        },
{
    if args.len() < 1 {
        return Err("boardsize not given".to_owned());
    }
    assert(texts(args@)[0] == args@[0]@);
    match parse_number(args[0].as_str()) {
        Some(size) => {
            match Game::with_board_size(size as usize) {
                Ok(new_game) => {
                    *game = new_game;
                    Ok(None)
                },
                Err(_) => Err("unacceptable size".to_owned()),
            }
        },
        None => Err("boardsize not a u32".to_owned()),
    }
}

/// A move as text: the vertex, or `pass`.
pub open spec fn move_text(mov: Move) -> Seq<char> {
    match mov.vertex {
        Some(vertex) => vertex_text(vertex),
        None => "pass"@,
    }
}

/// `genmove`: plays a move picked by chance for the colour asked for, and
/// replies with the move. Where the colour is missing or none, the game
/// stays as it is.
pub fn gtp_genmove(args: &Vec<String>, game: &mut Game) -> (r: CommandResult)
    requires
        old(game).wf(),
    ensures
        final(game).wf(),
        if args@.len() == 0 {
            replies(r, Err("too few arguments, expected: genmove <color>"@)) && *final(game)
                == *old(game)
        } else {
            match color_asked(args@[0]@) {
                Err(message) => replies(r, Err(message)) && *final(game) == *old(game),
                Ok(player) => exists|mov: Move|
                    {
                        &&& mov.player == player
                        &&& old(game).legal(mov)
                        &&& #[trigger] old(game).followed_by(mov, *final(game))
                        &&& mov.vertex is None ==> forall|vertex: Vertex|
                            !old(game).legal_at(player, vertex)
                        &&& replies(r, Ok(Some(move_text(mov))))
                    },
            }
        },
{
    if args.len() == 0 {
        return Err("too few arguments, expected: genmove <color>".to_owned());
    }
    let player = match parse_color(args[0].as_str()) {
        Ok(player) => player,
        Err(message) => {
            return Err(message);
        },
    };
    let mov = game.genmove_random(player);
    let move_str = match mov.vertex {
        Some(vertex) => {
            assert(old(game).spec_board().wf());
            vertex.to_string()
        },
        None => "pass".to_owned(),
    };
    Ok(Some(move_str))
}

/// The star points of a board lie on the board, and so does its center.
pub proof fn lemma_handicaps_on_board(size: int, stones: int, k: int)
    requires
        1 <= size <= 19,
        0 <= stones,
        0 <= k < fixed_handicaps_of(size, stones).len(),
    ensures
        on_board(size, fixed_handicaps_of(size, stones)[k]),
{
    let points = star_points_of(size);
    assert forall|i: int| 0 <= i < points.len() implies on_board(size, #[trigger] points[i]) by {
        if size >= 7 {
            let low = crate::game::board::star_line(size);
            let high = size - low - 1;
            let mid = size / 2;
            if size == 7 || size % 2 == 0 {
            } else {
                if i >= 4 {
                    let more = seq![
                        crate::game::board::vertex_at(low, mid),
                        crate::game::board::vertex_at(high, mid),
                        crate::game::board::vertex_at(mid, low),
                        crate::game::board::vertex_at(mid, high),
                    ];
                    assert(points[i] == more[i - 4]);
                }
            }
        }
    }
    let list = fixed_handicaps_of(size, stones);
    if size > 7 && (stones == 5 || stones == 7 || stones >= 9) {
        let first = crate::game::board::first_of(points, stones - 1);
        if k < first.len() {
            assert(list[k] == first[k]);
            assert(first[k] == points[k]);
        } else {
            assert(list[k] == crate::game::board::vertex_at(size / 2, size / 2));
        }
    } else {
        let first = crate::game::board::first_of(points, stones);
        assert(list[k] == first[k]);
        assert(first[k] == points[k]);
    }
}

/// Why a handicap is turned down, as the protocol says it.
pub open spec fn handicap_complaint(error: Error, handicap: Handicap, size: int, points: int) -> Seq<
    char,
> {
    match error {
        Error::HandicapTooSmall => "a handicap must be at least two stones"@,
        Error::BoardNotEmpty => "board not empty"@,
        Error::HandicapTooLarge => match handicap {
            Handicap::Free => "The number of handicaps requested must be less than "@ + decimal(
                (size * size - 1) as nat,
            ),
            Handicap::Fixed => "a board of size "@ + decimal(size as nat)
                + " may not have more than "@ + decimal(points as nat) + " fixed handicaps"@,
        },
        _ => "illegal move"@,
    }
}

/// Writes out why a handicap is turned down.
fn complain_of_handicap(error: Error, handicap: Handicap, size: usize, points: usize) -> (r: String)
    requires
        1 <= size <= 19,
    ensures
        r@ == handicap_complaint(error, handicap, size as int, points as int),
{
    match error {
        Error::HandicapTooSmall => "a handicap must be at least two stones".to_owned(),
        Error::BoardNotEmpty => "board not empty".to_owned(),
        Error::HandicapTooLarge => match handicap {
            Handicap::Free => {
                assert(1 <= size * size <= 361) by (nonlinear_arith)
                    requires
                        1 <= size <= 19,
                ;
                let mut text = "The number of handicaps requested must be less than ".to_owned();
                let digits = decimal_digits((size * size - 1) as u64);
                push_chars(&mut text, &digits);
                text
            },
            Handicap::Fixed => {
                let mut text = "a board of size ".to_owned();
                let digits = decimal_digits(size as u64);
                push_chars(&mut text, &digits);
                let middle = chars_of(" may not have more than ");
                push_chars(&mut text, &middle);
                let digits = decimal_digits(points as u64);
                push_chars(&mut text, &digits);
                let end = chars_of(" fixed handicaps");
                push_chars(&mut text, &end);
                text
            },
        },
        _ => "illegal move".to_owned(),
    }
}

/// `fixed_handicap` and `place_free_handicap`: places so many handicap
/// stones on the handicap points of the board, and replies with their
/// vertices. Where the number is missing, no number, or is turned down,
/// the game stays as it is.
pub fn gtp_place_handicap(args: &Vec<String>, game: &mut Game, handicap: Handicap) -> (r:
    CommandResult)
    requires
        old(game).wf(),
    ensures
        final(game).wf(),
        r is Err ==> *final(game) == *old(game),
        if args@.len() == 0 {
            replies(r, Err("syntax error"@))
        } else {
            match decimal_u32(args@[0]@) {
                None => replies(r, Err("number is not a u32"@)),
                Some(stones) => {
                    let size = old(game).spec_size();
                    let points = fixed_handicaps_of(size, stones as int);
                    if stones < 2 {
                        replies(r, Err("a handicap must be at least two stones"@))
                    } else if handicap == Handicap::Free && stones > size * size - 1 {
                        replies(
                            r,
                            Err(
                                handicap_complaint(
                                    Error::HandicapTooLarge,
                                    handicap,
                                    size,
                                    points.len() as int,
                                ),
                            ),
                        )
                    } else if !old(game).spec_board().bare() {
                        replies(r, Err("board not empty"@))
                    } else if handicap == Handicap::Fixed && stones > points.len() {
                        replies(
                            r,
                            Err(
                                handicap_complaint(
                                    Error::HandicapTooLarge,
                                    handicap,
                                    size,
                                    points.len() as int,
                                ),
                            ),
                        )
                    } else {
                        match place_each(old(game).spec_board()@, size, Player::Black, points) {
                            Ok(cells) => replies(r, Ok(Some(vertices_text(points)))) && old(
                                game,
                            ).with_cells(cells, *final(game)),
                            Err(e) => replies(r, Err("illegal move"@)),
                        }
                    }
                },
            }
        },
{
    if args.len() == 0 {
        return Err("syntax error".to_owned());
    }
    let stones = match parse_number(args[0].as_str()) {
        Some(stones) => stones as usize,
        None => {
            return Err("number is not a u32".to_owned());
        },
    };
    let size = game.board().size();
    let points = game.board().fixed_handicaps(stones).len();
    proof {
        crate::game::record::lemma_place_each_errors(
            game.spec_board()@,
            size as int,
            Player::Black,
            fixed_handicaps_of(size as int, stones as int),
        );
    }
    match game.place_handicap(stones, handicap) {
        Ok(verts) => {
            proof {
                assert forall|i: int| 0 <= i < verts@.len() implies (#[trigger] verts@[i]).x
                    < COLUMNS && verts@[i].y < usize::MAX by {
                    lemma_handicaps_on_board(size as int, stones as int, i);
                }
            }
            Ok(Some(Vertices(verts).to_string()))
        },
        Err(error) => Err(complain_of_handicap(error, handicap, size, points)),
    }
}

/// Why a text is no vertex, as the protocol says it.
pub open spec fn vertex_complaint(error: VertexError, text: Seq<char>) -> Seq<char> {
    match error {
        VertexError::TooShort => "string too short to be a vertex"@,
        VertexError::InvalidLetter => "invalid coordinate letter "@ + debug_text(text[0]),
        VertexError::NotANumber => "number is not a u32"@,
        VertexError::ZeroRow => "number must be greater than zero"@,
    }
}

/// Reads a vertex, or writes out why the text is none.
fn read_vertex(text: &str) -> (r: Result<Vertex, String>)
    ensures
        match parse_vertex(text@) {
            Ok(vertex) => r matches Ok(read) && read == vertex,
            Err(error) => r matches Err(said) && said@ == vertex_complaint(error, text@),
        },
{
    match Vertex::from_str(text) {
        Ok(vertex) => Ok(vertex),
        Err(VertexError::TooShort) => Err("string too short to be a vertex".to_owned()),
        Err(VertexError::InvalidLetter) => {
            let chars = chars_of(text);
            let quoted = char_debug(chars[0]);
            Err(joined("invalid coordinate letter ", quoted.as_str()))
        },
        Err(VertexError::NotANumber) => Err("number is not a u32".to_owned()),
        Err(VertexError::ZeroRow) => Err("number must be greater than zero".to_owned()),
    }
}

/// The move that the arguments of `play` ask for, or the complaint about
/// them: a colour, then `pass` or a vertex, in capital or small letters.
pub open spec fn move_asked(args: Seq<Seq<char>>) -> Result<Move, Seq<char>> {
    if args.len() < 2 {
        Err("too few arguments, expected: <color> <vertex>"@)
    } else {
        match color_asked(args[0]) {
            Err(message) => Err(message),
            Ok(player) => {
                let place = uppercase(args[1]);
                if place == "PASS"@ {
                    Ok(Move { player, vertex: None })
                } else {
                    match parse_vertex(place) {
                        Err(error) => Err(vertex_complaint(error, place)),
                        Ok(vertex) => Ok(Move { player, vertex: Some(vertex) }),
                    }
                }
            },
        }
    }
}

/// `play`: plays the move asked for. Where the arguments ask for no move,
/// or the move is not legal, the game stays as it is.
pub fn gtp_play(args: &Vec<String>, game: &mut Game) -> (r: CommandResult)
    requires
        old(game).wf(),
    ensures
        final(game).wf(),
        match move_asked(texts(args@)) {
            Err(message) => replies(r, Err(message)) && *final(game) == *old(game),
            Ok(mov) => if old(game).legal(mov) {
                r == Ok::<Option<String>, String>(None) && old(game).followed_by(
                    mov,
                    *final(game),
                )
            } else {
                replies(r, Err("illegal move"@)) && *final(game) == *old(game)
            },
        },
{
    if args.len() < 2 {
        return Err("too few arguments, expected: <color> <vertex>".to_owned());
    }
    assert(texts(args@)[0] == args@[0]@ && texts(args@)[1] == args@[1]@);
    let color = match parse_color(args[0].as_str()) {
        Ok(color) => color,
        Err(message) => {
            return Err(message);
        },
    };
    let place = to_uppercase(args[1].as_str());
    let mov = if text_is(place.as_str(), "PASS") {
        Move { player: color, vertex: None }
    } else {
        let vertex = match read_vertex(place.as_str()) {
            Ok(vertex) => vertex,
            Err(message) => {
                return Err(message);
            },
        };
        let size = game.board().size();
        if vertex.x >= size || vertex.y >= size {
            return Err("illegal move".to_owned());
        }
        Move { player: color, vertex: Some(vertex) }
    };
    match game.play(&mov) {
        Ok(()) => Ok(None),
        Err(_) => Err("illegal move".to_owned()),
    }
}

/// `undo`: takes back the last move, if there is one.
pub fn gtp_undo(game: &mut Game) -> (r: CommandResult)
    requires
        old(game).wf(),
    ensures
        final(game).wf(),
        if old(game).moves().len() > 0 {
            r == Ok::<Option<String>, String>(None) && old(game).taken_back(*final(game))
        } else {
            replies(r, Err("cannot undo"@)) && *final(game) == *old(game)
        },
{
    match game.undo() {
        Ok(()) => Ok(None),
        Err(_) => Err("cannot undo".to_owned()),
    }
}

/// `showboard`: replies with the board as text, after an end of line.
pub fn gtp_showboard(game: &Game) -> (r: CommandResult)
    requires
        game.wf(),
    ensures
        replies(
            r,
            Ok(Some(seq!['\r', '\n'] + render(game.spec_board()@, game.spec_size()))),
        ),
{
    let mut text = String::new();
    push_char(&mut text, '\r');
    push_char(&mut text, '\n');
    let board = game.board().to_ascii();
    let chars = chars_of(board.as_str());
    push_chars(&mut text, &chars);
    assert(text@ =~= seq!['\r', '\n'] + render(game.spec_board()@, game.spec_size()));
    Ok(Some(text))
}

/// The vertices that the texts name, in capital or small letters, if each
/// of them names one.
pub open spec fn vertices_asked(args: Seq<Seq<char>>) -> Option<Seq<Vertex>>
    decreases args.len(),
{
    if args.len() == 0 {
        Some(Seq::empty())
    } else {
        match (vertices_asked(args.drop_last()), parse_vertex(uppercase(args.last()))) {
            (Some(verts), Ok(vertex)) => Some(verts.push(vertex)),
            _ => None,
        }
    }
}

/// Reads the vertices that the arguments name, if each of them names one.
fn read_vertices(args: &Vec<String>) -> (r: Option<Vec<Vertex>>)
    ensures
        match vertices_asked(texts(args@)) {
            Some(verts) => r matches Some(read) && read@ == verts,
            None => r is None,
        },
{
    let mut verts: Vec<Vertex> = Vec::new();
    let mut i: usize = 0;
    let ghost all = texts(args@);
    assert(all.take(0) =~= Seq::<Seq<char>>::empty());
    while i < args.len()
        invariant
            i <= args@.len(),
            all == texts(args@),
            vertices_asked(all.take(i as int)) == Some(verts@),
        decreases args@.len() - i,
    {
        let ghost next = all.take(i + 1);
        proof {
            assert(next.drop_last() =~= all.take(i as int));
            assert(next.last() == args@[i as int]@);
        }
        let upper = to_uppercase(args[i].as_str());
        match Vertex::from_str(upper.as_str()) {
            Ok(vertex) => verts.push(vertex),
            Err(_) => {
                proof {
                    lemma_vertices_asked_none(all, i + 1);
                    assert(all.take(all.len() as int) =~= all);
                }
                return None;
            },
        }
        i += 1;
    }
    assert(all.take(i as int) =~= all);
    Some(verts)
}

/// Once a text names no vertex, the texts after it change nothing.
proof fn lemma_vertices_asked_none(args: Seq<Seq<char>>, k: int)
    requires
        0 <= k <= args.len(),
        vertices_asked(args.take(k)) is None,
    ensures
        vertices_asked(args.take(args.len() as int)) is None,
    decreases args.len() - k,
{
    if k < args.len() {
        assert(args.take(k + 1).drop_last() =~= args.take(k));
        lemma_vertices_asked_none(args, k + 1);
    }
}

/// No vertex is in the list twice.
pub open spec fn no_vertex_twice(verts: Seq<Vertex>) -> bool {
    forall|i: int, j: int| 0 <= i < j < verts.len() ==> verts[i] != verts[j]
}

/// Whether no vertex is in the list twice.
fn all_different(verts: &Vec<Vertex>) -> (r: bool)
    ensures
        r == no_vertex_twice(verts@),
{
    let mut j: usize = 0;
    while j < verts.len()
        invariant
            j <= verts@.len(),
            forall|a: int, b: int| 0 <= a < b < j ==> verts@[a] != verts@[b],
        decreases verts@.len() - j,
    {
        let mut i: usize = 0;
        while i < j
            invariant
                i <= j < verts@.len(),
                forall|a: int| 0 <= a < i ==> verts@[a] != verts@[j as int],
            decreases j - i,
        {
            if verts[i] == verts[j] {
                return false;
            }
            i += 1;
        }
        j += 1;
    }
    true
}

/// Why a set of handicap stones is turned down, as the protocol says it.
pub open spec fn free_handicap_complaint(error: Error, size: int) -> Seq<char> {
    match error {
        Error::HandicapTooSmall => "a handicap must be at least two stones"@,
        Error::HandicapTooLarge => "The number of handicaps requested must less than "@ + decimal(
            (size * size - 1) as nat,
        ),
        Error::BoardNotEmpty => "board not empty"@,
        _ => "vertex is not on the board"@,
    }
}

/// `set_free_handicap`: places handicap stones on the vertices given.
/// Where a text names no vertex or a vertex is given twice, or the
/// handicap is turned down, the game stays as it is.
pub fn gtp_set_free_handicap(args: &Vec<String>, game: &mut Game) -> (r: CommandResult)
    requires
        old(game).wf(),
    ensures
        final(game).wf(),
        r is Err ==> *final(game) == *old(game),
        match vertices_asked(texts(args@)) {
            Some(verts) if no_vertex_twice(verts) => match old(game).handicap_refused(
                verts.len() as int,
            ) {
                Some(e) => replies(r, Err(free_handicap_complaint(e, old(game).spec_size()))),
                None => match place_each(
                    old(game).spec_board()@,
                    old(game).spec_size(),
                    Player::Black,
                    verts,
                ) {
                    Ok(cells) => r == Ok::<Option<String>, String>(None) && old(game).with_cells(
                        cells,
                        *final(game),
                    ),
                    Err(e) => replies(r, Err(free_handicap_complaint(e, old(game).spec_size()))),
                },
            },
            _ => replies(r, Err("syntax error, repeated vertex, or pass given as argument"@)),
        },
{
    let verts = match read_vertices(args) {
        Some(verts) => verts,
        None => {
            return Err("syntax error, repeated vertex, or pass given as argument".to_owned());
        },
    };
    if !all_different(&verts) {
        return Err("syntax error, repeated vertex, or pass given as argument".to_owned());
    }
    let size = game.board().size();
    proof {
        crate::game::record::lemma_place_each_errors(
            game.spec_board()@,
            size as int,
            Player::Black,
            verts@,
        );
    }
    match game.set_free_handicap(&verts) {
        Ok(()) => Ok(None),
        Err(Error::HandicapTooSmall) => Err("a handicap must be at least two stones".to_owned()),
        Err(Error::HandicapTooLarge) => {
            assert(1 <= size * size <= 361) by (nonlinear_arith)
                requires
                    1 <= size <= 19,
            ;
            let mut text = "The number of handicaps requested must less than ".to_owned();
            let digits = decimal_digits((size * size - 1) as u64);
            push_chars(&mut text, &digits);
            Err(text)
        },
        Err(Error::BoardNotEmpty) => Err("board not empty".to_owned()),
        Err(_) => Err("vertex is not on the board".to_owned()),
    }
}

/// A whole number as text, with a minus sign where it is below zero.
pub open spec fn signed_text(n: int) -> Seq<char> {
    if n < 0 {
        seq!['-'] + decimal((-n) as nat)
    } else {
        decimal(n as nat)
    }
}

/// `dlc-game_value`: replies with the number of legal moves of Black less
/// the number of legal moves of White.
pub fn gtp_game_value(game: &Game) -> (r: CommandResult)
    requires
        game.wf(),
    ensures
        exists|black: Seq<Vertex>, white: Seq<Vertex>|
            #![trigger game.legal_list(Player::Black, black), game.legal_list(Player::White, white)]
            game.legal_list(Player::Black, black) && game.legal_list(Player::White, white)
                && replies(r, Ok(Some(signed_text(black.len() - white.len())))),
{
    let value = game.value();
    let mut text = String::new();
    let size: u64 = if value < 0 {
        push_char(&mut text, '-');
        (-(value as i64)) as u64
    } else {
        value as u64
    };
    let digits = decimal_digits(size);
    push_chars(&mut text, &digits);
    assert(text@ =~= signed_text(value as int));
    Ok(Some(text))
}

} // verus!
