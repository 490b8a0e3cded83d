use libgo::game::board::State;
use libgo::game::player::Player;
use libgo::game::vertex::Vertex;
use libgo::game::{Game, Handicap};
use libgo::gtp::engine::{
    gtp_boardsize, gtp_game_value, gtp_genmove, gtp_place_handicap, gtp_play,
    gtp_set_free_handicap, gtp_showboard, gtp_undo, parse_color,
};

fn args(words: &[&str]) -> Vec<String> {
    words.iter().map(|word| word.to_string()).collect()
}

fn fails(message: &str) -> Result<Option<String>, String> {
    Err(message.to_string())
}

fn says(reply: &str) -> Result<Option<String>, String> {
    Ok(Some(reply.to_string()))
}

#[test]
fn colours() {
    assert_eq!(parse_color("b"), Ok(Player::Black));
    assert_eq!(parse_color("B"), Ok(Player::Black));
    assert_eq!(parse_color("Black"), Ok(Player::Black));
    assert_eq!(parse_color("w"), Ok(Player::White));
    assert_eq!(parse_color("WHITE"), Ok(Player::White));
    assert_eq!(parse_color("x"), Err("invalid color: x".to_string()));
    assert_eq!(parse_color("Blue"), Err("invalid color: Blue".to_string()));
    assert_eq!(parse_color(""), Err("invalid color: ".to_string()));
}

#[test]
fn boardsize_starts_a_new_game() {
    let mut game = Game::new();
    assert_eq!(gtp_play(&args(&["b", "d4"]), &mut game), Ok(None));
    assert_eq!(gtp_boardsize(&args(&[]), &mut game), fails("boardsize not given"));
    assert_eq!(gtp_boardsize(&args(&["nine"]), &mut game), fails("boardsize not a u32"));
    assert_eq!(gtp_boardsize(&args(&["-9"]), &mut game), fails("boardsize not a u32"));
    assert_eq!(gtp_boardsize(&args(&["0"]), &mut game), fails("unacceptable size"));
    assert_eq!(gtp_boardsize(&args(&["20"]), &mut game), fails("unacceptable size"));
    assert_eq!(game.board().size(), 19);
    assert_eq!(game.history().len(), 1);
    assert_eq!(gtp_boardsize(&args(&["9"]), &mut game), Ok(None));
    assert_eq!(game.board().size(), 9);
    assert_eq!(game.history().len(), 0);
    assert!(game.board().is_empty());
}

#[test]
fn play_reads_a_move() {
    let mut game = Game::with_board_size(9).unwrap();
    assert_eq!(
        gtp_play(&args(&["b"]), &mut game),
        fails("too few arguments, expected: <color> <vertex>")
    );
    assert_eq!(gtp_play(&args(&["red", "d4"]), &mut game), fails("invalid color: red"));
    assert_eq!(gtp_play(&args(&["b", "d"]), &mut game), fails("string too short to be a vertex"));
    assert_eq!(gtp_play(&args(&["b", "i4"]), &mut game), fails("invalid coordinate letter 'I'"));
    assert_eq!(gtp_play(&args(&["b", "dd"]), &mut game), fails("number is not a u32"));
    assert_eq!(gtp_play(&args(&["b", "d0"]), &mut game), fails("number must be greater than zero"));
    assert_eq!(gtp_play(&args(&["b", "k1"]), &mut game), fails("illegal move"));
    assert_eq!(gtp_play(&args(&["b", "a10"]), &mut game), fails("illegal move"));
    assert_eq!(game.history().len(), 0);
    assert_eq!(gtp_play(&args(&["b", "d4"]), &mut game), Ok(None));
    assert_eq!(game.board().get(Vertex { x: 3, y: 3 }), Some(State::Black));
    assert_eq!(gtp_play(&args(&["W", "D4"]), &mut game), fails("illegal move"));
    assert_eq!(gtp_play(&args(&["white", "Pass"]), &mut game), Ok(None));
    assert_eq!(gtp_play(&args(&["w", "J9", "more"]), &mut game), Ok(None));
    assert_eq!(game.board().get(Vertex { x: 8, y: 8 }), Some(State::White));
    assert_eq!(game.history().len(), 3);
}

#[test]
fn undo_and_showboard() {
    let mut game = Game::with_board_size(3).unwrap();
    assert_eq!(gtp_undo(&mut game), fails("cannot undo"));
    assert_eq!(gtp_play(&args(&["b", "b2"]), &mut game), Ok(None));
    assert_eq!(
        gtp_showboard(&game),
        says("\r\n   A B C   \r\n03 . . . 03\r\n02 . x . 02\r\n01 . . . 01\r\n   A B C   ")
    );
    assert_eq!(gtp_game_value(&game), says("0"));
    assert_eq!(gtp_undo(&mut game), Ok(None));
    assert!(game.board().is_empty());
}

#[test]
fn game_value_counts_the_legal_moves() {
    let mut game = Game::with_board_size(9).unwrap();
    for place in ["e4", "d5", "f5", "e6"] {
        assert_eq!(gtp_play(&args(&["w", place]), &mut game), Ok(None));
    }
    // Black may not play in the middle of the four white stones.
    assert_eq!(gtp_game_value(&game), says("-1"));
    let mut other = Game::with_board_size(9).unwrap();
    for place in ["e4", "d5", "f5", "e6"] {
        assert_eq!(gtp_play(&args(&["b", place]), &mut other), Ok(None));
    }
    assert_eq!(gtp_game_value(&other), says("1"));
}

#[test]
fn genmove_replies_with_the_move() {
    let mut game = Game::with_board_size(9).unwrap();
    assert_eq!(
        gtp_genmove(&args(&[]), &mut game),
        fails("too few arguments, expected: genmove <color>")
    );
    assert_eq!(gtp_genmove(&args(&["green"]), &mut game), fails("invalid color: green"));
    let reply = gtp_genmove(&args(&["b"]), &mut game).unwrap().unwrap();
    let vertex = Vertex::from_str(&reply).unwrap();
    assert_eq!(game.board().get(vertex), Some(State::Black));
    assert_eq!(game.history().len(), 1);
    let mut small = Game::with_board_size(1).unwrap();
    assert_eq!(gtp_genmove(&args(&["w"]), &mut small), says("pass"));
}

#[test]
fn handicap_commands() {
    let mut game = Game::new();
    assert_eq!(gtp_place_handicap(&args(&[]), &mut game, Handicap::Fixed), fails("syntax error"));
    assert_eq!(
        gtp_place_handicap(&args(&["two"]), &mut game, Handicap::Fixed),
        fails("number is not a u32")
    );
    assert_eq!(
        gtp_place_handicap(&args(&["1"]), &mut game, Handicap::Fixed),
        fails("a handicap must be at least two stones")
    );
    assert_eq!(
        gtp_place_handicap(&args(&["10"]), &mut game, Handicap::Fixed),
        fails("a board of size 19 may not have more than 9 fixed handicaps")
    );
    assert_eq!(
        gtp_place_handicap(&args(&["361"]), &mut game, Handicap::Free),
        fails("The number of handicaps requested must be less than 360")
    );
    assert!(game.board().is_empty());
    assert_eq!(gtp_place_handicap(&args(&["3"]), &mut game, Handicap::Fixed), says("D4 Q16 D16"));
    assert_eq!(game.board().score_ancient(), 3);
    assert_eq!(
        gtp_place_handicap(&args(&["2"]), &mut game, Handicap::Free),
        fails("board not empty")
    );
    let mut free = Game::with_board_size(9).unwrap();
    assert_eq!(
        gtp_place_handicap(&args(&["5"]), &mut free, Handicap::Free),
        says("C3 G7 C7 G3 E5")
    );
}

#[test]
fn set_free_handicap_reads_the_vertices() {
    let mut game = Game::with_board_size(9).unwrap();
    let syntax = "syntax error, repeated vertex, or pass given as argument";
    assert_eq!(gtp_set_free_handicap(&args(&["c3", "pass"]), &mut game), fails(syntax));
    assert_eq!(gtp_set_free_handicap(&args(&["c3", "C3"]), &mut game), fails(syntax));
    assert_eq!(
        gtp_set_free_handicap(&args(&["c3"]), &mut game),
        fails("a handicap must be at least two stones")
    );
    assert_eq!(
        gtp_set_free_handicap(&args(&[]), &mut game),
        fails("a handicap must be at least two stones")
    );
    assert_eq!(
        gtp_set_free_handicap(&args(&["c3", "k3"]), &mut game),
        fails("vertex is not on the board")
    );
    let all: Vec<String> = (0..81)
        .map(|i| Vertex { x: i % 9, y: i / 9 }.to_string())
        .collect();
    assert_eq!(
        gtp_set_free_handicap(&all, &mut game),
        fails("The number of handicaps requested must less than 80")
    );
    assert!(game.board().is_empty());
    assert_eq!(gtp_set_free_handicap(&args(&["c3", "g7", "e5"]), &mut game), Ok(None));
    assert_eq!(game.board().score_ancient(), 3);
    assert_eq!(gtp_set_free_handicap(&args(&["a1", "a2"]), &mut game), fails("board not empty"));
}
