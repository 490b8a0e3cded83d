use libgo::game::board::{Move, State};
use libgo::game::error::Error;
use libgo::game::player::Player;
use libgo::game::vertex::Vertex;
use libgo::game::{Game, Handicap};

fn at(x: usize, y: usize) -> Vertex {
    Vertex { x, y }
}

fn stone(player: Player, x: usize, y: usize) -> Move {
    Move { player, vertex: Some(at(x, y)) }
}

fn pass(player: Player) -> Move {
    Move { player, vertex: None }
}

#[test]
fn new_games() {
    let game = Game::new();
    assert_eq!(game.board().size(), 19);
    assert!(game.board().is_empty());
    assert!(!game.kgs_game_over);
    assert_eq!(game.history().len(), 0);
    assert_eq!(Game::with_board_size(0).err(), Some(Error::InvalidSize));
    assert_eq!(Game::with_board_size(20).err(), Some(Error::InvalidSize));
    assert_eq!(Game::with_board_size(9).unwrap().board().size(), 9);
}

#[test]
fn legal_moves_on_the_full_size_board() {
    let mut game = Game::new();
    assert_eq!(game.all_legal_moves(Player::Black).len(), 361);
    assert_eq!(game.all_legal_moves(Player::White).len(), 361);
    assert_eq!(game.value(), 0);
    assert_eq!(game.play(&stone(Player::Black, 3, 3)), Ok(()));
    assert_eq!(game.all_legal_moves(Player::White).len(), 360);
    assert_eq!(game.all_legal_moves(Player::Black).len(), 360);
    assert!(!game.all_legal_moves(Player::White).contains(&at(3, 3)));
    assert_eq!(game.all_legal_moves(Player::White)[0], at(0, 0));
    assert_eq!(game.all_legal_moves(Player::White)[1], at(1, 0));
}

#[test]
fn suicide_is_not_legal() {
    let mut game = Game::with_board_size(9).unwrap();
    for (x, y) in [(4, 3), (3, 4), (5, 4), (4, 5)] {
        assert_eq!(game.play(&stone(Player::Black, x, y)), Ok(()));
    }
    assert!(!game.is_legal_move(&stone(Player::White, 4, 4)));
    assert_eq!(game.play(&stone(Player::White, 4, 4)), Err(Error::IllegalMove));
    assert_eq!(game.history().len(), 4);
    assert_eq!(game.board().get(at(4, 4)), Some(State::Empty));
    assert!(game.is_legal_move(&stone(Player::Black, 4, 4)));
    assert_eq!(game.all_legal_moves(Player::White).len(), 76);
    assert_eq!(game.all_legal_moves(Player::Black).len(), 77);
    assert_eq!(game.value(), 1);
}

#[test]
fn a_move_on_a_stone_or_off_the_board_is_not_legal() {
    let mut game = Game::with_board_size(9).unwrap();
    assert_eq!(game.play(&stone(Player::Black, 2, 2)), Ok(()));
    assert_eq!(game.play(&stone(Player::White, 2, 2)), Err(Error::IllegalMove));
    assert_eq!(game.play(&stone(Player::White, 9, 2)), Err(Error::IllegalMove));
    assert_eq!(game.play(&stone(Player::White, 2, 9)), Err(Error::IllegalMove));
    assert!(game.is_legal_move(&pass(Player::White)));
}

#[test]
fn a_position_may_not_come_again() {
    let mut game = Game::with_board_size(5).unwrap();
    for (player, x, y) in [
        (Player::Black, 0, 1),
        (Player::White, 3, 1),
        (Player::Black, 1, 0),
        (Player::White, 2, 0),
        (Player::Black, 1, 2),
        (Player::White, 2, 2),
        (Player::White, 1, 1),
    ] {
        assert_eq!(game.play(&stone(player, x, y)), Ok(()));
    }
    let before_capture = game.board().to_ascii();
    // Black takes the stone at (1, 1).
    assert_eq!(game.play(&stone(Player::Black, 2, 1)), Ok(()));
    assert_eq!(game.board().get(at(1, 1)), Some(State::Empty));
    assert!(game.board().to_ascii() != before_capture);
    // White may not take back at once: the board would be as it was before the capture.
    assert!(!game.is_legal_move(&stone(Player::White, 1, 1)));
    assert_eq!(game.play(&stone(Player::White, 1, 1)), Err(Error::IllegalMove));
    assert_eq!(game.board().get(at(2, 1)), Some(State::Black));
    // Nor later, after moves elsewhere: every earlier position counts.
    assert_eq!(game.play(&stone(Player::White, 4, 4)), Ok(()));
    assert_eq!(game.play(&stone(Player::Black, 4, 3)), Ok(()));
    assert_eq!(game.play(&stone(Player::Black, 3, 4)), Ok(()));
    assert_eq!(game.board().get(at(4, 4)), Some(State::Empty));
    assert_eq!(game.play(&stone(Player::White, 0, 4)), Ok(()));
    assert_eq!(game.play(&stone(Player::White, 1, 1)), Ok(()));
}

#[test]
fn undo_gives_back_the_board() {
    let mut game = Game::with_board_size(9).unwrap();
    assert_eq!(game.undo(), Err(Error::NothingToUndo));
    assert_eq!(game.play(&stone(Player::Black, 1, 0)), Ok(()));
    assert_eq!(game.play(&stone(Player::White, 0, 0)), Ok(()));
    let before = game.board().clone();
    let text = game.board().to_ascii();
    // A capture, then a pass.
    assert_eq!(game.play(&stone(Player::Black, 0, 1)), Ok(()));
    assert!(!game.board().same(&before));
    assert_eq!(game.play(&pass(Player::White)), Ok(()));
    assert_eq!(game.history().len(), 4);
    assert_eq!(game.undo(), Ok(()));
    assert!(!game.board().same(&before));
    assert_eq!(game.history().len(), 3);
    assert_eq!(game.undo(), Ok(()));
    assert!(game.board().same(&before));
    assert_eq!(game.board().to_ascii(), text);
    assert_eq!(game.board().get(at(0, 0)), Some(State::White));
    assert_eq!(game.history().len(), 2);
    assert_eq!(game.undo(), Ok(()));
    assert_eq!(game.undo(), Ok(()));
    assert!(game.board().is_empty());
    assert_eq!(game.undo(), Err(Error::NothingToUndo));
    // The position that was undone may be played again.
    assert_eq!(game.play(&stone(Player::Black, 1, 0)), Ok(()));
}

#[test]
fn turns_and_the_end_of_the_game() {
    let mut game = Game::with_board_size(9).unwrap();
    assert_eq!(game.player_turn(), Player::Black);
    assert!(!game.is_over());
    assert_eq!(game.play(&stone(Player::Black, 2, 2)), Ok(()));
    assert_eq!(game.player_turn(), Player::White);
    assert_eq!(game.play(&pass(Player::White)), Ok(()));
    assert_eq!(game.player_turn(), Player::Black);
    assert!(!game.is_over());
    assert_eq!(game.play(&pass(Player::Black)), Ok(()));
    assert!(game.is_over());
    assert_eq!(game.undo(), Ok(()));
    assert!(!game.is_over());
    game.clear_board();
    assert!(game.board().is_empty());
    assert_eq!(game.history().len(), 0);
    assert_eq!(game.undo(), Err(Error::NothingToUndo));
    let mut one = Game::with_board_size(9).unwrap();
    assert_eq!(one.play(&pass(Player::Black)), Ok(()));
    assert!(!one.is_over());
}

#[test]
fn a_game_of_more_than_512_moves_is_over() {
    // Black passes and White places a stone, so that no two passes follow each other.
    let mut game = Game::new();
    for turn in 0..513 {
        assert_eq!(game.history().len(), turn);
        assert!(!game.is_over());
        if turn % 2 == 0 {
            assert_eq!(game.play(&pass(Player::Black)), Ok(()));
        } else {
            let point = turn / 2;
            assert_eq!(game.play(&stone(Player::White, point % 19, point / 19)), Ok(()));
        }
    }
    assert_eq!(game.history().len(), 513);
    assert!(game.is_over());
    assert_eq!(game.undo(), Ok(()));
    assert!(!game.is_over());
}

#[test]
fn fixed_handicap() {
    let mut game = Game::new();
    assert_eq!(game.place_handicap(1, Handicap::Fixed), Err(Error::HandicapTooSmall));
    assert_eq!(game.place_handicap(10, Handicap::Fixed), Err(Error::HandicapTooLarge));
    assert!(game.board().is_empty());
    assert_eq!(
        game.place_handicap(3, Handicap::Fixed),
        Ok(vec![at(3, 3), at(15, 15), at(3, 15)])
    );
    assert_eq!(game.board().get(at(3, 3)), Some(State::Black));
    assert_eq!(game.board().get(at(15, 15)), Some(State::Black));
    assert_eq!(game.board().get(at(3, 15)), Some(State::Black));
    assert_eq!(game.board().score_ancient(), 3);
    assert_eq!(game.player_turn(), Player::White);
    assert_eq!(game.history().len(), 0);
    assert_eq!(game.place_handicap(2, Handicap::Fixed), Err(Error::BoardNotEmpty));
    assert_eq!(game.board().score_ancient(), 3);
}

#[test]
fn free_handicap() {
    let mut game = Game::with_board_size(9).unwrap();
    assert_eq!(game.place_handicap(81, Handicap::Free), Err(Error::HandicapTooLarge));
    assert_eq!(game.place_handicap(0, Handicap::Free), Err(Error::HandicapTooSmall));
    let placed = game.place_handicap(80, Handicap::Free).unwrap();
    assert_eq!(placed.len(), 9);
    assert_eq!(placed[8], at(4, 4));
    assert_eq!(game.board().score_ancient(), 9);
    let mut small = Game::with_board_size(1).unwrap();
    assert_eq!(small.place_handicap(2, Handicap::Free), Err(Error::HandicapTooLarge));
    assert_eq!(small.place_handicap(2, Handicap::Fixed), Err(Error::HandicapTooLarge));
}

#[test]
fn set_free_handicap_places_the_stones() {
    let mut game = Game::with_board_size(9).unwrap();
    assert_eq!(game.set_free_handicap(&vec![at(1, 1)]), Err(Error::HandicapTooSmall));
    assert_eq!(game.set_free_handicap(&vec![at(0, 0); 81]), Err(Error::HandicapTooLarge));
    assert_eq!(game.set_free_handicap(&vec![at(1, 1), at(9, 1)]), Err(Error::OutOfBounds));
    assert!(game.board().is_empty());
    assert_eq!(game.set_free_handicap(&vec![at(1, 1), at(2, 2), at(1, 1)]), Err(Error::Occupied));
    assert!(game.board().is_empty());
    assert_eq!(game.set_free_handicap(&vec![at(1, 1), at(2, 2), at(7, 0)]), Ok(()));
    assert_eq!(game.board().score_ancient(), 3);
    assert_eq!(game.board().get(at(7, 0)), Some(State::Black));
    assert_eq!(game.player_turn(), Player::White);
    assert_eq!(game.set_free_handicap(&vec![at(3, 3), at(4, 4)]), Err(Error::BoardNotEmpty));
    assert_eq!(game.board().score_ancient(), 3);
}

#[test]
fn a_random_move_is_a_legal_move() {
    let mut game = Game::with_board_size(5).unwrap();
    let mut player = Player::Black;
    for turn in 0..60 {
        let legal = game.all_legal_moves(player);
        let before = game.board().clone();
        let mov = game.genmove_random(player);
        assert_eq!(mov.player, player);
        match mov.vertex {
            Some(vertex) => {
                assert!(legal.contains(&vertex));
                assert_eq!(before.get(vertex), Some(State::Empty));
                assert_eq!(game.board().get(vertex), Some(State::from(player)));
            },
            None => {
                assert!(legal.is_empty());
                assert!(game.board().same(&before));
            },
        }
        assert_eq!(game.history().len(), turn + 1);
        assert_eq!(game.history()[turn], mov);
        player = player.enemy();
    }
}

#[test]
fn try_candidate_plays_or_drops() {
    let mut game = Game::with_board_size(3).unwrap();
    assert_eq!(game.play(&stone(Player::Black, 1, 1)), Ok(()));
    let mut candidates = vec![at(0, 0), at(1, 1), at(2, 2)];
    assert_eq!(game.try_candidate(Player::White, &mut candidates, 1), None);
    assert_eq!(candidates, vec![at(0, 0), at(2, 2)]);
    assert_eq!(game.history().len(), 1);
    assert_eq!(
        game.try_candidate(Player::White, &mut candidates, 1),
        Some(stone(Player::White, 2, 2))
    );
    assert_eq!(candidates, vec![at(0, 0), at(2, 2)]);
    assert_eq!(game.board().get(at(2, 2)), Some(State::White));
    assert_eq!(game.history().len(), 2);
}

#[test]
fn genmove_passes_where_no_stone_can_be_placed() {
    let mut game = Game::with_board_size(1).unwrap();
    let mov = game.genmove_random(Player::Black);
    assert_eq!(mov, pass(Player::Black));
    assert_eq!(game.history().len(), 1);
    let mov = game.genmove_random(Player::White);
    assert_eq!(mov, pass(Player::White));
    assert!(game.is_over());
}

#[test]
fn a_copy_of_a_game_goes_its_own_way() {
    let mut game = Game::with_board_size(9).unwrap();
    assert_eq!(game.play(&stone(Player::Black, 1, 0)), Ok(()));
    assert_eq!(game.play(&stone(Player::White, 0, 0)), Ok(()));
    let mut copy = game.clone();
    assert!(copy.board() == game.board());
    assert_eq!(copy.history(), game.history());
    assert_eq!(copy.play(&stone(Player::Black, 0, 1)), Ok(()));
    assert_eq!(copy.board().get(at(0, 0)), Some(State::Empty));
    assert_eq!(game.board().get(at(0, 0)), Some(State::White));
    assert_eq!(game.history().len(), 2);
    assert_eq!(copy.undo(), Ok(()));
    assert!(copy.board() == game.board());
    assert_eq!(Game::default().board().size(), 19);
}
