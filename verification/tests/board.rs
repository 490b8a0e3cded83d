use libgo::game::board::{Board, Move, State};
use libgo::game::error::Error;
use libgo::game::player::Player;
use libgo::game::vertex::Vertex;
use libgo::game::web::WEB;

fn at(x: usize, y: usize) -> Vertex {
    Vertex { x, y }
}

#[test]
fn board_sizes() {
    assert!(Board::with_size(1).is_ok());
    assert!(Board::with_size(19).is_ok());
    assert_eq!(Board::with_size(0).err(), Some(Error::InvalidSize));
    assert_eq!(Board::with_size(20).err(), Some(Error::InvalidSize));
    let board = Board::with_size(13).unwrap();
    assert_eq!(board.size(), 13);
    assert!(board.is_empty());
    assert_eq!(board.empty_verts().len(), 169);
}

#[test]
fn a_stone_without_liberties_is_captured() {
    // Black, then White next to it in the corner, then Black on White's last liberty.
    let mut board = Board::with_size(9).unwrap();
    assert_eq!(board.place_stone(Player::Black, at(1, 0)), Ok(()));
    assert_eq!(board.place_stone(Player::White, at(0, 0)), Ok(()));
    assert_eq!(board.get(at(0, 0)), Some(State::White));
    assert_eq!(board.place_stone(Player::Black, at(0, 1)), Ok(()));
    assert_eq!(board.get(at(0, 0)), Some(State::Empty));
    assert!(board.is_vacant(at(0, 0)));
    assert_eq!(board.get(at(1, 0)), Some(State::Black));
    assert_eq!(board.get(at(0, 1)), Some(State::Black));
    assert_eq!(board.empty_verts().len(), 79);
    assert_eq!(board.score_ancient(), 2);
}

#[test]
fn a_stone_placed_without_liberties_is_taken_off() {
    let mut board = Board::with_size(9).unwrap();
    for vertex in [at(4, 3), at(3, 4), at(5, 4), at(4, 5)] {
        assert_eq!(board.place_stone(Player::Black, vertex), Ok(()));
    }
    // White in the middle captures nothing, and has no liberty.
    assert_eq!(board.place_stone(Player::White, at(4, 4)), Ok(()));
    assert_eq!(board.get(at(4, 4)), Some(State::Empty));
    for vertex in [at(4, 3), at(3, 4), at(5, 4), at(4, 5)] {
        assert_eq!(board.get(vertex), Some(State::Black));
    }
    assert_eq!(board.score_ancient(), 4);
}

#[test]
fn captures_come_before_suicide() {
    // White at the corner has one liberty, where Black plays: Black's stone has no liberty
    // until White is taken off.
    let mut board = Board::with_size(5).unwrap();
    assert_eq!(board.place_stone(Player::White, at(1, 0)), Ok(()));
    assert_eq!(board.place_stone(Player::White, at(0, 1)), Ok(()));
    assert_eq!(board.place_stone(Player::Black, at(2, 0)), Ok(()));
    assert_eq!(board.place_stone(Player::Black, at(1, 1)), Ok(()));
    assert_eq!(board.place_stone(Player::Black, at(0, 2)), Ok(()));
    assert_eq!(board.place_stone(Player::Black, at(0, 0)), Ok(()));
    assert_eq!(board.get(at(0, 0)), Some(State::Black));
    assert_eq!(board.get(at(1, 0)), Some(State::Empty));
    assert_eq!(board.get(at(0, 1)), Some(State::Empty));
    assert_eq!(board.score_ancient(), 4);
}

#[test]
fn a_group_is_captured_whole() {
    let mut board = Board::with_size(5).unwrap();
    for vertex in [at(0, 0), at(1, 0)] {
        assert_eq!(board.place_stone(Player::White, vertex), Ok(()));
    }
    for vertex in [at(2, 0), at(0, 1), at(1, 1)] {
        assert_eq!(board.place_stone(Player::Black, vertex), Ok(()));
    }
    assert!(board.is_vacant(at(0, 0)));
    assert!(board.is_vacant(at(1, 0)));
    assert_eq!(board.score_ancient(), 3);
    assert_eq!(board.empty_verts().len(), 22);
}

#[test]
fn place_stone_turns_down_what_it_cannot_place() {
    let mut board = Board::with_size(9).unwrap();
    assert_eq!(board.place_stone(Player::Black, at(9, 0)), Err(Error::OutOfBounds));
    assert_eq!(board.place_stone(Player::Black, at(0, 9)), Err(Error::OutOfBounds));
    assert_eq!(board.place_stone(Player::Black, at(3, 3)), Ok(()));
    assert_eq!(board.place_stone(Player::White, at(3, 3)), Err(Error::Occupied));
    assert_eq!(board.place_stone(Player::Black, at(3, 3)), Err(Error::Occupied));
    assert_eq!(board.get(at(3, 3)), Some(State::Black));
    assert_eq!(board.get(at(9, 9)), None);
    assert!(!board.is_vacant(at(9, 9)));
    assert!(!board.is_vacant(at(3, 3)));
}

#[test]
fn one_point_board() {
    let mut board = Board::with_size(1).unwrap();
    assert_eq!(board.place_stone(Player::Black, at(0, 0)), Ok(()));
    assert!(board.is_empty());
    assert_eq!(board.to_ascii(), "   A   \r\n01 . 01\r\n   A   ");
}

#[test]
fn star_points_by_size() {
    assert_eq!(Board::with_size(6).unwrap().star_points(), Vec::<Vertex>::new());
    assert_eq!(Board::with_size(7).unwrap().star_points(), vec![at(2, 2), at(4, 4), at(2, 4), at(4, 2)]);
    assert_eq!(Board::with_size(8).unwrap().star_points(), vec![at(2, 2), at(5, 5), at(2, 5), at(5, 2)]);
    assert_eq!(
        Board::with_size(9).unwrap().star_points(),
        vec![at(2, 2), at(6, 6), at(2, 6), at(6, 2), at(2, 4), at(6, 4), at(4, 2), at(4, 6)]
    );
    assert_eq!(
        Board::with_size(19).unwrap().star_points(),
        vec![at(3, 3), at(15, 15), at(3, 15), at(15, 3), at(3, 9), at(15, 9), at(9, 3), at(9, 15)]
    );
    assert_eq!(Board::with_size(19).unwrap().center_point(), Some(at(9, 9)));
    assert_eq!(Board::with_size(18).unwrap().center_point(), None);
    assert_eq!(Board::with_size(1).unwrap().center_point(), Some(at(0, 0)));
}

#[test]
fn fixed_handicaps_by_number() {
    let board = Board::with_size(19).unwrap();
    assert_eq!(board.fixed_handicaps(2), vec![at(3, 3), at(15, 15)]);
    assert_eq!(board.fixed_handicaps(4), vec![at(3, 3), at(15, 15), at(3, 15), at(15, 3)]);
    assert_eq!(
        board.fixed_handicaps(5),
        vec![at(3, 3), at(15, 15), at(3, 15), at(15, 3), at(9, 9)]
    );
    assert_eq!(board.fixed_handicaps(6).len(), 6);
    assert_eq!(board.fixed_handicaps(7).last(), Some(&at(9, 9)));
    assert_eq!(board.fixed_handicaps(8).len(), 8);
    assert_eq!(board.fixed_handicaps(8).last(), Some(&at(9, 15)));
    assert_eq!(board.fixed_handicaps(9).len(), 9);
    assert_eq!(board.fixed_handicaps(9).last(), Some(&at(9, 9)));
    assert_eq!(board.fixed_handicaps(30).len(), 9);
    assert_eq!(board.fixed_handicaps(0), Vec::<Vertex>::new());
    let small = Board::with_size(7).unwrap();
    assert_eq!(small.fixed_handicaps(5), vec![at(2, 2), at(4, 4), at(2, 4), at(4, 2)]);
    let even = Board::with_size(8).unwrap();
    assert_eq!(even.fixed_handicaps(5), vec![at(2, 2), at(5, 5), at(2, 5), at(5, 2)]);
    assert_eq!(even.fixed_handicaps(3), vec![at(2, 2), at(5, 5), at(2, 5)]);
}

#[test]
fn to_ascii_shows_the_stones() {
    let mut board = Board::with_size(3).unwrap();
    assert_eq!(board.place_stone(Player::Black, at(0, 0)), Ok(()));
    assert_eq!(board.place_stone(Player::White, at(1, 1)), Ok(()));
    assert_eq!(
        board.to_ascii(),
        "   A B C   \r\n03 . . . 03\r\n02 . o . 02\r\n01 x . . 01\r\n   A B C   "
    );
}

#[test]
fn to_ascii_marks_the_star_points() {
    let mut board = Board::with_size(9).unwrap();
    assert_eq!(board.place_stone(Player::Black, at(2, 2)), Ok(()));
    let text = board.to_ascii();
    let lines: Vec<&str> = text.split("\r\n").collect();
    assert_eq!(lines.len(), 11);
    assert_eq!(lines[0], "   A B C D E F G H J   ");
    assert_eq!(lines[10], "   A B C D E F G H J   ");
    assert_eq!(lines[1], "09 . . . . . . . . . 09");
    assert_eq!(lines[3], "07 . . + . + . + . . 07");
    assert_eq!(lines[5], "05 . . + . . . + . . 05");
    assert_eq!(lines[7], "03 . . x . + . + . . 03");
    assert_eq!(lines[9], "01 . . . . . . . . . 01");
}

#[test]
fn to_ascii_of_the_largest_board() {
    let board = Board::with_size(19).unwrap();
    let text = board.to_ascii();
    let lines: Vec<&str> = text.split("\r\n").collect();
    assert_eq!(lines.len(), 21);
    assert_eq!(lines[0], "   A B C D E F G H J K L M N O P Q R S T   ");
    assert_eq!(lines[1], "19 . . . . . . . . . . . . . . . . . . . 19");
    assert_eq!(lines[10], "10 . . . + . . . . . . . . . . . + . . . 10");
    assert_eq!(lines[16], "04 . . . + . . . . . + . . . . . + . . . 04");
    assert_eq!(lines[19], "01 . . . . . . . . . . . . . . . . . . . 01");
}

/// Reads the stones back from the text of a board.
fn read_back(text: &str, size: usize) -> Vec<State> {
    let chars: Vec<char> = text.chars().collect();
    let mut cells = Vec::new();
    for y in 0..size {
        for x in 0..size {
            let c = chars[(2 * size + 7) * (size - y) + 3 + 2 * x];
            cells.push(match c {
                'x' => State::Black,
                'o' => State::White,
                _ => State::Empty,
            });
        }
    }
    cells
}

#[test]
fn the_text_of_a_board_reads_back() {
    let mut board = Board::with_size(9).unwrap();
    let stones = [(2, 2), (3, 2), (2, 3), (6, 6), (8, 8), (0, 8), (4, 4), (5, 4)];
    let mut player = Player::Black;
    for (x, y) in stones {
        assert_eq!(board.place_stone(player, at(x, y)), Ok(()));
        player = player.enemy();
    }
    let cells = read_back(&board.to_ascii(), 9);
    for y in 0..9 {
        for x in 0..9 {
            assert_eq!(Some(cells[y * 9 + x]), board.get(at(x, y)));
        }
    }
    assert_eq!(cells.iter().filter(|&&state| state == State::Black).count(), 4);
    assert_eq!(cells.iter().filter(|&&state| state == State::White).count(), 4);
}

#[test]
fn clear_and_copies() {
    let mut board = Board::with_size(9).unwrap();
    assert_eq!(board.place_stone(Player::Black, at(2, 2)), Ok(()));
    let copy = board.clone();
    assert!(copy.same(&board));
    assert_eq!(board.place_stone(Player::White, at(3, 3)), Ok(()));
    assert!(!copy.same(&board));
    assert_eq!(copy.get(at(3, 3)), Some(State::Empty));
    board.clear();
    assert!(board.is_empty());
    assert_eq!(board.size(), 9);
    assert!(!board.same(&Board::with_size(5).unwrap()));
    assert!(board.same(&Board::with_size(9).unwrap()));
}

#[test]
fn every_stone_left_has_a_liberty() {
    // A game of many captures: after each move, no stone is without an empty point next to
    // its group.
    let mut board = Board::with_size(5).unwrap();
    let mut player = Player::Black;
    let mut seed: usize = 12345;
    for _ in 0..400 {
        seed = (seed * 1103515245 + 12345) % 2147483648;
        let vertex = at((seed / 7) % 5, (seed / 41) % 5);
        if board.place_stone(player, vertex).is_ok() {
            player = player.enemy();
        }
        for start in 0..25 {
            let from = at(start % 5, start / 5);
            let colour = board.get(from).unwrap();
            if colour == State::Empty {
                continue;
            }
            let mut group = vec![from];
            let mut free = false;
            let mut next = 0;
            while next < group.len() {
                let v = group[next];
                next += 1;
                let mut around = Vec::new();
                if v.x > 0 {
                    around.push(at(v.x - 1, v.y));
                }
                if v.y > 0 {
                    around.push(at(v.x, v.y - 1));
                }
                if v.x < 4 {
                    around.push(at(v.x + 1, v.y));
                }
                if v.y < 4 {
                    around.push(at(v.x, v.y + 1));
                }
                for w in around {
                    let state = board.get(w).unwrap();
                    if state == State::Empty {
                        free = true;
                    } else if state == colour && !group.contains(&w) {
                        group.push(w);
                    }
                }
            }
            assert!(free);
        }
    }
}

#[test]
fn moves_and_players() {
    let mov = Move { player: Player::Black, vertex: Some(at(3, 3)) };
    assert_eq!(mov, Move { player: Player::White.enemy(), vertex: Some(at(3, 3)) });
    assert_eq!(Player::Black.enemy(), Player::White);
    assert_eq!(Player::Black.to_string(), "black");
    assert_eq!(Player::White.to_string(), "white");
    assert_eq!(State::from(Player::Black), State::Black);
    assert_eq!(State::from(Player::White), State::White);
    assert_eq!(State::default(), State::Empty);
}

#[test]
fn boards_are_equal_by_their_stones() {
    let mut board = Board::with_size(9).unwrap();
    let mut other = Board::with_size(9).unwrap();
    assert!(board == other);
    // The same stones, placed in another order.
    assert_eq!(board.place_stone(Player::Black, at(2, 2)), Ok(()));
    assert_eq!(board.place_stone(Player::White, at(3, 3)), Ok(()));
    assert!(board != other);
    assert_eq!(other.place_stone(Player::White, at(3, 3)), Ok(()));
    assert_eq!(other.place_stone(Player::Black, at(2, 2)), Ok(()));
    assert!(board == other);
    assert!(board.graph() == other.graph());
    assert!(Board::with_size(9).unwrap() != Board::with_size(13).unwrap());
}

#[test]
fn the_regions_of_a_board_divide_its_points() {
    let mut board = Board::with_size(5).unwrap();
    let mut player = Player::Black;
    let mut seed: usize = 99;
    for _ in 0..200 {
        seed = (seed * 1103515245 + 12345) % 2147483648;
        if board.place_stone(player, at((seed / 7) % 5, (seed / 41) % 5)).is_ok() {
            player = player.enemy();
        }
        let mut seen = vec![0; 25];
        for state in [State::Empty, State::Black, State::White] {
            for region in board.graph().regions(state) {
                for node in region.nodes() {
                    seen[node.0] += 1;
                    assert_eq!(board.get(at(node.0 % 5, node.0 / 5)), Some(state));
                }
                if state != State::Empty {
                    // A region of stones has a liberty.
                    assert!(region
                        .adjacencies()
                        .iter()
                        .any(|node| board.get(at(node.0 % 5, node.0 / 5)) == Some(State::Empty)));
                }
            }
        }
        assert_eq!(seen, vec![1; 25]);
    }
}

#[test]
fn the_states_by_their_letters() {
    assert_eq!(WEB::default(), WEB::Empty);
    assert_eq!(WEB::from(Player::White), WEB::White);
    assert_eq!(WEB::from(Player::Black), State::Black);
}
