use tttlib::fixed::{exploitation_fixed, exploration_fixed, isqrt_fixed, ln_fixed, log2_fixed, ucb1_fixed};
use tttlib::tictactoe::{new_board, GameState, Outcome, Player};

fn board_of(cells: &str) -> Vec<Player> {
    cells
        .chars()
        .map(|c| match c {
            'x' => Player::Human,
            'o' => Player::Computer,
            _ => Player::Nobody,
        })
        .collect()
}

#[test]
fn empty_board_and_default_state() {
    assert_eq!(new_board(), vec![Player::Nobody; 9]);
    let gs = GameState::default();
    assert_eq!(gs.player, Player::Human);
    assert_eq!(gs.board, vec![Player::Nobody; 9]);
}

#[test]
fn legal_moves_lists_empty_cells() {
    let gs = GameState { player: Player::Human, board: board_of("xo.x.o...") };
    assert_eq!(gs.legal_moves(), vec![2, 4, 6, 7, 8]);
    assert_eq!(GameState::default().legal_moves(), (0..9).collect::<Vec<usize>>());
}

#[test]
fn legal_move_check() {
    let gs = GameState { player: Player::Human, board: board_of("xo.......") };
    assert_eq!(gs.is_legal_move(Some(2)), Some(2));
    assert_eq!(gs.is_legal_move(Some(0)), None);
    assert_eq!(gs.is_legal_move(Some(1)), None);
    assert_eq!(gs.is_legal_move(None), None);
}

#[test]
fn terminal_lines() {
    for cells in ["xxx......", "...ooo...", "......xxx", "x..x..x..", ".o..o..o.", "..x..x..x", "x...x...x", "..o.o.o.."] {
        let gs = GameState { player: Player::Human, board: board_of(cells) };
        assert!(gs.is_terminal(), "{}", cells);
    }
    for cells in [".........", "xxo......", "xoxxoooxx", "x...o...x"] {
        let gs = GameState { player: Player::Human, board: board_of(cells) };
        assert!(!gs.is_terminal(), "{}", cells);
    }
}

#[test]
fn simulated_step_passes_the_turn() {
    let mut gs = GameState::default();
    assert_eq!(gs.exec_mcts_move(Some(4)), None);
    assert_eq!(gs.board, board_of("....x...."));
    assert_eq!(gs.player, Player::Computer);
}

#[test]
fn simulated_step_reports_winner() {
    let mut gs = GameState { player: Player::Human, board: board_of("xx.oo....") };
    assert_eq!(gs.exec_mcts_move(Some(2)), Some(-1));
    assert_eq!(gs.player, Player::Human);
    let mut gs = GameState { player: Player::Computer, board: board_of("xx.oo.x..") };
    assert_eq!(gs.exec_mcts_move(Some(5)), Some(1));
    assert_eq!(gs.board, board_of("xx.ooox.."));
}

#[test]
fn simulated_step_rewards_the_owner_of_the_line() {
    let mut gs = GameState { player: Player::Computer, board: board_of("xxxo.....") };
    assert_eq!(gs.exec_mcts_move(Some(4)), Some(-1));
    let mut gs = GameState { player: Player::Computer, board: board_of("xxxo.....") };
    assert_eq!(gs.exec_move(Some(4)), Outcome::Won(Player::Human));
    assert_eq!(gs.winner(), Player::Human);
    assert_eq!(GameState::default().winner(), Player::Nobody);
}

#[test]
fn simulated_step_on_full_board_is_a_draw() {
    let mut gs = GameState { player: Player::Human, board: board_of("xoxxoooxx") };
    assert_eq!(gs.exec_mcts_move(None), Some(0));
    assert_eq!(gs.board, board_of("xoxxoooxx"));
    assert_eq!(gs.exec_mcts_move(Some(42)), Some(0));
    assert_eq!(gs.board, board_of("xoxxoooxx"));
}

#[test]
fn interactive_move_outcomes() {
    let mut gs = GameState::default();
    assert_eq!(gs.exec_move(Some(0)), Outcome::Continue);
    assert_eq!(gs.player, Player::Computer);
    assert_eq!(gs.exec_move(None), Outcome::GameOver);
    assert_eq!(gs.player, Player::Computer);
    let mut gs = GameState { player: Player::Computer, board: board_of("xx.oo.x..") };
    assert_eq!(gs.exec_move(Some(5)), Outcome::Won(Player::Computer));
    assert_eq!(gs.board, board_of("xx.ooox.."));
}

#[test]
fn random_move_is_an_empty_cell() {
    let gs = GameState { player: Player::Human, board: board_of("xoxxoo.xx") };
    assert_eq!(gs.get_rng_move(), Some(6));
    let gs = GameState { player: Player::Human, board: board_of("xo.x.o...") };
    for _ in 0..50 {
        let m = gs.get_rng_move().unwrap();
        assert!(gs.legal_moves().contains(&m));
    }
    let full = GameState { player: Player::Human, board: board_of("xoxxoooxx") };
    assert_eq!(full.get_rng_move(), None);
}

#[test]
fn computer_move_on_empty_board_is_legal() {
    let gs = GameState { player: Player::Computer, board: new_board() };
    let m = gs.get_mcts_move().unwrap();
    assert!(m < 9);
}

#[test]
fn computer_move_picks_an_empty_cell() {
    let gs = GameState { player: Player::Computer, board: board_of("xo.x.o.x.") };
    for _ in 0..3 {
        let m = gs.get_mcts_move().unwrap();
        assert!(gs.legal_moves().contains(&m));
    }
}

#[test]
fn best_move_of_searched_arena() {
    let gs = GameState { player: Player::Computer, board: board_of("xx.oo....") };
    let mut arena = tttlib::mcts::Arena::new_with_gamestate(gs.clone());
    assert_eq!(tttlib::tictactoe::best_move(&arena), None);
    arena.iterate(2);
    let m = tttlib::tictactoe::best_move(&arena).unwrap();
    assert_eq!(m, 2);
    arena.iterate(200);
    let best = arena.best_child(0);
    let m = tttlib::tictactoe::best_move(&arena).unwrap();
    assert_eq!(arena.get(best).game_state.board[m], Player::Computer);
    assert_eq!(gs.board[m], Player::Nobody);
}

#[test]
fn computer_has_no_move_when_game_is_decided() {
    let won = GameState { player: Player::Human, board: board_of("xxxoo....") };
    assert_eq!(won.get_mcts_move(), None);
    let full = GameState { player: Player::Computer, board: board_of("xoxxoooxx") };
    assert_eq!(full.get_mcts_move(), None);
}

#[test]
fn computer_beats_random_opponent_more_often_than_not() {
    let mut losses = 0;
    let games = 12;
    for _ in 0..games {
        let mut gs = GameState::default();
        loop {
            let cmd = match gs.player {
                Player::Human => gs.get_rng_move(),
                _ => gs.get_mcts_move(),
            };
            match gs.exec_move(cmd) {
                Outcome::Won(Player::Human) => {
                    losses += 1;
                    break;
                }
                Outcome::Won(_) | Outcome::GameOver => break,
                Outcome::Continue => {}
            }
        }
    }
    assert!(losses * 2 < games, "lost {} of {}", losses, games);
}

#[test]
fn fixed_point_logarithms() {
    assert_eq!(log2_fixed(1), 0);
    assert_eq!(log2_fixed(3), 98304);
    assert_eq!(log2_fixed(4), 131072);
    assert_eq!(ln_fixed(0), 0);
    assert_eq!(ln_fixed(1), 0);
    assert_eq!(ln_fixed(4), 90852);
    assert_eq!(ln_fixed(10), 147634);
}

#[test]
fn integer_square_roots() {
    assert_eq!(isqrt_fixed(0), 0);
    assert_eq!(isqrt_fixed(15), 3);
    assert_eq!(isqrt_fixed(16), 4);
    assert_eq!(isqrt_fixed(11908153344), 109124);
}

#[test]
fn ucb1_terms() {
    assert_eq!(exploitation_fixed(1, 2), 32768);
    assert_eq!(exploitation_fixed(-1, 3), -21845);
    assert_eq!(exploration_fixed(4, 2), 109124);
    assert_eq!(exploration_fixed(1, 1), 0);
    assert_eq!(ucb1_fixed(1, 2, 4), 141892);
    assert_eq!(ucb1_fixed(-1, 3, 10), 91735);
}

#[test]
fn typed_numbers_name_cells() {
    assert_eq!(tttlib::tictactoe::cell_of_input(1), Some(0));
    assert_eq!(tttlib::tictactoe::cell_of_input(9), Some(8));
    assert_eq!(tttlib::tictactoe::cell_of_input(0), None);
    assert_eq!(tttlib::tictactoe::cell_of_input(10), None);
}
