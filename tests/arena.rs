use tttlib::mcts::{Arena, Node, MCTS};
use tttlib::tictactoe::{GameState, Player};

fn board_of(cells: &str) -> Vec<Player> {
    cells
        .chars()
        .map(|c| match c {
            'x' => Player::Human,
            'o' => Player::Computer,
            _ => Player::Nobody,
        })
        .collect()
}

#[test]
fn fresh_arena_with_given_state() {
    let gs = GameState { player: Player::Computer, board: board_of("x........") };
    let arena = Arena::new_with_gamestate(gs.clone());
    assert_eq!(arena.next_id(), 1);
    let root = arena.get(0);
    assert_eq!(root.id, 0);
    assert_eq!(root.parent, None);
    assert_eq!(root.visits, 0);
    assert_eq!(root.score, 0);
    assert!(root.children.is_empty());
    assert_eq!(root.game_state, gs);
}

#[test]
fn child_with_given_state_is_appended() {
    let mut arena: Arena<Node<GameState>> = Arena::new();
    arena.child_from(0);
    let gs = GameState { player: Player::Computer, board: board_of("....x....") };
    arena.child_from_with_gamestate(0, gs.clone());
    assert_eq!(arena.next_id(), 3);
    assert_eq!(arena.get(0).children, vec![1, 2]);
    let child = arena.get(2);
    assert_eq!(child.id, 2);
    assert_eq!(child.parent, Some(0));
    assert_eq!(child.game_state, gs);
    assert_eq!(child.visits, 0);
    assert_eq!(child.score, 0);
}

#[test]
fn expansion_adds_one_child_per_empty_cell() {
    let gs = GameState { player: Player::Human, board: board_of("xo.x.o...") };
    let mut arena = Arena::new_with_gamestate(gs.clone());
    arena.add_children(0);
    assert_eq!(arena.get(0).children, vec![1, 2, 3, 4, 5]);
    assert_eq!(arena.get(1).game_state.board, board_of("xoxx.o..."));
    assert_eq!(arena.get(1).game_state.player, Player::Computer);
    assert_eq!(arena.get(3).game_state.board, board_of("xo.x.ox.."));
    assert_eq!(arena.get(3).game_state.player, Player::Human);
}

#[test]
fn expansion_of_won_position_adds_nothing() {
    let gs = GameState { player: Player::Human, board: board_of("xxxoo....") };
    let mut arena = Arena::new_with_gamestate(gs);
    arena.add_children(0);
    assert_eq!(arena.next_id(), 1);
    assert!(arena.get(0).children.is_empty());
}

#[test]
fn ucb1_is_undefined_at_the_root() {
    let mut arena: Arena<Node<GameState>> = Arena::new();
    assert_eq!(arena.ucb1_of(0), None);
    arena.iterate(50);
    assert_eq!(arena.ucb1_of(0), None);
    assert_eq!(arena.ucb1_of(0), None);
}

#[test]
fn ucb1_of_unvisited_child_ranks_first() {
    let mut arena: Arena<Node<GameState>> = Arena::new();
    arena.child_from(0);
    arena.child_from(0);
    arena.set_stats(0, 1, 4);
    arena.set_stats(1, 1, 2);
    assert_eq!(arena.ucb1_of(2), Some(i128::MAX));
    assert_eq!(arena.ucb1_of(1), Some(141892));
    assert_eq!(arena.best_child(0), 2);
}

#[test]
fn ucb1_of_visited_child() {
    let mut arena: Arena<Node<GameState>> = Arena::new();
    arena.child_from(0);
    arena.child_from(0);
    arena.set_stats(0, 0, 10);
    arena.set_stats(1, -1, 3);
    arena.set_stats(2, 1, 2);
    assert_eq!(arena.ucb1_of(1), Some(91735));
    assert_eq!(arena.best_child(0), 2);
}

#[test]
fn best_child_prefers_first_of_equal_keys() {
    let mut arena: Arena<Node<GameState>> = Arena::new();
    arena.child_from(0);
    arena.child_from(0);
    arena.child_from(0);
    assert_eq!(arena.best_child(0), 1);
}

#[test]
fn propagation_from_root_changes_nothing() {
    let mut arena: Arena<Node<GameState>> = Arena::new();
    arena.set_stats(0, 1, 1);
    arena.propagate_from(0);
    assert_eq!(arena.get(0).score, 1);
    assert_eq!(arena.get(0).visits, 1);
}

#[test]
fn iterate_only_grows_the_tree() {
    let mut arena: Arena<Node<GameState>> = Arena::new();
    let mut prev_visits: Vec<u32> = vec![0];
    let mut prev_children: Vec<Vec<usize>> = vec![Vec::new()];
    for _ in 0..40 {
        arena.iterate(5);
        for i in 0..prev_visits.len() {
            let n = arena.get(i);
            assert!(n.visits >= prev_visits[i]);
            assert!(n.children.starts_with(&prev_children[i]));
        }
        prev_visits = (0..arena.next_id()).map(|i| arena.get(i).visits).collect();
        prev_children = (0..arena.next_id()).map(|i| arena.get(i).children.clone()).collect();
    }
    let root = arena.get(0);
    assert_eq!(root.children.len(), 9);
    for i in 1..arena.next_id() {
        let n = arena.get(i);
        assert_eq!(n.id, i);
        assert!(n.parent.unwrap() < i);
        if n.children.is_empty() {
            assert!(n.visits <= 1);
        }
    }
}

#[test]
fn two_passes_expand_the_root() {
    let mut arena: Arena<Node<GameState>> = Arena::new();
    arena.iterate(1);
    assert_eq!(arena.get(0).visits, 1);
    assert!(arena.get(0).children.is_empty());
    assert!(arena.get(0).score >= -1 && arena.get(0).score <= 1);
    arena.iterate(1);
    assert_eq!(arena.get(0).children.len(), 9);
    assert_eq!(arena.get(0).visits, 1);
}

#[test]
fn rollout_rewards_are_credited_to_the_root() {
    let mut arena: Arena<Node<GameState>> = Arena::new();
    arena.iterate(11);
    assert_eq!(arena.get(0).visits, 10);
    let sum: i64 = arena.get(0).children.iter().map(|&c| arena.get(c).score).sum();
    let own = arena.get(0).score - sum;
    assert!(own >= -1 && own <= 1);
    let child_visits: u32 = arena.get(0).children.iter().map(|&c| arena.get(c).visits).sum();
    assert_eq!(child_visits, 9);
    assert_eq!(arena.next_id(), 10);
    assert_eq!(arena.get(0).children, (1..10).collect::<Vec<usize>>());
    for c in 1..10 {
        assert_eq!(arena.get(c).visits, 1);
        assert!(arena.get(c).children.is_empty());
    }
}

#[test]
fn unvisited_nodes_stay_fresh() {
    let mut arena: Arena<Node<GameState>> = Arena::new();
    arena.iterate(300);
    for i in 0..arena.next_id() {
        let n = arena.get(i);
        if n.visits == 0 {
            assert_eq!(n.score, 0);
            assert!(n.children.is_empty());
        } else {
            let below: u32 = n.children.iter().map(|&c| arena.get(c).visits).sum();
            assert_eq!(n.visits, 1 + below);
        }
    }
}

#[test]
fn terminate_stays_within_rewards() {
    for _ in 0..200 {
        let r = GameState::default().terminate();
        assert!(r == -1 || r == 0 || r == 1);
    }
}

#[test]
fn terminate_on_decided_positions() {
    let human_line = GameState { player: Player::Human, board: board_of("xxxoo....") };
    assert_eq!(human_line.terminate(), -1);
    let computer_line = GameState { player: Player::Computer, board: board_of("oooxx.x..") };
    assert_eq!(computer_line.terminate(), 1);
    let drawn = GameState { player: Player::Human, board: board_of("xoxxoooxx") };
    assert_eq!(drawn.terminate(), 0);
    let full = GameState { player: Player::Computer, board: board_of("xoxxoooxx") };
    assert_eq!(full.terminate(), 0);
    let human_row_computer_to_move = GameState { player: Player::Computer, board: board_of("xxxo.....") };
    assert_eq!(human_row_computer_to_move.terminate(), -1);
    let computer_row_human_to_move = GameState { player: Player::Human, board: board_of("x..ooox.x") };
    assert_eq!(computer_row_human_to_move.terminate(), 1);
    let last_cell = GameState { player: Player::Human, board: board_of("xx.ooxoxo") };
    assert_eq!(last_cell.terminate(), -1);
}

#[test]
fn available_moves_of_full_board_is_empty() {
    let drawn = GameState { player: Player::Human, board: board_of("xoxxoooxx") };
    assert!(drawn.available_moves().is_empty());
}
