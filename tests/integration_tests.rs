use tttlib::mcts::{Arena, Node};
use tttlib::tictactoe::GameState;

#[test]
fn create_arena() {
    let arena: Arena<Node<GameState>> = Arena::new();
    assert_eq!(*arena.get(0), Node::default())
}

#[test]
fn add_child_node() {
    let mut arena: Arena<Node<GameState>> = Arena::new();
    arena.child_from(0);
    let child = Node {
        id: 1,
        parent: Some(0),
        game_state: GameState::default(),
        visits: 0,
        score: 0,
        children: Vec::new(),
    };
    assert_eq!(*arena.get(1), child)
}

#[test]
fn traverse_branch() {
    let mut arena: Arena<Node<GameState>> = Arena::new();
    arena.child_from(0);
    arena.child_from(1);
    arena.set_stats(0, 3, 2);
    arena.set_stats(1, 2, 1);
    arena.set_stats(2, 3, 0);
    arena.propagate_from(2);
    assert_eq!(arena.get(0).score, 6);
    assert_eq!(arena.get(1).score, 5);
    assert_eq!(arena.get(2).score, 3);
    assert_eq!(arena.get(0).visits, 3);
    assert_eq!(arena.get(1).visits, 2);
    assert_eq!(arena.get(2).visits, 0);
}
