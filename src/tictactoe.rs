//! Tic-tac-toe as a searchable domain: a 3x3 board, the human against the
//! computer, rewards -1 (human wins), 0 (draw) and 1 (computer wins).
//!
//! Cells are numbered row by row:
//! ```text
//! 0 1 2
//! 3 4 5
//! 6 7 8
//! ```
use vstd::prelude::*;
use rand::seq::IteratorRandom;
use crate::mcts::{Arena, MCTS, Node, has_room, follows, tree_wf, states_follow, is_first_best_child, is_fresh, one_pass};

verus! {

/// The owner of a cell, or whose turn it is.
#[derive(Clone, Copy, Debug, PartialEq, Eq, Structural)]
pub enum Player {
    Nobody,
    Human,
    Computer,
}

/// A position: whose turn it is and the nine cells.
#[derive(Clone, Debug, PartialEq)]
pub struct GameState {
    pub player: Player,
    pub board: Vec<Player>,
}

/// The player who moves after `p`.
pub open spec fn other(p: Player) -> Player {
    match p {
        Player::Human => Player::Computer,
        Player::Computer => Player::Human,
        Player::Nobody => Player::Nobody,
    }
}

/// Cells `i`, `j` and `k` hold the same mark.
pub open spec fn line(b: Seq<Player>, i: int, j: int, k: int) -> bool {
    b[i] != Player::Nobody && b[i] == b[j] && b[j] == b[k]
}

/// Some row, column or diagonal holds three equal marks.
pub open spec fn wins(b: Seq<Player>) -> bool {
    line(b, 0, 1, 2) || line(b, 3, 4, 5) || line(b, 6, 7, 8) || line(b, 0, 3, 6) || line(b, 1, 4, 7)
        || line(b, 2, 5, 8) || line(b, 0, 4, 8) || line(b, 2, 4, 6)
}

/// The mark on the first complete line, checking rows, then columns,
/// then diagonals; `Nobody` when no line is complete.
pub open spec fn line_owner(b: Seq<Player>) -> Player {
    if line(b, 0, 1, 2) {
        b[0]
    } else if line(b, 3, 4, 5) {
        b[3]
    } else if line(b, 6, 7, 8) {
        b[6]
    } else if line(b, 0, 3, 6) {
        b[0]
    } else if line(b, 1, 4, 7) {
        b[1]
    } else if line(b, 2, 5, 8) {
        b[2]
    } else if line(b, 0, 4, 8) {
        b[0]
    } else if line(b, 2, 4, 6) {
        b[2]
    } else {
        Player::Nobody
    }
}

/// The empty cells among the first `n`, in increasing order.
pub open spec fn empty_cells_upto(b: Seq<Player>, n: int) -> Seq<usize>
    decreases n,
{
    if n <= 0 {
        seq![]
    } else if b[n - 1] == Player::Nobody {
        empty_cells_upto(b, n - 1).push((n - 1) as usize)
    } else {
        empty_cells_upto(b, n - 1)
    }
}

/// The empty cells of the board, in increasing order.
pub open spec fn empty_cells(b: Seq<Player>) -> Seq<usize> {
    empty_cells_upto(b, b.len() as int)
}

/// The board after `p` marks cell `i`.
pub open spec fn place(b: Seq<Player>, i: int, p: Player) -> Seq<Player> {
    b.update(i, p)
}

/// The player to move after `p` marks cell `i` of `b`: the same player when
/// that move completes a line, the other one otherwise.
pub open spec fn next_player(b: Seq<Player>, i: int, p: Player) -> Player {
    if wins(place(b, i, p)) {
        p
    } else {
        other(p)
    }
}

proof fn lemma_empty_cells(b: Seq<Player>, n: int)
    requires
        0 <= n <= b.len() <= usize::MAX,
    ensures
        empty_cells_upto(b, n).len() <= n,
        forall|k: int|
            0 <= k < empty_cells_upto(b, n).len() ==> (#[trigger] empty_cells_upto(b, n)[k]) < n
                && b[empty_cells_upto(b, n)[k] as int] == Player::Nobody,
        forall|i: int|
            0 <= i < n && b[i] == Player::Nobody ==> empty_cells_upto(b, n).contains(i as usize),
    decreases n,
{
    if n > 0 {
        lemma_empty_cells(b, n - 1);
        let r = empty_cells_upto(b, n - 1);
        if b[n - 1] == Player::Nobody {
            assert(empty_cells_upto(b, n)[r.len() as int] == (n - 1) as usize);
            assert forall|k: int| 0 <= k < empty_cells_upto(b, n).len() implies (#[trigger] empty_cells_upto(b, n)[k]) < n
                && b[empty_cells_upto(b, n)[k] as int] == Player::Nobody by {
                if k < r.len() {
                    assert(empty_cells_upto(b, n)[k] == r[k]);
                }
            }
            assert forall|i: int| 0 <= i < n && b[i] == Player::Nobody implies empty_cells_upto(
                b,
                n,
            ).contains(i as usize) by {
                if i < n - 1 {
                    let k = choose|k: int| 0 <= k < r.len() && r[k] == i as usize;
                    assert(empty_cells_upto(b, n)[k] == i as usize);
                }
            }
        }
    }
}

/// Marking an empty cell leaves one empty cell fewer.
proof fn lemma_empty_cells_fill(b: Seq<Player>, n: int, i: int, p: Player)
    requires
        0 <= n <= b.len(),
        0 <= i < b.len(),
        b[i] == Player::Nobody,
        p != Player::Nobody,
    ensures
        empty_cells_upto(b.update(i, p), n).len() == empty_cells_upto(b, n).len() - (if i < n {
            1int
        } else {
            0int
        }),
    decreases n,
{
    if n > 0 {
        lemma_empty_cells_fill(b, n - 1, i, p);
    }
}

impl GameState {
    /// A board of nine cells and a player to move.
    pub open spec fn wf(&self) -> bool {
        self.board@.len() == 9 && self.player != Player::Nobody
    }

    /// Whether cells `i`, `j` and `k` hold the same mark.
    fn line_at(&self, i: usize, j: usize, k: usize) -> (r: bool)
        requires
            i < self.board@.len(),
            j < self.board@.len(),
            k < self.board@.len(),
        ensures
            r == line(self.board@, i as int, j as int, k as int),
    {
        self.board[i] != Player::Nobody && self.board[i] == self.board[j] && self.board[j]
            == self.board[k]
    }

    /// Whether some row, column or diagonal is complete.
    pub fn is_terminal(&self) -> (r: bool)
        requires
            self.board@.len() == 9,
        ensures
            r == wins(self.board@),
    {
        self.line_at(0, 1, 2) || self.line_at(3, 4, 5) || self.line_at(6, 7, 8) || self.line_at(
            0,
            3,
            6,
        ) || self.line_at(1, 4, 7) || self.line_at(2, 5, 8) || self.line_at(0, 4, 8)
            || self.line_at(2, 4, 6)
    }

    /// The owner of the first complete line, or `Nobody`.
    pub fn winner(&self) -> (r: Player)
        requires
            self.board@.len() == 9,
        ensures
            r == line_owner(self.board@),
    {
        if self.line_at(0, 1, 2) {
            self.board[0]
        } else if self.line_at(3, 4, 5) {
            self.board[3]
        } else if self.line_at(6, 7, 8) {
            self.board[6]
        } else if self.line_at(0, 3, 6) {
            self.board[0]
        } else if self.line_at(1, 4, 7) {
            self.board[1]
        } else if self.line_at(2, 5, 8) {
            self.board[2]
        } else if self.line_at(0, 4, 8) {
            self.board[0]
        } else if self.line_at(2, 4, 6) {
            self.board[2]
        } else {
            Player::Nobody
        }
    }

    /// The reward of a won position: -1 when the human owns the first
    /// complete line, 1 otherwise.
    fn won_reward(&self) -> (r: i8)
        requires
            self.board@.len() == 9,
        ensures
            r == reward_of_winner(line_owner(self.board@)),
    {
        if self.winner() == Player::Human {
            -1
        } else {
            1
        }
    }

    /// The empty cells, in increasing order.
    pub fn legal_moves(&self) -> (r: Vec<usize>)
        ensures
            r@ == empty_cells(self.board@),
    {
        let mut r: Vec<usize> = Vec::new();
        let mut i: usize = 0;
        while i < self.board.len()
            invariant
                i <= self.board@.len(),
                r@ == empty_cells_upto(self.board@, i as int),
            decreases self.board@.len() - i,
        {
            if self.board[i] == Player::Nobody {
                r.push(i);
            }
            i = i + 1;
        }
        r
    }

    /// A copy of this position.
    pub fn duplicate(&self) -> (r: GameState)
        ensures
            r.player == self.player,
            r.board@ == self.board@,
    {
        let mut board: Vec<Player> = Vec::new();
        let mut i: usize = 0;
        while i < self.board.len()
            invariant
                i <= self.board@.len(),
                board@ == self.board@.subrange(0, i as int),
            decreases self.board@.len() - i,
        {
            board.push(self.board[i]);
            i = i + 1;
            proof {
                assert(board@ =~= self.board@.subrange(0, i as int));
            }
        }
        proof {
            assert(board@ =~= self.board@);
        }
        GameState { player: self.player, board }
    }
}

/// The cell named by a number typed by the player: 1 to 9, row by row.
pub fn cell_of_input(n: usize) -> (r: Option<usize>)
    ensures
        r == (if 1 <= n <= 9 {
            Some((n - 1) as usize)
        } else {
            None
        }),
{
    if 1 <= n && n <= 9 {
        Some(n - 1)
    } else {
        None
    }
}

/// An empty board.
pub fn new_board() -> (r: Vec<Player>)
    ensures
        r@.len() == 9,
        forall|i: int| 0 <= i < 9 ==> r@[i] == Player::Nobody,
{
    let mut v: Vec<Player> = Vec::new();
    let mut i: usize = 0;
    while i < 9
        invariant
            i <= 9,
            v@.len() == i,
            forall|j: int| 0 <= j < i ==> v@[j] == Player::Nobody,
        decreases 9 - i,
    {
        v.push(Player::Nobody);
        i = i + 1;
    }
    v
}

impl Default for GameState {
    /// An empty board with the human to move.
    fn default() -> (r: GameState)
        ensures
            r.player == Player::Human,
            r.board@ == Seq::new(9, |i: int| Player::Nobody),
    {
        let board = new_board();
        proof {
            assert(board@ =~= Seq::new(9, |i: int| Player::Nobody));
        }
        GameState { player: Player::Human, board }
    }
}

/// What a move in the interactive game led to.
#[derive(Clone, Copy, Debug, PartialEq, Eq, Structural)]
pub enum Outcome {
    /// No move was given: the board is full.
    GameOver,
    /// After the move a line is complete; it belongs to this player.
    Won(Player),
    /// The game goes on with the other player.
    Continue,
}

/// The reward of a position whose complete line belongs to `p`: -1 for
/// the human, 1 for the computer.
pub open spec fn reward_of_winner(p: Player) -> i8 {
    if p == Player::Human {
        -1i8
    } else {
        1i8
    }
}

/// Relies on rand's `IteratorRandom::choose` over the thread-local generator:
/// it returns `None` if and only if the iterator is empty, and otherwise one
/// of its items.
#[verifier::external_body]
fn choose_one(items: Vec<usize>) -> (r: Option<usize>)
    ensures
        r is None <==> items@.len() == 0,
        r matches Some(x) ==> items@.contains(x),
{
    items.into_iter().choose(&mut rand::thread_rng())
}

impl GameState {
    /// `cmd` if it names an empty cell, `None` otherwise.
    pub fn is_legal_move(&self, cmd: Option<usize>) -> (r: Option<usize>)
        ensures
            r == (match cmd {
                Some(c) => if empty_cells(self.board@).contains(c) {
                    Some(c)
                } else {
                    None
                },
                None => None,
            }),
    {
        let c = match cmd {
            Some(c) => c,
            None => {
                return None;
            },
        };
        let moves = self.legal_moves();
        let mut k: usize = 0;
        while k < moves.len()
            invariant
                moves@ == empty_cells(self.board@),
                cmd == Some(c),
                k <= moves@.len(),
                forall|j: int| 0 <= j < k ==> moves@[j] != c,
            decreases moves@.len() - k,
        {
            if moves[k] == c {
                proof {
                    assert(moves@[k as int] == c);
                    assert(empty_cells(self.board@).contains(c));
                }
                return Some(c);
            }
            k = k + 1;
        }
        proof {
            assert(!moves@.contains(c));
            assert(!empty_cells(self.board@).contains(c));
        }
        None
    }

    /// A uniformly random empty cell, or `None` on a full board.
    pub fn get_rng_move(&self) -> (r: Option<usize>)
        ensures
            r is None <==> empty_cells(self.board@).len() == 0,
            r matches Some(i) ==> empty_cells(self.board@).contains(i),
    {
        choose_one(self.legal_moves())
    }

    /// One step of a simulated game. On a full board nothing changes and the
    /// result is a draw, `Some(0)`, whatever `cmd` is. Otherwise the player
    /// to move marks cell `cmd`; if a line is then complete the result is
    /// `Some(-1)` when the human owns it and `Some(1)` when the computer
    /// does, and otherwise the turn passes and the result is `None`.
    pub fn exec_mcts_move(&mut self, cmd: Option<usize>) -> (r: Option<i8>)
        requires
            old(self).wf(),
            empty_cells(old(self).board@).len() > 0 ==> cmd is Some && cmd->0 < 9,
        ensures
            final(self).wf(),
            empty_cells(old(self).board@).len() == 0 ==> r == Some(0i8) && final(self).board@ == old(
                self,
            ).board@ && final(self).player == old(self).player,
            empty_cells(old(self).board@).len() > 0 ==> ({
                let i = cmd->0 as int;
                let b = place(old(self).board@, i, old(self).player);
                &&& final(self).board@ == b
                &&& final(self).player == next_player(old(self).board@, i, old(self).player)
                &&& r == if wins(b) {
                    Some(reward_of_winner(line_owner(b)))
                } else {
                    None::<i8>
                }
            }),
    {
        if self.legal_moves().len() == 0 {
            return Some(0);
        }
        let idx = cmd.unwrap();
        self.board.set(idx, self.player);
        if self.is_terminal() {
            return Some(self.won_reward());
        }
        self.player = match self.player {
            Player::Human => Player::Computer,
            _ => Player::Human,
        };
        None
    }

    /// One move of the interactive game: the player to move marks cell
    /// `cmd`, and the turn passes unless that completes a line. Without a
    /// cell the game is over and nothing changes.
    pub fn exec_move(&mut self, cmd: Option<usize>) -> (r: Outcome)
        requires
            old(self).wf(),
            cmd matches Some(i) ==> i < 9,
        ensures
            final(self).wf(),
            cmd is None ==> r == Outcome::GameOver && final(self).board@ == old(self).board@
                && final(self).player == old(self).player,
            cmd matches Some(i) ==> ({
                let b = place(old(self).board@, i as int, old(self).player);
                &&& final(self).board@ == b
                &&& if wins(b) {
                    r == Outcome::Won(line_owner(b)) && final(self).player == old(self).player
                } else {
                    r == Outcome::Continue && final(self).player == other(old(self).player)
                }
            }),
    {
        let idx = match cmd {
            Some(i) => i,
            None => {
                return Outcome::GameOver;
            },
        };
        self.board.set(idx, self.player);
        if self.is_terminal() {
            return Outcome::Won(self.winner());
        }
        self.player = match self.player {
            Player::Human => Player::Computer,
            _ => Player::Human,
        };
        Outcome::Continue
    }
}

/// `r` is the reward of a final position reached from board `b` with `p`
/// to move, in at most `n` more moves, where the first move marks one of
/// the first `k` empty cells: a malformed position counts as a draw, a won
/// position gives the reward of the owner of its first complete line, a
/// full board is a draw, and
/// otherwise one of those moves leads to a position with reward `r`.
pub open spec fn reach(p: Player, b: Seq<Player>, r: int, n: nat, k: nat) -> bool
    decreases n, k,
{
    if !(b.len() == 9 && p != Player::Nobody) {
        r == 0
    } else if wins(b) {
        r == reward_of_winner(line_owner(b)) as int
    } else if empty_cells(b).len() == 0 {
        r == 0
    } else if n == 0 || k == 0 || k > empty_cells(b).len() {
        false
    } else {
        let i = empty_cells(b)[k - 1] as int;
        let b2 = place(b, i, p);
        reach(next_player(b, i, p), b2, r, (n - 1) as nat, empty_cells(b2).len()) || reach(
            p,
            b,
            r,
            n,
            (k - 1) as nat,
        )
    }
}

/// `r` is the reward of a final position that legal moves from board `b`,
/// with `p` to move, can reach.
pub open spec fn outcome_of(p: Player, b: Seq<Player>, r: int) -> bool {
    reach(p, b, r, empty_cells(b).len(), empty_cells(b).len())
}

/// A move to a position with reward `r` makes `r` a reward of the position before it.
proof fn lemma_outcome_step(p: Player, b: Seq<Player>, j: int, r: int, n: nat, k: nat)
    requires
        b.len() == 9,
        p != Player::Nobody,
        !wins(b),
        n > 0,
        0 <= j < k <= empty_cells(b).len(),
        outcome_of(
            next_player(b, empty_cells(b)[j] as int, p),
            place(b, empty_cells(b)[j] as int, p),
            r,
        ),
        empty_cells(place(b, empty_cells(b)[j] as int, p)).len() == n - 1,
    ensures
        reach(p, b, r, n, k),
    decreases k,
{
    if j < k - 1 {
        lemma_outcome_step(p, b, j, r, n, (k - 1) as nat);
    }
}

impl MCTS<GameState> for GameState {
    /// No moves from a malformed or already won position; otherwise one per
    /// empty cell.
    open spec fn move_count(&self) -> nat {
        if self.wf() && !wins(self.board@) {
            empty_cells(self.board@).len()
        } else {
            0
        }
    }

    open spec fn is_outcome(&self, r: int) -> bool {
        outcome_of(self.player, self.board@, r)
    }

    /// The `k`-th move marks the `k`-th empty cell.
    open spec fn is_nth_move(&self, k: int, next: GameState) -> bool {
        let i = empty_cells(self.board@)[k] as int;
        next.board@ == place(self.board@, i, self.player) && next.player == next_player(
            self.board@,
            i,
            self.player,
        )
    }

    fn available_moves(&self) -> (r: Vec<GameState>) {
        let mut r: Vec<GameState> = Vec::new();
        if self.board.len() != 9 || self.player == Player::Nobody || self.is_terminal() {
            return r;
        }
        let moves = self.legal_moves();
        proof {
            lemma_empty_cells(self.board@, 9);
        }
        let mut k: usize = 0;
        while k < moves.len()
            invariant
                self.wf(),
                !wins(self.board@),
                moves@ == empty_cells(self.board@),
                forall|j: int| 0 <= j < moves@.len() ==> (#[trigger] moves@[j]) < 9,
                k <= moves@.len(),
                r@.len() == k,
                forall|j: int| 0 <= j < k ==> self.is_nth_move(j, #[trigger] r@[j]),
            decreases moves@.len() - k,
        {
            let mut gs = self.duplicate();
            let mv = moves[k];
            gs.exec_mcts_move(Some(mv));
            let ghost prev = r@;
            r.push(gs);
            k = k + 1;
            proof {
                assert forall|j: int| 0 <= j < k implies self.is_nth_move(j, #[trigger] r@[j]) by {
                    if j < k - 1 {
                        assert(r@[j] == prev[j]);
                    }
                }
            }
        }
        r
    }

    fn terminate(&self) -> (r: i64) {
        if self.board.len() != 9 || self.player == Player::Nobody {
            return 0;
        }
        if self.is_terminal() {
            return self.won_reward() as i64;
        }
        let mut gs = self.duplicate();
        loop
            invariant
                gs.wf(),
                !wins(gs.board@),
                forall|r: int|
                    #[trigger] outcome_of(gs.player, gs.board@, r) ==> outcome_of(
                        self.player,
                        self.board@,
                        r,
                    ),
            decreases empty_cells(gs.board@).len(),
        {
            let mv = gs.get_rng_move();
            let ghost b0 = gs.board@;
            let ghost p0 = gs.player;
            let ghost n0 = empty_cells(b0).len();
            proof {
                lemma_empty_cells(b0, 9);
                if mv is Some {
                    let k = choose|k: int| 0 <= k < empty_cells(b0).len() && empty_cells(b0)[k] == mv->0;
                    assert(empty_cells(b0)[k] < 9);
                }
            }
            match gs.exec_mcts_move(mv) {
                Some(x) => {
                    proof {
                        if n0 > 0 {
                            let i = mv->0;
                            let k = choose|k: int| 0 <= k < empty_cells(b0).len() && empty_cells(b0)[k] == i;
                            assert(b0[i as int] == Player::Nobody);
                            lemma_empty_cells_fill(b0, 9, i as int, p0);
                            assert(gs.board@ == place(b0, i as int, p0));
                            assert(wins(gs.board@));
                            assert(gs.player == p0);
                            assert(x == reward_of_winner(line_owner(gs.board@)));
                            assert(outcome_of(gs.player, gs.board@, x as int));
                            lemma_outcome_step(p0, b0, k, x as int, n0, n0);
                        }
                        assert(outcome_of(p0, b0, x as int));
                    }
                    return x as i64;
                },
                None => {},
            }
            proof {
                let i = mv->0;
                let k = choose|k: int| 0 <= k < empty_cells(b0).len() && empty_cells(b0)[k] == i;
                assert(b0[i as int] == Player::Nobody);
                lemma_empty_cells_fill(b0, 9, i as int, p0);
                assert forall|r: int| #[trigger] outcome_of(gs.player, gs.board@, r) implies outcome_of(
                    self.player,
                    self.board@,
                    r,
                ) by {
                    assert(b0.len() == 9);
                    assert(p0 != Player::Nobody);
                    assert(!wins(b0));
                    assert(n0 != 0);
                    lemma_outcome_step(p0, b0, k, r, n0, n0);
                    assert(outcome_of(p0, b0, r));
                }
            }
        }
    }
}

/// `s` is what `n` search passes make of an arena whose only node is an
/// unvisited root holding position `g`.
pub open spec fn is_search_of(g: GameState, s: Seq<Node<GameState>>, n: nat) -> bool {
    exists|trace: Seq<Seq<Node<GameState>>>|
        trace.len() == n + 1 && #[trigger] trace[n as int] == s && trace[0].len() == 1
            && trace[0][0].game_state.board@ == g.board@ && trace[0][0].game_state.player == g.player
            && trace[0][0].parent is None && is_fresh(trace[0][0]) && forall|p: int|
            0 <= p < n ==> #[trigger] one_pass(trace[p], trace[p + 1])
}

/// `r` is the move that the arena `s` recommends: the cell leading to the
/// first root child with the largest UCB1 key, or `None` without children.
pub open spec fn is_best_move(s: Seq<Node<GameState>>, r: Option<usize>) -> bool {
    &&& s[0].children@.len() == 0 ==> r is None
    &&& s[0].children@.len() > 0 ==> exists|c: usize|
        #[trigger] is_first_best_child(s, 0, c) && r == Some(
            move_between(s[0].game_state, s[c as int].game_state),
        )
}

/// The number of search passes behind one move of the computer.
pub const SEARCH_BUDGET: usize = 1000;

impl GameState {
    /// The computer's move: searches from this position for
    /// `SEARCH_BUDGET` passes and returns the cell marked by the root child
    /// with the largest UCB1 key. There is a move exactly when the position
    /// has one.
    pub fn get_mcts_move(&self) -> (r: Option<usize>)
        requires
            self.wf(),
        ensures
            r is Some <==> self.move_count() > 0,
            r matches Some(c) ==> c < 9 && self.board@[c as int] == Player::Nobody,
            exists|s: Seq<Node<GameState>>|
                is_search_of(*self, s, SEARCH_BUDGET as nat) && #[trigger] is_best_move(s, r),
    {
        let mut arena = Arena::new_with_gamestate(self.duplicate());
        let ghost a0 = arena@;
        proof {
            lemma_empty_cells(self.board@, 9);
            assert(has_room(arena@, SEARCH_BUDGET as nat));
        }
        arena.iterate(SEARCH_BUDGET);
        let ghost s = arena@;
        proof {
            let trace = choose|trace: Seq<Seq<Node<GameState>>>|
                trace.len() == SEARCH_BUDGET + 1 && #[trigger] trace[0] == a0 && trace[SEARCH_BUDGET as int] == s
                    && forall|p: int| 0 <= p < SEARCH_BUDGET ==> #[trigger] one_pass(trace[p], trace[p + 1]);
            assert(is_search_of(*self, s, SEARCH_BUDGET as nat));
        }
        if arena.get(0).children.len() == 0 {
            proof {
                assert(is_best_move(s, None));
            }
            return None;
        }
        proof {
            let c = s[0].children@[0] as int;
            assert(follows(s[s[c].parent->0 as int].game_state, s[c].game_state));
        }
        let r = best_move(&arena);
        proof {
            assert(is_best_move(s, r));
        }
        r
    }
}

/// The cell marked by the root child with the largest UCB1 key (the first
/// such child among equals) in a searched arena, or `None` when the root
/// has no children.
pub fn best_move(arena: &Arena<Node<GameState>>) -> (r: Option<usize>)
    requires
        tree_wf(arena@),
        states_follow(arena@),
        arena@[0].game_state.wf(),
    ensures
        arena@[0].children@.len() == 0 ==> r is None,
        arena@[0].children@.len() > 0 ==> exists|c: usize|
            #[trigger] is_first_best_child(arena@, 0, c) && r == Some(
                move_between(arena@[0].game_state, arena@[c as int].game_state),
            ),
        r matches Some(i) ==> i < 9 && arena@[0].game_state.board@[i as int] == Player::Nobody,
{
    let ghost s = arena@;
    if arena.get(0).children.len() == 0 {
        return None;
    }
    let best = arena.best_child(0);
    let root = arena.get(0);
    let child = arena.get(best);
    proof {
        assert(follows(s[0].game_state, s[best as int].game_state));
        let g = s[0].game_state;
        let k = choose|k: int| 0 <= k < g.move_count() && g.is_nth_move(k, s[best as int].game_state);
        lemma_empty_cells(g.board@, 9);
        assert(child.game_state.board@.len() == 9);
    }
    let mut i: usize = 0;
    while i < 9
        invariant
            s == arena@,
            is_first_best_child(s, 0, best),
            root.game_state.wf(),
            root.game_state == s[0].game_state,
            child.game_state == s[best as int].game_state,
            child.game_state.board@.len() == 9,
            follows(s[0].game_state, s[best as int].game_state),
            i <= 9,
            forall|j: int|
                0 <= j < i ==> !(root.game_state.board@[j] == Player::Nobody
                    && #[trigger] child.game_state.board@[j] != Player::Nobody),
        decreases 9 - i,
    {
        if root.game_state.board[i] == Player::Nobody && child.game_state.board[i] != Player::Nobody {
            proof {
                let g = s[0].game_state;
                let k = choose|k: int| 0 <= k < g.move_count() && g.is_nth_move(k, s[best as int].game_state);
                let e = empty_cells(g.board@)[k] as int;
                lemma_empty_cells(g.board@, 9);
                if e != i {
                    assert(child.game_state.board@[i as int] == g.board@[i as int]);
                }
                assert(child.game_state.board@ == place(g.board@, i as int, g.player));
                let j = move_between(g, child.game_state);
                assert(j < 9 && child.game_state.board@ == place(g.board@, j as int, g.player));
                if j != i {
                    assert(child.game_state.board@[i as int] == g.board@[i as int]);
                }
                assert(is_first_best_child(arena@, 0, best));
            }
            return Some(i);
        }
        i = i + 1;
    }
    proof {
        let g = s[0].game_state;
        let k = choose|k: int| 0 <= k < g.move_count() && g.is_nth_move(k, s[best as int].game_state);
        let e = empty_cells(g.board@)[k] as int;
        lemma_empty_cells(g.board@, 9);
        assert(child.game_state.board@[e] != Player::Nobody);
    }
    None
}

/// The cell whose mark takes position `a` to position `b`.
pub open spec fn move_between(a: GameState, b: GameState) -> usize {
    choose|i: usize| i < 9 && b.board@ == place(a.board@, i as int, a.player)
}

} // verus!
