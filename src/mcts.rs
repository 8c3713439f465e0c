//! A Monte Carlo Tree Search engine over an arena of nodes.
//!
//! Nodes live in one append-only vector and refer to each other by their
//! index ("handle"). A node's parent always has a smaller handle than the
//! node itself, which is what makes walks towards the root terminate.
use vstd::prelude::*;
use crate::fixed::{ucb1_fp, exploitation_fixed, exploration_fixed, exploitation_fp, exploration_fp};

verus! {

/// One vertex of the search tree.
#[derive(Debug, PartialEq)]
pub struct Node<T> {
    pub id: usize,
    pub parent: Option<usize>,
    pub game_state: T,
    pub visits: u32,
    pub score: i64,
    pub children: Vec<usize>,
}

/// What a domain state offers to the search.
pub trait MCTS<T>: Sized {
    /// The number of legal moves from this state.
    spec fn move_count(&self) -> nat;

    /// `next` is the state after the `k`-th legal move from this state.
    spec fn is_nth_move(&self, k: int, next: T) -> bool;

    /// One resulting state per legal move, in order; empty on a terminal state.
    fn available_moves(&self) -> (r: Vec<T>)
        ensures
            r@.len() == self.move_count(),
            forall|k: int| 0 <= k < r@.len() ==> self.is_nth_move(k, #[trigger] r@[k]),
    ;

    /// `r` is the reward of a final position that legal moves from this
    /// state can reach.
    spec fn is_outcome(&self, r: int) -> bool;

    /// Plays random legal moves to the end of the game and returns the
    /// reward of the final position: -1, 0 or 1.
    fn terminate(&self) -> (r: i64)
        ensures
            -1 <= r <= 1,
            self.is_outcome(r as int),
    ;
}

/// The owner of all nodes of one search.
pub struct Arena<N> {
    nodes: Vec<N>,
}

impl<N> View for Arena<N> {
    type V = Seq<N>;

    closed spec fn view(&self) -> Seq<N> {
        self.nodes@
    }
}

/// A node with no statistics and no children.
pub open spec fn is_fresh<T>(n: Node<T>) -> bool {
    n.visits == 0 && n.score == 0 && n.children@.len() == 0
}

/// The structural invariant of the tree: handles are positions, the root is
/// node 0, every other node has an older parent that lists it as a child,
/// and every child handle names a younger node whose parent is the lister.
pub open spec fn tree_wf<T>(s: Seq<Node<T>>) -> bool {
    &&& s.len() >= 1
    &&& s[0].parent is None
    &&& forall|i: int| 0 <= i < s.len() ==> #[trigger] s[i].id == i
    &&& forall|i: int|
        0 < i < s.len() ==> (#[trigger] s[i].parent) is Some && s[i].parent->0 < i
            && s[s[i].parent->0 as int].children@.contains(i as usize)
    &&& forall|i: int, j: int|
        0 <= i < s.len() && 0 <= j < s[i].children@.len() ==> i < #[trigger] s[i].children@[j]
            < s.len() && s[s[i].children@[j] as int].parent == Some(i as usize)
}

/// `c` is the state after one of the legal moves from `p`.
pub open spec fn follows<T: MCTS<T>>(p: T, c: T) -> bool {
    exists|k: int| 0 <= k < p.move_count() && p.is_nth_move(k, c)
}

/// Every non-root node holds a state one legal move after its parent's.
pub open spec fn states_follow<T: MCTS<T>>(s: Seq<Node<T>>) -> bool {
    forall|i: int|
        0 < i < s.len() ==> follows(s[s[i].parent->0 as int].game_state, #[trigger] s[i].game_state)
}

/// An unvisited node has no score and no children.
pub open spec fn unvisited_are_fresh<T>(s: Seq<Node<T>>) -> bool {
    forall|i: int|
        0 <= i < s.len() && (#[trigger] s[i].visits) == 0 ==> s[i].score == 0 && s[i].children@.len()
            == 0
}

/// Every childless node has been simulated at most once.
pub open spec fn lifecycle_ok<T>(s: Seq<Node<T>>) -> bool {
    forall|i: int| 0 <= i < s.len() && (#[trigger] s[i].children@).len() == 0 ==> s[i].visits <= 1
}

/// Every node can take `k` more visits, and `k` more rewards of size one,
/// without leaving the range of its counters.
pub open spec fn has_room<T>(s: Seq<Node<T>>, k: nat) -> bool {
    forall|i: int|
        0 <= i < s.len() ==> (#[trigger] s[i].visits) + k <= u32::MAX && i64::MIN + k
            <= s[i].score <= i64::MAX - k
}

/// `a` lies strictly above `n` on the path from `n` to the root.
pub open spec fn is_ancestor<T>(s: Seq<Node<T>>, a: int, n: int) -> bool
    decreases n,
{
    if 0 <= n < s.len() && s[n].parent is Some && s[n].parent->0 < n {
        s[n].parent->0 == a || is_ancestor(s, a, s[n].parent->0 as int)
    } else {
        false
    }
}

/// `new` is `old` after crediting reward `r` and one visit to every
/// ancestor of `leaf`, and changing nothing else.
pub open spec fn credited<T>(old: Seq<Node<T>>, new: Seq<Node<T>>, leaf: int, r: int) -> bool {
    &&& new.len() == old.len()
    &&& forall|j: int|
        0 <= j < old.len() ==> {
            &&& (#[trigger] new[j]).id == old[j].id
            &&& new[j].parent == old[j].parent
            &&& new[j].game_state == old[j].game_state
            &&& new[j].children == old[j].children
            &&& if is_ancestor(old, j, leaf) {
                new[j].visits == old[j].visits + 1 && new[j].score == old[j].score + r
            } else {
                new[j].visits == old[j].visits && new[j].score == old[j].score
            }
        }
}

/// The UCB1 key of a non-root node: unvisited nodes rank above every
/// visited one, visited nodes use the fixed-point UCB1 value.
pub open spec fn ucb1_key<T>(s: Seq<Node<T>>, n: int) -> int {
    if s[n].visits == 0 {
        i128::MAX as int
    } else {
        ucb1_fp(s[n].score as int, s[n].visits as nat, s[s[n].parent->0 as int].visits as nat)
    }
}

/// `c` is the child of `p` at the first position with the largest UCB1 key.
pub open spec fn is_first_best_child<T>(s: Seq<Node<T>>, p: int, c: usize) -> bool {
    exists|j: int|
        0 <= j < s[p].children@.len() && s[p].children@[j] == c && (forall|m: int|
            0 <= m < s[p].children@.len() ==> ucb1_key(s, #[trigger] s[p].children@[m] as int)
                <= ucb1_key(s, c as int)) && (forall|m: int|
            0 <= m < j ==> ucb1_key(s, #[trigger] s[p].children@[m] as int) < ucb1_key(
                s,
                c as int,
            ))
}

/// The first child of `p` with the largest UCB1 key.
pub open spec fn first_best_child<T>(s: Seq<Node<T>>, p: int) -> usize {
    choose|c: usize| is_first_best_child(s, p, c)
}

/// The leaf that selection reaches from `cur`, descending through the
/// first child with the largest UCB1 key.
pub open spec fn leaf_from<T>(s: Seq<Node<T>>, cur: int) -> int
    decreases s.len() - cur,
{
    if 0 <= cur < s.len() && s[cur].children@.len() > 0 && cur < first_best_child(s, cur) < s.len() {
        leaf_from(s, first_best_child(s, cur) as int)
    } else {
        cur
    }
}

/// `a` is `b` after a rollout of the unvisited leaf `l`: the leaf holds one
/// visit and a reward `r` that a playout from its state can give, and `r`
/// and one visit are credited to each ancestor.
pub open spec fn rolled_out<T: MCTS<T>>(b: Seq<Node<T>>, a: Seq<Node<T>>, l: int) -> bool {
    exists|r: int|
        -1 <= r <= 1 && #[trigger] b[l].game_state.is_outcome(r) && a[l].score == r && a[l].visits == 1
            && a[l].id == b[l].id && a[l].parent == b[l].parent && a[l].game_state == b[l].game_state
            && a[l].children == b[l].children && credited(b.update(l, a[l]), a, l, r)
}

/// `f` is `o` after expanding `node`: one fresh child per legal move of its
/// state, in order, appended at the end; nothing changes where the arena
/// could not hand out that many more handles.
pub open spec fn expanded<T: MCTS<T>>(o: Seq<Node<T>>, f: Seq<Node<T>>, node: int) -> bool {
    let st = o[node].game_state;
    if o.len() + st.move_count() < usize::MAX {
        &&& f.len() == o.len() + st.move_count()
        &&& forall|m: int|
            0 <= m < st.move_count() ==> st.is_nth_move(m, (#[trigger] f[o.len() + m]).game_state)
                && f[o.len() + m].parent == Some(node as usize) && f[o.len() + m].id == o.len() + m
                && is_fresh(f[o.len() + m])
        &&& f[node].children@ == o[node].children@ + Seq::new(
            st.move_count(),
            |m: int| (o.len() + m) as usize,
        )
        &&& f[node].id == o[node].id
        &&& f[node].parent == o[node].parent
        &&& f[node].game_state == o[node].game_state
        &&& f[node].visits == o[node].visits
        &&& f[node].score == o[node].score
        &&& forall|i: int| 0 <= i < o.len() && i != node ==> f[i] == o[i]
    } else {
        f == o
    }
}

/// `a` is `b` after one search pass: selection from the root reaches a
/// leaf, which is rolled out if unvisited and expanded otherwise.
pub open spec fn one_pass<T: MCTS<T>>(b: Seq<Node<T>>, a: Seq<Node<T>>) -> bool {
    let l = leaf_from(b, 0);
    if b[l].visits == 0 {
        rolled_out(b, a, l)
    } else {
        expanded(b, a, l)
    }
}

/// Two children that are both the first with the largest key are the same.
proof fn lemma_first_best_child_unique<T>(s: Seq<Node<T>>, p: int, c: usize)
    requires
        is_first_best_child(s, p, c),
    ensures
        first_best_child(s, p) == c,
{
    let d = first_best_child(s, p);
    let cs = s[p].children@;
    let j1 = choose|j: int| 0 <= j < cs.len() && cs[j] == c && (forall|m: int|
        0 <= m < cs.len() ==> ucb1_key(s, #[trigger] cs[m] as int) <= ucb1_key(s, c as int)) && (forall|m: int|
        0 <= m < j ==> ucb1_key(s, #[trigger] cs[m] as int) < ucb1_key(s, c as int));
    let j2 = choose|j: int| 0 <= j < cs.len() && cs[j] == d && (forall|m: int|
        0 <= m < cs.len() ==> ucb1_key(s, #[trigger] cs[m] as int) <= ucb1_key(s, d as int)) && (forall|m: int|
        0 <= m < j ==> ucb1_key(s, #[trigger] cs[m] as int) < ucb1_key(s, d as int));
    if j1 < j2 {
        assert(ucb1_key(s, cs[j1] as int) < ucb1_key(s, d as int));
        assert(ucb1_key(s, cs[j2] as int) <= ucb1_key(s, c as int));
    }
    if j2 < j1 {
        assert(ucb1_key(s, cs[j2] as int) < ucb1_key(s, c as int));
        assert(ucb1_key(s, cs[j1] as int) <= ucb1_key(s, d as int));
    }
}

proof fn lemma_ancestor_below<T>(s: Seq<Node<T>>, a: int, n: int)
    requires
        is_ancestor(s, a, n),
    ensures
        0 <= a < n,
    decreases n,
{
    let p = s[n].parent->0 as int;
    if p != a {
        lemma_ancestor_below(s, a, p);
    }
}

proof fn lemma_ancestor_step<T>(s: Seq<Node<T>>, c: int, n: int)
    requires
        tree_wf(s),
        0 < c < s.len(),
        c == n || is_ancestor(s, c, n),
    ensures
        is_ancestor(s, s[c].parent->0 as int, n),
    decreases n,
{
    assert(s[c].parent is Some && s[c].parent->0 < c);
    assert(is_ancestor(s, s[c].parent->0 as int, c));
    if c != n {
        assert(0 < n < s.len()) by {
            lemma_ancestor_below(s, c, n);
        }
        assert(s[n].parent is Some && s[n].parent->0 < n);
        let p = s[n].parent->0 as int;
        if p != c {
            lemma_ancestor_step(s, c, p);
        }
    }
}

/// `new` extends `old`: no node is removed, moved or restructured, visit
/// counts only grow, and children lists only grow at their end.
pub open spec fn grows<T>(old: Seq<Node<T>>, new: Seq<Node<T>>) -> bool {
    &&& new.len() >= old.len()
    &&& forall|i: int|
        0 <= i < old.len() ==> {
            &&& (#[trigger] new[i]).id == old[i].id
            &&& new[i].parent == old[i].parent
            &&& new[i].game_state == old[i].game_state
            &&& new[i].visits >= old[i].visits
            &&& old[i].children@.is_prefix_of(new[i].children@)
        }
}

/// Growth is transitive, so it holds across any sequence of the arena's
/// operations: along a run of the search no visit count decreases and no
/// children list shrinks.
pub proof fn lemma_grows_trans<T>(a: Seq<Node<T>>, b: Seq<Node<T>>, c: Seq<Node<T>>)
    requires
        grows(a, b),
        grows(b, c),
    ensures
        grows(a, c),
{
    assert forall|i: int| 0 <= i < a.len() implies a[i].children@.is_prefix_of(
        (#[trigger] c[i]).children@,
    ) by {
        assert(b[i].children@.is_prefix_of(c[i].children@));
    }
}

proof fn lemma_grows_refl<T>(a: Seq<Node<T>>)
    ensures
        grows(a, a),
{
    assert forall|i: int| 0 <= i < a.len() implies a[i].children@.is_prefix_of(
        (#[trigger] a[i]).children@,
    ) by {
        assert(a[i].children@.subrange(0, a[i].children@.len() as int) =~= a[i].children@);
    }
}

proof fn lemma_credited_grows<T>(old: Seq<Node<T>>, new: Seq<Node<T>>, leaf: int, r: int)
    requires
        credited(old, new, leaf, r),
    ensures
        grows(old, new),
{
    lemma_grows_refl(old);
}

/// A tree keeps its invariant when only statistics change.
proof fn lemma_same_shape<T>(old: Seq<Node<T>>, new: Seq<Node<T>>)
    requires
        tree_wf(old),
        new.len() == old.len(),
        forall|j: int|
            0 <= j < old.len() ==> (#[trigger] new[j]).id == old[j].id && new[j].parent
                == old[j].parent && new[j].children == old[j].children,
    ensures
        tree_wf(new),
{
    assert forall|i: int| 0 < i < new.len() implies (#[trigger] new[i].parent) is Some
        && new[i].parent->0 < i && new[new[i].parent->0 as int].children@.contains(i as usize) by {
        assert(new[old[i].parent->0 as int] == new[old[i].parent->0 as int]);
    }
    assert forall|i: int, j: int|
        0 <= i < new.len() && 0 <= j < new[i].children@.len() implies i
        < #[trigger] new[i].children@[j] < new.len() && new[new[i].children@[j] as int].parent == Some(
        i as usize,
    ) by {
        assert(old[i].children@[j] == new[i].children@[j]);
    }
}

/// An ancestor of a node has at least one child.
proof fn lemma_ancestor_has_children<T>(s: Seq<Node<T>>, a: int, n: int)
    requires
        tree_wf(s),
        is_ancestor(s, a, n),
    ensures
        s[a].children@.len() > 0,
    decreases n,
{
    let p = s[n].parent->0 as int;
    if p == a {
        assert(s[p].children@.contains(n as usize));
    } else {
        lemma_ancestor_has_children(s, a, p);
    }
}

/// An arena that holds only an unvisited root with at least one legal
/// move, about to run at least two passes.
pub open spec fn is_fresh_start<T: MCTS<T>>(s: Seq<Node<T>>, n: usize) -> bool {
    s.len() == 1 && s[0].visits == 0 && n >= 2 && 0 < s[0].game_state.move_count() < usize::MAX - 1
}

proof fn lemma_rollout_step<T: MCTS<T>>(
    before: Seq<Node<T>>,
    mid: Seq<Node<T>>,
    after: Seq<Node<T>>,
    leaf: int,
    r: int,
    k: nat,
)
    requires
        tree_wf(before),
        lifecycle_ok(before),
        has_room(before, k),
        k >= 1,
        0 <= leaf < before.len(),
        before[leaf].visits == 0,
        -1 <= r <= 1,
        after[leaf].score == r,
        after[leaf].visits == 1,
        after[leaf].id == before[leaf].id,
        after[leaf].parent == before[leaf].parent,
        after[leaf].game_state == before[leaf].game_state,
        after[leaf].children == before[leaf].children,
        mid == before.update(leaf, after[leaf]),
        credited(mid, after, leaf, r),
    ensures
        tree_wf(after),
        states_follow(before) ==> states_follow(after),
        unvisited_are_fresh(before) ==> unvisited_are_fresh(after),
        lifecycle_ok(after),
        has_room(after, (k - 1) as nat),
        grows(before, after),
{
    lemma_same_shape(before, mid);
    lemma_same_shape(mid, after);
    if unvisited_are_fresh(before) {
        assert forall|i: int| 0 <= i < after.len() && (#[trigger] after[i].visits) == 0 implies after[i].score
            == 0 && after[i].children@.len() == 0 by {
            assert(i != leaf);
            if is_ancestor(mid, i, leaf) {
                assert(false);
            }
            assert(before[i] == mid[i]);
        }
    }
    if states_follow(before) {
        assert forall|i: int| 0 < i < after.len() implies follows(
            after[after[i].parent->0 as int].game_state,
            #[trigger] after[i].game_state,
        ) by {
            assert(follows(before[before[i].parent->0 as int].game_state, before[i].game_state));
            assert(after[i].game_state == mid[i].game_state);
            assert(after[after[i].parent->0 as int].game_state == mid[mid[i].parent->0 as int].game_state);
        }
    }
    assert forall|i: int| 0 <= i < after.len() && (#[trigger] after[i].children@).len() == 0 implies after[i].visits <= 1 by {
        if i != leaf && is_ancestor(mid, i, leaf) {
            lemma_ancestor_has_children(mid, i, leaf);
        }
    }
    assert forall|i: int| 0 <= i < after.len() implies (#[trigger] after[i].visits) + (k - 1) <= u32::MAX
        && i64::MIN + (k - 1) <= after[i].score <= i64::MAX - (k - 1) by {
        assert(before[i].visits + k <= u32::MAX);
        assert(before[0].visits + k <= u32::MAX);
    }
    lemma_grows_refl(before);
    assert(grows(before, mid)) by {
        assert forall|i: int| 0 <= i < before.len() implies before[i].children@.is_prefix_of(
            (#[trigger] mid[i]).children@,
        ) by {
            assert(before[i].children@.subrange(0, before[i].children@.len() as int) =~= before[i].children@);
        }
    }
    lemma_credited_grows(mid, after, leaf, r);
    lemma_grows_trans(before, mid, after);
}

impl<T> Node<T> {
    /// A root node holding `gs`.
    pub fn with_gs(gs: T) -> (r: Node<T>)
        ensures
            r.id == 0,
            r.parent is None,
            r.game_state == gs,
            is_fresh(r),
    {
        Node { id: 0, parent: None, game_state: gs, visits: 0, score: 0, children: Vec::new() }
    }

    /// A fresh node holding `gs`, to be appended to `arena` as a child of this node.
    pub fn new_child_with_gamestate(&self, arena: &Arena<Node<T>>, gs: T) -> (r: Node<T>)
        ensures
            r.id == arena@.len(),
            r.parent == Some(self.id),
            r.game_state == gs,
            is_fresh(r),
    {
        Node {
            id: arena.next_id(),
            parent: Some(self.id),
            game_state: gs,
            visits: 0,
            score: 0,
            children: Vec::new(),
        }
    }

    /// Whether the node has no children.
    pub fn is_leaf(&self) -> (r: bool)
        ensures
            r == (self.children@.len() == 0),
    {
        self.children.len() == 0
    }

    /// Whether the node has no parent.
    pub fn is_root(&self) -> (r: bool)
        ensures
            r == (self.parent is None),
    {
        match self.parent {
            None => true,
            Some(_) => false,
        }
    }
}

impl<T: Clone> Node<T> {
    /// A fresh node holding a copy of this node's state, to be appended to
    /// `arena` as a child of this node.
    pub fn new_child(&self, arena: &Arena<Node<T>>) -> (r: Node<T>)
        ensures
            r.id == arena@.len(),
            r.parent == Some(self.id),
            cloned(self.game_state, r.game_state),
            is_fresh(r),
    {
        self.new_child_with_gamestate(arena, self.game_state.clone())
    }
}

impl<T: Default> Node<T> {
    /// A root node holding the default domain state.
    pub fn default() -> (r: Node<T>)
        ensures
            r.id == 0,
            r.parent is None,
            call_ensures(T::default, (), r.game_state),
            is_fresh(r),
    {
        Node::with_gs(T::default())
    }
}

impl<T> Arena<Node<T>> {
    /// An arena whose only node is a root holding `gs`.
    pub fn new_with_gamestate(gs: T) -> (r: Self)
        ensures
            tree_wf(r@),
            lifecycle_ok(r@),
            r@.len() == 1,
            r@[0].id == 0,
            r@[0].parent is None,
            r@[0].game_state == gs,
            is_fresh(r@[0]),
    {
        let mut nodes: Vec<Node<T>> = Vec::new();
        nodes.push(Node::with_gs(gs));
        Arena { nodes }
    }

    /// The number of nodes, which is also the handle the next node gets.
    pub fn next_id(&self) -> (r: usize)
        ensures
            r == self@.len(),
    {
        self.nodes.len()
    }

    /// The node at `handle`.
    pub fn get(&self, handle: usize) -> (r: &Node<T>)
        requires
            handle < self@.len(),
        ensures
            *r == self@[handle as int],
    {
        &self.nodes[handle]
    }

    /// Sets the statistics of the node at `handle`, leaving all else as it was.
    pub fn set_stats(&mut self, handle: usize, score: i64, visits: u32)
        requires
            handle < old(self)@.len(),
        ensures
            final(self)@.len() == old(self)@.len(),
            final(self)@[handle as int].score == score,
            final(self)@[handle as int].visits == visits,
            final(self)@[handle as int].id == old(self)@[handle as int].id,
            final(self)@[handle as int].parent == old(self)@[handle as int].parent,
            final(self)@[handle as int].game_state == old(self)@[handle as int].game_state,
            final(self)@[handle as int].children == old(self)@[handle as int].children,
            forall|i: int| 0 <= i < old(self)@.len() && i != handle ==> final(self)@[i] == old(self)@[i],
    {
        self.nodes[handle].score = score;
        self.nodes[handle].visits = visits;
    }

    /// Appends `child`, a fresh node that names `parent`, as the last child of `parent`.
    fn push_child(&mut self, parent: usize, child: Node<T>)
        requires
            tree_wf(old(self)@),
            parent < old(self)@.len() < usize::MAX,
            child.id == old(self)@.len(),
            child.parent == Some(parent),
            is_fresh(child),
        ensures
            tree_wf(final(self)@),
            lifecycle_ok(old(self)@) ==> lifecycle_ok(final(self)@),
            grows(old(self)@, final(self)@),
            final(self)@.len() == old(self)@.len() + 1,
            final(self)@.last().id == old(self)@.len(),
            final(self)@.last().parent == Some(parent),
            final(self)@.last() == child,
            is_fresh(final(self)@.last()),
            final(self)@[parent as int].children@ == old(self)@[parent as int].children@.push(
                old(self)@.len() as usize,
            ),
            final(self)@[parent as int].id == old(self)@[parent as int].id,
            final(self)@[parent as int].parent == old(self)@[parent as int].parent,
            final(self)@[parent as int].game_state == old(self)@[parent as int].game_state,
            final(self)@[parent as int].visits == old(self)@[parent as int].visits,
            final(self)@[parent as int].score == old(self)@[parent as int].score,
            forall|i: int| 0 <= i < old(self)@.len() && i != parent ==> final(self)@[i] == old(self)@[i],
    {
        let id = self.nodes.len();
        self.nodes.push(child);
        self.nodes[parent].children.push(id);
        proof {
            let o = old(self)@;
            let s = self@;
            assert forall|i: int| 0 < i < s.len() implies (#[trigger] s[i].parent) is Some
                && s[i].parent->0 < i && s[s[i].parent->0 as int].children@.contains(i as usize) by {
                if i < o.len() {
                    let p = o[i].parent->0 as int;
                    let k = choose|k: int| 0 <= k < o[p].children@.len() && o[p].children@[k] == i as usize;
                    assert(s[p].children@[k] == i as usize);
                } else {
                    assert(s[parent as int].children@.last() == i as usize);
                }
            }
            assert forall|i: int, j: int|
                0 <= i < s.len() && 0 <= j < s[i].children@.len() implies i
                < #[trigger] s[i].children@[j] < s.len() && s[s[i].children@[j] as int].parent == Some(
                i as usize,
            ) by {
                if i != parent as int {
                    assert(s[i].children@[j] == o[i].children@[j]);
                } else if j < o[i].children@.len() {
                    assert(s[i].children@[j] == o[i].children@[j]);
                }
            }
            assert forall|i: int| 0 <= i < o.len() implies o[i].children@.is_prefix_of(
                (#[trigger] s[i]).children@,
            ) by {
                assert(s[i].children@.subrange(0, o[i].children@.len() as int) =~= o[i].children@);
            }
        }
    }

    /// Appends a fresh node holding `gs` as the last child of `parent`.
    pub fn child_from_with_gamestate(&mut self, parent: usize, gs: T)
        requires
            tree_wf(old(self)@),
            parent < old(self)@.len() < usize::MAX,
        ensures
            tree_wf(final(self)@),
            lifecycle_ok(old(self)@) ==> lifecycle_ok(final(self)@),
            grows(old(self)@, final(self)@),
            final(self)@.len() == old(self)@.len() + 1,
            final(self)@.last().id == old(self)@.len(),
            final(self)@.last().parent == Some(parent),
            final(self)@.last().game_state == gs,
            is_fresh(final(self)@.last()),
            final(self)@[parent as int].children@ == old(self)@[parent as int].children@.push(
                old(self)@.len() as usize,
            ),
            final(self)@[parent as int].id == old(self)@[parent as int].id,
            final(self)@[parent as int].parent == old(self)@[parent as int].parent,
            final(self)@[parent as int].game_state == old(self)@[parent as int].game_state,
            final(self)@[parent as int].visits == old(self)@[parent as int].visits,
            final(self)@[parent as int].score == old(self)@[parent as int].score,
            forall|i: int| 0 <= i < old(self)@.len() && i != parent ==> final(self)@[i] == old(self)@[i],
    {
        let child = self.nodes[parent].new_child_with_gamestate(self, gs);
        self.push_child(parent, child);
    }

    /// Adds the score of the leaf at `node` and one visit to every ancestor
    /// of it, up to and including the root. The leaf itself is unchanged.
    pub fn propagate_from(&mut self, node: usize)
        requires
            tree_wf(old(self)@),
            node < old(self)@.len(),
            old(self)@[node as int].children@.len() == 0,
            forall|j: int|
                0 <= j < old(self)@.len() && is_ancestor(old(self)@, j, node as int) ==> (#[trigger] old(self)@[j]).visits
                    < u32::MAX && i64::MIN <= old(self)@[j].score + old(self)@[node as int].score
                    <= i64::MAX,
        ensures
            tree_wf(final(self)@),
            credited(old(self)@, final(self)@, node as int, old(self)@[node as int].score as int),
            grows(old(self)@, final(self)@),
            final(self)@[node as int] == old(self)@[node as int],
    {
        let ghost o = self@;
        let scr = self.nodes[node].score;
        let mut cur: usize = node;
        while self.nodes[cur].parent.is_some()
            invariant
                tree_wf(o),
                self@.len() == o.len(),
                cur < o.len(),
                cur == node || is_ancestor(o, cur as int, node as int),
                scr == o[node as int].score,
                forall|j: int|
                    0 <= j < o.len() && is_ancestor(o, j, node as int) ==> (#[trigger] o[j]).visits
                        < u32::MAX && i64::MIN <= o[j].score + scr <= i64::MAX,
                forall|j: int|
                    0 <= j < o.len() ==> {
                        &&& (#[trigger] self@[j]).id == o[j].id
                        &&& self@[j].parent == o[j].parent
                        &&& self@[j].game_state == o[j].game_state
                        &&& self@[j].children == o[j].children
                        &&& if is_ancestor(o, j, node as int) && !is_ancestor(o, j, cur as int) {
                            self@[j].visits == o[j].visits + 1 && self@[j].score == o[j].score + scr
                        } else {
                            self@[j].visits == o[j].visits && self@[j].score == o[j].score
                        }
                    },
            decreases cur,
        {
            let p = self.nodes[cur].parent.unwrap();
            proof {
                assert(self@[cur as int].parent == o[cur as int].parent);
                if cur == 0 {
                    assert(false);
                }
                lemma_ancestor_step(o, cur as int, node as int);
                assert(is_ancestor(o, p as int, cur as int));
            }
            self.nodes[p].score = self.nodes[p].score + scr;
            self.nodes[p].visits = self.nodes[p].visits + 1;
            proof {
                assert forall|j: int| 0 <= j < o.len() && j != p implies is_ancestor(o, j, cur as int)
                    == is_ancestor(o, j, p as int) by {}
                if is_ancestor(o, p as int, p as int) {
                    lemma_ancestor_below(o, p as int, p as int);
                }
            }
            cur = p;
        }
        proof {
            assert(self@[cur as int].parent == o[cur as int].parent);
            if is_ancestor(o, node as int, node as int) {
                lemma_ancestor_below(o, node as int, node as int);
            }
            assert(self@[node as int] == o[node as int]);
            lemma_same_shape(o, self@);
            lemma_credited_grows(o, self@, node as int, scr as int);
        }
    }

    /// The average reward of a visited non-root node, on the fixed-point scale.
    fn exploitation_term(&self, node: usize) -> (r: i128)
        requires
            node < self@.len(),
            self@[node as int].visits > 0,
        ensures
            r == exploitation_fp(self@[node as int].score as int, self@[node as int].visits as nat),
            -0x8000_0000_0000_0000 * 0x10000 <= r <= 0x8000_0000_0000_0000 * 0x10000,
    {
        exploitation_fixed(self.nodes[node].score, self.nodes[node].visits)
    }

    /// The exploration bonus of a visited non-root node, on the fixed-point scale.
    fn exploration_term(&self, node: usize) -> (r: u64)
        requires
            tree_wf(self@),
            0 < node < self@.len(),
            self@[node as int].visits > 0,
        ensures
            r == exploration_fp(
                self@[self@[node as int].parent->0 as int].visits as nat,
                self@[node as int].visits as nat,
            ),
            r < 0x8000_0000,
    {
        let p = self.nodes[node].parent.unwrap();
        exploration_fixed(self.nodes[p].visits, self.nodes[node].visits)
    }

    /// The UCB1 key of the non-root node at `node`.
    fn key_of(&self, node: usize) -> (r: i128)
        requires
            tree_wf(self@),
            0 < node < self@.len(),
        ensures
            r == ucb1_key(self@, node as int),
    {
        if self.nodes[node].visits == 0 {
            i128::MAX
        } else {
            self.exploitation_term(node) + self.exploration_term(node) as i128
        }
    }

    /// The UCB1 key of the node at `node`, or `None` for the root, which has
    /// no parent to measure exploration against.
    pub fn ucb1_of(&self, node: usize) -> (r: Option<i128>)
        requires
            tree_wf(self@),
            node < self@.len(),
        ensures
            node == 0 ==> r is None,
            node != 0 ==> r == Some(ucb1_key(self@, node as int) as i128),
    {
        if self.nodes[node].is_root() {
            None
        } else {
            Some(self.key_of(node))
        }
    }

    /// The child of `node` with the largest UCB1 key; among equal keys, the
    /// one listed first.
    pub fn best_child(&self, node: usize) -> (r: usize)
        requires
            tree_wf(self@),
            node < self@.len(),
            self@[node as int].children@.len() > 0,
        ensures
            is_first_best_child(self@, node as int, r),
            node < r < self@.len(),
            self@[r as int].parent == Some(node),
    {
        let ghost s = self@;
        let ghost cs = s[node as int].children@;
        let children = &self.nodes[node].children;
        let mut best: usize = children[0];
        let mut best_key: i128 = self.key_of(best);
        let ghost mut bj: int = 0;
        let mut k: usize = 1;
        while k < children.len()
            invariant
                s == self@,
                tree_wf(s),
                node < s.len(),
                cs == s[node as int].children@,
                children@ == cs,
                1 <= k <= cs.len(),
                0 <= bj < k,
                best == cs[bj],
                best_key == ucb1_key(s, best as int),
                forall|m: int| 0 <= m < k ==> ucb1_key(s, #[trigger] cs[m] as int) <= best_key,
                forall|m: int| 0 <= m < bj ==> ucb1_key(s, #[trigger] cs[m] as int) < best_key,
            decreases cs.len() - k,
        {
            let c = children[k];
            let key = self.key_of(c);
            if key > best_key {
                best = c;
                best_key = key;
                proof {
                    bj = k as int;
                }
            }
            k = k + 1;
        }
        proof {
            assert(cs[bj] == best);
        }
        best
    }
}

impl<T: Clone + Default + MCTS<T>> Arena<Node<T>> {
    /// An arena whose only node is a root holding the default domain state.
    pub fn new() -> (r: Self)
        ensures
            tree_wf(r@),
            lifecycle_ok(r@),
            r@.len() == 1,
            r@[0].id == 0,
            r@[0].parent is None,
            call_ensures(T::default, (), r@[0].game_state),
            is_fresh(r@[0]),
    {
        Arena::new_with_gamestate(T::default())
    }

    /// Appends a fresh node holding a copy of the state of `parent` as the
    /// last child of `parent`.
    pub fn child_from(&mut self, parent: usize)
        requires
            tree_wf(old(self)@),
            parent < old(self)@.len() < usize::MAX,
        ensures
            tree_wf(final(self)@),
            lifecycle_ok(old(self)@) ==> lifecycle_ok(final(self)@),
            grows(old(self)@, final(self)@),
            final(self)@.len() == old(self)@.len() + 1,
            final(self)@.last().id == old(self)@.len(),
            final(self)@.last().parent == Some(parent),
            cloned(old(self)@[parent as int].game_state, final(self)@.last().game_state),
            is_fresh(final(self)@.last()),
            final(self)@[parent as int].children@ == old(self)@[parent as int].children@.push(
                old(self)@.len() as usize,
            ),
            final(self)@[parent as int].visits == old(self)@[parent as int].visits,
            final(self)@[parent as int].score == old(self)@[parent as int].score,
            forall|i: int| 0 <= i < old(self)@.len() && i != parent ==> final(self)@[i] == old(self)@[i],
    {
        let child = self.nodes[parent].new_child(self);
        self.push_child(parent, child);
    }

    /// Simulates the unvisited leaf at `node` once: its statistics become one
    /// visit and the reward of a random playout, and that reward and one
    /// visit are credited to every ancestor.
    fn rollout(&mut self, node: usize)
        requires
            tree_wf(old(self)@),
            node < old(self)@.len(),
            old(self)@[node as int].children@.len() == 0,
            old(self)@[node as int].visits == 0,
            has_room(old(self)@, 1),
        ensures
            tree_wf(final(self)@),
            rolled_out(old(self)@, final(self)@, node as int),
    {
        let r = self.nodes[node].game_state.terminate();
        self.nodes[node].score = r;
        self.nodes[node].visits = 1;
        let ghost mid = self@;
        proof {
            lemma_same_shape(old(self)@, mid);
            assert forall|j: int| 0 <= j < mid.len() && is_ancestor(mid, j, node as int)
                implies (#[trigger] mid[j]).visits < u32::MAX && i64::MIN <= mid[j].score + mid[node as int].score <= i64::MAX by {
                lemma_ancestor_below(mid, j, node as int);
                assert(old(self)@[j] == mid[j]);
            }
        }
        self.propagate_from(node);
        proof {
            assert(mid =~= old(self)@.update(node as int, self@[node as int]));
            assert(old(self)@[node as int].game_state.is_outcome(r as int));
        }
    }

    /// Runs `n` search passes. Each pass descends from the root through the
    /// children with the largest UCB1 key to a leaf; an unvisited leaf is
    /// simulated and its reward backpropagated, a leaf simulated once is
    /// expanded.
    #[verifier::rlimit(80)]
    pub fn iterate(&mut self, n: usize)
        requires
            tree_wf(old(self)@),
            lifecycle_ok(old(self)@),
            states_follow(old(self)@),
            has_room(old(self)@, n as nat),
        ensures
            tree_wf(final(self)@),
            lifecycle_ok(final(self)@),
            states_follow(final(self)@),
            unvisited_are_fresh(old(self)@) ==> unvisited_are_fresh(final(self)@),
            grows(old(self)@, final(self)@),
            exists|trace: Seq<Seq<Node<T>>>|
                trace.len() == n + 1 && #[trigger] trace[0] == old(self)@ && trace[n as int] == final(self)@
                    && forall|p: int| 0 <= p < n ==> #[trigger] one_pass(trace[p], trace[p + 1]),
            ({
                let root = old(self)@[0];
                old(self)@.len() == 1 && root.visits == 0 && n >= 2 && 0 < root.game_state.move_count()
                    < usize::MAX - 1
            }) ==> final(self)@[0].children@.len() > 0,
    {
        let ghost fresh = is_fresh_start(self@, n);
        let ghost o = self@;
        proof {
            lemma_grows_refl(o);
        }
        let mut it: usize = 0;
        let ghost mut trace: Seq<Seq<Node<T>>> = seq![o];
        while it < n
            invariant
                trace.len() == it + 1,
                trace[0] == o,
                trace[it as int] == self@,
                forall|p: int| 0 <= p < it ==> #[trigger] one_pass(trace[p], trace[p + 1]),
                tree_wf(self@),
                lifecycle_ok(self@),
                it <= n,
                states_follow(self@),
                unvisited_are_fresh(o) ==> unvisited_are_fresh(self@),
                has_room(self@, (n - it) as nat),
                grows(o, self@),
                fresh == is_fresh_start(o, n),
                it == 0 ==> self@ == o,
                fresh && it >= 1 ==> self@[0].children@.len() > 0 || (self@.len() == 1
                    && self@[0].visits >= 1),
                fresh && it >= 2 ==> self@[0].children@.len() > 0,
            decreases n - it,
        {
            let ghost before = self@;
            let mut cur: usize = 0;
            while !self.nodes[cur].is_leaf()
                invariant
                    self@ == before,
                    tree_wf(before),
                    cur < before.len(),
                    before[0].children@.len() == 0 ==> cur == 0,
                    leaf_from(before, cur as int) == leaf_from(before, 0),
                decreases before.len() - cur,
            {
                let next = self.best_child(cur);
                proof {
                    lemma_first_best_child_unique(before, cur as int, next);
                }
                cur = next;
            }
            proof {
                assert(before[0].visits + (n - it) <= u32::MAX);
            }
            if self.nodes[cur].visits == 0 {
                self.rollout(cur);
                proof {
                    let r = choose|r: int|
                        -1 <= r <= 1 && #[trigger] before[cur as int].game_state.is_outcome(r) && self@[cur as int].score == r
                            && self@[cur as int].visits == 1 && self@[cur as int].id == before[cur as int].id
                            && self@[cur as int].parent == before[cur as int].parent
                            && self@[cur as int].game_state == before[cur as int].game_state
                            && self@[cur as int].children == before[cur as int].children
                            && credited(before.update(cur as int, self@[cur as int]), self@, cur as int, r);
                    lemma_rollout_step(
                        before,
                        before.update(cur as int, self@[cur as int]),
                        self@,
                        cur as int,
                        r,
                        (n - it) as nat,
                    );
                    lemma_grows_trans(o, before, self@);
                    if unvisited_are_fresh(o) {
                        assert forall|i: int| 0 <= i < self@.len() && (#[trigger] self@[i].visits) == 0 implies self@[i].score
                            == 0 && self@[i].children@.len() == 0 by {
                            if i < before.len() {
                                assert(before[i].visits == 0);
                                assert(i != cur);
                            } else {
                                let m = i - before.len();
                                assert(is_fresh(self@[before.len() + m]));
                            }
                        }
                    }
                    if before[0].children@.len() > 0 {
                        assert(before[0].children@.is_prefix_of(self@[0].children@));
                    } else if fresh && it >= 1 {
                        assert(cur == 0);
                        assert(before[0].game_state == o[0].game_state);
                        assert(self@[0].children@.len() == before[0].game_state.move_count());
                    } else {
                        assert(cur == 0);
                        assert(self@.len() == before.len());
                        if fresh && it >= 1 {
                            assert(before.len() == 1 && before[0].visits >= 1);
                            assert(false);
                        }
                    }
                }
            } else {
                self.add_children(cur);
                proof {
                    let k = (n - it) as nat;
                    assert forall|i: int| 0 <= i < self@.len() implies (#[trigger] self@[i].visits) + (k - 1)
                        <= u32::MAX && i64::MIN + (k - 1) <= self@[i].score <= i64::MAX - (k - 1) by {
                        if i < before.len() {
                            assert(before[i].visits + k <= u32::MAX);
                        } else {
                            let m = i - before.len();
                            assert(self@[before.len() + m].visits == 0);
                        }
                    }
                    lemma_grows_trans(o, before, self@);
                    if unvisited_are_fresh(o) {
                        assert forall|i: int| 0 <= i < self@.len() && (#[trigger] self@[i].visits) == 0 implies self@[i].score
                            == 0 && self@[i].children@.len() == 0 by {
                            if i < before.len() {
                                assert(before[i].visits == 0);
                                assert(i != cur);
                            } else {
                                let m = i - before.len();
                                assert(is_fresh(self@[before.len() + m]));
                            }
                        }
                    }
                    if before[0].children@.len() > 0 {
                        assert(before[0].children@.is_prefix_of(self@[0].children@));
                    } else if fresh && it >= 1 {
                        assert(cur == 0);
                        assert(before[0].game_state == o[0].game_state);
                        assert(self@[0].children@.len() == before[0].game_state.move_count());
                    }
                }
            }
            proof {
                assert(leaf_from(before, cur as int) == cur);
                assert(one_pass(before, self@));
                let old_trace = trace;
                trace = trace.push(self@);
                assert forall|p: int| 0 <= p < it + 1 implies #[trigger] one_pass(trace[p], trace[p + 1]) by {
                    if p < it {
                        assert(trace[p] == old_trace[p] && trace[p + 1] == old_trace[p + 1]);
                    }
                }
            }
            it = it + 1;
        }
        proof {
            assert(trace[0] == o);
        }
    }
}

impl<T: MCTS<T>> Arena<Node<T>> {
    /// Expands the node at `node`: one fresh child per successor of its
    /// state, in the order the domain lists them. Where the arena could not
    /// hand out that many more handles, nothing changes.
    #[verifier::rlimit(100)]
    #[verifier::spinoff_prover]
    pub fn add_children(&mut self, node: usize)
        requires
            tree_wf(old(self)@),
            node < old(self)@.len(),
        ensures
            tree_wf(final(self)@),
            lifecycle_ok(old(self)@) ==> lifecycle_ok(final(self)@),
            states_follow(old(self)@) ==> states_follow(final(self)@),
            grows(old(self)@, final(self)@),
            expanded(old(self)@, final(self)@, node as int),
    {
        let ghost o = self@;
        let mut moves = self.nodes[node].game_state.available_moves();
        let ghost succ = moves@;
        if moves.len() >= usize::MAX - self.nodes.len() {
            proof {
                lemma_grows_refl(o);
            }
            return;
        }
        let ghost n0 = o.len();
        let mut k: usize = 0;
        while moves.len() > 0
            invariant
                tree_wf(self@),
                node < n0,
                n0 == o.len(),
                succ.len() == o[node as int].game_state.move_count(),
                forall|m: int| 0 <= m < succ.len() ==> o[node as int].game_state.is_nth_move(m, #[trigger] succ[m]),
                n0 + succ.len() < usize::MAX,
                k <= succ.len(),
                moves@ == succ.subrange(k as int, succ.len() as int),
                self@.len() == n0 + k,
                forall|m: int|
                    0 <= m < k ==> (#[trigger] self@[n0 + m]).game_state == succ[m]
                        && self@[n0 + m].parent == Some(node) && self@[n0 + m].id == n0 + m
                        && is_fresh(self@[n0 + m]),
                self@[node as int].children@ == o[node as int].children@ + Seq::new(
                    k as nat,
                    |m: int| (n0 + m) as usize,
                ),
                self@[node as int].id == o[node as int].id,
                self@[node as int].parent == o[node as int].parent,
                self@[node as int].game_state == o[node as int].game_state,
                self@[node as int].visits == o[node as int].visits,
                self@[node as int].score == o[node as int].score,
                forall|i: int| 0 <= i < n0 && i != node ==> self@[i] == o[i],
            decreases moves.len(),
        {
            let gs = moves.remove(0);
            proof {
                assert(gs == succ[k as int]);
            }
            self.child_from_with_gamestate(node, gs);
            proof {
                assert(self@[node as int].children@ =~= o[node as int].children@ + Seq::new(
                    (k + 1) as nat,
                    |m: int| (n0 + m) as usize,
                ));
            }
            k = k + 1;
            proof {
                assert(moves@ =~= succ.subrange(k as int, succ.len() as int));
            }
        }
        proof {
            if lifecycle_ok(o) {
                assert forall|i: int| 0 <= i < self@.len() && (#[trigger] self@[i].children@).len() == 0 implies self@[i].visits <= 1 by {
                    if i < n0 && i != node {
                        assert(self@[i] == o[i]);
                    } else if i >= n0 {
                        assert(is_fresh(self@[n0 + (i - n0)]));
                    }
                }
            }
            if states_follow(o) {
                assert forall|i: int| 0 < i < self@.len() implies follows(
                    self@[self@[i].parent->0 as int].game_state,
                    #[trigger] self@[i].game_state,
                ) by {
                    if i < n0 {
                        assert(follows(o[o[i].parent->0 as int].game_state, o[i].game_state));
                        assert(self@[i].game_state == o[i].game_state);
                        assert(self@[i].parent == o[i].parent);
                        let q = o[i].parent->0 as int;
                        assert(self@[q].game_state == o[q].game_state);
                    } else {
                        let m = i - n0;
                        assert(o[node as int].game_state.is_nth_move(m, self@[n0 + m].game_state));
                    }
                }
            }
            assert forall|i: int| 0 <= i < o.len() implies o[i].children@.is_prefix_of(
                (#[trigger] self@[i]).children@,
            ) by {
                if i != node {
                    assert(o[i].children@.subrange(0, o[i].children@.len() as int) =~= o[i].children@);
                } else {
                    assert(self@[i].children@.subrange(0, o[i].children@.len() as int) =~= o[i].children@);
                }
            }
        }
    }
}

} // verus!
