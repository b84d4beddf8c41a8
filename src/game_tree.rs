//! Monte-Carlo tree search over an arena of nodes: expansion, random rollouts,
//! back-propagation and the robust-child move choice.

use vstd::prelude::*;

use crate::board::{head, safety_spec, state_wf, Snake, SnakeModel, State, StateModel};
use crate::point::{dir_at, movable, neighbour, Dir, Point, SafetyIndex};
use crate::profile::{AStarBasic, Profile};
use crate::simulator::{advance_outcome, advance_state, moves_known, moves_view, potential, process_step, Future};

verus! {

/// Relies on `rand::Rng::gen_range` over the thread-local generator of `rand::thread_rng`:
/// a number drawn from `0..n`, which is non-empty.
#[verifier::external_body]
fn random_below(n: u32) -> (r: u32)
    requires
        n > 0,
    ensures
        r < n,
{
    rand::Rng::gen_range(&mut rand::thread_rng(), 0..n)
}

/// The directions among the first `n` of the scan order whose target cell is safe, or
/// risky unless `avoid_risky`.
pub open spec fn succ_dirs_upto(me: SnakeModel, st: StateModel, avoid_risky: bool, n: int) -> Seq<Dir>
    decreases n,
{
    if n <= 0 {
        Seq::empty()
    } else {
        let rest = succ_dirs_upto(me, st, avoid_risky, n - 1);
        let level = safety_spec(neighbour(head(me), dir_at(n - 1)), me, st);
        if level == SafetyIndex::Safe || (level == SafetyIndex::Risky && !avoid_risky) {
            rest.push(dir_at(n - 1))
        } else {
            rest
        }
    }
}

proof fn lemma_succ_dirs_len(me: SnakeModel, st: StateModel, avoid_risky: bool, n: int)
    requires
        0 <= n,
    ensures
        succ_dirs_upto(me, st, avoid_risky, n).len() <= n,
    decreases n,
{
    if n > 0 {
        lemma_succ_dirs_len(me, st, avoid_risky, n - 1);
    }
}

/// The moves of agent `s` onto safe cells, and onto risky ones unless `avoid_risky`, in
/// the order Up, Down, Left, Right.
pub fn get_snake_successors(s: &Snake, st: &State, avoid_risky: bool) -> (r: Vec<Dir>)
    requires
        state_wf(st@),
        s.body.len() >= 1,
        movable(head(s@)),
    ensures
        r@ == succ_dirs_upto(s@, st@, avoid_risky, 4),
{
    let h = s.body[0];
    let dirs = [Dir::Up, Dir::Down, Dir::Left, Dir::Right];
    let mut r: Vec<Dir> = Vec::new();
    let mut i: usize = 0;
    while i < 4
        invariant
            state_wf(st@),
            s.body.len() >= 1,
            h == head(s@),
            movable(h),
            i <= 4,
            forall|k: int| 0 <= k < 4 ==> dirs[k] == #[trigger] dir_at(k),
            r@ == succ_dirs_upto(s@, st@, avoid_risky, i as int),
        decreases 4 - i,
    {
        let d = dirs[i];
        assert(d == dir_at(i as int));
        let level = d.resulting_point(h).safety_index(s, st);
        if level == SafetyIndex::Safe || (level == SafetyIndex::Risky && !avoid_risky) {
            r.push(d);
        }
        i += 1;
    }
    r
}

/// A direction picked uniformly from `dirs`, or up when it is empty.
fn pick_random(dirs: &Vec<Dir>) -> (r: Dir)
    requires
        dirs@.len() <= 4,
    ensures
        dirs@.len() > 0 ==> dirs@.contains(r),
        dirs@.len() == 0 ==> r == Dir::Up,
{
    if dirs.len() == 0 {
        return Dir::Up;
    }
    let k = random_below(dirs.len() as u32) as usize;
    let d = dirs[k];
    assert(dirs@[k as int] == d);
    d
}

/// The already-lost children of a protagonist's node whose first `base` slots are taken:
/// for each of the first `n` directions whose target cell is risky, while a slot is free,
/// the protagonist's move onto that cell and the opponent's move towards it.
pub open spec fn loss_upto(me: SnakeModel, enemy_head: Point, st: StateModel, base: int, n: int) -> Seq<(Dir, Dir)>
    decreases n,
{
    if n <= 0 {
        Seq::empty()
    } else {
        let r = loss_upto(me, enemy_head, st, base, n - 1);
        let p = neighbour(head(me), dir_at(n - 1));
        if base + r.len() < 4 && safety_spec(p, me, st) == SafetyIndex::Risky && crate::point::dir_to_spec(
            head(me),
            p,
        ) is Some && crate::point::dir_to_spec(enemy_head, p) is Some {
            r.push((crate::point::dir_to_spec(head(me), p)->0, crate::point::dir_to_spec(enemy_head, p)->0))
        } else {
            r
        }
    }
}

/// Some joint moves, each naming agents on the board, lead from `st` to a win of `me`
/// (protagonist alive and the game over) within `n` further turns.
pub open spec fn can_win(st: StateModel, me: Seq<char>, n: nat) -> bool
    decreases n,
{
    exists|mv: Seq<(Seq<char>, Dir)>|
        #[trigger] moves_known(st, mv) && ((advance_outcome(st, me, mv).finished && advance_outcome(
            st,
            me,
            mv,
        ).alive) || (n > 0 && !advance_outcome(st, me, mv).finished && can_win(
            advance_state(st, me, mv),
            me,
            (n - 1) as nat,
        )))
}

/// Some joint moves, each naming agents on the board, lead from `st` to a loss of `me`
/// (the game over with the protagonist dead) within `n` further turns.
pub open spec fn can_lose(st: StateModel, me: Seq<char>, n: nat) -> bool
    decreases n,
{
    exists|mv: Seq<(Seq<char>, Dir)>|
        #[trigger] moves_known(st, mv) && ((advance_outcome(st, me, mv).finished && !advance_outcome(
            st,
            me,
            mv,
        ).alive) || (n > 0 && !advance_outcome(st, me, mv).finished && can_lose(
            advance_state(st, me, mv),
            me,
            (n - 1) as nat,
        )))
}

/// The rollout move of an agent for a draw `coin` below 5 and a draw `pick`: the
/// food-seeking controller's move when `coin` is 0, otherwise the move at `pick` among its
/// safe or risky moves, up when there is none.
pub open spec fn rollout_move_spec(me: SnakeModel, st: StateModel, coin: u32, pick: usize) -> Dir {
    let succ = succ_dirs_upto(me, st, false, 4);
    if coin == 0 {
        crate::profile::astar_basic_spec(me, st)
    } else if succ.len() == 0 {
        Dir::Up
    } else {
        succ[(pick as int) % (succ.len() as int)]
    }
}

/// The rollout move of agent `s` for the draws `coin` and `pick`.
pub fn rollout_move(s: &Snake, st: &State, coin: u32, pick: usize, astar: &mut AStarBasic) -> (r: Dir)
    requires
        state_wf(st@),
        s.body.len() >= 2,
        movable(head(s@)),
    ensures
        r == rollout_move_spec(s@, st@, coin, pick),
{
    if coin == 0 {
        astar.get_move(s, st)
    } else {
        let succ = get_snake_successors(s, st, false);
        if succ.len() == 0 {
            Dir::Up
        } else {
            succ[pick % succ.len()]
        }
    }
}

/// One random rollout turn: each agent follows the food-seeking controller one time in
/// five, and otherwise moves at random onto a safe or risky cell (up when there is none).
pub fn get_rollout_moves(st: &State, astar: &mut AStarBasic) -> (r: Vec<(String, Dir)>)
    requires
        state_wf(st@),
    ensures
        r@.len() == st@.snakes.len(),
        forall|k: int| 0 <= k < r@.len() ==> (#[trigger] r@[k]).0@ == st@.snakes[k].id,
        moves_known(st@, moves_view(r@)),
        forall|k: int|
            0 <= k < r@.len() ==> {
                let d = (#[trigger] r@[k]).1;
                let succ = succ_dirs_upto(st@.snakes[k], st@, false, 4);
                d == crate::profile::astar_basic_spec(st@.snakes[k], st@) || succ.contains(d) || (succ.len() == 0
                    && d == Dir::Up)
            },
{
    let mut dirs: Vec<(String, Dir)> = Vec::new();
    let mut i: usize = 0;
    while i < st.board.snakes.len()
        invariant
            state_wf(st@),
            i <= st@.snakes.len(),
            st@.snakes.len() == st.board.snakes.len(),
            dirs@.len() == i,
            forall|k: int| 0 <= k < i ==> (#[trigger] dirs@[k]).0@ == st@.snakes[k].id,
            forall|k: int|
                0 <= k < i ==> {
                    let d = (#[trigger] dirs@[k]).1;
                    let succ = succ_dirs_upto(st@.snakes[k], st@, false, 4);
                    d == crate::profile::astar_basic_spec(st@.snakes[k], st@) || succ.contains(d) || (succ.len()
                        == 0 && d == Dir::Up)
                },
        decreases st@.snakes.len() - i,
    {
        let s = &st.board.snakes[i];
        assert(s@ == st@.snakes[i as int]);
        proof {
            crate::board::lemma_head_movable(st@, i as int);
        }
        assert(st@.snakes[i as int].body.len() >= 2);
        let coin = random_below(5);
        let options = get_snake_successors(s, st, false).len();
        proof {
            lemma_succ_dirs_len(s@, st@, false, 4);
        }
        let pick: usize = if options == 0 {
            0
        } else {
            random_below(options as u32) as usize
        };
        let d = rollout_move(s, st, coin, pick, astar);
        proof {
            let succ = succ_dirs_upto(s@, st@, false, 4);
            if coin != 0 && succ.len() > 0 {
                assert(succ.contains(succ[(pick as int) % (succ.len() as int)]));
            }
        }
        dirs.push((s.id.clone(), d));
        i += 1;
    }
    proof {
        assert forall|k: int| 0 <= k < moves_view(dirs@).len() implies #[trigger] moves_view(dirs@)[k].0
            == st@.snakes[k].id by {
            assert(moves_view(dirs@)[k].0 == dirs@[k].0@);
        }
        crate::simulator::lemma_moves_in_order(st@, moves_view(dirs@));
    }
    assert(moves_known(st@, moves_view(dirs@)));
    dirs
}

} // verus!

verus! {

/// A node of the search tree.
#[derive(Clone, Debug)]
struct Node {
    parent: Option<usize>,
    children: [Option<usize>; 4],
    score: usize,
    sim_count: usize,
    state: State,
    future: Option<Future>,
    is_self_node: bool,
}

/// A Monte-Carlo search tree whose nodes live in one growing vector and refer to each
/// other by index. The root is node 0 and stands for the opponent's turn, so that the
/// first expansion plays the protagonist's moves.
#[derive(Clone, Debug)]
pub struct GameTree {
    inner_vec: Vec<Node>,
    self_id: String,
    enemy_id: String,
    astar: AStarBasic,
}

/// The game is still open at this node, so it can be expanded or rolled out.
spec fn node_ready(n: Node) -> bool {
    !(n.future matches Some(f) && f.finished)
}

/// Visits of the node in a child slot.
spec fn slot_visits(t: Seq<Node>, c: Option<usize>) -> int {
    match c {
        Some(j) => if j < t.len() {
            t[j as int].sim_count as int
        } else {
            0
        },
        None => 0,
    }
}

/// Sum of the visits of the children of node `i`.
spec fn child_sum(t: Seq<Node>, i: int) -> int {
    slot_visits(t, t[i].children[0]) + slot_visits(t, t[i].children[1]) + slot_visits(
        t,
        t[i].children[2],
    ) + slot_visits(t, t[i].children[3])
}

/// A node has one visit more than its children together.
spec fn slack(i: int) -> int {
    1
}

/// The arena is non-empty and fits in memory; the root has no parent and every other
/// node has an earlier parent.
#[verifier::opaque]
spec fn links_parents(t: Seq<Node>) -> bool {
    &&& 1 <= t.len() <= usize::MAX
    &&& t[0].parent is None
    &&& forall|i: int| 0 < i < t.len() ==> (#[trigger] t[i].parent matches Some(p) && p < i)
}

/// Each filled child slot names a later node whose parent is this node.
#[verifier::opaque]
spec fn links_slots(t: Seq<Node>) -> bool {
    forall|i: int, c: int|
        0 <= i < t.len() && 0 <= c < 4 && (#[trigger] t[i].children[c]) is Some ==> i < t[i].children[c]->0
            < t.len() && t[t[i].children[c]->0 as int].parent == Some(i as usize)
}

/// Child slots fill from the front.
#[verifier::opaque]
spec fn links_prefix(t: Seq<Node>) -> bool {
    forall|i: int, c: int|
        0 <= i < t.len() && 1 <= c < 4 && (#[trigger] t[i].children[c]) is Some ==> t[i].children[c
            - 1] is Some
}

/// The filled child slots of a node name distinct nodes.
#[verifier::opaque]
spec fn links_distinct(t: Seq<Node>) -> bool {
    forall|i: int, c: int, d: int|
        0 <= i < t.len() && 0 <= c < 4 && 0 <= d < 4 && c != d && (#[trigger] t[i].children[c]) is Some
            ==> t[i].children[c] != #[trigger] t[i].children[d]
}

/// Every node other than the root is listed by its parent.
#[verifier::opaque]
spec fn links_listed(t: Seq<Node>) -> bool {
    forall|j: int|
        #![trigger t[j].parent]
        0 < j < t.len() ==> exists|c: int|
            #![trigger t[t[j].parent->0 as int].children[c]]
            0 <= c < 4 && t[t[j].parent->0 as int].children[c] == Some(j as usize)
}

/// The arena is a tree rooted at 0 whose links agree both ways and whose child slots
/// fill from the front with distinct later nodes.
spec fn tree_links(t: Seq<Node>) -> bool {
    links_parents(t) && links_slots(t) && links_prefix(t) && links_distinct(t) && links_listed(t)
}

/// Rewards never exceed visits, and a node is visited more often than its children
/// together.
#[verifier::opaque]
spec fn tree_counts(t: Seq<Node>) -> bool {
    &&& forall|i: int| 0 <= i < t.len() ==> #[trigger] t[i].score <= t[i].sim_count
    &&& forall|i: int|
        0 <= i < t.len() && (#[trigger] t[i].children[0]) is Some ==> child_sum(t, i) + slack(i)
            <= t[i].sim_count
}

/// Open nodes hold well-formed states.
#[verifier::opaque]
spec fn tree_states(t: Seq<Node>) -> bool {
    forall|i: int|
        0 <= i < t.len() && node_ready(#[trigger] t[i]) ==> state_wf(t[i].state@)
            && t[i].state.board.snakes.len() <= u16::MAX
}

/// The arena is a well-formed search tree.
spec fn tree_ok(t: Seq<Node>) -> bool {
    tree_links(t) && tree_counts(t) && tree_states(t)
}

/// Changing only rewards and visits keeps the links.
proof fn lemma_same_links(t: Seq<Node>, t2: Seq<Node>)
    requires
        tree_links(t),
        t2.len() == t.len(),
        forall|j: int| 0 <= j < t.len() ==> (#[trigger] t2[j]).parent == t[j].parent && t2[j].children == t[j].children,
    ensures
        tree_links(t2),
{
    reveal(links_parents);
    reveal(links_slots);
    reveal(links_prefix);
    reveal(links_distinct);
    reveal(links_listed);
    assert forall|j: int, c: int| 0 <= j < t.len() && 0 <= c < 4 implies #[trigger] t2[j].children[c]
        == t[j].children[c] by {
        assert(t2[j].children == t[j].children);
    }
    assert forall|j: int|
        #![trigger t2[j].parent]
        0 < j < t2.len() implies exists|c: int|
        #![trigger t2[t2[j].parent->0 as int].children[c]]
        0 <= c < 4 && t2[t2[j].parent->0 as int].children[c] == Some(j as usize) by {
        assert(t2[j].parent == t[j].parent);
        let p = t[j].parent->0 as int;
        let c = choose|c: int| 0 <= c < 4 && t[p].children[c] == Some(j as usize);
        assert(t2[p].children == t[p].children);
    }
}

/// Changing only rewards, visits and child slots keeps the states.
proof fn lemma_same_states(t: Seq<Node>, t2: Seq<Node>)
    requires
        tree_states(t),
        t2.len() == t.len(),
        forall|j: int| 0 <= j < t.len() ==> (#[trigger] t2[j]).state == t[j].state && t2[j].future == t[j].future,
    ensures
        tree_states(t2),
{
    reveal(tree_states);
    assert forall|i: int| 0 <= i < t2.len() && node_ready(#[trigger] t2[i]) implies state_wf(
        t2[i].state@,
    ) && t2[i].state.board.snakes.len() <= u16::MAX by {
        assert(node_ready(t[i]));
    }
}

/// Node `i` is node `n` or one of its ancestors.
spec fn on_path(t: Seq<Node>, n: int, i: int) -> bool
    decreases n,
{
    if n < 0 || n >= t.len() {
        false
    } else if i == n {
        true
    } else {
        match t[n].parent {
            Some(p) => if p < n {
                on_path(t, p as int, i)
            } else {
                false
            },
            None => false,
        }
    }
}

impl GameTree {
    /// Node `i` is node `n` or one of its ancestors.
    pub closed spec fn on_path_to_root(&self, n: int, i: int) -> bool {
        on_path(self.inner_vec@, n, i)
    }

    /// The tree is well formed.
    pub closed spec fn wf(&self) -> bool {
        tree_ok(self.inner_vec@)
    }

    /// The number of nodes.
    pub closed spec fn node_count(&self) -> nat {
        self.inner_vec@.len()
    }

    /// How often node `i` was visited.
    pub closed spec fn sims(&self, i: int) -> nat {
        self.inner_vec@[i].sim_count as nat
    }

    /// The summed rewards of node `i`.
    pub closed spec fn reward(&self, i: int) -> nat {
        self.inner_vec@[i].score as nat
    }

    /// Child slot `c` of node `i`.
    pub closed spec fn child(&self, i: int, c: int) -> Option<usize> {
        self.inner_vec@[i].children[c]
    }

    /// The recorded outcome of the turn that led to node `i`, if any.
    pub closed spec fn outcome(&self, i: int) -> Option<Future> {
        self.inner_vec@[i].future
    }

    /// The state at node `i`.
    pub closed spec fn node_state(&self, i: int) -> StateModel {
        self.inner_vec@[i].state@
    }

    /// The id of the protagonist.
    pub closed spec fn protagonist(&self) -> Seq<char> {
        self.self_id@
    }

    /// The agent whose moves the children of node `i` stand for: the protagonist below an
    /// opponent's node, the opponent below a protagonist's node.
    pub closed spec fn mover_of(&self, i: int) -> Seq<char> {
        if self.inner_vec@[i].is_self_node {
            self.enemy_id@
        } else {
            self.self_id@
        }
    }

    /// The moves expanded below node `i`: the mover's moves onto safe cells, and for the
    /// opponent also onto risky ones, in the order Up, Down, Left, Right.
    pub closed spec fn moves_at(&self, i: int) -> Seq<Dir> {
        let st = self.node_state(i);
        let id = self.mover_of(i);
        succ_dirs_upto(st.snakes[crate::alpha_beta::idx_of(st, id)], st, !self.inner_vec@[i].is_self_node, 4)
    }

    /// Both trees hold the same nodes for the same two agents.
    pub closed spec fn same_as(&self, o: GameTree) -> bool {
        &&& self.inner_vec@ == o.inner_vec@
        &&& self.self_id@ == o.self_id@
        &&& self.enemy_id@ == o.enemy_id@
    }

    /// Both trees have the same nodes, links, states and outcomes for the same two agents;
    /// only visits and rewards may differ.
    pub closed spec fn same_shape(&self, o: GameTree) -> bool {
        &&& self.inner_vec@.len() == o.inner_vec@.len()
        &&& self.self_id@ == o.self_id@
        &&& self.enemy_id@ == o.enemy_id@
        &&& forall|j: int|
            0 <= j < self.inner_vec@.len() ==> {
                &&& (#[trigger] self.inner_vec@[j]).parent == o.inner_vec@[j].parent
                &&& self.inner_vec@[j].children == o.inner_vec@[j].children
                &&& self.inner_vec@[j].state == o.inner_vec@[j].state
                &&& self.inner_vec@[j].future == o.inner_vec@[j].future
                &&& self.inner_vec@[j].is_self_node == o.inner_vec@[j].is_self_node
            }
    }

    /// The id of the opponent.
    pub closed spec fn opponent(&self) -> Seq<char> {
        self.enemy_id@
    }

    /// The already-lost children expanded below a protagonist's node `i`: for each risky
    /// neighbour of its head, the protagonist's move onto it and the opponent's move towards
    /// it, while child slots are free; none below an opponent's node or without opponent.
    pub closed spec fn loss_moves_at(&self, i: int) -> Seq<(Dir, Dir)> {
        let st = self.node_state(i);
        if !self.inner_vec@[i].is_self_node && crate::alpha_beta::present(st, self.enemy_id@) {
            loss_upto(
                st.snakes[crate::alpha_beta::idx_of(st, self.self_id@)],
                head(st.snakes[crate::alpha_beta::idx_of(st, self.enemy_id@)]),
                st,
                self.moves_at(i).len() as int,
                4,
            )
        } else {
            Seq::empty()
        }
    }

    /// The parent of node `i`.
    pub closed spec fn parent(&self, i: int) -> Option<usize> {
        self.inner_vec@[i].parent
    }

    /// A tree holding only the root, for `state` with protagonist `self_id` and opponent
    /// `enemy_id`.
    pub fn new(state: State, self_id: String, enemy_id: String) -> (r: Self)
        requires
            state_wf(state@),
            state.board.snakes.len() <= u16::MAX,
        ensures
            r.wf(),
            r.node_count() == 1,
            r.sims(0) == 0,
    {
        let t = Self {
            inner_vec: vec![
                Node {
                    parent: None,
                    children: [None, None, None, None],
                    score: 0,
                    sim_count: 0,
                    future: None,
                    state,
                    is_self_node: false,
                },
            ],
            self_id,
            enemy_id,
            astar: AStarBasic::new(),
        };
        assert(tree_ok(t.inner_vec@)) by {
            reveal(links_parents);
            reveal(links_slots);
            reveal(links_prefix);
            reveal(links_distinct);
            reveal(links_listed);
            reveal(tree_counts);
            reveal(tree_states);
            assert(t.inner_vec@.len() == 1);
            assert(node_ready(t.inner_vec@[0]));
        }
        t
    }

    /// The number of nodes.
    pub fn len(&self) -> (r: usize)
        ensures
            r == self.node_count(),
    {
        self.inner_vec.len()
    }

    /// The child slots of node `node_id`.
    pub fn node_children(&self, node_id: usize) -> (r: [Option<usize>; 4])
        requires
            node_id < self.node_count(),
        ensures
            forall|c: int| 0 <= c < 4 ==> r[c] == self.child(node_id as int, c),
    {
        self.inner_vec[node_id].children
    }

    /// The summed rewards and the visit count of node `node_id`.
    pub fn node_stats(&self, node_id: usize) -> (r: (usize, usize))
        requires
            node_id < self.node_count(),
        ensures
            r.0 == self.reward(node_id as int),
            r.1 == self.sims(node_id as int),
    {
        (self.inner_vec[node_id].score, self.inner_vec[node_id].sim_count)
    }

    /// Whether node `node_id` has no children yet.
    pub fn node_is_leaf(&self, node_id: usize) -> (r: bool)
        requires
            node_id < self.node_count(),
        ensures
            r == (self.child(node_id as int, 0) is None),
    {
        self.inner_vec[node_id].children[0].is_none()
    }

    /// Whether node `node_id` has been visited.
    pub fn node_has_sims(&self, node_id: usize) -> (r: bool)
        requires
            node_id < self.node_count(),
        ensures
            r == (self.sims(node_id as int) > 0),
    {
        self.inner_vec[node_id].sim_count > 0
    }
}

/// The arena fits in memory.
proof fn lemma_len(t: Seq<Node>)
    requires
        tree_links(t),
    ensures
        1 <= t.len() <= usize::MAX,
{
    reveal(links_parents);
    reveal(links_slots);
    reveal(links_prefix);
    reveal(links_distinct);
    reveal(links_listed);
}

/// Per-node visits and rewards while the path is updated from position `lo` on.
spec fn counts_from(t0: Seq<Node>, t: Seq<Node>, path: Seq<usize>, lo: int, score: int) -> bool {
    forall|i: int|
        0 <= i < t0.len() ==> #[trigger] t[i].sim_count == t0[i].sim_count + (if in_list(path, lo, i) {
            1int
        } else {
            0int
        }) && t[i].score == t0[i].score + (if in_list(path, lo, i) {
            score
        } else {
            0int
        })
}

/// Updating the node at position `lo` of the path extends the updated stretch to `lo`.
proof fn lemma_counts_step(t0: Seq<Node>, t: Seq<Node>, t2: Seq<Node>, path: Seq<usize>, lo: int, u: int, score: int)
    requires
        0 <= lo < path.len(),
        path[lo] as int == u,
        0 <= u < t0.len(),
        t.len() == t0.len(),
        t2.len() == t0.len(),
        counts_from(t0, t, path, lo + 1, score),
        !in_list(path, lo + 1, u),
        forall|j: int| 0 <= j < t.len() && j != u ==> t2[j] == t[j],
        t2[u].sim_count == t[u].sim_count + 1,
        t2[u].score == t[u].score + score,
    ensures
        counts_from(t0, t2, path, lo, score),
{
    assert forall|i: int| 0 <= i < t0.len() implies #[trigger] t2[i].sim_count == t0[i].sim_count + (if in_list(
        path,
        lo,
        i,
    ) {
        1int
    } else {
        0int
    }) && t2[i].score == t0[i].score + (if in_list(path, lo, i) {
        score
    } else {
        0int
    }) by {
        assert(t[i].sim_count == t0[i].sim_count + (if in_list(path, lo + 1, i) {
            1int
        } else {
            0int
        }));
        if in_list(path, lo, i) && i != u {
            let w = choose|w: int| lo <= w < path.len() && path[w] as int == i;
            assert(w != lo);
        }
        if in_list(path, lo + 1, i) {
            let w = choose|w: int| lo + 1 <= w < path.len() && path[w] as int == i;
            assert(lo <= w);
        }
        if i == u {
            assert(path[lo] as int == i);
        }
    }
}

/// Some entry of `v` from position `lo` on is `i`.
spec fn in_list(v: Seq<usize>, lo: int, i: int) -> bool {
    exists|m: int| lo <= m < v.len() && v[m] as int == i
}

/// A list whose successive entries decrease is decreasing throughout.
proof fn lemma_decreasing(v: Seq<usize>, a: int, b: int)
    requires
        0 <= a < b < v.len(),
        forall|k: int| 0 <= k < v.len() - 1 ==> v[k + 1] < #[trigger] v[k],
    ensures
        v[b] < v[a],
    decreases b - a,
{
    if b > a + 1 {
        lemma_decreasing(v, a, b - 1);
        assert(v[b] < v[b - 1]);
    } else {
        assert(v[a + 1] < v[a]);
    }
}

/// The parent of a non-root node lists it in exactly one slot.
proof fn lemma_parent_slot(t: Seq<Node>, u: int) -> (c: int)
    requires
        tree_links(t),
        0 < u < t.len(),
    ensures
        0 <= c < 4,
        0 <= t[u].parent->0 < u,
        t[t[u].parent->0 as int].children[c] == Some(u as usize),
        forall|d: int|
            0 <= d < 4 && d != c ==> #[trigger] t[t[u].parent->0 as int].children[d] != Some(u as usize),
{
    reveal(links_parents);
    reveal(links_slots);
    reveal(links_prefix);
    reveal(links_distinct);
    reveal(links_listed);
    let q = t[u].parent->0 as int;
    choose|c: int| 0 <= c < 4 && t[q].children[c] == Some(u as usize)
}

/// Only the parent of `u` lists `u` in a slot, and `u` does not list itself.
proof fn lemma_not_child(t: Seq<Node>, u: int, r: int, c: int)
    requires
        tree_links(t),
        0 <= u < t.len(),
        0 <= r < t.len(),
        0 <= c < 4,
        t[r].children[c] == Some(u as usize),
    ensures
        u != 0,
        r == t[u].parent->0,
        r < u,
{
    reveal(links_parents);
    reveal(links_slots);
    reveal(links_prefix);
    reveal(links_distinct);
    reveal(links_listed);
}

/// Changing the visits of `u` alone changes the child sums of its parent only, by the
/// change.
proof fn lemma_sum_change(t: Seq<Node>, t2: Seq<Node>, u: int, r: int)
    requires
        tree_links(t),
        0 <= u < t.len(),
        0 <= r < t.len(),
        t2.len() == t.len(),
        forall|j: int| 0 <= j < t.len() && j != u ==> t2[j] == t[j],
        t2[u].children == t[u].children,
        t2[u].sim_count == t[u].sim_count + 1,
    ensures
        t2[r].children == t[r].children,
        (u == 0 || r != t[u].parent->0) ==> child_sum(t2, r) == child_sum(t, r),
        (u != 0 && r == t[u].parent->0) ==> child_sum(t2, r) == child_sum(t, r) + 1,
{
    lemma_len(t);
    assert(t2[r].children == t[r].children);
    if u != 0 && r == t[u].parent->0 {
        let c0 = lemma_parent_slot(t, u);
        assert forall|c: int| 0 <= c < 4 && c != c0 implies slot_visits(t2, #[trigger] t[r].children[c])
            == slot_visits(t, t[r].children[c]) by {
        }
        assert(slot_visits(t2, t[r].children[c0]) == slot_visits(t, t[r].children[c0]) + 1);
        if c0 == 0 {
        } else if c0 == 1 {
        } else if c0 == 2 {
        } else {
        }
    } else {
        assert forall|c: int| 0 <= c < 4 implies slot_visits(t2, #[trigger] t[r].children[c]) == slot_visits(
            t,
            t[r].children[c],
        ) by {
            if t[r].children[c] == Some(u as usize) {
                lemma_not_child(t, u, r, c);
            }
        }
    }
}

/// Bumping the reward and visits of node `u`, whose parent had room for one more child
/// visit, keeps the tree well formed and leaves room below `u`.
proof fn lemma_bump(t: Seq<Node>, t2: Seq<Node>, u: int, s: int)
    requires
        tree_ok(t),
        0 <= u < t.len(),
        0 <= s <= 1,
        t[u].sim_count < usize::MAX,
        u != 0 ==> child_sum(t, t[u].parent->0 as int) + slack(t[u].parent->0 as int) + 1
            <= t[t[u].parent->0 as int].sim_count,
        t2.len() == t.len(),
        forall|j: int| 0 <= j < t.len() && j != u ==> t2[j] == t[j],
        t2[u].children == t[u].children,
        t2[u].parent == t[u].parent,
        t2[u].state == t[u].state,
        t2[u].future == t[u].future,
        t2[u].sim_count == t[u].sim_count + 1,
        t2[u].score == t[u].score + s,
    ensures
        tree_ok(t2),
        t2[u].children[0] is Some ==> child_sum(t2, u) + slack(u) + 1 <= t2[u].sim_count,
{
    lemma_same_links(t, t2);
    lemma_same_states(t, t2);
    reveal(tree_counts);
    assert forall|i: int|
        0 <= i < t2.len() && (#[trigger] t2[i].children[0]) is Some implies child_sum(t2, i) + slack(i)
        <= t2[i].sim_count by {
        lemma_sum_change(t, t2, u, i);
    }
    assert forall|i: int| 0 <= i < t2.len() implies #[trigger] t2[i].score <= t2[i].sim_count by {
        if i != u {
            assert(t2[i] == t[i]);
        }
    }
    lemma_sum_change(t, t2, u, u);
    if u != 0 {
        let c0 = lemma_parent_slot(t, u);
    }
}

/// A node listed as another's parent comes before it, and is no parent of itself.
proof fn lemma_parents_before(t: Seq<Node>, x: int, j: int)
    requires
        tree_links(t),
        0 <= x < t.len(),
        t[x].parent == Some(j as usize),
        0 <= j < t.len(),
    ensures
        j < x,
{
    reveal(links_parents);
}

/// A node that lists some child lists one in its first slot.
proof fn lemma_first_slot(t: Seq<Node>, q: int, c: int)
    requires
        tree_links(t),
        0 <= q < t.len(),
        0 <= c < 4,
        t[q].children[c] is Some,
    ensures
        t[q].children[0] is Some,
{
    reveal(links_parents);
    reveal(links_slots);
    reveal(links_prefix);
    reveal(links_distinct);
    reveal(links_listed);
    if c >= 3 {
        assert(t[q].children[2] is Some);
    }
    if c >= 2 {
        assert(t[q].children[1] is Some);
    }
}

/// A child is visited less often than its parent.
proof fn lemma_child_below(t: Seq<Node>, u: int)
    requires
        tree_ok(t),
        0 < u < t.len(),
    ensures
        t[u].sim_count <= child_sum(t, t[u].parent->0 as int),
{
    let c0 = lemma_parent_slot(t, u);
    let q = t[u].parent->0 as int;
    assert(slot_visits(t, t[q].children[c0]) == t[u].sim_count) by {
        reveal(links_parents);
        reveal(links_slots);
        reveal(links_prefix);
        reveal(links_distinct);
        reveal(links_listed);
    }
}

impl GameTree {
    /// Adds `score` and one visit to node `node_id` and to each of its ancestors.
    fn backpropagate(&mut self, node_id: usize, score: usize)
        requires
            old(self).wf(),
            node_id < old(self).node_count(),
            score <= 1,
            old(self).sims(0) < usize::MAX,
        ensures
            final(self).wf(),
            final(self).node_count() == old(self).node_count(),
            final(self).sims(0) == old(self).sims(0) + 1,
            forall|i: int|
                0 <= i < old(self).inner_vec@.len() ==> (#[trigger] final(self).inner_vec@[i]).sim_count
                    == old(self).inner_vec@[i].sim_count + (if on_path(old(self).inner_vec@, node_id as int, i) {
                    1int
                } else {
                    0int
                }) && final(self).inner_vec@[i].score == old(self).inner_vec@[i].score + (if on_path(
                    old(self).inner_vec@,
                    node_id as int,
                    i,
                ) {
                    score as int
                } else {
                    0int
                }),
            final(self).same_shape(*old(self)),
    {
        let ghost t0 = self.inner_vec@;
        let mut path: Vec<usize> = vec![node_id];
        let mut curr = node_id;
        assert(path@[0] == node_id);
        while self.inner_vec[curr].parent.is_some()
            invariant
                self.inner_vec@ == t0,
                tree_ok(t0),
                curr < t0.len(),
                path@.len() >= 1,
                path@[0] == node_id,
                path@.last() == curr,
                forall|k: int| 0 <= k < path@.len() ==> #[trigger] path@[k] < t0.len(),
                forall|k: int|
                    0 <= k < path@.len() - 1 ==> t0[#[trigger] path@[k] as int].parent == Some(path@[k + 1]),
                forall|k: int| 0 <= k < path@.len() - 1 ==> path@[k + 1] < #[trigger] path@[k],
                forall|i: int|
                    #[trigger] on_path(t0, node_id as int, i) == (in_list(path@, 0, i) || on_path(t0, curr as int, i)),
            decreases curr,
        {
            assert(0 < curr && t0[curr as int].parent->0 < curr) by {
                reveal(links_parents);
            }
            let p = self.inner_vec[curr].parent.unwrap();
            let ghost old_path = path@;
            path.push(p);
            proof {
                assert(path@[old_path.len() - 1] == curr);
                assert forall|i: int| #[trigger] on_path(t0, node_id as int, i) == (in_list(path@, 0, i) || on_path(t0, p as int, i)) by {
                    assert(on_path(t0, curr as int, i) == (i == curr || on_path(t0, p as int, i)));
                    if in_list(old_path, 0, i) {
                        let w = choose|w: int| 0 <= w < old_path.len() && old_path[w] as int == i;
                        assert(path@[w] == old_path[w]);
                    }
                    if in_list(path@, 0, i) && i != p {
                        let w = choose|w: int| 0 <= w < path@.len() && path@[w] as int == i;
                        assert(old_path[w] == path@[w]);
                    }
                    if i == curr {
                        assert(path@[old_path.len() - 1] as int == i);
                    }
                    if i == p {
                        assert(path@[old_path.len() as int] as int == i);
                    }
                }
            }
            curr = p;
        }
        assert(curr == 0) by {
            reveal(links_parents);
            if curr != 0 {
                assert(t0[curr as int].parent is Some);
            }
        }
        assert forall|i: int| #[trigger] on_path(t0, node_id as int, i) == in_list(path@, 0, i) by {
            assert(on_path(t0, curr as int, i) == (i == curr));
            if i == curr {
                assert(path@[path@.len() - 1] as int == i);
            }
        }
        let mut k = path.len();
        while k > 0
            invariant
                tree_ok(self.inner_vec@),
                self.inner_vec@.len() == t0.len(),
                0 <= k <= path@.len(),
                path@.len() >= 1,
                path@.last() == 0,
                score <= 1,
                forall|m: int| 0 <= m < path@.len() ==> #[trigger] path@[m] < t0.len(),
                forall|j: int| 0 <= j < t0.len() ==> (#[trigger] self.inner_vec@[j]).parent == t0[j].parent,
                forall|j: int|
                    0 <= j < t0.len() ==> (#[trigger] self.inner_vec@[j]).children == t0[j].children
                        && self.inner_vec@[j].state == t0[j].state && self.inner_vec@[j].future == t0[j].future
                        && self.inner_vec@[j].is_self_node == t0[j].is_self_node,
                self.self_id == old(self).self_id,
                self.enemy_id == old(self).enemy_id,
                forall|m: int|
                    0 <= m < path@.len() - 1 ==> t0[#[trigger] path@[m] as int].parent == Some(path@[m + 1]),
                forall|m: int| 0 <= m < path@.len() - 1 ==> path@[m + 1] < #[trigger] path@[m],
                k == path@.len() ==> self.inner_vec@[0].sim_count == t0[0].sim_count,
                k < path@.len() ==> self.inner_vec@[0].sim_count == t0[0].sim_count + 1,
                t0[0].sim_count < usize::MAX,
                forall|i: int| #[trigger] on_path(t0, node_id as int, i) == in_list(path@, 0, i),
                0 < k < path@.len() ==> child_sum(self.inner_vec@, path@[k as int] as int) + slack(
                    path@[k as int] as int,
                ) + 1 <= self.inner_vec@[path@[k as int] as int].sim_count,
                counts_from(t0, self.inner_vec@, path@, k as int, score as int),
            decreases k,
        {
            let u = path[k - 1];
            let ghost t = self.inner_vec@;
            proof {
                if k < path@.len() {
                    assert(t0[path@[k - 1] as int].parent == Some(path@[k as int]));
                    assert(u != 0) by {
                        reveal(links_parents);
                    }
                    lemma_child_below(t, u as int);
                } else {
                    assert(u == 0);
                }
            }
            let s0 = self.inner_vec[u].score;
            let n0 = self.inner_vec[u].sim_count;
            assert(s0 <= n0) by {
                reveal(tree_counts);
            }
            self.inner_vec[u].score = s0 + score;
            self.inner_vec[u].sim_count = n0 + 1;
            proof {
                lemma_bump(t, self.inner_vec@, u as int, score as int);
                assert(!in_list(path@, k as int, u as int)) by {
                    if in_list(path@, k as int, u as int) {
                        let w = choose|w: int| k <= w < path@.len() && path@[w] as int == u as int;
                        lemma_decreasing(path@, k - 1, w);
                    }
                }
                lemma_counts_step(t0, t, self.inner_vec@, path@, k - 1, u as int, score as int);
                if k > 1 {
                    assert(t0[path@[k - 2] as int].parent == Some(path@[k - 1]));
                    let w = path@[k - 2] as int;
                    assert(w != 0) by {
                        reveal(links_parents);
                    }
                    assert(self.inner_vec@[w].parent == t0[w].parent);
                    let c = lemma_parent_slot(self.inner_vec@, w);
                    lemma_first_slot(self.inner_vec@, u as int, c);
                }
            }
            k -= 1;
        }
        assert forall|i: int| 0 <= i < t0.len() implies (#[trigger] self.inner_vec@[i]).sim_count
            == t0[i].sim_count + (if on_path(t0, node_id as int, i) {
            1int
        } else {
            0int
        }) && self.inner_vec@[i].score == t0[i].score + (if on_path(t0, node_id as int, i) {
            score as int
        } else {
            0int
        }) by {
            assert(on_path(t0, node_id as int, i) == in_list(path@, 0, i));
        }
    }
}

/// A node just created below node `i`: no children, no visits, no reward, and a
/// well-formed state while the game is open.
spec fn fresh_ok(n: Node, i: int) -> bool {
    &&& n.parent == Some(i as usize)
    &&& n.children[0] is None
    &&& n.children[1] is None
    &&& n.children[2] is None
    &&& n.children[3] is None
    &&& n.score == 0
    &&& n.sim_count == 0
    &&& node_ready(n) ==> state_wf(n.state@) && n.state.board.snakes.len() <= u16::MAX
}

/// The child slots that list the `m` nodes appended at `base`.
spec fn kid_slots(k: [Option<usize>; 4], base: int, m: int) -> bool {
    forall|c: int|
        0 <= c < 4 ==> #[trigger] k[c] == if c < m {
            Some((base + c) as usize)
        } else {
            None
        }
}

/// Appending fresh children to a leaf and listing them in its slots keeps the links.
proof fn lemma_expand_links(t: Seq<Node>, fresh: Seq<Node>, i: int, kids: [Option<usize>; 4], t2: Seq<Node>)
    requires
        tree_ok(t),
        0 <= i < t.len(),
        t[i].children[0] is None,
        t[i].sim_count >= 1,
        fresh.len() <= 4,
        t.len() + fresh.len() <= usize::MAX,
        forall|k: int| 0 <= k < fresh.len() ==> fresh_ok(#[trigger] fresh[k], i),
        kid_slots(kids, t.len() as int, fresh.len() as int),
        t2 == (t + fresh).update(i, Node { children: kids, ..t[i] }),
    ensures
        tree_links(t2),
{
    let n = t.len();
    let m = fresh.len();
    assert forall|c: int| 0 <= c < 4 implies #[trigger] t[i].children[c] is None by {
        if t[i].children[c] is Some {
            lemma_first_slot(t, i, c);
        }
    }
    assert forall|j: int| 0 <= j < n && j != i implies #[trigger] t2[j] == t[j] by {
    }
    assert forall|k: int| 0 <= k < m implies #[trigger] t2[n + k] == fresh[k] by {
    }
    assert(t2[i].children == kids && t2[i].parent == t[i].parent);
    lemma_len(t);
    assert(links_parents(t2)) by {
        reveal(links_parents);
        assert forall|j: int| 0 < j < t2.len() implies (#[trigger] t2[j].parent matches Some(p) && p < j) by {
            if j >= n {
                assert(t2[j] == fresh[j - n]);
            }
        }
    }
    assert(links_slots(t2)) by {
        reveal(links_slots);
        assert forall|j: int, c: int|
            0 <= j < t2.len() && 0 <= c < 4 && (#[trigger] t2[j].children[c]) is Some implies j
            < t2[j].children[c]->0 < t2.len() && t2[t2[j].children[c]->0 as int].parent == Some(
            j as usize,
        ) by {
            if j == i {
                assert(t2[n + c] == fresh[c]);
            } else if j < n {
                assert(t[j].children[c] is Some);
                let x = t[j].children[c]->0 as int;
                if x == i {
                    assert(t[i].parent == Some(j as usize));
                    lemma_parents_before(t, i, j);
                }
            } else {
                assert(t2[j] == fresh[j - n]);
            }
        }
    }
    assert(links_prefix(t2)) by {
        reveal(links_prefix);
        assert forall|j: int, c: int|
            0 <= j < t2.len() && 1 <= c < 4 && (#[trigger] t2[j].children[c]) is Some implies t2[j].children[c
            - 1] is Some by {
            if j >= n {
                assert(t2[j] == fresh[j - n]);
            }
        }
    }
    assert(links_distinct(t2)) by {
        reveal(links_distinct);
        assert forall|j: int, c: int, d: int|
            0 <= j < t2.len() && 0 <= c < 4 && 0 <= d < 4 && c != d && (#[trigger] t2[j].children[c]) is Some
                implies t2[j].children[c] != #[trigger] t2[j].children[d] by {
            if j >= n {
                assert(t2[j] == fresh[j - n]);
            }
        }
    }
    assert(links_listed(t2)) by {
        reveal(links_listed);
        assert forall|j: int|
            #![trigger t2[j].parent]
            0 < j < t2.len() implies exists|c: int|
            #![trigger t2[t2[j].parent->0 as int].children[c]]
            0 <= c < 4 && t2[t2[j].parent->0 as int].children[c] == Some(j as usize) by {
            if j >= n {
                let c = j - n;
                assert(t2[j] == fresh[c]);
                assert(kids[c] == Some(j as usize));
            } else {
                let p = t[j].parent->0 as int;
                let c = lemma_parent_slot(t, j);
                if p == i {
                    assert(t[i].children[c] is None);
                }
                assert(t2[p] == t[p]);
            }
        }
    }
}



/// Appending fresh children to a leaf keeps the visit counts consistent.
proof fn lemma_expand_counts(t: Seq<Node>, fresh: Seq<Node>, i: int, kids: [Option<usize>; 4], t2: Seq<Node>)
    requires
        tree_ok(t),
        0 <= i < t.len(),
        t[i].children[0] is None,
        t[i].sim_count >= 1,
        fresh.len() <= 4,
        t.len() + fresh.len() <= usize::MAX,
        forall|k: int| 0 <= k < fresh.len() ==> fresh_ok(#[trigger] fresh[k], i),
        kid_slots(kids, t.len() as int, fresh.len() as int),
        t2 == (t + fresh).update(i, Node { children: kids, ..t[i] }),
    ensures
        tree_counts(t2),
{
    let n = t.len();
    assert forall|c: int| 0 <= c < 4 implies #[trigger] t[i].children[c] is None by {
        if t[i].children[c] is Some {
            lemma_first_slot(t, i, c);
        }
    }
    assert(tree_counts(t2)) by {
        reveal(tree_counts);
        reveal(links_parents);
        reveal(links_slots);
        reveal(links_prefix);
        reveal(links_distinct);
        reveal(links_listed);
        assert forall|j: int| 0 <= j < t2.len() implies #[trigger] t2[j].score <= t2[j].sim_count by {
            if j >= n {
                assert(t2[j] == fresh[j - n]);
            } else if j != i {
                assert(t2[j] == t[j]);
            }
        }
        assert forall|j: int|
            0 <= j < t2.len() && (#[trigger] t2[j].children[0]) is Some implies child_sum(t2, j) + slack(j)
            <= t2[j].sim_count by {
            if j == i {
                assert forall|c: int| 0 <= c < 4 implies slot_visits(t2, #[trigger] kids[c]) == 0 by {
                    if c < fresh.len() {
                        assert(t2[n + c] == fresh[c]);
                    }
                }
            } else if j < n {
                assert(t2[j] == t[j]);
                assert forall|c: int| 0 <= c < 4 implies slot_visits(t2, #[trigger] t[j].children[c])
                    == slot_visits(t, t[j].children[c]) by {
                    if t[j].children[c] is Some {
                        let x = t[j].children[c]->0 as int;
                        if x == i {
                            assert(t2[i].sim_count == t[i].sim_count);
                        } else {
                            assert(t2[x] == t[x]);
                        }
                    }
                }
            } else {
                assert(t2[j] == fresh[j - n]);
            }
        }
    }
}

/// Appending fresh children keeps open states well formed.
proof fn lemma_expand_states(t: Seq<Node>, fresh: Seq<Node>, i: int, kids: [Option<usize>; 4], t2: Seq<Node>)
    requires
        tree_ok(t),
        0 <= i < t.len(),
        t[i].children[0] is None,
        t[i].sim_count >= 1,
        fresh.len() <= 4,
        t.len() + fresh.len() <= usize::MAX,
        forall|k: int| 0 <= k < fresh.len() ==> fresh_ok(#[trigger] fresh[k], i),
        kid_slots(kids, t.len() as int, fresh.len() as int),
        t2 == (t + fresh).update(i, Node { children: kids, ..t[i] }),
    ensures
        tree_states(t2),
{
    let n = t.len();
    assert forall|c: int| 0 <= c < 4 implies #[trigger] t[i].children[c] is None by {
        if t[i].children[c] is Some {
            lemma_first_slot(t, i, c);
        }
    }
    assert(tree_states(t2)) by {
        reveal(tree_states);
        assert forall|j: int| 0 <= j < t2.len() && node_ready(#[trigger] t2[j]) implies state_wf(
            t2[j].state@,
        ) && t2[j].state.board.snakes.len() <= u16::MAX by {
            if j >= n {
                assert(t2[j] == fresh[j - n]);
            } else if j != i {
                assert(t2[j] == t[j]);
            } else {
                assert(node_ready(t[i]));
            }
        }
    }
}

/// Appending fresh children to a leaf and listing them in its slots keeps the tree well
/// formed.
proof fn lemma_expand(t: Seq<Node>, fresh: Seq<Node>, i: int, kids: [Option<usize>; 4], t2: Seq<Node>)
    requires
        tree_ok(t),
        0 <= i < t.len(),
        t[i].children[0] is None,
        t[i].sim_count >= 1,
        fresh.len() <= 4,
        t.len() + fresh.len() <= usize::MAX,
        forall|k: int| 0 <= k < fresh.len() ==> fresh_ok(#[trigger] fresh[k], i),
        kid_slots(kids, t.len() as int, fresh.len() as int),
        t2 == (t + fresh).update(i, Node { children: kids, ..t[i] }),
    ensures
        tree_ok(t2),
{
    lemma_expand_links(t, fresh, i, kids, t2);
    lemma_expand_counts(t, fresh, i, kids, t2);
    lemma_expand_states(t, fresh, i, kids, t2);
}

impl GameTree {
    /// A child of `parent_id` reached when agent `node_snake_id` alone plays `node_move`.
    fn create_node(
        &self,
        parent_id: usize,
        st: &State,
        node_move: Dir,
        node_snake_id: &String,
        is_self_node: bool,
    ) -> (r: Node)
        requires
            state_wf(st@),
            st.turn < u32::MAX,
            st.board.snakes.len() <= u16::MAX,
            exists|i: int| 0 <= i < st@.snakes.len() && st@.snakes[i].id == node_snake_id@,
        ensures
            fresh_ok(r, parent_id as int),
            r.is_self_node == is_self_node,
            r.state@ == advance_state(st@, self.self_id@, seq![(node_snake_id@, node_move)]),
            r.future == Some(
                Future { dir: node_move, ..advance_outcome(st@, self.self_id@, seq![(node_snake_id@, node_move)]) },
            ),
    {
        let mut new_state = st.duplicate();
        let moves = vec![(node_snake_id.clone(), node_move)];
        assert(moves_view(moves@)[0] == (node_snake_id@, node_move));
        let ghost w = choose|i: int| 0 <= i < st@.snakes.len() && st@.snakes[i].id == node_snake_id@;
        assert(new_state@.snakes.map_values(|s: SnakeModel| s.id)[w] == node_snake_id@);
        assert(moves_known(new_state@, moves_view(moves@)));
        assert(moves_view(moves@) =~= seq![(node_snake_id@, node_move)]);
        let mut future = process_step(&mut new_state, &self.self_id, &moves);
        future.dir = node_move;
        Node {
            parent: Some(parent_id),
            children: [None, None, None, None],
            score: 0,
            sim_count: 0,
            state: new_state,
            future: Some(future),
            is_self_node,
        }
    }

    /// A child of `parent_id` reached by the given joint moves, kept as already decided.
    fn create_terminal_node(&self, parent_id: usize, st: &State, moves: Vec<(String, Dir)>) -> (r: Node)
        requires
            state_wf(st@),
            st.turn < u32::MAX,
            st.board.snakes.len() <= u16::MAX,
            moves_known(st@, moves_view(moves@)),
        ensures
            fresh_ok(r, parent_id as int),
            r.state@ == advance_state(st@, self.self_id@, moves_view(moves@)),
            r.future == Some(advance_outcome(st@, self.self_id@, moves_view(moves@))),
    {
        let mut new_state = st.duplicate();
        let future = process_step(&mut new_state, &self.self_id, &moves);
        Node {
            parent: Some(parent_id),
            children: [None, None, None, None],
            sim_count: 0,
            state: new_state,
            future: Some(future),
            is_self_node: true,
            score: 0,
        }
    }

    /// Expands leaf `node_id`: one child per safe (or, for the opponent, safe or risky) move
    /// of the agent whose turn the node's children stand for, plus, for the protagonist,
    /// an already-lost child for each risky neighbour. Returns the first child, if any.
    #[verifier::rlimit(100)]
    pub fn expand(&mut self, node_id: usize) -> (r: Option<usize>)
        requires
            old(self).wf(),
            node_id < old(self).node_count(),
            old(self).child(node_id as int, 0) is None,
            old(self).sims(node_id as int) >= 1,
        ensures
            final(self).wf(),
            final(self).node_count() >= old(self).node_count(),
            final(self).sims(0) == old(self).sims(0),
            r == final(self).child(node_id as int, 0),
            r matches Some(j) ==> j < final(self).node_count(),
            r is None ==> final(self).node_count() == old(self).node_count(),
            match old(self).outcome(node_id as int) {
                Some(f) => f.finished ==> r is None,
                None => true,
            },
            r is None ==> final(self).same_as(*old(self)),
            !(old(self).outcome(node_id as int) matches Some(f) && f.finished) && old(self).node_state(
                node_id as int,
            ).turn < u32::MAX && old(self).node_count() + 4 <= usize::MAX && crate::alpha_beta::present(
                old(self).node_state(node_id as int),
                old(self).mover_of(node_id as int),
            ) && old(self).moves_at(node_id as int).len() + old(self).loss_moves_at(node_id as int).len() > 0
                ==> r is Some,
            r is Some ==> forall|m: int|
                #![trigger old(self).loss_moves_at(node_id as int)[m]]
                0 <= m < old(self).loss_moves_at(node_id as int).len() ==> {
                    let l = old(self).loss_moves_at(node_id as int)[m];
                    let mv = seq![(old(self).protagonist(), l.0), (old(self).opponent(), l.1)];
                    let c = old(self).moves_at(node_id as int).len() + m;
                    let j = old(self).node_count() + c;
                    &&& final(self).child(node_id as int, c) == Some(j as usize)
                    &&& final(self).node_state(j) == advance_state(
                        old(self).node_state(node_id as int),
                        old(self).protagonist(),
                        mv,
                    )
                    &&& final(self).outcome(j) == Some(
                        advance_outcome(old(self).node_state(node_id as int), old(self).protagonist(), mv),
                    )
                },
            r is Some && old(self).moves_at(node_id as int).len() + old(self).loss_moves_at(node_id as int).len() < 4
                ==> final(self).child(
                node_id as int,
                (old(self).moves_at(node_id as int).len() + old(self).loss_moves_at(node_id as int).len()) as int,
            ) is None,
            r is Some ==> forall|m: int|
                0 <= m < old(self).moves_at(node_id as int).len() ==> {
                    let mv = seq![(old(self).mover_of(node_id as int), old(self).moves_at(node_id as int)[m])];
                    let j = old(self).node_count() + m;
                    &&& #[trigger] final(self).child(node_id as int, m) == Some(j as usize)
                    &&& final(self).node_state(j) == advance_state(
                        old(self).node_state(node_id as int),
                        old(self).protagonist(),
                        mv,
                    )
                    &&& final(self).outcome(j) == Some(
                        Future {
                            dir: old(self).moves_at(node_id as int)[m],
                            ..advance_outcome(old(self).node_state(node_id as int), old(self).protagonist(), mv)
                        },
                    )
                },
            forall|i: int|
                0 <= i < old(self).node_count() ==> #[trigger] final(self).sims(i) == old(self).sims(i)
                    && final(self).reward(i) == old(self).reward(i),
            forall|c: int|
                0 <= c < 4 && (#[trigger] final(self).child(node_id as int, c)) is Some ==> {
                    let j = final(self).child(node_id as int, c)->0 as int;
                    &&& old(self).node_count() <= j < final(self).node_count()
                    &&& final(self).parent(j) == Some(node_id)
                    &&& final(self).sims(j) == 0
                    &&& final(self).reward(j) == 0
                },
    {
        let ghost t = self.inner_vec@;
        proof {
            lemma_len(t);
            assert forall|c: int| 0 <= c < 4 implies #[trigger] t[node_id as int].children[c] is None by {
                if t[node_id as int].children[c] is Some {
                    lemma_first_slot(t, node_id as int, c);
                }
            }
        }
        if let Some(future) = self.inner_vec[node_id].future {
            if future.finished {
                return None;
            }
        }
        assert(node_ready(t[node_id as int]));
        assert(state_wf(t[node_id as int].state@) && t[node_id as int].state.board.snakes.len()
            <= u16::MAX) by {
            reveal(tree_states);
        }
        let curr_state = self.inner_vec[node_id].state.duplicate();
        if curr_state.turn == u32::MAX || self.inner_vec.len() > usize::MAX - 4 {
            return None;
        }
        let curr_idx = self.inner_vec.len();
        let is_self_node = !self.inner_vec[node_id].is_self_node;
        let node_snake_id = if is_self_node {
            self.self_id.clone()
        } else {
            self.enemy_id.clone()
        };
        let ni = match curr_state.find_snake(&node_snake_id) {
            Some(i) => i,
            None => {
                return None;
            },
        };
        let node_snake = &curr_state.board.snakes[ni];
        assert(node_snake@ == curr_state@.snakes[ni as int]);
        assert(curr_state@.snakes[ni as int].id == node_snake_id@);
        proof {
            crate::board::lemma_head_movable(curr_state@, ni as int);
            lemma_succ_dirs_len(node_snake@, curr_state@, is_self_node, 4);
        }
        let successors = get_snake_successors(node_snake, &curr_state, is_self_node);
        let mut fresh: Vec<Node> = Vec::new();
        let mut k: usize = 0;
        while k < successors.len()
            invariant
                state_wf(curr_state@),
                curr_state.turn < u32::MAX,
                curr_state.board.snakes.len() <= u16::MAX,
                successors.len() <= 4,
                ni < curr_state@.snakes.len(),
                curr_state@.snakes[ni as int].id == node_snake_id@,
                k <= successors.len(),
                fresh.len() == k,
                forall|m: int| 0 <= m < fresh.len() ==> fresh_ok(#[trigger] fresh@[m], node_id as int),
                forall|m: int|
                    0 <= m < fresh.len() ==> (#[trigger] fresh@[m]).state@ == advance_state(
                        curr_state@,
                        self.self_id@,
                        seq![(node_snake_id@, successors@[m])],
                    ) && fresh@[m].future == Some(
                        Future {
                            dir: successors@[m],
                            ..advance_outcome(curr_state@, self.self_id@, seq![(node_snake_id@, successors@[m])])
                        },
                    ),
            decreases successors.len() - k,
        {
            let n = self.create_node(node_id, &curr_state, successors[k], &node_snake_id, is_self_node);
            fresh.push(n);
            k += 1;
        }
        let ghost first = fresh@;
        let ghost enemy_there = crate::alpha_beta::present(curr_state@, self.enemy_id@);
        let ghost loss = if is_self_node && enemy_there {
            loss_upto(
                curr_state@.snakes[ni as int],
                head(curr_state@.snakes[crate::alpha_beta::idx_of(curr_state@, self.enemy_id@)]),
                curr_state@,
                first.len() as int,
                4,
            )
        } else {
            Seq::empty()
        };
        if is_self_node {
            let my_head = node_snake.body[0];
            let orth = my_head.orthogonal();
            if let Some(e) = curr_state.find_snake(&self.enemy_id) {
                assert(curr_state.board.snakes@[e as int]@ == curr_state@.snakes[e as int]);
                assert(curr_state@.snakes[e as int].body.len() >= 2);
                proof {
                    crate::alpha_beta::lemma_idx_of(curr_state@, e as int);
                }
                let enemy_head = curr_state.board.snakes[e].body[0];
                let ghost me = curr_state@.snakes[ni as int];
                let mut c: usize = 0;
                while c < 4
                    invariant
                        e < curr_state.board.snakes.len(),
                        curr_state@.snakes[e as int].id == self.enemy_id@,
                        enemy_head == head(curr_state@.snakes[e as int]),
                        ni < curr_state@.snakes.len(),
                        curr_state@.snakes[ni as int].id == self.self_id@,
                        me == curr_state@.snakes[ni as int],
                        me == node_snake@,
                        my_head == head(me),
                        forall|k: int| 0 <= k < 4 ==> orth[k] == neighbour(my_head, #[trigger] dir_at(k)),
                        state_wf(curr_state@),
                        curr_state.turn < u32::MAX,
                        curr_state.board.snakes.len() <= u16::MAX,
                        c <= 4,
                        fresh@.len() == first.len() + loss_upto(me, enemy_head, curr_state@, first.len() as int, c as int).len(),
                        fresh.len() <= 4,
                        forall|m: int| 0 <= m < fresh.len() ==> fresh_ok(#[trigger] fresh@[m], node_id as int),
                        forall|m: int| 0 <= m < first.len() ==> #[trigger] fresh@[m] == first[m],
                        forall|m: int|
                            0 <= m < loss_upto(me, enemy_head, curr_state@, first.len() as int, c as int).len() ==> {
                                let l = #[trigger] loss_upto(me, enemy_head, curr_state@, first.len() as int, c as int)[m];
                                let mv = seq![(self.self_id@, l.0), (self.enemy_id@, l.1)];
                                &&& fresh@[first.len() + m].state@ == advance_state(curr_state@, self.self_id@, mv)
                                &&& fresh@[first.len() + m].future == Some(advance_outcome(curr_state@, self.self_id@, mv))
                            },
                    decreases 4 - c,
                {
                    let p = orth[c];
                    assert(p == neighbour(my_head, dir_at(c as int)));
                    let ghost prev = loss_upto(me, enemy_head, curr_state@, first.len() as int, c as int);
                    let ghost fprev = fresh@;
                    if fresh.len() < 4 && p.safety_index(node_snake, &curr_state) == SafetyIndex::Risky {
                        match (my_head.dir_to(p), enemy_head.dir_to(p)) {
                            (Some(mine), Some(theirs)) => {
                                let moves = vec![
                                    (self.self_id.clone(), mine),
                                    (self.enemy_id.clone(), theirs),
                                ];
                                assert(moves_view(moves@) =~= seq![(self.self_id@, mine), (self.enemy_id@, theirs)]);
                                assert(curr_state@.snakes.map_values(|s: SnakeModel| s.id)[ni as int]
                                    == moves_view(moves@)[0].0);
                                assert(curr_state@.snakes.map_values(|s: SnakeModel| s.id)[e as int]
                                    == moves_view(moves@)[1].0);
                                assert(moves_known(curr_state@, moves_view(moves@)));
                                let n = self.create_terminal_node(node_id, &curr_state, moves);
                                fresh.push(n);
                                assert(loss_upto(me, enemy_head, curr_state@, first.len() as int, c + 1) == prev.push((mine, theirs)));
                                assert forall|m: int| 0 <= m < first.len() implies #[trigger] fresh@[m] == first[m] by {
                                    assert(fresh@[m] == fprev[m]);
                                }
                                assert forall|m: int|
                                    0 <= m < prev.len() + 1 implies {
                                        let l = #[trigger] loss_upto(me, enemy_head, curr_state@, first.len() as int, c + 1)[m];
                                        let mv = seq![(self.self_id@, l.0), (self.enemy_id@, l.1)];
                                        &&& fresh@[first.len() + m].state@ == advance_state(curr_state@, self.self_id@, mv)
                                        &&& fresh@[first.len() + m].future == Some(advance_outcome(curr_state@, self.self_id@, mv))
                                    } by {
                                    if m < prev.len() {
                                        assert(fresh@[first.len() + m] == fprev[first.len() + m]);
                                        assert(loss_upto(me, enemy_head, curr_state@, first.len() as int, c + 1)[m] == prev[m]);
                                    }
                                }
                            },
                            _ => {
                                assert(loss_upto(me, enemy_head, curr_state@, first.len() as int, c + 1) == prev);
                            },
                        }
                    } else {
                        assert(loss_upto(me, enemy_head, curr_state@, first.len() as int, c + 1) == prev);
                    }
                    c += 1;
                }
                assert(enemy_there);
            } else {
                assert(!enemy_there) by {
                    assert forall|k2: int| !(0 <= k2 < curr_state@.snakes.len() && curr_state@.snakes[k2].id == self.enemy_id@) by {
                        if 0 <= k2 < curr_state@.snakes.len() {
                            assert(curr_state.board.snakes@[k2]@ == curr_state@.snakes[k2]);
                        }
                    }
                }
            }
        }
        let m = fresh.len();
        let kids: [Option<usize>; 4] = [
            if m > 0 {
                Some(curr_idx)
            } else {
                None
            },
            if m > 1 {
                Some(curr_idx + 1)
            } else {
                None
            },
            if m > 2 {
                Some(curr_idx + 2)
            } else {
                None
            },
            if m > 3 {
                Some(curr_idx + 3)
            } else {
                None
            },
        ];
        let ghost fresh_v = fresh@;
        assert(kid_slots(kids, t.len() as int, m as int));
        proof {
            assert(curr_state@ == t[node_id as int].state@);
            assert(state_wf(curr_state@));
            crate::alpha_beta::lemma_idx_of(curr_state@, ni as int);
            assert(node_snake_id@ == self.mover_of(node_id as int));
            assert(successors@ == self.moves_at(node_id as int));
            assert(first.len() == successors@.len());
            assert(self.mover_of(node_id as int) == self.self_id@ ==> ni == crate::alpha_beta::idx_of(curr_state@, self.self_id@));
            assert(loss == self.loss_moves_at(node_id as int));
            assert(fresh_v.len() == first.len() + loss.len());
            assert(forall|q: int| 0 <= q < loss.len() ==> {
                let l = #[trigger] loss[q];
                let mv = seq![(self.self_id@, l.0), (self.enemy_id@, l.1)];
                &&& fresh_v[first.len() + q].state@ == advance_state(curr_state@, self.self_id@, mv)
                &&& fresh_v[first.len() + q].future == Some(advance_outcome(curr_state@, self.self_id@, mv))
            });
        }
        self.inner_vec.append(&mut fresh);
        self.inner_vec[node_id].children = kids;
        proof {
            assert(self.inner_vec@ =~= (t + fresh_v).update(node_id as int, Node { children: kids, ..t[node_id as int] }));
            lemma_expand(t, fresh_v, node_id as int, kids, self.inner_vec@);
            assert forall|q: int| 0 <= q < first.len() implies #[trigger] self.inner_vec@[t.len() + q] == first[q] by {
                assert(self.inner_vec@[t.len() + q] == fresh_v[q]);
            }
            assert forall|q: int| 0 <= q < fresh_v.len() implies #[trigger] self.inner_vec@[t.len() + q] == fresh_v[q] by {
            }
            if m == 0 {
                assert(kids =~= t[node_id as int].children);
                assert(self.inner_vec@ =~= t);
            }
            assert forall|c: int| 0 <= c < 4 && (#[trigger] self.inner_vec@[node_id as int].children[c]) is Some implies {
                let j = self.inner_vec@[node_id as int].children[c]->0 as int;
                &&& t.len() <= j < self.inner_vec@.len()
                &&& self.inner_vec@[j].parent == Some(node_id)
                &&& self.inner_vec@[j].sim_count == 0
                &&& self.inner_vec@[j].score == 0
            } by {
                assert(kids[c] == Some((t.len() + c) as usize));
                assert(self.inner_vec@[t.len() + c] == fresh_v[c]);
            }
        }
        kids[0]
    }
}

/// Agent `i` is the first with id `id`.
pub open spec fn first_with_id(st: StateModel, id: Seq<char>, i: int) -> bool {
    0 <= i < st.snakes.len() && st.snakes[i].id == id && forall|k: int|
        0 <= k < i ==> st.snakes[k].id != id
}

/// Visits of the node named in a child slot.
pub open spec fn slot_sims(t: GameTree, c: Option<usize>) -> int {
    match c {
        Some(j) => t.sims(j as int) as int,
        None => 0,
    }
}

/// Total visits of the children of node `i`.
pub open spec fn visits_below(t: GameTree, i: int) -> int {
    slot_sims(t, t.child(i, 0)) + slot_sims(t, t.child(i, 1)) + slot_sims(t, t.child(i, 2))
        + slot_sims(t, t.child(i, 3))
}

/// A node is visited once before any child can be: the children of a node have fewer
/// visits in total than the node itself.
pub proof fn lemma_child_visits(t: GameTree, i: int)
    requires
        t.wf(),
        0 <= i < t.node_count(),
        t.child(i, 0) is Some,
    ensures
        visits_below(t, i) + 1 <= t.sims(i),
{
    let v = t.inner_vec@;
    reveal(tree_counts);
    assert forall|c: int| 0 <= c < 4 implies slot_sims(t, #[trigger] t.child(i, c)) == slot_visits(
        v,
        v[i].children[c],
    ) by {
        if v[i].children[c] is Some {
            reveal(links_slots);
        }
    }
    assert(child_sum(v, i) + slack(i) <= v[i].sim_count);
}

impl GameTree {
    /// The outcome of one random playout from node `node_id`: 1 when the protagonist wins,
    /// 0 when it dies or the turn counter runs out. A decided node gives its result at once.
    #[verifier::rlimit(60)]
    fn get_rollout_score(&mut self, node_id: usize) -> (r: usize)
        requires
            old(self).wf(),
            node_id < old(self).node_count(),
        ensures
            r <= 1,
            match old(self).inner_vec@[node_id as int].future {
                Some(f) => f.finished ==> r == (if f.alive {
                    1usize
                } else {
                    0usize
                }),
                None => true,
            },
            final(self).inner_vec@ == old(self).inner_vec@,
            final(self).self_id == old(self).self_id,
            final(self).enemy_id == old(self).enemy_id,
            r == 1 && node_ready(old(self).inner_vec@[node_id as int]) ==> exists|n: nat|
                can_win(old(self).inner_vec@[node_id as int].state@, old(self).self_id@, n),
            r == 1 && node_ready(old(self).inner_vec@[node_id as int]) && crate::alpha_beta::present(
                old(self).inner_vec@[node_id as int].state@,
                old(self).self_id@,
            ) ==> exists|n: nat|
                n <= potential(old(self).inner_vec@[node_id as int].state@, old(self).self_id@) + 1
                    && can_win(old(self).inner_vec@[node_id as int].state@, old(self).self_id@, n),
            r == 0 && node_ready(old(self).inner_vec@[node_id as int]) && crate::alpha_beta::present(
                old(self).inner_vec@[node_id as int].state@,
                old(self).self_id@,
            ) && old(self).inner_vec@[node_id as int].state@.turn + potential(
                old(self).inner_vec@[node_id as int].state@,
                old(self).self_id@,
            ) + 1 < u32::MAX ==> exists|n: nat|
                n <= potential(old(self).inner_vec@[node_id as int].state@, old(self).self_id@) + 1
                    && can_lose(old(self).inner_vec@[node_id as int].state@, old(self).self_id@, n),
    {
        if let Some(f) = self.inner_vec[node_id].future {
            if f.finished {
                return if f.alive {
                    1
                } else {
                    0
                };
            }
        }
        assert(node_ready(self.inner_vec@[node_id as int]));
        assert(state_wf(self.inner_vec@[node_id as int].state@)
            && self.inner_vec@[node_id as int].state.board.snakes.len() <= u16::MAX) by {
            reveal(tree_states);
        }
        let mut tmp_state = self.inner_vec[node_id].state.duplicate();
        let ghost start = tmp_state@;
        let ghost me = self.self_id@;
        let ghost mut steps: nat = 0;
        let ghost here = crate::alpha_beta::present(start, me);
        let ghost bound = potential(start, me) + 1;
        if self.inner_vec[node_id].is_self_node {
            if let Some(e) = tmp_state.find_snake(&self.enemy_id) {
                let enemy_snake = &tmp_state.board.snakes[e];
                assert(enemy_snake@ == tmp_state@.snakes[e as int]);
                proof {
                    crate::board::lemma_head_movable(tmp_state@, e as int);
                    lemma_succ_dirs_len(enemy_snake@, tmp_state@, false, 4);
                }
                let succ = get_snake_successors(enemy_snake, &tmp_state, false);
                let d = pick_random(&succ);
                let moves = vec![(self.enemy_id.clone(), d)];
                assert(moves_view(moves@)[0].0 == tmp_state@.snakes[e as int].id);
                assert(tmp_state@.snakes.map_values(|s: SnakeModel| s.id)[e as int] == moves_view(moves@)[0].0);
                assert(moves_known(tmp_state@, moves_view(moves@)));
                if tmp_state.turn == u32::MAX {
                    return 0;
                }
                let ghost pre = tmp_state@;
                let ghost mv0 = moves_view(moves@);
                let f = process_step(&mut tmp_state, &self.self_id, &moves);
                if f.finished {
                    proof {
                        assert(moves_known(pre, mv0));
                        if f.alive {
                            assert(can_win(start, me, 0));
                        } else {
                            assert(can_lose(start, me, 0));
                        }
                        if here {
                            assert(potential(start, me) >= 1) by {
                                crate::alpha_beta::lemma_idx_of(start, crate::alpha_beta::idx_of(start, me));
                            }
                        }
                    }
                    return if f.alive {
                        1
                    } else {
                        0
                    };
                }
                proof {
                    assert forall|k: nat| #[trigger] can_win(tmp_state@, me, k) implies can_win(start, me, k + 1) by {
                        assert(moves_known(pre, mv0));
                    }
                    assert forall|k: nat| #[trigger] can_lose(tmp_state@, me, k) implies can_lose(start, me, k + 1) by {
                        assert(moves_known(pre, mv0));
                    }
                    if here {
                        crate::simulator::lemma_potential_step(pre, me, mv0);
                    }
                    steps = 1;
                }
            }
        }
        while tmp_state.turn < u32::MAX
            invariant
                state_wf(tmp_state@),
                tmp_state.board.snakes.len() <= u16::MAX,
                self.inner_vec@ == old(self).inner_vec@,
                self.self_id == old(self).self_id,
                self.enemy_id == old(self).enemy_id,
                node_id < old(self).inner_vec@.len(),
                node_ready(old(self).inner_vec@[node_id as int]),
                start == old(self).inner_vec@[node_id as int].state@,
                me == self.self_id@,
                forall|k: nat| #[trigger] can_win(tmp_state@, me, k) ==> can_win(start, me, k + steps),
                forall|k: nat| #[trigger] can_lose(tmp_state@, me, k) ==> can_lose(start, me, k + steps),
                tmp_state.turn == start.turn + steps,
                here == crate::alpha_beta::present(start, me),
                bound == potential(start, me) + 1,
                here ==> crate::alpha_beta::present(tmp_state@, me) && potential(tmp_state@, me) + steps <= bound,
            decreases u32::MAX - tmp_state.turn,
        {
            let moves = get_rollout_moves(&tmp_state, &mut self.astar);
            let ghost before = tmp_state.turn;
            let ghost pre = tmp_state@;
            let ghost mv = moves_view(moves@);
            proof {
                if here {
                    crate::alpha_beta::lemma_idx_of(pre, crate::alpha_beta::idx_of(pre, me));
                    let w = crate::alpha_beta::idx_of(pre, me);
                    assert(moves@[w].0@ == pre.snakes[w].id);
                    assert(mv[w].0 == me);
                    crate::simulator::lemma_move_of_some(mv, me, w);
                    assert(potential(pre, me) >= 1);
                }
            }
            let future = process_step(&mut tmp_state, &self.self_id, &moves);
            assert(tmp_state.turn == before + 1);
            if future.finished {
                proof {
                    assert(moves_known(pre, mv));
                    if future.alive {
                        assert(can_win(pre, me, 0));
                    } else {
                        assert(can_lose(pre, me, 0));
                    }
                }
                return if future.alive {
                    1
                } else {
                    0
                };
            }
            proof {
                assert forall|k: nat| #[trigger] can_win(tmp_state@, me, k) implies can_win(start, me, k + (steps + 1)) by {
                    assert(moves_known(pre, mv));
                    assert(can_win(pre, me, k + 1));
                }
                assert forall|k: nat| #[trigger] can_lose(tmp_state@, me, k) implies can_lose(start, me, k + (steps + 1)) by {
                    assert(moves_known(pre, mv));
                    assert(can_lose(pre, me, k + 1));
                }
                if here {
                    crate::simulator::lemma_potential_step(pre, me, mv);
                }
                steps = steps + 1;
            }
        }
        proof {
            if here {
                crate::alpha_beta::lemma_idx_of(tmp_state@, crate::alpha_beta::idx_of(tmp_state@, me));
                assert(potential(tmp_state@, me) >= 1);
            }
        }
        0
    }

    /// Plays out node `node_id` at random and adds the result and one visit to it and to
    /// each of its ancestors.
    pub fn rollout(&mut self, node_id: usize)
        requires
            old(self).wf(),
            node_id < old(self).node_count(),
            old(self).sims(0) < usize::MAX,
        ensures
            final(self).wf(),
            final(self).node_count() == old(self).node_count(),
            final(self).sims(0) == old(self).sims(0) + 1,
            final(self).reward(node_id as int) <= old(self).reward(node_id as int) + 1,
            final(self).reward(node_id as int) >= old(self).reward(node_id as int),
            final(self).same_shape(*old(self)),
            final(self).reward(node_id as int) == old(self).reward(node_id as int) && !(old(self).outcome(
                node_id as int,
            ) matches Some(f) && f.finished) && crate::alpha_beta::present(
                old(self).node_state(node_id as int),
                old(self).protagonist(),
            ) && old(self).node_state(node_id as int).turn + potential(
                old(self).node_state(node_id as int),
                old(self).protagonist(),
            ) + 1 < u32::MAX ==> exists|n: nat|
                n <= potential(old(self).node_state(node_id as int), old(self).protagonist()) + 1 && can_lose(
                    old(self).node_state(node_id as int),
                    old(self).protagonist(),
                    n,
                ),
            final(self).reward(node_id as int) > old(self).reward(node_id as int) ==> (old(self).outcome(
                node_id as int,
            ) matches Some(f) && f.finished && f.alive) || exists|n: nat|
                can_win(old(self).node_state(node_id as int), old(self).protagonist(), n),
            match old(self).outcome(node_id as int) {
                Some(f) => f.finished ==> final(self).reward(node_id as int) == old(self).reward(
                    node_id as int,
                ) + (if f.alive {
                    1int
                } else {
                    0int
                }),
                None => true,
            },
            forall|i: int|
                0 <= i < old(self).node_count() ==> (#[trigger] final(self).sims(i)) == old(self).sims(i) + (
                if old(self).on_path_to_root(node_id as int, i) {
                    1int
                } else {
                    0int
                }) && final(self).reward(i) == old(self).reward(i) + (if old(self).on_path_to_root(
                    node_id as int,
                    i,
                ) {
                    final(self).reward(node_id as int) - old(self).reward(node_id as int)
                } else {
                    0int
                }),
    {
        let ghost t0 = self.inner_vec@;
        let ghost me = self.self_id@;
        let score = self.get_rollout_score(node_id);
        proof {
            if score == 0 && node_ready(t0[node_id as int]) && crate::alpha_beta::present(t0[node_id as int].state@, me)
                && t0[node_id as int].state@.turn + potential(t0[node_id as int].state@, me) + 1 < u32::MAX {
                let n = choose|n: nat|
                    n <= potential(t0[node_id as int].state@, me) + 1 && can_lose(t0[node_id as int].state@, me, n);
                assert(can_lose(old(self).node_state(node_id as int), old(self).protagonist(), n));
            }
            if score == 1 && node_ready(t0[node_id as int]) {
                let n = choose|n: nat| can_win(t0[node_id as int].state@, me, n);
                assert(can_win(old(self).node_state(node_id as int), old(self).protagonist(), n));
            }
        }
        self.backpropagate(node_id, score);
        proof {
            let r = score as int;
            assert(on_path(old(self).inner_vec@, node_id as int, node_id as int));
            assert(self.reward(node_id as int) == old(self).reward(node_id as int) + r);
            assert forall|i: int|
                0 <= i < old(self).node_count() implies (#[trigger] self.sims(i)) == old(self).sims(i) + (
                if old(self).on_path_to_root(node_id as int, i) {
                    1int
                } else {
                    0int
                }) && self.reward(i) == old(self).reward(i) + (if old(self).on_path_to_root(
                    node_id as int,
                    i,
                ) {
                    r
                } else {
                    0int
                }) by {
                assert(self.inner_vec@[i].sim_count == self.sims(i));
            }
        }
    }

    /// The visit count and index of each child of the root, in slot order.
    pub fn root_child_scores(&self) -> (r: Vec<(usize, usize)>)
        requires
            self.wf(),
        ensures
            r@.len() <= 4,
            forall|k: int|
                0 <= k < r@.len() ==> self.child(0, k) == Some((#[trigger] r@[k]).1) && r@[k].0
                    == self.sims(r@[k].1 as int) && r@[k].1 < self.node_count(),
            r@.len() < 4 ==> self.child(0, r@.len() as int) is None,
    {
        let mut r: Vec<(usize, usize)> = Vec::new();
        proof {
            lemma_len(self.inner_vec@);
        }
        let children = self.inner_vec[0].children;
        let mut c: usize = 0;
        while c < 4
            invariant
                self.wf(),
                self.inner_vec@.len() >= 1,
                children == self.inner_vec@[0].children,
                c <= 4,
                r@.len() == c,
                forall|k: int|
                    0 <= k < r@.len() ==> self.child(0, k) == Some((#[trigger] r@[k]).1) && r@[k].0
                        == self.sims(r@[k].1 as int) && r@[k].1 < self.node_count(),
            decreases 4 - c,
        {
            match children[c] {
                Some(e) => {
                    assert(e < self.inner_vec@.len()) by {
                        reveal(links_slots);
                        assert(self.inner_vec@[0].children[c as int] is Some);
                    }
                    r.push((self.inner_vec[e].sim_count, e));
                },
                None => {
                    return r;
                },
            }
            c += 1;
        }
        r
    }

    /// The protagonist's move into node `j`: the direction from its second segment to its
    /// head, or up when it is not on the board.
    pub closed spec fn node_move(&self, j: int) -> Dir {
        let st = self.inner_vec@[j].state@;
        if exists|i: int| first_with_id(st, self.self_id@, i) {
            let s = st.snakes[choose|i: int| first_with_id(st, self.self_id@, i)];
            if s.body.len() >= 2 && crate::point::dir_to_spec(s.body[1], s.body[0]) is Some {
                crate::point::dir_to_spec(s.body[1], s.body[0])->0
            } else {
                Dir::Up
            }
        } else {
            Dir::Up
        }
    }

    /// The move of the most visited entry of `scores` (the first among equals), each entry
    /// being a visit count and a node index; up when there is none.
    pub fn get_best_move(&self, scores: &Vec<(usize, usize)>) -> (r: Dir)
        requires
            self.wf(),
            forall|k: int| 0 <= k < scores@.len() ==> (#[trigger] scores@[k]).1 < self.node_count(),
        ensures
            scores@.len() == 0 ==> r == Dir::Up,
            scores@.len() > 0 ==> exists|b: int|
                0 <= b < scores@.len() && (forall|k: int|
                    0 <= k < scores@.len() ==> (#[trigger] scores@[k]).0 <= scores@[b].0) && (forall|k: int|
                    0 <= k < b ==> (#[trigger] scores@[k]).0 < scores@[b].0) && r == self.node_move(
                    scores@[b].1 as int,
                ),
    {
        if scores.len() == 0 {
            return Dir::Up;
        }
        let mut best: usize = 0;
        let mut k: usize = 1;
        while k < scores.len()
            invariant
                0 <= best < k <= scores.len(),
                forall|m: int| 0 <= m < k ==> (#[trigger] scores@[m]).0 <= scores@[best as int].0,
                forall|m: int| 0 <= m < best ==> (#[trigger] scores@[m]).0 < scores@[best as int].0,
            decreases scores.len() - k,
        {
            if scores[k].0 > scores[best].0 {
                best = k;
            }
            k += 1;
        }
        let j = scores[best].1;
        let st = &self.inner_vec[j].state;
        let r = match st.find_snake(&self.self_id) {
            Some(i) => {
                let s = &st.board.snakes[i];
                assert(s@ == st@.snakes[i as int]);
                assert(first_with_id(st@, self.self_id@, i as int));
                assert forall|i2: int| first_with_id(st@, self.self_id@, i2) implies i2 == i by {
                    if i2 < i {
                        assert(st.board.snakes@[i2]@ == st@.snakes[i2]);
                    }
                    if i2 > i {
                        assert(st.board.snakes@[i as int]@ == st@.snakes[i as int]);
                    }
                }
                if s.body.len() >= 2 {
                    match s.body[1].dir_to(s.body[0]) {
                        Some(d) => d,
                        None => Dir::Up,
                    }
                } else {
                    Dir::Up
                }
            },
            None => {
                assert forall|i2: int| !first_with_id(st@, self.self_id@, i2) by {
                    if 0 <= i2 < st@.snakes.len() {
                        assert(st.board.snakes@[i2]@ == st@.snakes[i2]);
                    }
                }
                Dir::Up
            },
        };
        r
    }
}

/// Adds the visit counts of `scores` to those of `acc` entry by entry (saturating),
/// appending the entries that `acc` does not have yet.
pub fn merge_child_scores(acc: &mut Vec<(usize, usize)>, scores: &Vec<(usize, usize)>)
    ensures
        final(acc)@.len() == if old(acc)@.len() >= scores@.len() {
            old(acc)@.len()
        } else {
            scores@.len()
        },
        forall|k: int|
            0 <= k < final(acc)@.len() ==> #[trigger] final(acc)@[k] == if k < old(acc)@.len() && k
                < scores@.len() {
                (
                    if old(acc)@[k].0 + scores@[k].0 > usize::MAX {
                        usize::MAX
                    } else {
                        (old(acc)@[k].0 + scores@[k].0) as usize
                    },
                    old(acc)@[k].1,
                )
            } else if k < old(acc)@.len() {
                old(acc)@[k]
            } else {
                scores@[k]
            },
{
    let ghost a0 = acc@;
    let mut k: usize = 0;
    while k < scores.len()
        invariant
            k <= scores@.len(),
            acc@.len() == if a0.len() >= k {
                a0.len()
            } else {
                k as nat
            },
            forall|m: int|
                0 <= m < acc@.len() ==> #[trigger] acc@[m] == if m < a0.len() && m < k {
                    (
                        if a0[m].0 + scores@[m].0 > usize::MAX {
                            usize::MAX
                        } else {
                            (a0[m].0 + scores@[m].0) as usize
                        },
                        a0[m].1,
                    )
                } else if m < a0.len() {
                    a0[m]
                } else {
                    scores@[m]
                },
        decreases scores@.len() - k,
    {
        let (score, idx) = scores[k];
        if acc.len() <= k {
            acc.push((score, idx));
        } else {
            let (old_score, old_idx) = acc[k];
            let sum = if old_score > usize::MAX - score {
                usize::MAX
            } else {
                old_score + score
            };
            acc.set(k, (sum, old_idx));
        }
        k += 1;
    }
}

} // verus!

verus! {

/// Each entry of `loss_upto` moves the protagonist onto a risky neighbour of its head and
/// the opponent towards that cell.
proof fn lemma_loss_entries(me: SnakeModel, enemy_head: Point, st: StateModel, base: int, n: int)
    requires
        movable(head(me)),
        0 <= n <= 4,
    ensures
        forall|m: int|
            #![trigger loss_upto(me, enemy_head, st, base, n)[m]]
            0 <= m < loss_upto(me, enemy_head, st, base, n).len() ==> exists|c: int|
                #![trigger dir_at(c)]
                0 <= c < n && {
                    let p = neighbour(head(me), dir_at(c));
                    &&& safety_spec(p, me, st) == SafetyIndex::Risky
                    &&& loss_upto(me, enemy_head, st, base, n)[m] == (
                        dir_at(c),
                        crate::point::dir_to_spec(enemy_head, p)->0,
                    )
                    &&& crate::point::dir_to_spec(enemy_head, p) is Some
                },
    decreases n,
{
    if n > 0 {
        lemma_loss_entries(me, enemy_head, st, base, n - 1);
        crate::point::lemma_dir_to_step(head(me), dir_at(n - 1));
        let r = loss_upto(me, enemy_head, st, base, n - 1);
        let cur = loss_upto(me, enemy_head, st, base, n);
        assert forall|m: int| #![trigger cur[m]] 0 <= m < cur.len() implies exists|c: int|
            #![trigger dir_at(c)]
            0 <= c < n && {
                let p = neighbour(head(me), dir_at(c));
                &&& safety_spec(p, me, st) == SafetyIndex::Risky
                &&& cur[m] == (dir_at(c), crate::point::dir_to_spec(enemy_head, p)->0)
                &&& crate::point::dir_to_spec(enemy_head, p) is Some
            } by {
            if m < r.len() {
                assert(cur[m] == r[m]);
                let c = choose|c: int|
                    #![trigger dir_at(c)]
                    0 <= c < n - 1 && {
                        let p = neighbour(head(me), dir_at(c));
                        &&& safety_spec(p, me, st) == SafetyIndex::Risky
                        &&& r[m] == (dir_at(c), crate::point::dir_to_spec(enemy_head, p)->0)
                        &&& crate::point::dir_to_spec(enemy_head, p) is Some
                    };
            } else {
                let p = neighbour(head(me), dir_at(n - 1));
                let cond = base + r.len() < 4 && safety_spec(p, me, st) == SafetyIndex::Risky
                    && crate::point::dir_to_spec(head(me), p) is Some && crate::point::dir_to_spec(
                    enemy_head,
                    p,
                ) is Some;
                if !cond {
                    assert(cur == r);
                }
                assert(cond);
                assert(cur == r.push((dir_at(n - 1), crate::point::dir_to_spec(enemy_head, p)->0)));
                assert(cur[m] == (dir_at(n - 1), crate::point::dir_to_spec(enemy_head, p)->0));
            }
        }
    }
}

/// With two agents, the protagonist and the opponent both moving onto a cell that is risky
/// for the protagonist is a lost game for it.
pub proof fn lemma_loss_child_lost(st: StateModel, i: int, e: int, d_me: Dir, p: Point)
    requires
        state_wf(st),
        st.snakes.len() == 2,
        0 <= i < 2,
        e == 1 - i,
        p == neighbour(head(st.snakes[i]), d_me),
        safety_spec(p, st.snakes[i], st) == SafetyIndex::Risky,
        crate::point::dir_to_spec(head(st.snakes[e]), p) is Some,
    ensures
        ({
            let mv = seq![
                (st.snakes[i].id, d_me),
                (st.snakes[e].id, crate::point::dir_to_spec(head(st.snakes[e]), p)->0),
            ];
            &&& advance_outcome(st, st.snakes[i].id, mv).finished
            &&& !advance_outcome(st, st.snakes[i].id, mv).alive
        }),
{
    let me = st.snakes[i];
    let en = st.snakes[e];
    let d_en = crate::point::dir_to_spec(head(en), p)->0;
    let mv = seq![(me.id, d_me), (en.id, d_en)];
    assert(st.snakes[i].id != st.snakes[e].id);
    let k = choose|k: int| 0 <= k < st.snakes.len() && crate::board::threatens(#[trigger] st.snakes[k], me, p);
    assert(k == e);
    crate::board::lemma_head_movable(st, e);
    crate::point::lemma_adjacent_step(head(en), p);
    assert(mv.drop_last() =~= seq![(me.id, d_me)]);
    assert(crate::simulator::move_of(seq![(me.id, d_me)], me.id) == Some(d_me));
    assert(crate::simulator::move_of(mv, me.id) == Some(d_me));
    assert(crate::simulator::move_of(mv, en.id) == Some(d_en));
    let m = crate::simulator::mid_state(st, mv);
    assert(m.snakes[e] == crate::simulator::moved_snake(st, mv, e));
    assert(m.snakes[i] == crate::simulator::moved_snake(st, mv, i));
    assert(crate::simulator::new_head(st, mv, i) == p);
    assert(head(m.snakes[e]) == p);
    assert(m.snakes[e].body.len() >= m.snakes[i].body.len());
    assert(crate::simulator::dies(st, mv, i));
}

} // verus!

verus! {

/// In a two-agent game, every already-lost child that `expand` creates below an open node
/// is indeed lost: the protagonist and the opponent both moving onto the risky cell ends
/// the game with the protagonist dead.
pub proof fn lemma_loss_children_lost(t: GameTree, i: int, m: int)
    requires
        t.wf(),
        0 <= i < t.node_count(),
        !(t.outcome(i) matches Some(f) && f.finished),
        t.node_state(i).snakes.len() == 2,
        crate::alpha_beta::present(t.node_state(i), t.protagonist()),
        t.protagonist() != t.opponent(),
        0 <= m < t.loss_moves_at(i).len(),
    ensures
        ({
            let l = t.loss_moves_at(i)[m];
            let mv = seq![(t.protagonist(), l.0), (t.opponent(), l.1)];
            &&& advance_outcome(t.node_state(i), t.protagonist(), mv).finished
            &&& !advance_outcome(t.node_state(i), t.protagonist(), mv).alive
        }),
{
    let st = t.node_state(i);
    assert(node_ready(t.inner_vec@[i]));
    assert(state_wf(st)) by {
        reveal(tree_states);
    }
    let i0 = crate::alpha_beta::idx_of(st, t.protagonist());
    let e0 = crate::alpha_beta::idx_of(st, t.opponent());
    assert(!t.inner_vec@[i].is_self_node && crate::alpha_beta::present(st, t.opponent()));
    assert(i0 != e0);
    let me = st.snakes[i0];
    let eh = head(st.snakes[e0]);
    crate::board::lemma_head_movable(st, i0);
    lemma_loss_entries(me, eh, st, t.moves_at(i).len() as int, 4);
    let loss = loss_upto(me, eh, st, t.moves_at(i).len() as int, 4);
    assert(t.loss_moves_at(i) == loss);
    let c = choose|c: int|
        #![trigger dir_at(c)]
        0 <= c < 4 && {
            let p = neighbour(head(me), dir_at(c));
            &&& safety_spec(p, me, st) == SafetyIndex::Risky
            &&& loss[m] == (dir_at(c), crate::point::dir_to_spec(eh, p)->0)
            &&& crate::point::dir_to_spec(eh, p) is Some
        };
    lemma_loss_child_lost(st, i0, e0, dir_at(c), neighbour(head(me), dir_at(c)));
}

} // verus!
