//! The one-turn state transition shared by every search strategy.

use vstd::prelude::*;

use crate::board::{
    contains_point, has_heads, head, in_bounds_spec, moved_body, state_wf, valid_spec, Board, Game, Snake,
    SnakeModel, State, StateModel,
};
use crate::point::{movable, neighbour, Dir, Point};

verus! {

/// What one simulated turn produced, seen from the protagonist.
#[derive(Clone, Copy, PartialEq, Eq, Structural, Debug)]
pub struct Future {
    /// Whether the protagonist is still alive.
    pub alive: bool,
    /// Whether the game is over for the protagonist (dead, or the last one standing).
    pub finished: bool,
    /// The number of other agents that died this turn.
    pub dead_snakes: u16,
    /// The number of food cells collected by the protagonist.
    pub foods: u16,
    /// The number of food cells collected by the other agents.
    pub enemy_foods: u16,
    /// The protagonist's move this turn.
    pub dir: Dir,
}

/// The moves as (id, direction) pairs.
pub open spec fn moves_view(moves: Seq<(String, Dir)>) -> Seq<(Seq<char>, Dir)> {
    moves.map_values(|m: (String, Dir)| (m.0@, m.1))
}

/// Every move names an agent of `st`.
pub open spec fn moves_known(st: StateModel, moves: Seq<(Seq<char>, Dir)>) -> bool {
    forall|k: int|
        0 <= k < moves.len() ==> st.snakes.map_values(|s: SnakeModel| s.id).contains(#[trigger] moves[k].0)
}

/// Moves listed in the order of the agents, one per agent, name agents of `st`.
pub proof fn lemma_moves_in_order(st: StateModel, moves: Seq<(Seq<char>, Dir)>)
    requires
        moves.len() <= st.snakes.len(),
        forall|k: int| 0 <= k < moves.len() ==> #[trigger] moves[k].0 == st.snakes[k].id,
    ensures
        moves_known(st, moves),
{
    assert forall|k: int| 0 <= k < moves.len() implies st.snakes.map_values(|s: SnakeModel| s.id).contains(
        #[trigger] moves[k].0,
    ) by {
        assert(st.snakes.map_values(|s: SnakeModel| s.id)[k] == moves[k].0);
    }
}

/// The move given for `id` (the last one, if several are).
pub open spec fn move_of(moves: Seq<(Seq<char>, Dir)>, id: Seq<char>) -> Option<Dir>
    decreases moves.len(),
{
    if moves.len() == 0 {
        None
    } else if moves.last().0 == id {
        Some(moves.last().1)
    } else {
        move_of(moves.drop_last(), id)
    }
}

/// The move of agent `i`.
pub open spec fn move_at(st: StateModel, moves: Seq<(Seq<char>, Dir)>, i: int) -> Option<Dir> {
    move_of(moves, st.snakes[i].id)
}

/// Where the head of agent `i` is checked after the turn: the new head of a mover, the
/// current head of an agent that was given no move.
pub open spec fn new_head(st: StateModel, moves: Seq<(Seq<char>, Dir)>, i: int) -> Point {
    match move_at(st, moves, i) {
        Some(d) => neighbour(head(st.snakes[i]), d),
        None => head(st.snakes[i]),
    }
}

/// Agent `i` moves onto food this turn.
pub open spec fn collects(st: StateModel, moves: Seq<(Seq<char>, Dir)>, i: int) -> bool {
    move_at(st, moves, i).is_some() && st.food.contains(new_head(st, moves, i))
}

/// Agent `i` after its move.
pub open spec fn moved_snake(st: StateModel, moves: Seq<(Seq<char>, Dir)>, i: int) -> SnakeModel {
    let sn = st.snakes[i];
    match move_at(st, moves, i) {
        Some(d) => SnakeModel {
            id: sn.id,
            health: if collects(st, moves, i) {
                100
            } else {
                (sn.health - 1) as u8
            },
            body: moved_body(sn.body, d, collects(st, moves, i)),
        },
        None => sn,
    }
}

/// Some agent moves onto the food cell `f` this turn.
pub open spec fn eaten(st: StateModel, moves: Seq<(Seq<char>, Dir)>, f: Point) -> bool {
    exists|i: int| 0 <= i < st.snakes.len() && collects(st, moves, i) && new_head(st, moves, i) == f
}

/// The first `n` food cells that nobody eats this turn, in order.
pub open spec fn uneaten_upto(st: StateModel, moves: Seq<(Seq<char>, Dir)>, n: int) -> Seq<Point>
    decreases n,
{
    if n <= 0 {
        Seq::empty()
    } else {
        let rest = uneaten_upto(st, moves, n - 1);
        if eaten(st, moves, st.food[n - 1]) {
            rest
        } else {
            rest.push(st.food[n - 1])
        }
    }
}

/// The state once every agent has moved and the eaten food is gone, before any removal.
pub open spec fn mid_state(st: StateModel, moves: Seq<(Seq<char>, Dir)>) -> StateModel {
    StateModel {
        game: st.game,
        turn: (st.turn + 1) as u32,
        width: st.width,
        height: st.height,
        food: uneaten_upto(st, moves, st.food.len() as int),
        snakes: Seq::new(st.snakes.len(), |i: int| moved_snake(st, moves, i)),
    }
}

/// Agent `i` dies this turn: its checked head is not valid among the moved agents, or it
/// starved.
pub open spec fn dies(st: StateModel, moves: Seq<(Seq<char>, Dir)>, i: int) -> bool {
    let m = mid_state(st, moves);
    !valid_spec(new_head(st, moves, i), m.snakes[i], m) || m.snakes[i].health == 0
}

/// The protagonist `me` dies this turn.
pub open spec fn protagonist_dies(st: StateModel, moves: Seq<(Seq<char>, Dir)>, me: Seq<char>) -> bool {
    exists|i: int| 0 <= i < st.snakes.len() && st.snakes[i].id == me && dies(st, moves, i)
}

/// The agents among the first `n` of `s` whose flag is not set, in order.
pub open spec fn keep_upto(s: Seq<SnakeModel>, gone: Seq<bool>, n: int) -> Seq<SnakeModel>
    decreases n,
{
    if n <= 0 {
        Seq::empty()
    } else {
        let rest = keep_upto(s, gone, n - 1);
        if gone[n - 1] {
            rest
        } else {
            rest.push(s[n - 1])
        }
    }
}

/// The number of set flags among the first `n`.
pub open spec fn count_upto(gone: Seq<bool>, n: int) -> nat
    decreases n,
{
    if n <= 0 {
        0
    } else {
        count_upto(gone, n - 1) + if gone[n - 1] {
            1nat
        } else {
            0nat
        }
    }
}

/// Which agents die this turn.
pub open spec fn death_flags(st: StateModel, moves: Seq<(Seq<char>, Dir)>) -> Seq<bool> {
    Seq::new(st.snakes.len(), |i: int| dies(st, moves, i))
}

/// Food picked up by the first `n` agents, counting those with id `me` (`mine`) or the
/// others.
pub open spec fn count_foods(
    st: StateModel,
    moves: Seq<(Seq<char>, Dir)>,
    me: Seq<char>,
    mine: bool,
    n: int,
) -> nat
    decreases n,
{
    if n <= 0 {
        0
    } else {
        count_foods(st, moves, me, mine, n - 1) + if collects(st, moves, n - 1) && (st.snakes[n
            - 1].id == me) == mine {
            1nat
        } else {
            0nat
        }
    }
}

/// The state after one turn: agents moved, eaten food removed, the turn counter advanced;
/// dead agents other than the protagonist are removed unless the protagonist died too.
pub open spec fn advance_state(st: StateModel, me: Seq<char>, moves: Seq<(Seq<char>, Dir)>) -> StateModel {
    let m = mid_state(st, moves);
    if protagonist_dies(st, moves, me) {
        m
    } else {
        StateModel {
            snakes: keep_upto(m.snakes, death_flags(st, moves), st.snakes.len() as int),
            ..m
        }
    }
}

/// The number of other agents removed this turn.
pub open spec fn dead_count(st: StateModel, me: Seq<char>, moves: Seq<(Seq<char>, Dir)>) -> nat {
    if protagonist_dies(st, moves, me) {
        0
    } else {
        count_upto(death_flags(st, moves), st.snakes.len() as int)
    }
}

/// The outcome of one turn for the protagonist `me`.
pub open spec fn advance_outcome(st: StateModel, me: Seq<char>, moves: Seq<(Seq<char>, Dir)>) -> Future {
    let pd = protagonist_dies(st, moves, me);
    let dead = dead_count(st, me, moves);
    Future {
        alive: !pd,
        finished: pd || (dead > 0 && advance_state(st, me, moves).snakes.len() == 1),
        dead_snakes: dead as u16,
        foods: count_foods(st, moves, me, true, st.snakes.len() as int) as u16,
        enemy_foods: count_foods(st, moves, me, false, st.snakes.len() as int) as u16,
        dir: match move_of(moves, me) {
            Some(d) => d,
            None => Dir::Up,
        },
    }
}

proof fn lemma_count_foods_bound(
    st: StateModel,
    moves: Seq<(Seq<char>, Dir)>,
    me: Seq<char>,
    mine: bool,
    n: int,
)
    requires
        0 <= n,
    ensures
        count_foods(st, moves, me, mine, n) <= n,
    decreases n,
{
    if n > 0 {
        lemma_count_foods_bound(st, moves, me, mine, n - 1);
    }
}

proof fn lemma_count_bound(gone: Seq<bool>, n: int)
    requires
        0 <= n,
    ensures
        count_upto(gone, n) <= n,
    decreases n,
{
    if n > 0 {
        lemma_count_bound(gone, n - 1);
    }
}

/// The move given for `id`, if any.
fn lookup_move(moves: &Vec<(String, Dir)>, id: &String) -> (r: Option<Dir>)
    ensures
        r == move_of(moves_view(moves@), id@),
{
    let ghost mv = moves_view(moves@);
    let mut r: Option<Dir> = None;
    let mut j: usize = 0;
    while j < moves.len()
        invariant
            j <= moves.len(),
            mv == moves_view(moves@),
            r == move_of(mv.subrange(0, j as int), id@),
        decreases moves.len() - j,
    {
        assert(mv.subrange(0, j + 1).drop_last() =~= mv.subrange(0, j as int));
        if moves[j].0 == *id {
            r = Some(moves[j].1);
        }
        j += 1;
    }
    assert(mv.subrange(0, moves.len() as int) =~= mv);
    r
}

/// The members of `keep_upto` are unflagged members of `s`, and distinct ids stay distinct.
proof fn lemma_keep(s: Seq<SnakeModel>, gone: Seq<bool>, n: int)
    requires
        0 <= n <= s.len(),
        n <= gone.len(),
        forall|a: int, b: int| 0 <= a < s.len() && 0 <= b < s.len() && a != b ==> s[a].id != s[b].id,
    ensures
        keep_upto(s, gone, n).len() <= n,
        forall|a: int|
            0 <= a < keep_upto(s, gone, n).len() ==> exists|k: int|
                0 <= k < n && !gone[k] && #[trigger] keep_upto(s, gone, n)[a] == s[k],
        forall|a: int, b: int|
            0 <= a < keep_upto(s, gone, n).len() && 0 <= b < keep_upto(s, gone, n).len() && a != b
                ==> (#[trigger] keep_upto(s, gone, n)[a]).id != (#[trigger] keep_upto(s, gone, n)[b]).id,
    decreases n,
{
    if n > 0 {
        lemma_keep(s, gone, n - 1);
        let rest = keep_upto(s, gone, n - 1);
        let cur = keep_upto(s, gone, n);
        if !gone[n - 1] {
            assert(cur == rest.push(s[n - 1]));
            assert forall|a: int| 0 <= a < cur.len() implies exists|k: int|
                0 <= k < n && !gone[k] && #[trigger] cur[a] == s[k] by {
                if a < rest.len() {
                    assert(cur[a] == rest[a]);
                    let k = choose|k: int| 0 <= k < n - 1 && !gone[k] && rest[a] == s[k];
                } else {
                    assert(cur[a] == s[n - 1]);
                }
            }
            assert forall|a: int, b: int|
                0 <= a < cur.len() && 0 <= b < cur.len() && a != b implies (#[trigger] cur[a]).id
                != (#[trigger] cur[b]).id by {
                if a < rest.len() && b < rest.len() {
                    assert(cur[a] == rest[a] && cur[b] == rest[b]);
                } else if a < rest.len() {
                    assert(cur[a] == rest[a]);
                    let k = choose|k: int| 0 <= k < n - 1 && !gone[k] && rest[a] == s[k];
                    assert(cur[b] == s[n - 1]);
                } else {
                    assert(cur[b] == rest[b]);
                    let k = choose|k: int| 0 <= k < n - 1 && !gone[k] && rest[b] == s[k];
                    assert(cur[a] == s[n - 1]);
                }
            }
        }
    }
}

/// An agent that survives the turn is well formed in the new state.
proof fn lemma_survivor(st: StateModel, moves: Seq<(Seq<char>, Dir)>, k: int)
    requires
        state_wf(st),
        0 <= k < st.snakes.len(),
        !dies(st, moves, k),
    ensures
        moved_snake(st, moves, k).body.len() >= 2,
        moved_snake(st, moves, k).health >= 1,
        moved_snake(st, moves, k).id == st.snakes[k].id,
        forall|j: int|
            0 <= j < moved_snake(st, moves, k).body.len() ==> in_bounds_spec(
                #[trigger] moved_snake(st, moves, k).body[j],
                st,
            ),
{
    let m = mid_state(st, moves);
    assert(m.snakes[k] == moved_snake(st, moves, k));
    assert(in_bounds_spec(new_head(st, moves, k), m));
    let sn = st.snakes[k];
    assert(sn.body.len() >= 2);
    match move_at(st, moves, k) {
        Some(d) => {
            let g = collects(st, moves, k);
            let b = seq![neighbour(sn.body[0], d)] + sn.body.drop_last();
            let body = moved_snake(st, moves, k).body;
            assert forall|j: int| 0 <= j < body.len() implies in_bounds_spec(#[trigger] body[j], st) by {
                if j == 0 {
                    assert(body[0] == new_head(st, moves, k));
                } else if j < sn.body.len() {
                    assert(body[j] == sn.body[j - 1]);
                    assert(in_bounds_spec(st.snakes[k].body[j - 1], st));
                } else {
                    assert(body[j] == sn.body[sn.body.len() - 2]);
                    assert(in_bounds_spec(st.snakes[k].body[sn.body.len() - 2], st));
                }
            }
        },
        None => {
            assert forall|j: int|
                0 <= j < sn.body.len() implies in_bounds_spec(#[trigger] sn.body[j], st) by {
                assert(in_bounds_spec(st.snakes[k].body[j], st));
            }
        },
    }
}

/// Moves every agent that was given a move. Returns the moved agents, the heads to check,
/// the food cells stepped on and the food counts of the protagonist and of the others.
fn move_all(st: &State, self_id: &String, moves: &Vec<(String, Dir)>) -> (r: (
    Vec<Snake>,
    Vec<Point>,
    Vec<Point>,
    u16,
    u16,
))
    requires
        state_wf(st@),
        st.board.snakes.len() <= u16::MAX,
    ensures
        r.0.len() == st@.snakes.len(),
        r.1.len() == st@.snakes.len(),
        forall|k: int|
            0 <= k < st@.snakes.len() ==> (#[trigger] r.0@[k])@ == moved_snake(
                st@,
                moves_view(moves@),
                k,
            ),
        forall|k: int| 0 <= k < st@.snakes.len() ==> #[trigger] r.1@[k] == new_head(st@, moves_view(moves@), k),
        forall|x: Point| r.2@.contains(x) <==> eaten(st@, moves_view(moves@), x),
        r.3 == count_foods(st@, moves_view(moves@), self_id@, true, st@.snakes.len() as int),
        r.4 == count_foods(st@, moves_view(moves@), self_id@, false, st@.snakes.len() as int),
{
    let ghost s0 = st@;
    let ghost mv = moves_view(moves@);
    let n = st.board.snakes.len();
    let mut moved: Vec<Snake> = Vec::new();
    let mut heads: Vec<Point> = Vec::new();
    let mut eaten_list: Vec<Point> = Vec::new();
    let mut foods: u16 = 0;
    let mut enemy_foods: u16 = 0;
    let mut i: usize = 0;
    while i < n
        invariant
            s0 == st@,
            state_wf(s0),
            n == s0.snakes.len(),
            n <= u16::MAX,
            mv == moves_view(moves@),
            i <= n,
            moved.len() == i,
            heads.len() == i,
            forall|k: int| 0 <= k < i ==> (#[trigger] moved@[k])@ == moved_snake(s0, mv, k),
            forall|k: int| 0 <= k < i ==> #[trigger] heads@[k] == new_head(s0, mv, k),
            forall|x: Point|
                eaten_list@.contains(x) <==> exists|k: int|
                    0 <= k < i && collects(s0, mv, k) && new_head(s0, mv, k) == x,
            foods == count_foods(s0, mv, self_id@, true, i as int),
            enemy_foods == count_foods(s0, mv, self_id@, false, i as int),
        decreases n - i,
    {
        let sn = &st.board.snakes[i];
        assert(sn@ == s0.snakes[i as int]);
        proof {
            crate::board::lemma_head_movable(s0, i as int);
            lemma_count_foods_bound(s0, mv, self_id@, true, i as int);
            lemma_count_foods_bound(s0, mv, self_id@, false, i as int);
        }
        assert(s0.snakes[i as int].body.len() >= 2 && s0.snakes[i as int].health >= 1);
        let ghost before = eaten_list@;
        let mut next = sn.duplicate();
        match lookup_move(moves, &sn.id) {
            Some(d) => {
                let (h, got) = next.update_from_move(d, &st.board.food);
                heads.push(h);
                if got.is_some() {
                    eaten_list.push(h);
                    if sn.id == *self_id {
                        foods = foods + 1;
                    } else {
                        enemy_foods = enemy_foods + 1;
                    }
                }
            },
            None => {
                heads.push(sn.body[0]);
            },
        }
        moved.push(next);
        assert(moved@[i as int]@ == moved_snake(s0, mv, i as int));
        assert forall|x: Point|
            eaten_list@.contains(x) <==> exists|k: int|
                0 <= k < i + 1 && collects(s0, mv, k) && new_head(s0, mv, k) == x by {
            if collects(s0, mv, i as int) {
                assert(eaten_list@ =~= before.push(new_head(s0, mv, i as int)));
                if x == new_head(s0, mv, i as int) {
                    assert(eaten_list@[before.len() as int] == x);
                }
                if eaten_list@.contains(x) && x != new_head(s0, mv, i as int) {
                    let w = choose|w: int| 0 <= w < eaten_list@.len() && eaten_list@[w] == x;
                    assert(before[w] == x);
                }
                if before.contains(x) {
                    let w = choose|w: int| 0 <= w < before.len() && before[w] == x;
                    assert(eaten_list@[w] == x);
                }
            } else {
                assert(eaten_list@ == before);
            }
        }
        i += 1;
    }
    (moved, heads, eaten_list, foods, enemy_foods)
}

/// The food cells of `st` that are not in `gone`, in order.
fn remaining_food(st: &State, moves: &Vec<(String, Dir)>, gone: &Vec<Point>) -> (r: Vec<Point>)
    requires
        forall|x: Point| gone@.contains(x) <==> eaten(st@, moves_view(moves@), x),
    ensures
        r@ == uneaten_upto(st@, moves_view(moves@), st@.food.len() as int),
{
    let mut r: Vec<Point> = Vec::new();
    let mut j: usize = 0;
    while j < st.board.food.len()
        invariant
            j <= st@.food.len(),
            forall|x: Point| gone@.contains(x) <==> eaten(st@, moves_view(moves@), x),
            r@ == uneaten_upto(st@, moves_view(moves@), j as int),
        decreases st@.food.len() - j,
    {
        let f = st.board.food[j];
        if !contains_point(gone, f) {
            r.push(f);
        }
        j += 1;
    }
    r
}

/// Which agents die, and whether the protagonist is among them.
fn find_deaths(mid: &State, heads: &Vec<Point>, self_id: &String, ghost_st: Ghost<StateModel>, ghost_mv: Ghost<Seq<(Seq<char>, Dir)>>) -> (r: (Vec<bool>, bool))
    requires
        mid@ == mid_state(ghost_st@, ghost_mv@),
        state_wf(ghost_st@),
        heads.len() == ghost_st@.snakes.len(),
        forall|k: int| 0 <= k < ghost_st@.snakes.len() ==> #[trigger] heads@[k] == new_head(ghost_st@, ghost_mv@, k),
    ensures
        r.0@ == death_flags(ghost_st@, ghost_mv@),
        r.1 == protagonist_dies(ghost_st@, ghost_mv@, self_id@),
{
    let ghost s0 = ghost_st@;
    let ghost mv = ghost_mv@;
    let n = mid.board.snakes.len();
    assert(has_heads(mid@)) by {
        assert forall|k: int| 0 <= k < mid@.snakes.len() implies #[trigger] mid@.snakes[k].body.len() >= 1 by {
            assert(mid@.snakes[k] == moved_snake(s0, mv, k));
            assert(s0.snakes[k].body.len() >= 2);
        }
    }
    assert(mid@.snakes.len() == n);
    assert(n == s0.snakes.len());
    let mut flags: Vec<bool> = Vec::new();
    let mut proto_dead = false;
    let mut i: usize = 0;
    while i < n
        invariant
            mid@ == mid_state(s0, mv),
            has_heads(mid@),
            n == s0.snakes.len(),
            n == mid.board.snakes.len(),
            heads.len() == n,
            forall|k: int| 0 <= k < n ==> #[trigger] heads@[k] == new_head(s0, mv, k),
            i <= n,
            flags.len() == i,
            forall|k: int| 0 <= k < i ==> #[trigger] flags@[k] == dies(s0, mv, k),
            proto_dead == exists|k: int| 0 <= k < i && s0.snakes[k].id == self_id@ && dies(s0, mv, k),
        decreases n - i,
    {
        let sn = &mid.board.snakes[i];
        assert(sn@ == mid@.snakes[i as int]);
        assert(mid@.snakes[i as int] == moved_snake(s0, mv, i as int));
        let d = !heads[i].is_valid(sn, mid) || sn.health == 0;
        assert(d == dies(s0, mv, i as int));
        if d && sn.id == *self_id {
            proto_dead = true;
        }
        flags.push(d);
        i += 1;
    }
    assert(flags@ =~= death_flags(s0, mv));
    (flags, proto_dead)
}

/// The agents whose flag is not set, and how many were dropped.
fn survivors(snakes: &Vec<Snake>, gone: &Vec<bool>) -> (r: (Vec<Snake>, u16))
    requires
        gone.len() == snakes.len(),
        snakes.len() <= u16::MAX,
    ensures
        r.0@.map_values(|s: Snake| s@) == keep_upto(
            snakes@.map_values(|s: Snake| s@),
            gone@,
            snakes.len() as int,
        ),
        r.1 == count_upto(gone@, snakes.len() as int),
{
    let ghost sv = snakes@.map_values(|s: Snake| s@);
    let mut kept: Vec<Snake> = Vec::new();
    let mut dead: u16 = 0;
    let mut i: usize = 0;
    while i < snakes.len()
        invariant
            gone.len() == snakes.len(),
            snakes.len() <= u16::MAX,
            sv == snakes@.map_values(|s: Snake| s@),
            i <= snakes.len(),
            kept@.map_values(|s: Snake| s@) == keep_upto(sv, gone@, i as int),
            dead == count_upto(gone@, i as int),
        decreases snakes.len() - i,
    {
        proof {
            lemma_count_bound(gone@, i as int);
        }
        let ghost prev = kept@.map_values(|s: Snake| s@);
        if !gone[i] {
            kept.push(snakes[i].duplicate());
            assert(kept@.map_values(|s: Snake| s@) =~= prev.push(sv[i as int]));
        } else {
            dead = dead + 1;
        }
        i += 1;
    }
    (kept, dead)
}

/// Plays one turn. Every agent given a move steps (eating, growing and healing on food,
/// losing one health otherwise); eaten food is removed once every agent has moved; each
/// agent's head is then checked against the new positions. A dead or starved protagonist
/// ends the game and nobody is removed; otherwise the dead are removed and counted, and a
/// lone survivor after a removal ends the game. The turn counter advances by one.
pub fn process_step(st: &mut State, self_id: &String, moves: &Vec<(String, Dir)>) -> (r: Future)
    requires
        state_wf(old(st)@),
        old(st).turn < u32::MAX,
        old(st).board.snakes.len() <= u16::MAX,
        moves_known(old(st)@, moves_view(moves@)),
    ensures
        final(st)@ == advance_state(old(st)@, self_id@, moves_view(moves@)),
        r == advance_outcome(old(st)@, self_id@, moves_view(moves@)),
        r.alive ==> state_wf(final(st)@),
        final(st).board.snakes.len() <= old(st).board.snakes.len(),
{
    let ghost s0 = st@;
    let ghost mv = moves_view(moves@);
    let dir = match lookup_move(moves, self_id) {
        Some(d) => d,
        None => Dir::Up,
    };
    let (moved, heads, eaten_list, foods, enemy_foods) = move_all(st, self_id, moves);
    let new_food = remaining_food(st, moves, &eaten_list);
    let mid = State {
        game: Game { id: st.game.id.clone() },
        turn: st.turn + 1,
        board: Board {
            height: st.board.height,
            width: st.board.width,
            food: new_food,
            snakes: moved,
        },
    };
    assert(mid@.snakes =~= mid_state(s0, mv).snakes);
    assert(mid@ == mid_state(s0, mv));
    let (flags, proto_dead) = find_deaths(&mid, &heads, self_id, Ghost(s0), Ghost(mv));
    proof {
        lemma_count_foods_bound(s0, mv, self_id@, true, s0.snakes.len() as int);
        lemma_count_foods_bound(s0, mv, self_id@, false, s0.snakes.len() as int);
    }
    if proto_dead {
        *st = mid;
        return Future {
            alive: false,
            finished: true,
            dead_snakes: 0,
            foods,
            enemy_foods,
            dir,
        };
    }
    let (kept, dead) = survivors(&mid.board.snakes, &flags);
    let finished = dead > 0 && kept.len() == 1;
    let State { game, turn, board } = mid;
    let Board { height, width, food, snakes: _ } = board;
    *st = State { game, turn, board: Board { height, width, food, snakes: kept } };
    proof {
        let ms = mid_state(s0, mv);
        let fs = st@;
        assert(fs.snakes == keep_upto(ms.snakes, death_flags(s0, mv), s0.snakes.len() as int));
        assert forall|a: int, b: int|
            0 <= a < ms.snakes.len() && 0 <= b < ms.snakes.len() && a != b implies ms.snakes[a].id
            != ms.snakes[b].id by {
            assert(ms.snakes[a] == moved_snake(s0, mv, a));
            assert(ms.snakes[b] == moved_snake(s0, mv, b));
            assert(s0.snakes[a].id != s0.snakes[b].id);
        }
        lemma_keep(ms.snakes, death_flags(s0, mv), s0.snakes.len() as int);
        lemma_food_removal(s0, self_id@, mv);
        assert forall|a: int| 0 <= a < fs.snakes.len() implies {
            &&& #[trigger] fs.snakes[a].body.len() >= 2
            &&& fs.snakes[a].health >= 1
            &&& forall|j: int|
                0 <= j < fs.snakes[a].body.len() ==> in_bounds_spec(#[trigger] fs.snakes[a].body[j], fs)
        } by {
            let k = choose|k: int|
                0 <= k < s0.snakes.len() && !death_flags(s0, mv)[k] && #[trigger] fs.snakes[a]
                    == ms.snakes[k];
            assert(ms.snakes[k] == moved_snake(s0, mv, k));
            lemma_survivor(s0, mv, k);
        }
    }
    Future { alive: true, finished, dead_snakes: dead, foods, enemy_foods, dir }
}

/// One turn is a function of its inputs: the same state, protagonist and moves always give
/// the same next state and the same outcome.
pub proof fn lemma_advance_deterministic(
    a: StateModel,
    b: StateModel,
    me_a: Seq<char>,
    me_b: Seq<char>,
    moves_a: Seq<(Seq<char>, Dir)>,
    moves_b: Seq<(Seq<char>, Dir)>,
)
    requires
        a == b,
        me_a == me_b,
        moves_a == moves_b,
    ensures
        advance_state(a, me_a, moves_a) == advance_state(b, me_b, moves_b),
        advance_outcome(a, me_a, moves_a) == advance_outcome(b, me_b, moves_b),
{
}

proof fn lemma_uneaten(st: StateModel, moves: Seq<(Seq<char>, Dir)>, n: int)
    requires
        0 <= n <= st.food.len(),
    ensures
        forall|f: Point|
            #[trigger] uneaten_upto(st, moves, n).contains(f) <==> st.food.subrange(0, n).contains(f)
                && !eaten(st, moves, f),
        st.food.subrange(0, n).no_duplicates() ==> uneaten_upto(st, moves, n).no_duplicates(),
    decreases n,
{
    if n > 0 {
        lemma_uneaten(st, moves, n - 1);
        let rest = uneaten_upto(st, moves, n - 1);
        let cur = uneaten_upto(st, moves, n);
        let pre = st.food.subrange(0, n);
        let pre1 = st.food.subrange(0, n - 1);
        let x = st.food[n - 1];
        assert(pre =~= pre1.push(x));
        assert forall|f: Point| pre.contains(f) <==> pre1.contains(f) || f == x by {
            if pre.contains(f) && f != x {
                let w = choose|w: int| 0 <= w < pre.len() && pre[w] == f;
                assert(pre1[w] == f);
            }
            if pre1.contains(f) {
                let w = choose|w: int| 0 <= w < pre1.len() && pre1[w] == f;
                assert(pre[w] == f);
            }
            if f == x {
                assert(pre[n - 1] == f);
            }
        }
        if !eaten(st, moves, x) {
            assert(cur == rest.push(x));
            assert forall|f: Point| cur.contains(f) <==> rest.contains(f) || f == x by {
                if cur.contains(f) && f != x {
                    let w = choose|w: int| 0 <= w < cur.len() && cur[w] == f;
                    assert(rest[w] == f);
                }
                if rest.contains(f) {
                    let w = choose|w: int| 0 <= w < rest.len() && rest[w] == f;
                    assert(cur[w] == f);
                }
                if f == x {
                    assert(cur[rest.len() as int] == f);
                }
            }
            if pre.no_duplicates() {
                assert(pre1.no_duplicates()) by {
                    assert forall|a: int, b: int|
                        0 <= a < pre1.len() && 0 <= b < pre1.len() && a != b implies pre1[a] != pre1[b] by {
                        assert(pre[a] == pre1[a] && pre[b] == pre1[b]);
                    }
                }
                assert(!pre1.contains(x)) by {
                    if pre1.contains(x) {
                        let w = choose|w: int| 0 <= w < pre1.len() && pre1[w] == x;
                        assert(pre[w] == x && pre[n - 1] == x);
                    }
                }
                assert(!rest.contains(x));
                assert forall|a: int, b: int|
                    0 <= a < cur.len() && 0 <= b < cur.len() && a != b implies cur[a] != cur[b] by {
                    if a == rest.len() {
                        assert(cur[b] == rest[b]);
                    } else if b == rest.len() {
                        assert(cur[a] == rest[a]);
                    } else {
                        assert(cur[a] == rest[a] && cur[b] == rest[b]);
                    }
                }
            }
        } else {
            if pre.no_duplicates() {
                assert(pre1.no_duplicates()) by {
                    assert forall|a: int, b: int|
                        0 <= a < pre1.len() && 0 <= b < pre1.len() && a != b implies pre1[a] != pre1[b] by {
                        assert(pre[a] == pre1[a] && pre[b] == pre1[b]);
                    }
                }
            }
        }
    }
}

/// Food removed by a turn was on the board before it, and exactly the cells some agent
/// stepped on are removed; a food list without repeats stays without repeats, so no cell
/// is removed twice.
pub proof fn lemma_food_removal(st: StateModel, me: Seq<char>, moves: Seq<(Seq<char>, Dir)>)
    ensures
        forall|f: Point|
            #[trigger] advance_state(st, me, moves).food.contains(f) ==> st.food.contains(f),
        forall|f: Point|
            st.food.contains(f) && !advance_state(st, me, moves).food.contains(f) ==> eaten(
                st,
                moves,
                f,
            ),
        forall|f: Point|
            eaten(st, moves, f) ==> !(#[trigger] advance_state(st, me, moves).food.contains(f)),
        st.food.no_duplicates() ==> advance_state(st, me, moves).food.no_duplicates(),
{
    lemma_uneaten(st, moves, st.food.len() as int);
    assert(st.food.subrange(0, st.food.len() as int) =~= st.food);
}

/// A protagonist whose health runs out during a turn is dead, and the game is over for it.
pub proof fn lemma_starved_protagonist(
    st: StateModel,
    me: Seq<char>,
    moves: Seq<(Seq<char>, Dir)>,
    i: int,
)
    requires
        0 <= i < st.snakes.len(),
        st.snakes[i].id == me,
        moved_snake(st, moves, i).health == 0,
    ensures
        !advance_outcome(st, me, moves).alive,
        advance_outcome(st, me, moves).finished,
{
    assert(mid_state(st, moves).snakes[i] == moved_snake(st, moves, i));
    assert(dies(st, moves, i));
}

} // verus!

verus! {

/// The protagonist's health plus a hundred per food cell: a turn in which the protagonist
/// moves and survives lowers it.
pub open spec fn potential(st: StateModel, me: Seq<char>) -> int {
    st.snakes[crate::alpha_beta::idx_of(st, me)].health + 100 * st.food.len()
}

pub proof fn lemma_move_of_some(moves: Seq<(Seq<char>, Dir)>, id: Seq<char>, k: int)
    requires
        0 <= k < moves.len(),
        moves[k].0 == id,
    ensures
        move_of(moves, id) is Some,
    decreases moves.len(),
{
    if moves.last().0 != id {
        assert(k < moves.len() - 1);
        assert(moves.drop_last()[k] == moves[k]);
        lemma_move_of_some(moves.drop_last(), id, k);
    }
}

proof fn lemma_uneaten_len(st: StateModel, moves: Seq<(Seq<char>, Dir)>, n: int, k: int)
    requires
        0 <= n <= st.food.len(),
    ensures
        uneaten_upto(st, moves, n).len() <= n,
        0 <= k < n && eaten(st, moves, st.food[k]) ==> uneaten_upto(st, moves, n).len() < n,
    decreases n,
{
    if n > 0 {
        lemma_uneaten_len(st, moves, n - 1, k);
    }
}

proof fn lemma_keep_member(s: Seq<SnakeModel>, gone: Seq<bool>, n: int, k: int)
    requires
        0 <= k < n <= s.len(),
        n <= gone.len(),
        !gone[k],
    ensures
        keep_upto(s, gone, n).contains(s[k]),
    decreases n,
{
    let rest = keep_upto(s, gone, n - 1);
    if k < n - 1 {
        lemma_keep_member(s, gone, n - 1, k);
        let w = choose|w: int| 0 <= w < rest.len() && rest[w] == s[k];
        if !gone[n - 1] {
            assert(keep_upto(s, gone, n)[w] == s[k]);
        }
    } else {
        assert(keep_upto(s, gone, n)[rest.len() as int] == s[k]);
    }
}

/// A turn the protagonist survives keeps it on the board and does not raise the potential;
/// when the protagonist moved, the potential drops by at least one.
pub proof fn lemma_potential_step(st: StateModel, me: Seq<char>, moves: Seq<(Seq<char>, Dir)>)
    requires
        state_wf(st),
        crate::alpha_beta::present(st, me),
        !protagonist_dies(st, moves, me),
        state_wf(advance_state(st, me, moves)),
    ensures
        crate::alpha_beta::present(advance_state(st, me, moves), me),
        potential(advance_state(st, me, moves), me) + (if move_of(moves, me) is Some {
            1int
        } else {
            0int
        }) <= potential(st, me),
{
    let i = crate::alpha_beta::idx_of(st, me);
    let next = advance_state(st, me, moves);
    let m = mid_state(st, moves);
    assert(m.snakes[i] == moved_snake(st, moves, i));
    assert(!dies(st, moves, i));
    let gone = death_flags(st, moves);
    lemma_keep_member(m.snakes, gone, st.snakes.len() as int, i);
    assert(next.snakes == keep_upto(m.snakes, gone, st.snakes.len() as int));
    let a = choose|a: int| 0 <= a < next.snakes.len() && next.snakes[a] == m.snakes[i];
    assert(next.snakes[a].id == me);
    crate::alpha_beta::lemma_idx_of(next, a);
    lemma_uneaten_len(st, moves, st.food.len() as int, 0);
    assert(next.food == uneaten_upto(st, moves, st.food.len() as int));
    if collects(st, moves, i) {
        let h = new_head(st, moves, i);
        let k = choose|k: int| 0 <= k < st.food.len() && st.food[k] == h;
        assert(eaten(st, moves, st.food[k]));
        lemma_uneaten_len(st, moves, st.food.len() as int, k);
    }
}

} // verus!
