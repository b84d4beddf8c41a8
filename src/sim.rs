//! The ensemble branch simulator: a panel of controller pairs and opening moves played
//! forward turn by turn, scored, and merged into one move.

use vstd::prelude::*;

use crate::board::{head, state_wf, Snake, State, StateModel};
use crate::point::{movable, Dir};
use crate::profile::{controller_spec, profile_named, string_to_profile, Controller, Profile};
use crate::simulator::{advance_outcome, advance_state, moves_known, moves_view, process_step, Future};

verus! {

/// One simulated continuation: a controller pair, an opening-move pair, its own copy of
/// the state, and the outcomes of the turns played so far.
pub struct SimBranch {
    pub self_controller: Controller,
    pub enemy_controller: Controller,
    pub self_prefix: Dir,
    pub enemy_prefix: Dir,
    pub state: State,
    pub futures: Vec<Future>,
    pub self_id: String,
}

/// The profile matched to `id` (the last entry, if several are).
pub open spec fn match_of(matches: Seq<(Seq<char>, Seq<char>)>, id: Seq<char>) -> Option<Seq<char>>
    decreases matches.len(),
{
    if matches.len() == 0 {
        None
    } else if matches.last().0 == id {
        Some(matches.last().1)
    } else {
        match_of(matches.drop_last(), id)
    }
}

/// The matches as (id, profile name) pairs.
pub open spec fn matches_view(m: Seq<(String, String)>) -> Seq<(Seq<char>, Seq<char>)> {
    m.map_values(|p: (String, String)| (p.0@, p.1@))
}

/// The controller that plays agent `i` of `st` in a branch: the protagonist's own, the
/// profile matched to the agent when it names a controller, else the opponent's.
pub open spec fn branch_move(
    self_c: Controller,
    enemy_c: Controller,
    self_id: Seq<char>,
    matches: Seq<(Seq<char>, Seq<char>)>,
    st: StateModel,
    i: int,
) -> Dir {
    let sn = st.snakes[i];
    if sn.id == self_id {
        controller_spec(self_c, sn, st)
    } else {
        match match_of(matches, sn.id) {
            Some(name) => match profile_named(name) {
                Some(c) => controller_spec(c, sn, st),
                None => controller_spec(enemy_c, sn, st),
            },
            None => controller_spec(enemy_c, sn, st),
        }
    }
}

/// The opening moves: the protagonist's opening for itself, the opponent's for every other
/// agent.
pub open spec fn prefix_moves(self_p: Dir, enemy_p: Dir, self_id: Seq<char>, st: StateModel) -> Seq<(Seq<char>, Dir)> {
    Seq::new(
        st.snakes.len(),
        |i: int|
            (st.snakes[i].id, if st.snakes[i].id == self_id {
                self_p
            } else {
                enemy_p
            }),
    )
}

/// The moves the controllers pick for every agent.
pub open spec fn step_moves(
    self_c: Controller,
    enemy_c: Controller,
    self_id: Seq<char>,
    matches: Seq<(Seq<char>, Seq<char>)>,
    st: StateModel,
) -> Seq<(Seq<char>, Dir)> {
    Seq::new(
        st.snakes.len(),
        |i: int| (st.snakes[i].id, branch_move(self_c, enemy_c, self_id, matches, st, i)),
    )
}

/// A branch is still being played: no turn yet, or the protagonist alive and the game open.
pub open spec fn live(futures: Seq<Future>) -> bool {
    futures.len() == 0 || (futures.last().alive && !futures.last().finished)
}

/// The state and outcomes after one more round of a branch: the opening turn first,
/// controller turns after it, nothing once the branch is over or its counters are full.
pub open spec fn round(
    self_c: Controller,
    enemy_c: Controller,
    self_p: Dir,
    enemy_p: Dir,
    self_id: Seq<char>,
    matches: Seq<(Seq<char>, Seq<char>)>,
    st: StateModel,
    fs: Seq<Future>,
) -> (StateModel, Seq<Future>) {
    if !live(fs) || st.turn == u32::MAX || fs.len() >= u32::MAX {
        (st, fs)
    } else {
        let mv = if fs.len() == 0 {
            prefix_moves(self_p, enemy_p, self_id, st)
        } else {
            step_moves(self_c, enemy_c, self_id, matches, st)
        };
        (advance_state(st, self_id, mv), fs.push(advance_outcome(st, self_id, mv)))
    }
}

/// The state and outcomes of a branch after `k` rounds.
pub open spec fn run(
    self_c: Controller,
    enemy_c: Controller,
    self_p: Dir,
    enemy_p: Dir,
    self_id: Seq<char>,
    matches: Seq<(Seq<char>, Seq<char>)>,
    st: StateModel,
    fs: Seq<Future>,
    k: nat,
) -> (StateModel, Seq<Future>)
    decreases k,
{
    if k == 0 {
        (st, fs)
    } else {
        let prev = run(self_c, enemy_c, self_p, enemy_p, self_id, matches, st, fs, (k - 1) as nat);
        round(self_c, enemy_c, self_p, enemy_p, self_id, matches, prev.0, prev.1)
    }
}

/// Two branches with the same controllers, opening moves, protagonist and seed state
/// produce the same outcomes, round after round.
pub proof fn lemma_branches_agree(a: SimBranch, b: SimBranch, matches: Seq<(Seq<char>, Seq<char>)>, k: nat)
    requires
        a.self_controller == b.self_controller,
        a.enemy_controller == b.enemy_controller,
        a.self_prefix == b.self_prefix,
        a.enemy_prefix == b.enemy_prefix,
        a.self_id@ == b.self_id@,
        a.state@ == b.state@,
        a.futures@ == b.futures@,
    ensures
        run(a.self_controller, a.enemy_controller, a.self_prefix, a.enemy_prefix, a.self_id@, matches, a.state@, a.futures@, k)
            == run(b.self_controller, b.enemy_controller, b.self_prefix, b.enemy_prefix, b.self_id@, matches, b.state@, b.futures@, k),
{
}

impl SimBranch {
    /// The branch can be played on: a live branch holds a well-formed state.
    pub open spec fn inv(&self) -> bool {
        &&& live(self.futures@) ==> state_wf(self.state@) && self.state.board.snakes.len() <= u16::MAX
        &&& self.futures@.len() <= u32::MAX
    }

    /// The result of one more round of this branch.
    pub open spec fn next(&self, matches: Seq<(Seq<char>, Seq<char>)>) -> (StateModel, Seq<Future>) {
        round(
            self.self_controller,
            self.enemy_controller,
            self.self_prefix,
            self.enemy_prefix,
            self.self_id@,
            matches,
            self.state@,
            self.futures@,
        )
    }

    /// Plays one round: the opening moves on the first, the controllers' moves after.
    pub fn advance(&mut self, matches: &Vec<(String, String)>)
        requires
            old(self).inv(),
        ensures
            final(self).inv(),
            (final(self).state@, final(self).futures@) == old(self).next(matches_view(matches@)),
            final(self).self_controller == old(self).self_controller,
            final(self).enemy_controller == old(self).enemy_controller,
            final(self).self_prefix == old(self).self_prefix,
            final(self).enemy_prefix == old(self).enemy_prefix,
            final(self).self_id == old(self).self_id,
    {
        let is_live = if self.futures.len() == 0 {
            true
        } else {
            let last = self.futures[self.futures.len() - 1];
            last.alive && !last.finished
        };
        if !is_live || self.state.turn == u32::MAX || self.futures.len() >= u32::MAX as usize {
            return;
        }
        let moves = if self.futures.len() == 0 {
            self.prefix_moves()
        } else {
            self.controller_moves(matches)
        };
        proof {
            assert forall|k: int| 0 <= k < moves_view(moves@).len() implies #[trigger] moves_view(moves@)[k].0
                == self.state@.snakes[k].id by {
            }
            crate::simulator::lemma_moves_in_order(self.state@, moves_view(moves@));
        }
        let new_future = process_step(&mut self.state, &self.self_id, &moves);
        self.futures.push(new_future);
    }

    /// The opening move of every agent.
    fn prefix_moves(&self) -> (r: Vec<(String, Dir)>)
        ensures
            moves_view(r@) == prefix_moves(self.self_prefix, self.enemy_prefix, self.self_id@, self.state@),
    {
        let mut dirs: Vec<(String, Dir)> = Vec::new();
        let mut i: usize = 0;
        while i < self.state.board.snakes.len()
            invariant
                i <= self.state.board.snakes.len(),
                dirs@.len() == i,
                forall|k: int|
                    0 <= k < i ==> moves_view(dirs@)[k] == #[trigger] prefix_moves(
                        self.self_prefix,
                        self.enemy_prefix,
                        self.self_id@,
                        self.state@,
                    )[k],
            decreases self.state.board.snakes.len() - i,
        {
            let id = &self.state.board.snakes[i].id;
            let dir = if *id == self.self_id {
                self.self_prefix
            } else {
                self.enemy_prefix
            };
            dirs.push((id.clone(), dir));
            i += 1;
        }
        assert(moves_view(dirs@) =~= prefix_moves(self.self_prefix, self.enemy_prefix, self.self_id@, self.state@));
        dirs
    }

    /// The move the controllers pick for every agent.
    fn controller_moves(&self, matches: &Vec<(String, String)>) -> (r: Vec<(String, Dir)>)
        requires
            state_wf(self.state@),
        ensures
            moves_view(r@) == step_moves(
                self.self_controller,
                self.enemy_controller,
                self.self_id@,
                matches_view(matches@),
                self.state@,
            ),
    {
        let ghost target = step_moves(
            self.self_controller,
            self.enemy_controller,
            self.self_id@,
            matches_view(matches@),
            self.state@,
        );
        let mut dirs: Vec<(String, Dir)> = Vec::new();
        let mut i: usize = 0;
        while i < self.state.board.snakes.len()
            invariant
                state_wf(self.state@),
                i <= self.state.board.snakes.len(),
                dirs@.len() == i,
                target == step_moves(
                    self.self_controller,
                    self.enemy_controller,
                    self.self_id@,
                    matches_view(matches@),
                    self.state@,
                ),
                forall|k: int| 0 <= k < i ==> moves_view(dirs@)[k] == #[trigger] target[k],
            decreases self.state.board.snakes.len() - i,
        {
            let snake = &self.state.board.snakes[i];
            assert(snake@ == self.state@.snakes[i as int]);
            proof {
                crate::board::lemma_head_movable(self.state@, i as int);
            }
            assert(self.state@.snakes[i as int].body.len() >= 2);
            let dir = if snake.id == self.self_id {
                let mut c = self.self_controller;
                c.get_move(snake, &self.state)
            } else {
                let mut c = match lookup_match(matches, &snake.id) {
                    Some(name) => match string_to_profile(name.as_str()) {
                        Some(p) => p,
                        None => self.enemy_controller,
                    },
                    None => self.enemy_controller,
                };
                c.get_move(snake, &self.state)
            };
            dirs.push((snake.id.clone(), dir));
            i += 1;
        }
        assert(moves_view(dirs@) =~= target);
        dirs
    }
}

/// The profile name matched to `id`, if any.
fn lookup_match(matches: &Vec<(String, String)>, id: &String) -> (r: Option<String>)
    ensures
        match r {
            Some(name) => match_of(matches_view(matches@), id@) == Some(name@),
            None => match_of(matches_view(matches@), id@) is None,
        },
{
    let ghost mv = matches_view(matches@);
    let mut r: Option<String> = None;
    let mut j: usize = 0;
    while j < matches.len()
        invariant
            j <= matches.len(),
            mv == matches_view(matches@),
            match r {
                Some(name) => match_of(mv.subrange(0, j as int), id@) == Some(name@),
                None => match_of(mv.subrange(0, j as int), id@) is None,
            },
        decreases matches.len() - j,
    {
        assert(mv.subrange(0, j + 1).drop_last() =~= mv.subrange(0, j as int));
        if matches[j].0 == *id {
            r = Some(matches[j].1.clone());
        }
        j += 1;
    }
    assert(mv.subrange(0, matches.len() as int) =~= mv);
    r
}

/// Relies on rayon's `par_iter_mut` and `for_each`: the closure runs exactly once on each
/// element of the vector, each call with exclusive access to its element, and the vector
/// keeps its length and order.
#[verifier::external_body]
fn advance_all(branches: &mut Vec<SimBranch>, matches: &Vec<(String, String)>)
    requires
        forall|i: int| 0 <= i < old(branches)@.len() ==> (#[trigger] old(branches)@[i]).inv(),
    ensures
        final(branches)@.len() == old(branches)@.len(),
        forall|i: int|
            0 <= i < final(branches)@.len() ==> {
                &&& (#[trigger] final(branches)@[i]).inv()
                &&& (final(branches)@[i].state@, final(branches)@[i].futures@) == old(branches)@[i].next(
                    matches_view(matches@),
                )
                &&& final(branches)@[i].self_controller == old(branches)@[i].self_controller
                &&& final(branches)@[i].enemy_controller == old(branches)@[i].enemy_controller
                &&& final(branches)@[i].self_prefix == old(branches)@[i].self_prefix
                &&& final(branches)@[i].enemy_prefix == old(branches)@[i].enemy_prefix
                &&& final(branches)@[i].self_id == old(branches)@[i].self_id
            },
{
    rayon::iter::ParallelIterator::for_each(
        rayon::iter::IntoParallelRefMutIterator::par_iter_mut(branches),
        |b| b.advance(matches),
    );
}

/// Total of the agents removed over the first `n` outcomes in which the protagonist was
/// still alive.
pub open spec fn sum_dead(fs: Seq<Future>, n: int) -> int
    decreases n,
{
    if n <= 0 {
        0
    } else {
        sum_dead(fs, n - 1) + if fs[n - 1].alive {
            fs[n - 1].dead_snakes as int
        } else {
            0
        }
    }
}

/// Food collected by the protagonist over the first `n` outcomes.
pub open spec fn sum_foods(fs: Seq<Future>, n: int) -> int
    decreases n,
{
    if n <= 0 {
        0
    } else {
        sum_foods(fs, n - 1) + fs[n - 1].foods as int
    }
}

/// Exactly one opponent is left and it is within two segments of the protagonist's length.
pub open spec fn food_race(me: crate::board::SnakeModel, st: StateModel) -> bool {
    st.snakes.len() == 2 && exists|k: int|
        0 <= k < st.snakes.len() && st.snakes[k].id != me.id && st.snakes[k].body.len()
            >= me.body.len() - 2
}

/// The score of a branch, in fiftieths: survival length, eliminations, food (weighted
/// up in a close race, ignored when alone) and a bonus for an early win.
pub open spec fn branch_points(fs: Seq<Future>, me: crate::board::SnakeModel, st: StateModel) -> int {
    let len = fs.len() as int;
    let foods = sum_foods(fs, len);
    let food_points = if food_race(me, st) {
        15000 * foods
    } else if st.snakes.len() == 1 {
        0
    } else {
        85 * foods
    };
    let win = if len > 0 && fs.last().finished && fs.last().alive && len < 100 {
        250 * (100 - len)
    } else {
        0
    };
    75 * (len - 30) + 1500 * sum_dead(fs, len) + food_points + win
}

/// The score of a branch in two-hundred-fiftieths, cut by a fifth when its opening move
/// leaves the inside of the board for the edge.
pub open spec fn branch_score(fs: Seq<Future>, me: crate::board::SnakeModel, st: StateModel) -> int {
    let d = fs[0].dir;
    if !crate::board::is_outer_spec(head(me), st) && crate::board::is_outer_spec(
        crate::point::neighbour(head(me), d),
        st,
    ) {
        4 * branch_points(fs, me, st)
    } else {
        5 * branch_points(fs, me, st)
    }
}

/// Score, summed survival length and presence of the opening move `d` over the first `n`
/// branches that have played a turn.
pub open spec fn aggregate(bs: Seq<SimBranch>, me: crate::board::SnakeModel, st: StateModel, d: Dir, n: int) -> (int, int, bool)
    decreases n,
{
    if n <= 0 {
        (0, 0, false)
    } else {
        let prev = aggregate(bs, me, st, d, n - 1);
        let fs = bs[n - 1].futures@;
        if fs.len() > 0 && fs[0].dir == d {
            (prev.0 + branch_score(fs, me, st), prev.1 + fs.len(), true)
        } else {
            prev
        }
    }
}

/// A ranked candidate: opening move, summed score, summed survival length.
pub type Candidate = (Dir, i128, u64);

/// Inserts `x` after every entry of `v` that scores at least as much.
pub open spec fn insert_ranked(v: Seq<Candidate>, x: Candidate) -> Seq<Candidate>
    decreases v.len(),
{
    if v.len() == 0 {
        seq![x]
    } else if v.last().1 >= x.1 {
        v.push(x)
    } else {
        insert_ranked(v.drop_last(), x).push(v.last())
    }
}

/// The candidates ranked by score, best first, ties in their input order.
pub open spec fn ranked(c: Seq<Candidate>) -> Seq<Candidate>
    decreases c.len(),
{
    if c.len() == 0 {
        c
    } else {
        insert_ranked(ranked(c.drop_last()), c.last())
    }
}

/// `next` may replace `cur`: it is safe, not corner-risky, and close enough in score (not
/// below it by more than two fifths of its size) and in survival length (more than half).
pub open spec fn may_override(cur: Candidate, next: Candidate, me: crate::board::SnakeModel, st: StateModel) -> bool {
    &&& crate::board::safety_spec(crate::point::neighbour(head(me), next.0), me, st) == crate::point::SafetyIndex::Safe
    &&& 5 * next.1 > 5 * cur.1 - 2 * crate::point::abs(cur.1 as int)
    &&& next.2 > cur.2 - cur.2 / 2
    &&& !crate::board::corner_risky_spec(next.0, me, st)
}

/// Some candidate after position `i` may replace the one at `i`.
pub open spec fn overridden(v: Seq<Candidate>, i: int, me: crate::board::SnakeModel, st: StateModel) -> bool {
    exists|j: int| i < j < v.len() && may_override(v[i], #[trigger] v[j], me, st)
}

/// The pick from position `i` on: the first safe, not corner-risky candidate; a candidate
/// that a later one may replace is passed over; otherwise the candidate itself.
pub open spec fn pick_from(v: Seq<Candidate>, i: int, me: crate::board::SnakeModel, st: StateModel) -> Option<Dir>
    decreases v.len() - i,
{
    if i < 0 || i >= v.len() {
        None
    } else if crate::board::safety_spec(crate::point::neighbour(head(me), v[i].0), me, st)
        == crate::point::SafetyIndex::Safe && !crate::board::corner_risky_spec(v[i].0, me, st) {
        Some(v[i].0)
    } else if overridden(v, i, me, st) {
        pick_from(v, i + 1, me, st)
    } else {
        Some(v[i].0)
    }
}

/// The candidate for opening move `d`, appended when some branch opened with it.
pub open spec fn with_candidate(acc: Seq<Candidate>, bs: Seq<SimBranch>, me: crate::board::SnakeModel, st: StateModel, d: Dir) -> Seq<Candidate> {
    let a = aggregate(bs, me, st, d, bs.len() as int);
    if a.2 {
        acc.push((d, a.0 as i128, a.1 as u64))
    } else {
        acc
    }
}

/// The candidates in the order Down, Left, Right, Up.
pub open spec fn candidates(bs: Seq<SimBranch>, me: crate::board::SnakeModel, st: StateModel) -> Seq<Candidate> {
    let c0 = with_candidate(Seq::empty(), bs, me, st, Dir::Down);
    let c1 = with_candidate(c0, bs, me, st, Dir::Left);
    let c2 = with_candidate(c1, bs, me, st, Dir::Right);
    with_candidate(c2, bs, me, st, Dir::Up)
}

/// The move the simulator picks: the pick over the ranked candidates, or the fallback move
/// when there is none.
pub open spec fn sim_choice(bs: Seq<SimBranch>, me: crate::board::SnakeModel, st: StateModel) -> Dir {
    match pick_from(ranked(candidates(bs, me, st)), 0, me, st) {
        Some(d) => d,
        None => crate::board::safe_move_spec(me, st),
    }
}

proof fn lemma_sums_bounded(fs: Seq<Future>, n: int)
    requires
        0 <= n <= fs.len(),
    ensures
        0 <= sum_dead(fs, n) <= 65535 * n,
        0 <= sum_foods(fs, n) <= 65535 * n,
    decreases n,
{
    if n > 0 {
        lemma_sums_bounded(fs, n - 1);
    }
}

/// Score of one branch that has played a turn.
fn score_branch(fs: &Vec<Future>, s: &Snake, st: &State) -> (r: i128)
    requires
        1 <= fs@.len() <= u32::MAX,
        s.body.len() >= 2,
        movable(head(s@)),
    ensures
        r == branch_score(fs@, s@, st@),
        -1_000_000_000_000_000_000_000 <= r <= 1_000_000_000_000_000_000_000,
{
    let n = fs.len();
    let mut dead: i128 = 0;
    let mut foods: i128 = 0;
    let mut k: usize = 0;
    while k < n
        invariant
            n == fs@.len(),
            n <= u32::MAX,
            k <= n,
            dead == sum_dead(fs@, k as int),
            foods == sum_foods(fs@, k as int),
            0 <= dead <= 65535 * k,
            0 <= foods <= 65535 * k,
        decreases n - k,
    {
        let f = fs[k];
        if f.alive {
            dead = dead + f.dead_snakes as i128;
        }
        foods = foods + f.foods as i128;
        k += 1;
    }
    let mut race = false;
    if st.board.snakes.len() == 2 {
        let mut i: usize = 0;
        while i < 2
            invariant
                st@.snakes.len() == 2,
                s.body.len() >= 2,
                i <= 2,
                race == exists|m: int|
                    0 <= m < i && st@.snakes[m].id != s@.id && st@.snakes[m].body.len() >= s@.body.len() - 2,
            decreases 2 - i,
        {
            let sn = &st.board.snakes[i];
            assert(sn@ == st@.snakes[i as int]);
            if sn.id != s.id && sn.body.len() >= s.body.len() - 2 {
                race = true;
            }
            i += 1;
        }
    }
    assert(race == food_race(s@, st@));
    let len = n as i128;
    let food_points: i128 = if race {
        15000 * foods
    } else if st.board.snakes.len() == 1 {
        0
    } else {
        85 * foods
    };
    let last = fs[n - 1];
    let win: i128 = if last.finished && last.alive && n < 100 {
        250 * (100 - len)
    } else {
        0
    };
    let total = 75 * (len - 30) + 1500 * dead + food_points + win;
    let d = fs[0].dir;
    let h = s.body[0];
    if !h.is_outer(st) && d.resulting_point(h).is_outer(st) {
        4 * total
    } else {
        5 * total
    }
}

/// Inserts `x` into `v` after every entry that scores at least as much.
fn insert_candidate(v: Vec<Candidate>, x: Candidate) -> (r: Vec<Candidate>)
    ensures
        r@ == insert_ranked(v@, x),
    decreases v@.len(),
{
    let mut v = v;
    if v.len() == 0 {
        return vec![x];
    }
    let last = v[v.len() - 1];
    if last.1 >= x.1 {
        v.push(x);
        v
    } else {
        let ghost before = v@;
        v.pop();
        assert(v@ == before.drop_last());
        let mut r = insert_candidate(v, x);
        r.push(last);
        r
    }
}

/// Ranks the candidates by score, best first, ties in their input order.
fn rank(c: &Vec<Candidate>) -> (r: Vec<Candidate>)
    ensures
        r@ == ranked(c@),
{
    let mut r: Vec<Candidate> = Vec::new();
    let mut i: usize = 0;
    while i < c.len()
        invariant
            i <= c.len(),
            r@ == ranked(c@.subrange(0, i as int)),
        decreases c.len() - i,
    {
        assert(c@.subrange(0, i + 1).drop_last() =~= c@.subrange(0, i as int));
        r = insert_candidate(r, c[i]);
        i += 1;
    }
    assert(c@.subrange(0, c.len() as int) =~= c@);
    r
}

/// The protagonist controller of panel row `a`.
pub open spec fn panel_self(a: int) -> Controller {
    if a == 0 {
        Controller::AStarBasic(crate::profile::AStarBasic)
    } else if a == 1 {
        Controller::Cautious(crate::profile::Cautious)
    } else {
        Controller::Straight(crate::profile::Straight)
    }
}

/// The opponent controller of panel column `b`.
pub open spec fn panel_enemy(b: int) -> Controller {
    if b == 0 {
        Controller::AStarBasic(crate::profile::AStarBasic)
    } else if b == 1 {
        Controller::Cautious(crate::profile::Cautious)
    } else if b == 2 {
        Controller::Straight(crate::profile::Straight)
    } else {
        Controller::Aggressive(crate::profile::Aggressive)
    }
}

/// Position in the panel of protagonist controller `a`, opponent controller `b`, opponent
/// opening `c` and protagonist opening `d`.
pub open spec fn panel_index(a: int, b: int, c: int, d: int) -> int {
    64 * a + 16 * b + 4 * c + d
}

/// Branch `br` is the panel entry `(a, b, c, d)`, fresh for protagonist `id` in `st`.
pub open spec fn panel_entry(br: SimBranch, a: int, b: int, c: int, d: int, st: StateModel, id: Seq<char>) -> bool {
    &&& br.self_controller == panel_self(a)
    &&& br.enemy_controller == panel_enemy(b)
    &&& br.enemy_prefix == crate::point::dir_at(c)
    &&& br.self_prefix == crate::point::dir_at(d)
    &&& br.state@ == st
    &&& br.futures@.len() == 0
    &&& br.self_id@ == id
}

/// All panel entries before position `n` are in place.
pub open spec fn panel_upto(bs: Seq<SimBranch>, n: int, st: StateModel, id: Seq<char>) -> bool {
    forall|a: int, b: int, c: int, d: int|
        0 <= a < 3 && 0 <= b < 4 && 0 <= c < 4 && 0 <= d < 4 && panel_index(a, b, c, d) < n ==> panel_entry(
            #[trigger] bs[panel_index(a, b, c, d)],
            a,
            b,
            c,
            d,
            st,
            id,
        )
}

/// The simulator strategy: a fixed panel of branches, replayed from the live state on
/// every decision, and the profiles matched to the opponents.
pub struct Sim {
    branches: Vec<SimBranch>,
    analytics: Vec<(String, String)>,
}

impl Sim {
    /// At most one branch per panel slot, each one fit to be played on.
    pub closed spec fn wf(&self) -> bool {
        &&& self.branches@.len() <= 192
        &&& forall|i: int| 0 <= i < self.branches@.len() ==> (#[trigger] self.branches@[i]).inv()
    }

    /// The branches.
    pub closed spec fn panel(&self) -> Seq<SimBranch> {
        self.branches@
    }

    /// The profiles matched to the opponents.
    pub closed spec fn matched(&self) -> Seq<(Seq<char>, Seq<char>)> {
        matches_view(self.analytics@)
    }

    pub fn new() -> (r: Self)
        ensures
            r.wf(),
            r.panel().len() == 0,
    {
        Sim { branches: Vec::new(), analytics: Vec::new() }
    }

    /// The name of the strategy.
    pub fn get_status(&self) -> (r: String)
        ensures
            r@ == "Sim"@,
    {
        "Sim".to_owned()
    }

    /// Replaces the profiles matched to the opponents (agent id, profile name).
    pub fn update_analytics(&mut self, analytics: Vec<(String, String)>)
        requires
            old(self).wf(),
        ensures
            final(self).wf(),
            final(self).panel() == old(self).panel(),
            final(self).matched() == matches_view(analytics@),
    {
        self.analytics = analytics;
    }

    /// Builds the panel for the game that starts in `st`: every protagonist controller
    /// (food seeker, tail chaser, straight mover) against every opponent controller (the
    /// same three and the hunter), with every pair of opening moves.
    pub fn init(&mut self, st: &State, self_id: &String)
        requires
            state_wf(st@),
            st.board.snakes.len() <= u16::MAX,
        ensures
            final(self).wf(),
            final(self).panel().len() == 192,
            panel_upto(final(self).panel(), 192, st@, self_id@),
    {
        let self_profiles = [
            Controller::AStarBasic(crate::profile::AStarBasic),
            Controller::Cautious(crate::profile::Cautious),
            Controller::Straight(crate::profile::Straight),
        ];
        let enemy_profiles = [
            Controller::AStarBasic(crate::profile::AStarBasic),
            Controller::Cautious(crate::profile::Cautious),
            Controller::Straight(crate::profile::Straight),
            Controller::Aggressive(crate::profile::Aggressive),
        ];
        let prefixes = [Dir::Up, Dir::Down, Dir::Left, Dir::Right];
        let mut branches: Vec<SimBranch> = Vec::new();
        let mut a: usize = 0;
        while a < 3
            invariant
                state_wf(st@),
                st.board.snakes.len() <= u16::MAX,
                a <= 3,
                branches@.len() == 64 * a,
                forall|i: int| 0 <= i < branches@.len() ==> (#[trigger] branches@[i]).inv(),
                forall|m: int| 0 <= m < 3 ==> self_profiles[m] == #[trigger] panel_self(m),
                forall|m: int| 0 <= m < 4 ==> enemy_profiles[m] == #[trigger] panel_enemy(m),
                forall|m: int| 0 <= m < 4 ==> prefixes[m] == #[trigger] crate::point::dir_at(m),
                panel_upto(branches@, branches@.len() as int, st@, self_id@),
            decreases 3 - a,
        {
            let mut b: usize = 0;
            while b < 4
                invariant
                    state_wf(st@),
                    st.board.snakes.len() <= u16::MAX,
                    a < 3,
                    b <= 4,
                    branches@.len() == 64 * a + 16 * b,
                    forall|i: int| 0 <= i < branches@.len() ==> (#[trigger] branches@[i]).inv(),
                    forall|m: int| 0 <= m < 3 ==> self_profiles[m] == #[trigger] panel_self(m),
                    forall|m: int| 0 <= m < 4 ==> enemy_profiles[m] == #[trigger] panel_enemy(m),
                    forall|m: int| 0 <= m < 4 ==> prefixes[m] == #[trigger] crate::point::dir_at(m),
                    panel_upto(branches@, branches@.len() as int, st@, self_id@),
                decreases 4 - b,
            {
                let mut c: usize = 0;
                while c < 4
                    invariant
                        state_wf(st@),
                        st.board.snakes.len() <= u16::MAX,
                        a < 3,
                        b < 4,
                        c <= 4,
                        branches@.len() == 64 * a + 16 * b + 4 * c,
                        forall|i: int| 0 <= i < branches@.len() ==> (#[trigger] branches@[i]).inv(),
                        forall|m: int| 0 <= m < 3 ==> self_profiles[m] == #[trigger] panel_self(m),
                        forall|m: int| 0 <= m < 4 ==> enemy_profiles[m] == #[trigger] panel_enemy(m),
                        forall|m: int| 0 <= m < 4 ==> prefixes[m] == #[trigger] crate::point::dir_at(m),
                        panel_upto(branches@, branches@.len() as int, st@, self_id@),
                    decreases 4 - c,
                {
                    let mut d: usize = 0;
                    while d < 4
                        invariant
                            state_wf(st@),
                            st.board.snakes.len() <= u16::MAX,
                            a < 3,
                            b < 4,
                            c < 4,
                            d <= 4,
                            branches@.len() == 64 * a + 16 * b + 4 * c + d,
                            forall|i: int| 0 <= i < branches@.len() ==> (#[trigger] branches@[i]).inv(),
                            forall|m: int| 0 <= m < 3 ==> self_profiles[m] == #[trigger] panel_self(m),
                            forall|m: int| 0 <= m < 4 ==> enemy_profiles[m] == #[trigger] panel_enemy(m),
                            forall|m: int| 0 <= m < 4 ==> prefixes[m] == #[trigger] crate::point::dir_at(m),
                            panel_upto(branches@, branches@.len() as int, st@, self_id@),
                        decreases 4 - d,
                    {
                        let state = st.duplicate();
                        let ghost before = branches@;
                        assert(self_profiles[a as int] == panel_self(a as int));
                        assert(enemy_profiles[b as int] == panel_enemy(b as int));
                        assert(prefixes[c as int] == crate::point::dir_at(c as int));
                        assert(prefixes[d as int] == crate::point::dir_at(d as int));
                        branches.push(
                            SimBranch {
                                self_controller: self_profiles[a],
                                enemy_controller: enemy_profiles[b],
                                self_prefix: prefixes[d],
                                enemy_prefix: prefixes[c],
                                state,
                                futures: Vec::new(),
                                self_id: self_id.clone(),
                            },
                        );
                        assert(panel_upto(branches@, branches@.len() as int, st@, self_id@)) by {
                            assert forall|a2: int, b2: int, c2: int, d2: int|
                                0 <= a2 < 3 && 0 <= b2 < 4 && 0 <= c2 < 4 && 0 <= d2 < 4 && panel_index(a2, b2, c2, d2)
                                    < branches@.len() implies panel_entry(
                                #[trigger] branches@[panel_index(a2, b2, c2, d2)],
                                a2,
                                b2,
                                c2,
                                d2,
                                st@,
                                self_id@,
                            ) by {
                                if panel_index(a2, b2, c2, d2) < before.len() {
                                    assert(branches@[panel_index(a2, b2, c2, d2)] == before[panel_index(a2, b2, c2, d2)]);
                                } else {
                                    assert(a2 == a && b2 == b && c2 == c && d2 == d);
                                }
                            }
                        }
                        d += 1;
                    }
                    c += 1;
                }
                b += 1;
            }
            a += 1;
        }
        self.branches = branches;
    }

    /// Starts every branch over from the live state `st` with protagonist `self_id`.
    pub fn reseed(&mut self, self_id: &String, st: &State)
        requires
            old(self).wf(),
            state_wf(st@),
            st.board.snakes.len() <= u16::MAX,
        ensures
            final(self).wf(),
            final(self).panel().len() == old(self).panel().len(),
            forall|i: int|
                0 <= i < final(self).panel().len() ==> (#[trigger] final(self).panel()[i]).state@ == st@
                    && final(self).panel()[i].futures@.len() == 0 && final(self).panel()[i].self_id@
                    == self_id@,
            forall|i: int|
                0 <= i < final(self).panel().len() ==> {
                    &&& (#[trigger] final(self).panel()[i]).self_controller == old(self).panel()[i].self_controller
                    &&& final(self).panel()[i].enemy_controller == old(self).panel()[i].enemy_controller
                    &&& final(self).panel()[i].self_prefix == old(self).panel()[i].self_prefix
                    &&& final(self).panel()[i].enemy_prefix == old(self).panel()[i].enemy_prefix
                },
            final(self).matched() == old(self).matched(),
    {
        let mut i: usize = 0;
        while i < self.branches.len()
            invariant
                state_wf(st@),
                st.board.snakes.len() <= u16::MAX,
                self.branches@.len() == old(self).branches@.len(),
                self.branches@.len() <= 192,
                i <= self.branches.len(),
                forall|k: int| 0 <= k < self.branches@.len() ==> (#[trigger] self.branches@[k]).inv(),
                forall|k: int|
                    0 <= k < i ==> (#[trigger] self.branches@[k]).state@ == st@
                        && self.branches@[k].futures@.len() == 0 && self.branches@[k].self_id@ == self_id@,
                forall|k: int|
                    0 <= k < self.branches@.len() ==> {
                        &&& (#[trigger] self.branches@[k]).self_controller == old(self).branches@[k].self_controller
                        &&& self.branches@[k].enemy_controller == old(self).branches@[k].enemy_controller
                        &&& self.branches@[k].self_prefix == old(self).branches@[k].self_prefix
                        &&& self.branches@[k].enemy_prefix == old(self).branches@[k].enemy_prefix
                    },
                self.analytics == old(self).analytics,
            decreases self.branches.len() - i,
        {
            self.branches[i].futures = Vec::new();
            self.branches[i].state = st.duplicate();
            self.branches[i].self_id = self_id.clone();
            i += 1;
        }
    }

    /// Plays one more round of every branch, the branches in parallel.
    pub fn tick(&mut self)
        requires
            old(self).wf(),
        ensures
            final(self).wf(),
            final(self).panel().len() == old(self).panel().len(),
            forall|i: int|
                0 <= i < final(self).panel().len() ==> ((#[trigger] final(self).panel()[i]).state@,
                final(self).panel()[i].futures@) == old(self).panel()[i].next(
                    old(self).matched(),
                ),
    {
        advance_all(&mut self.branches, &self.analytics);
    }

    /// Whether some branch is still being played.
    pub fn any_live(&self) -> (r: bool)
        ensures
            r == exists|i: int| 0 <= i < self.panel().len() && live(#[trigger] self.panel()[i].futures@),
    {
        let mut i: usize = 0;
        while i < self.branches.len()
            invariant
                i <= self.branches.len(),
                forall|k: int| 0 <= k < i ==> !live(#[trigger] self.branches@[k].futures@),
            decreases self.branches.len() - i,
        {
            let fs = &self.branches[i].futures;
            if fs.len() == 0 {
                return true;
            }
            let last = fs[fs.len() - 1];
            if last.alive && !last.finished {
                return true;
            }
            i += 1;
        }
        false
    }
}

/// The opening move counted in slot `k` of the aggregates: Down, Left, Right, Up.
pub open spec fn slot_dir(k: int) -> Dir {
    if k == 0 {
        Dir::Down
    } else if k == 1 {
        Dir::Left
    } else if k == 2 {
        Dir::Right
    } else {
        Dir::Up
    }
}

/// Bound on the size of any summed score.
pub open spec fn score_bound() -> int {
    1_000_000_000_000_000_000_000_000
}

proof fn lemma_insert_elems(v: Seq<Candidate>, x: Candidate)
    ensures
        forall|y: Candidate| #[trigger] insert_ranked(v, x).contains(y) ==> v.contains(y) || y == x,
    decreases v.len(),
{
    if v.len() > 0 && v.last().1 < x.1 {
        lemma_insert_elems(v.drop_last(), x);
        assert forall|y: Candidate| #[trigger] insert_ranked(v, x).contains(y) implies v.contains(y) || y == x by {
            let r = insert_ranked(v.drop_last(), x);
            assert(insert_ranked(v, x) == r.push(v.last()));
            let w = choose|w: int| 0 <= w < insert_ranked(v, x).len() && insert_ranked(v, x)[w] == y;
            if w < r.len() {
                assert(r[w] == y);
                assert(r.contains(y));
                if v.drop_last().contains(y) {
                    let u = choose|u: int| 0 <= u < v.drop_last().len() && v.drop_last()[u] == y;
                    assert(v[u] == y);
                }
            } else {
                assert(v[v.len() - 1] == y);
            }
        }
    } else if v.len() > 0 {
        assert forall|y: Candidate| #[trigger] insert_ranked(v, x).contains(y) implies v.contains(y) || y == x by {
            let w = choose|w: int| 0 <= w < insert_ranked(v, x).len() && insert_ranked(v, x)[w] == y;
            if w < v.len() {
                assert(v[w] == y);
            }
        }
    } else {
        assert forall|y: Candidate| #[trigger] insert_ranked(v, x).contains(y) implies v.contains(y) || y == x by {
            assert(insert_ranked(v, x) == seq![x]);
        }
    }
}

proof fn lemma_ranked_elems(c: Seq<Candidate>)
    ensures
        forall|y: Candidate| #[trigger] ranked(c).contains(y) ==> c.contains(y),
    decreases c.len(),
{
    if c.len() > 0 {
        lemma_ranked_elems(c.drop_last());
        lemma_insert_elems(ranked(c.drop_last()), c.last());
        assert forall|y: Candidate| #[trigger] ranked(c).contains(y) implies c.contains(y) by {
            if y == c.last() {
                assert(c[c.len() - 1] == y);
            } else {
                assert(ranked(c.drop_last()).contains(y));
                let u = choose|u: int| 0 <= u < c.drop_last().len() && c.drop_last()[u] == y;
                assert(c[u] == y);
            }
        }
    }
}

/// Whether `next` may replace `cur`.
fn may_replace(cur: Candidate, next: Candidate, s: &Snake, st: &State) -> (r: bool)
    requires
        state_wf(st@),
        s.body.len() >= 2,
        movable(head(s@)),
        -score_bound() <= cur.1 <= score_bound(),
        -score_bound() <= next.1 <= score_bound(),
    ensures
        r == may_override(cur, next, s@, st@),
{
    let a: i128 = if cur.1 < 0 {
        -cur.1
    } else {
        cur.1
    };
    next.0.is_safety_index(s, st, &crate::point::SafetyIndex::Safe) && 5 * next.1 > 5 * cur.1 - 2 * a
        && next.2 > cur.2 - cur.2 / 2 && !next.0.is_corner_risky(s, st)
}

impl Sim {
    /// Score, summed survival length and presence of each opening move, in the slot order
    /// Down, Left, Right, Up.
    fn choose_dir(&self, s: &Snake, st: &State) -> (r: (Vec<i128>, Vec<u64>, Vec<bool>))
        requires
            self.wf(),
            s.body.len() >= 2,
            movable(head(s@)),
        ensures
            r.0@.len() == 4 && r.1@.len() == 4 && r.2@.len() == 4,
            forall|k: int|
                0 <= k < 4 ==> {
                    let a = #[trigger] aggregate(self.panel(), s@, st@, slot_dir(k), self.panel().len() as int);
                    &&& r.0@[k] == a.0
                    &&& r.1@[k] == a.1
                    &&& r.2@[k] == a.2
                    &&& -score_bound() <= a.0 <= score_bound()
                },
    {
        let ghost bs = self.branches@;
        let mut tot: Vec<i128> = vec![0, 0, 0, 0];
        let mut lens: Vec<u64> = vec![0, 0, 0, 0];
        let mut pres: Vec<bool> = vec![false, false, false, false];
        let mut i: usize = 0;
        while i < self.branches.len()
            invariant
                self.wf(),
                bs == self.branches@,
                bs.len() <= 192,
                s.body.len() >= 2,
                movable(head(s@)),
                i <= bs.len(),
                tot@.len() == 4 && lens@.len() == 4 && pres@.len() == 4,
                forall|k: int|
                    0 <= k < 4 ==> {
                        let a = #[trigger] aggregate(bs, s@, st@, slot_dir(k), i as int);
                        &&& tot@[k] == a.0
                        &&& lens@[k] == a.1
                        &&& pres@[k] == a.2
                        &&& -1_000_000_000_000_000_000_000 * i <= a.0 <= 1_000_000_000_000_000_000_000 * i
                        &&& 0 <= a.1 <= 4294967295 * i
                    },
            decreases bs.len() - i,
        {
            let fs = &self.branches[i].futures;
            assert(bs[i as int].inv());
            if fs.len() > 0 {
                let sc = score_branch(fs, s, st);
                let d = fs[0].dir;
                let k: usize = match d {
                    Dir::Down => 0,
                    Dir::Left => 1,
                    Dir::Right => 2,
                    Dir::Up => 3,
                };
                assert(slot_dir(k as int) == d);
                let ghost prev = aggregate(bs, s@, st@, slot_dir(k as int), i as int);
                let t = tot[k];
                let l = lens[k];
                assert(t == prev.0 && l == prev.1);
                assert(bs[i as int].futures@ == fs@);
                tot.set(k, t + sc);
                lens.set(k, l + fs.len() as u64);
                pres.set(k, true);
                assert forall|m: int| 0 <= m < 4 implies {
                    let a = #[trigger] aggregate(bs, s@, st@, slot_dir(m), i + 1);
                    &&& tot@[m] == a.0
                    &&& lens@[m] == a.1
                    &&& pres@[m] == a.2
                    &&& -1_000_000_000_000_000_000_000 * (i + 1) <= a.0 <= 1_000_000_000_000_000_000_000 * (i + 1)
                    &&& 0 <= a.1 <= 4294967295 * (i + 1)
                } by {
                    let a0 = aggregate(bs, s@, st@, slot_dir(m), i as int);
                    if m != k {
                        assert(slot_dir(m) != d);
                    }
                }
            } else {
                assert forall|m: int| 0 <= m < 4 implies {
                    let a = #[trigger] aggregate(bs, s@, st@, slot_dir(m), i + 1);
                    &&& tot@[m] == a.0
                    &&& lens@[m] == a.1
                    &&& pres@[m] == a.2
                    &&& -1_000_000_000_000_000_000_000 * (i + 1) <= a.0 <= 1_000_000_000_000_000_000_000 * (i + 1)
                    &&& 0 <= a.1 <= 4294967295 * (i + 1)
                } by {
                    let a0 = aggregate(bs, s@, st@, slot_dir(m), i as int);
                    assert(bs[i as int].futures@ == fs@);
                }
            }
            i += 1;
        }
        (tot, lens, pres)
    }

    /// The move of the simulator: the best-ranked opening move that is safe and not
    /// corner-risky, passing over a move when a later one is safe, not corner-risky and
    /// close in score and survival; else the fallback move.
    pub fn choose_move(&self, s: &Snake, st: &State) -> (r: Dir)
        requires
            self.wf(),
            state_wf(st@),
            s.body.len() >= 2,
            movable(head(s@)),
        ensures
            r == sim_choice(self.panel(), s@, st@),
    {
        let (tot, lens, pres) = self.choose_dir(s, st);
        let ghost bs = self.panel();
        let dirs = [Dir::Down, Dir::Left, Dir::Right, Dir::Up];
        let mut cands: Vec<Candidate> = Vec::new();
        let mut k: usize = 0;
        while k < 4
            invariant
                k <= 4,
                tot@.len() == 4 && lens@.len() == 4 && pres@.len() == 4,
                forall|m: int| 0 <= m < 4 ==> dirs[m] == #[trigger] slot_dir(m),
                forall|m: int|
                    0 <= m < 4 ==> {
                        let a = #[trigger] aggregate(bs, s@, st@, slot_dir(m), bs.len() as int);
                        &&& tot@[m] == a.0
                        &&& lens@[m] == a.1
                        &&& pres@[m] == a.2
                        &&& -score_bound() <= a.0 <= score_bound()
                    },
                k == 0 ==> cands@ == Seq::<Candidate>::empty(),
                k == 1 ==> cands@ == with_candidate(Seq::empty(), bs, s@, st@, Dir::Down),
                k == 2 ==> cands@ == with_candidate(with_candidate(Seq::empty(), bs, s@, st@, Dir::Down), bs, s@, st@, Dir::Left),
                k == 3 ==> cands@ == with_candidate(with_candidate(with_candidate(Seq::empty(), bs, s@, st@, Dir::Down), bs, s@, st@, Dir::Left), bs, s@, st@, Dir::Right),
                k == 4 ==> cands@ == candidates(bs, s@, st@),
                forall|y: Candidate| #[trigger] cands@.contains(y) ==> -score_bound() <= y.1 <= score_bound(),
            decreases 4 - k,
        {
            assert(dirs[k as int] == slot_dir(k as int));
            assert(aggregate(bs, s@, st@, slot_dir(k as int), bs.len() as int).0 == tot@[k as int]);
            assert(-score_bound() <= tot@[k as int] <= score_bound());
            if pres[k] {
                let ghost before = cands@;
                cands.push((dirs[k], tot[k], lens[k]));
                assert forall|y: Candidate| #[trigger] cands@.contains(y) implies -score_bound() <= y.1 <= score_bound() by {
                    let w = choose|w: int| 0 <= w < cands@.len() && cands@[w] == y;
                    if w < before.len() {
                        assert(before[w] == y);
                        assert(before.contains(y));
                    } else {
                        assert(cands@[w].1 == tot@[k as int]);
                    }
                }
            }
            k += 1;
        }
        let v = rank(&cands);
        proof {
            lemma_ranked_elems(cands@);
        }
        let mut idx: usize = 0;
        while idx < v.len()
            invariant
                state_wf(st@),
                s.body.len() >= 2,
                movable(head(s@)),
                v@ == ranked(candidates(bs, s@, st@)),
                bs == self.panel(),
                forall|y: Candidate| #[trigger] v@.contains(y) ==> -score_bound() <= y.1 <= score_bound(),
                idx <= v.len(),
                pick_from(v@, 0, s@, st@) == pick_from(v@, idx as int, s@, st@),
            decreases v.len() - idx,
        {
            let cur = v[idx];
            assert(v@.contains(cur)) by {
                assert(v@[idx as int] == cur);
            }
            if cur.0.is_safety_index(s, st, &crate::point::SafetyIndex::Safe) && !cur.0.is_corner_risky(s, st) {
                assert(pick_from(v@, idx as int, s@, st@) == Some(cur.0));
                return cur.0;
            }
            let mut found = false;
            let mut j = idx + 1;
            while j < v.len() && !found
                invariant
                    state_wf(st@),
                    s.body.len() >= 2,
                    movable(head(s@)),
                    forall|y: Candidate| #[trigger] v@.contains(y) ==> -score_bound() <= y.1 <= score_bound(),
                    v@.contains(cur),
                    cur == v@[idx as int],
                    idx < j <= v.len(),
                    found ==> overridden(v@, idx as int, s@, st@),
                    !found ==> forall|m: int| idx < m < j ==> !may_override(cur, #[trigger] v@[m], s@, st@),
                decreases v.len() - j,
            {
                let next = v[j];
                assert(v@.contains(next)) by {
                    assert(v@[j as int] == next);
                }
                if may_replace(cur, next, s, st) {
                    found = true;
                    assert(may_override(v@[idx as int], v@[j as int], s@, st@));
                }
                j += 1;
            }
            if !found {
                assert(!overridden(v@, idx as int, s@, st@));
                assert(pick_from(v@, idx as int, s@, st@) == Some(cur.0));
                return cur.0;
            }
            assert(pick_from(v@, idx as int, s@, st@) == pick_from(v@, idx + 1, s@, st@));
            idx += 1;
        }
        s.find_safe_move(st)
    }
}

} // verus!
