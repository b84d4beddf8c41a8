//! Two-agent lookahead: minimax with alpha-beta pruning over flood-fill mobility.

use vstd::prelude::*;

use crate::board::{
    head, moved_body, in_bounds_spec, path_step, safe_move_spec, safety_spec, state_wf, successors_upto,
    Snake, SnakeModel, State, StateModel,
};
use crate::point::{adjacent, dir_at, dir_to_spec, movable, neighbour, Dir, Point, SafetyIndex};
use crate::profile::Profile;

verus! {

/// Score above every real evaluation.
pub const MAX: i32 = 1000;

/// Score below every real evaluation.
pub const MIN: i32 = -1000;

/// Score of a lost head-on collision.
pub const HEAD_ON: i32 = -500;

/// The deepest ply searched.
pub const MAX_DEPTH: u8 = 10;

/// Plays a two-agent game tree with alpha-beta pruning; leaves are scored by mobility.
#[derive(Clone, Copy, Debug)]
pub struct AlphaBeta;

/// Some agent has id `id`.
pub open spec fn present(st: StateModel, id: Seq<char>) -> bool {
    exists|i: int| 0 <= i < st.snakes.len() && st.snakes[i].id == id
}

/// The agent with id `id`.
pub open spec fn snake_of(st: StateModel, id: Seq<char>) -> SnakeModel {
    st.snakes[choose|i: int| 0 <= i < st.snakes.len() && st.snakes[i].id == id]
}

/// Some direction leads `me` to a cell that is not unsafe.
pub open spec fn has_way_out(me: SnakeModel, st: StateModel) -> bool {
    exists|i: int| 0 <= i < 4 && safety_spec(neighbour(head(me), #[trigger] dir_at(i)), me, st) != SafetyIndex::Unsafe
}

/// Each entry of `successors_upto` is a neighbour that is not unsafe.
pub proof fn lemma_successors(p: Point, me: SnakeModel, st: StateModel, n: int)
    requires
        movable(p),
        0 <= n <= 4,
    ensures
        forall|k: int|
            0 <= k < successors_upto(p, me, st, n).len() ==> (#[trigger] successors_upto(p, me, st, n)[k]).1
                == 1 && path_step(p, successors_upto(p, me, st, n)[k].0, me, st),
    decreases n,
{
    if n > 0 {
        lemma_successors(p, me, st, n - 1);
        crate::point::lemma_dir_to_step(p, dir_at(n - 1));
        let rest = successors_upto(p, me, st, n - 1);
        let cur = successors_upto(p, me, st, n);
        assert forall|k: int| 0 <= k < cur.len() implies (#[trigger] cur[k]).1 == 1 && path_step(
            p,
            cur[k].0,
            me,
            st,
        ) by {
            if k < rest.len() {
                assert(cur[k] == rest[k]);
            }
        }
    }
}

/// The fallback move reaches a cell that is not unsafe whenever some direction does.
pub proof fn lemma_safe_move(me: SnakeModel, st: StateModel)
    requires
        movable(head(me)),
        has_way_out(me, st),
    ensures
        safety_spec(neighbour(head(me), safe_move_spec(me, st)), me, st) != SafetyIndex::Unsafe,
{
    let i = choose|i: int| 0 <= i < 4 && safety_spec(neighbour(head(me), #[trigger] dir_at(i)), me, st) != SafetyIndex::Unsafe;
    assert(dir_at(0) == Dir::Up && dir_at(1) == Dir::Down && dir_at(2) == Dir::Left && dir_at(3) == Dir::Right);
}

/// The stored agent with a given id is the one found by position.
proof fn lemma_snake_of(st: StateModel, i: int)
    requires
        state_wf(st),
        0 <= i < st.snakes.len(),
    ensures
        present(st, st.snakes[i].id),
        snake_of(st, st.snakes[i].id) == st.snakes[i],
{
    let id = st.snakes[i].id;
    let j = choose|j: int| 0 <= j < st.snakes.len() && st.snakes[j].id == id;
    if j != i {
        assert(st.snakes[i].id != st.snakes[j].id);
    }
}

/// The first `n` cells of `v` other than `p`, in order.
pub open spec fn without(v: Seq<Point>, p: Point, n: int) -> Seq<Point>
    decreases n,
{
    if n <= 0 {
        Seq::empty()
    } else {
        let r = without(v, p, n - 1);
        if v[n - 1] != p {
            r.push(v[n - 1])
        } else {
            r
        }
    }
}

/// Dropping a cell keeps a list without repeats, and keeps only cells of the list.
proof fn lemma_without(v: Seq<Point>, p: Point, n: int)
    requires
        0 <= n <= v.len(),
        v.no_duplicates(),
    ensures
        without(v, p, n).no_duplicates(),
        forall|x: Point| #[trigger] without(v, p, n).contains(x) ==> exists|k: int| 0 <= k < n && #[trigger] v[k] == x,
    decreases n,
{
    if n > 0 {
        lemma_without(v, p, n - 1);
        let r = without(v, p, n - 1);
        let c = without(v, p, n);
        if v[n - 1] != p {
            assert(c == r.push(v[n - 1]));
            assert(!r.contains(v[n - 1])) by {
                if r.contains(v[n - 1]) {
                    let k = choose|k: int| 0 <= k < n - 1 && #[trigger] v[k] == v[n - 1];
                    assert(v[k] == v[n - 1]);
                }
            }
            assert forall|a: int, b: int| 0 <= a < c.len() && 0 <= b < c.len() && a != b implies c[a] != c[b] by {
                if a == r.len() {
                    assert(r[b] == c[b]);
                } else if b == r.len() {
                    assert(r[a] == c[a]);
                } else {
                    assert(r[a] == c[a] && r[b] == c[b]);
                }
            }
            assert forall|x: Point| #[trigger] c.contains(x) implies exists|k: int| 0 <= k < n && #[trigger] v[k] == x by {
                let w = choose|w: int| 0 <= w < c.len() && c[w] == x;
                if w < r.len() {
                    assert(r[w] == x);
                    assert(r.contains(x));
                }
            }
        }
    }
}

/// Position of the agent with id `id`.
pub open spec fn idx_of(st: StateModel, id: Seq<char>) -> int {
    choose|i: int| 0 <= i < st.snakes.len() && st.snakes[i].id == id
}

/// Flood-fill mobility of agent `id`: the cells found from its head, capped near its length.
pub open spec fn flood_score(st: StateModel, id: Seq<char>) -> int {
    let s = st.snakes[idx_of(st, id)];
    let cap = if s.body.len() > 65535 {
        65535
    } else {
        s.body.len() as int
    };
    crate::board::flood_spec(head(s), s, st, cap).len() as int
}

/// The extra option of the opponent: the protagonist's head, once for each of the first `n`
/// directions that leads there.
pub open spec fn synthetic(h: Point, target: Point, n: int) -> Seq<(Point, u32)>
    decreases n,
{
    if n <= 0 {
        Seq::empty()
    } else {
        let r = synthetic(h, target, n - 1);
        if neighbour(h, dir_at(n - 1)) == target {
            r.push((target, 0u32))
        } else {
            r
        }
    }
}

/// The cells the agent to move considers: its neighbours that are not unsafe, and for the
/// opponent also the protagonist's head.
pub open spec fn candidate_moves(st: StateModel, self_id: Seq<char>, enemy_id: Seq<char>, maxi: bool) -> Seq<(Point, u32)> {
    let mv = st.snakes[idx_of(st, if maxi {
        self_id
    } else {
        enemy_id
    })];
    let base = successors_upto(head(mv), mv, st, 4);
    if maxi {
        base
    } else {
        base + synthetic(head(mv), head(st.snakes[idx_of(st, self_id)]), 4)
    }
}

/// The state after agent `mi` alone moves in direction `d`, eating the food it lands on.
pub open spec fn after_move(st: StateModel, mi: int, d: Dir) -> StateModel {
    let sn = st.snakes[mi];
    let h = neighbour(head(sn), d);
    let grow = st.food.contains(h);
    let moved = SnakeModel {
        id: sn.id,
        health: if grow {
            100
        } else {
            (sn.health - 1) as u8
        },
        body: moved_body(sn.body, d, grow),
    };
    StateModel {
        food: if grow {
            without(st.food, h, st.food.len() as int)
        } else {
            st.food
        },
        snakes: st.snakes.update(mi, moved),
        ..st
    }
}

/// The value and chosen cell of the search from `depth` on: at the depth limit, twice the
/// protagonist's mobility minus the opponent's; otherwise the scan of the candidate cells.
pub open spec fn minimax_value(
    self_id: Seq<char>,
    enemy_id: Seq<char>,
    depth: int,
    st: StateModel,
    maxi: bool,
    alpha: int,
    beta: int,
) -> (int, Point)
    decreases MAX_DEPTH + 1 - depth, 1int, 0int,
{
    if depth > MAX_DEPTH {
        (2 * flood_score(st, self_id) - flood_score(st, enemy_id), Point { x: 0, y: 0 })
    } else if !present(st, self_id) || !present(st, enemy_id) {
        (MIN as int, Point { x: 0, y: 0 })
    } else {
        scan(
            self_id,
            enemy_id,
            depth,
            st,
            maxi,
            alpha,
            beta,
            candidate_moves(st, self_id, enemy_id, maxi),
            0,
            if maxi {
                MIN as int
            } else {
                MAX as int
            },
            Point { x: 0, y: 0 },
        )
    }
}

/// The scan of candidate cells from position `k`, with the best value and cell so far: the
/// maximizer keeps the highest value and stops once it reaches `beta`, the minimizer keeps
/// the lowest and stops below `alpha`; a moved agent without health is skipped; for the
/// opponent, moving onto the protagonist's head is skipped when the protagonist is longer
/// and otherwise ends the scan with `HEAD_ON`.
pub open spec fn scan(
    self_id: Seq<char>,
    enemy_id: Seq<char>,
    depth: int,
    st: StateModel,
    maxi: bool,
    alpha: int,
    beta: int,
    succ: Seq<(Point, u32)>,
    k: int,
    best: int,
    bm: Point,
) -> (int, Point)
    decreases MAX_DEPTH + 1 - depth, 0int, succ.len() - k,
{
    if k < 0 || k >= succ.len() || depth > MAX_DEPTH {
        (best, bm)
    } else {
        let mi = idx_of(st, if maxi {
            self_id
        } else {
            enemy_id
        });
        let pos = succ[k].0;
        match dir_to_spec(head(st.snakes[mi]), pos) {
            None => scan(self_id, enemy_id, depth, st, maxi, alpha, beta, succ, k + 1, best, bm),
            Some(d) => {
                let ns = after_move(st, mi, d);
                let moved = ns.snakes[mi];
                if maxi {
                    if moved.health == 0 {
                        scan(self_id, enemy_id, depth, st, maxi, alpha, beta, succ, k + 1, best, bm)
                    } else {
                        let val = minimax_value(self_id, enemy_id, depth + 1, ns, false, alpha, beta).0;
                        let bm2 = if val > best {
                            pos
                        } else {
                            bm
                        };
                        let b2 = if best > val {
                            best
                        } else {
                            val
                        };
                        let na = if alpha > b2 {
                            alpha
                        } else {
                            b2
                        };
                        if beta <= na {
                            (b2, bm2)
                        } else {
                            scan(self_id, enemy_id, depth, st, maxi, alpha, beta, succ, k + 1, b2, bm2)
                        }
                    }
                } else {
                    let ours = st.snakes[idx_of(st, self_id)];
                    if head(ours) == pos {
                        if ours.body.len() > moved.body.len() {
                            scan(self_id, enemy_id, depth, st, maxi, alpha, beta, succ, k + 1, best, bm)
                        } else {
                            (HEAD_ON as int, bm)
                        }
                    } else if moved.health == 0 {
                        scan(self_id, enemy_id, depth, st, maxi, alpha, beta, succ, k + 1, best, bm)
                    } else {
                        let val = minimax_value(self_id, enemy_id, depth + 1, ns, true, alpha, beta).0;
                        let bm2 = if val < best {
                            pos
                        } else {
                            bm
                        };
                        let b2 = if best < val {
                            best
                        } else {
                            val
                        };
                        let nb = if b2 < beta {
                            b2
                        } else {
                            beta
                        };
                        if nb < alpha {
                            (b2, bm2)
                        } else {
                            scan(self_id, enemy_id, depth, st, maxi, alpha, beta, succ, k + 1, b2, bm2)
                        }
                    }
                }
            },
        }
    }
}

/// In a well-formed state the position of an agent is the one found by its id.
pub proof fn lemma_idx_of(st: StateModel, i: int)
    requires
        state_wf(st),
        0 <= i < st.snakes.len(),
    ensures
        idx_of(st, st.snakes[i].id) == i,
{
    let j = idx_of(st, st.snakes[i].id);
    if j != i {
        assert(st.snakes[i].id != st.snakes[j].id);
    }
}

/// Removes every copy of `p` from `v`.
fn remove_point(v: &mut Vec<Point>, p: Point)
    ensures
        final(v)@ == without(old(v)@, p, old(v)@.len() as int),
{
    let mut r: Vec<Point> = Vec::new();
    let mut i: usize = 0;
    while i < v.len()
        invariant
            i <= v.len(),
            r@ == without(v@, p, i as int),
        decreases v.len() - i,
    {
        let q = v[i];
        if q != p {
            r.push(q);
        }
        i += 1;
    }
    *v = r;
}

impl AlphaBeta {
    pub fn new() -> Self {
        AlphaBeta
    }

    /// Flood-fill mobility of agent `id`: the cells reachable from its head, counted up to
    /// a bit beyond its own length.
    fn get_flood_score(&self, st: &State, id: &String) -> (r: i32)
        requires
            state_wf(st@),
            present(st@, id@),
        ensures
            1 <= r <= 65540,
            r == flood_score(st@, id@),
    {
        match st.find_snake(id) {
            Some(i) => {
                proof {
                    lemma_idx_of(st@, i as int);
                }
                let s = &st.board.snakes[i];
                proof {
                    crate::board::lemma_head_movable(st@, i as int);
                }
                assert(s@ == st@.snakes[i as int]);
                let len = s.body.len();
                let cap: u16 = if len > 65535 {
                    65535
                } else {
                    len as u16
                };
                let flood = s.body[0].flood_fill(s, st, cap);
                flood.len() as i32
            },
            None => {
                assert(false);
                1
            },
        }
    }

    /// Value of the position for the protagonist `self_id` against `enemy_id`, searched
    /// from `depth` on, with the best successor cell of the agent to move. A maximizing
    /// result above `MIN` comes with a neighbour of the protagonist's head that is not
    /// unsafe.
    fn minimax(
        &self,
        self_id: &String,
        enemy_id: &String,
        depth: u8,
        st: &State,
        maximizing_player: bool,
        alpha: i32,
        beta: i32,
    ) -> (r: (i32, Point))
        requires
            state_wf(st@),
            1 <= depth <= MAX_DEPTH + 1,
            present(st@, self_id@),
            present(st@, enemy_id@),
        ensures
            r.0 == minimax_value(self_id@, enemy_id@, depth as int, st@, maximizing_player, alpha as int, beta as int).0,
            r.1 == minimax_value(self_id@, enemy_id@, depth as int, st@, maximizing_player, alpha as int, beta as int).1,
            maximizing_player && depth <= MAX_DEPTH && r.0 > MIN ==> path_step(
                head(snake_of(st@, self_id@)),
                r.1,
                snake_of(st@, self_id@),
                st@,
            ),
        decreases MAX_DEPTH + 1 - depth,
    {
        if depth > MAX_DEPTH {
            let mine = self.get_flood_score(st, self_id);
            let theirs = self.get_flood_score(st, enemy_id);
            return (2 * mine - theirs, Point { x: 0, y: 0 });
        }
        let si = match st.find_snake(self_id) {
            Some(i) => i,
            None => {
                return (MIN, Point { x: 0, y: 0 });
            },
        };
        let ei = match st.find_snake(enemy_id) {
            Some(i) => i,
            None => {
                return (MIN, Point { x: 0, y: 0 });
            },
        };
        proof {
            lemma_idx_of(st@, si as int);
            lemma_idx_of(st@, ei as int);
            lemma_snake_of(st@, si as int);
            crate::board::lemma_head_movable(st@, si as int);
            crate::board::lemma_head_movable(st@, ei as int);
        }
        let mi = if maximizing_player {
            si
        } else {
            ei
        };
        let temp_snake = &st.board.snakes[mi];
        assert(temp_snake@ == st@.snakes[mi as int]);
        let ghost mover = st@.snakes[mi as int];
        let h = temp_snake.body[0];
        let mut best_score = if maximizing_player {
            MIN
        } else {
            MAX
        };
        let mut best_move = Point { x: 0, y: 0 };
        let mut successors = h.successors(temp_snake, st);
        assert(successors@ =~= successors_upto(h, mover, st@, 4) + synthetic(h, h, 0));
        proof {
            lemma_successors(h, mover, st@, 4);
        }
        if !maximizing_player {
            let self_head = st.board.snakes[si].body[0];
            assert(in_bounds_spec(self_head, st@)) by {
                assert(in_bounds_spec(st@.snakes[si as int].body[0], st@));
            }
            let orth = h.orthogonal();
            let mut i: usize = 0;
            while i < 4
                invariant
                    i <= 4,
                    movable(h),
                    in_bounds_spec(self_head, st@),
                    forall|k: int| 0 <= k < 4 ==> orth[k] == neighbour(h, #[trigger] dir_at(k)),
                    forall|k: int|
                        0 <= k < successors@.len() ==> adjacent(h, (#[trigger] successors@[k]).0)
                            && in_bounds_spec(successors@[k].0, st@),
                    successors@ == successors_upto(h, mover, st@, 4) + synthetic(h, self_head, i as int),
                decreases 4 - i,
            {
                assert(orth[i as int] == neighbour(h, dir_at(i as int)));
                if orth[i] == self_head {
                    proof {
                        crate::point::lemma_dir_to_step(h, dir_at(i as int));
                    }
                    successors.push((self_head, 0));
                }
                assert(successors@ =~= successors_upto(h, mover, st@, 4) + synthetic(h, self_head, i + 1));
                i += 1;
            }
        }
        proof {
            if maximizing_player {
                assert(successors@ =~= successors_upto(h, mover, st@, 4));
            } else {
                assert(head(st@.snakes[si as int]) == st.board.snakes@[si as int]@.body[0]);
            }
        }
        let mut k: usize = 0;
        while k < successors.len()
            invariant
                state_wf(st@),
                1 <= depth <= MAX_DEPTH,
                si < st@.snakes.len(),
                ei < st@.snakes.len(),
                st@.snakes.len() == st.board.snakes.len(),
                st@.snakes[si as int].id == self_id@,
                st@.snakes[ei as int].id == enemy_id@,
                snake_of(st@, self_id@) == st@.snakes[si as int],
                mi == if maximizing_player {
                    si
                } else {
                    ei
                },
                mover == st@.snakes[mi as int],
                h == head(mover),
                movable(h),
                present(st@, self_id@),
                present(st@, enemy_id@),
                forall|j: int|
                    0 <= j < successors@.len() ==> adjacent(h, (#[trigger] successors@[j]).0)
                        && in_bounds_spec(successors@[j].0, st@),
                maximizing_player ==> forall|j: int|
                    0 <= j < successors@.len() ==> path_step(h, (#[trigger] successors@[j]).0, mover, st@),
                maximizing_player && best_score > MIN ==> path_step(h, best_move, mover, st@),
                successors@ == candidate_moves(st@, self_id@, enemy_id@, maximizing_player),
                idx_of(st@, self_id@) == si,
                idx_of(st@, enemy_id@) == ei,
                minimax_value(self_id@, enemy_id@, depth as int, st@, maximizing_player, alpha as int, beta as int)
                    == scan(self_id@, enemy_id@, depth as int, st@, maximizing_player, alpha as int, beta as int, successors@, k as int, best_score as int, best_move),
            decreases successors.len() - k,
        {
            let pos_move = successors[k].0;
            proof {
                crate::point::lemma_adjacent_step(h, pos_move);
            }
            let ghost sc = scan(self_id@, enemy_id@, depth as int, st@, maximizing_player, alpha as int, beta as int, successors@, k as int, best_score as int, best_move);
            let dir = match h.dir_to(pos_move) {
                Some(d) => d,
                None => {
                    assert(sc == scan(self_id@, enemy_id@, depth as int, st@, maximizing_player, alpha as int, beta as int, successors@, k + 1, best_score as int, best_move));
                    k += 1;
                    continue;
                },
            };
            let mut new_st = st.duplicate();
            let mut snake = st.board.snakes[mi].duplicate();
            assert(st@.snakes[mi as int].body.len() >= 2 && st@.snakes[mi as int].health >= 1);
            let (_, food_eaten) = snake.update_from_move(dir, &st.board.food);
            if let Some(p) = food_eaten {
                remove_point(&mut new_st.board.food, p);
            }
            let grown = snake.body.len();
            let health = snake.health;
            let ghost moved = snake@;
            let ghost grow = st@.food.contains(pos_move);
            let ghost dup = new_st@;
            assert(dup.snakes == st@.snakes);
            new_st.board.snakes.set(mi, snake);
            assert(new_st@.snakes =~= st@.snakes.update(mi as int, moved)) by {
                assert forall|j: int| 0 <= j < new_st@.snakes.len() implies new_st@.snakes[j]
                    == st@.snakes.update(mi as int, moved)[j] by {
                    if j != mi {
                        assert(new_st@.snakes[j] == dup.snakes[j]);
                    }
                }
            }
            assert(moved.body == moved_body(st@.snakes[mi as int].body, dir, grow));
            proof {
                lemma_without(st@.food, neighbour(h, dir), st@.food.len() as int);
            }
            assert(new_st@ == after_move(st@, mi as int, dir)) by {
                assert(moved == after_move(st@, mi as int, dir).snakes[mi as int]);
                assert(new_st@.snakes =~= after_move(st@, mi as int, dir).snakes);
            }
            assert(new_st@.snakes[si as int].id == self_id@);
            assert(new_st@.snakes[ei as int].id == enemy_id@);
            if maximizing_player {
                if health == 0 {
                    assert(sc == scan(self_id@, enemy_id@, depth as int, st@, maximizing_player, alpha as int, beta as int, successors@, k + 1, best_score as int, best_move));
                    k += 1;
                    continue;
                }
                proof {
                    lemma_moved_wf(st@, new_st@, mi as int, moved, dir, grow);
                }
                let (val, _) = self.minimax(self_id, enemy_id, depth + 1, &new_st, false, alpha, beta);
                let ghost old_best = best_score;
                let ghost old_move = best_move;
                if val > best_score {
                    best_move = pos_move;
                }
                best_score = if best_score > val {
                    best_score
                } else {
                    val
                };
                let new_alpha = if alpha > best_score {
                    alpha
                } else {
                    best_score
                };
                if beta <= new_alpha {
                    assert(sc == (best_score as int, best_move));
                    return (best_score, best_move);
                }
                assert(sc == scan(self_id@, enemy_id@, depth as int, st@, maximizing_player, alpha as int, beta as int, successors@, k + 1, best_score as int, best_move));
            } else {
                let our_snake = &st.board.snakes[si];
                assert(our_snake@ == st@.snakes[si as int]);
                assert(st@.snakes[si as int].body.len() >= 2);
                if our_snake.body[0] == pos_move {
                    if our_snake.body.len() > grown {
                        assert(sc == scan(self_id@, enemy_id@, depth as int, st@, maximizing_player, alpha as int, beta as int, successors@, k + 1, best_score as int, best_move));
                        k += 1;
                        continue;
                    } else {
                        assert(sc == (HEAD_ON as int, best_move));
                        return (HEAD_ON, best_move);
                    }
                }
                if health == 0 {
                    assert(sc == scan(self_id@, enemy_id@, depth as int, st@, maximizing_player, alpha as int, beta as int, successors@, k + 1, best_score as int, best_move));
                    k += 1;
                    continue;
                }
                proof {
                    lemma_moved_wf(st@, new_st@, mi as int, moved, dir, grow);
                }
                let (val, _) = self.minimax(self_id, enemy_id, depth + 1, &new_st, true, alpha, beta);
                if val < best_score {
                    best_move = pos_move;
                }
                best_score = if best_score < val {
                    best_score
                } else {
                    val
                };
                let new_beta = if best_score < beta {
                    best_score
                } else {
                    beta
                };
                if new_beta < alpha {
                    assert(sc == (best_score as int, best_move));
                    return (best_score, best_move);
                }
                assert(sc == scan(self_id@, enemy_id@, depth as int, st@, maximizing_player, alpha as int, beta as int, successors@, k + 1, best_score as int, best_move));
            }
            k += 1;
        }
        (best_score, best_move)
    }
}

/// Replacing one agent by its moved self keeps a state well formed when the new head is
/// on the board and the agent still has health.
proof fn lemma_moved_wf(
    st: StateModel,
    next: StateModel,
    i: int,
    moved: SnakeModel,
    d: Dir,
    g: bool,
)
    requires
        state_wf(st),
        0 <= i < st.snakes.len(),
        next.snakes == st.snakes.update(i, moved),
        next.width == st.width,
        next.height == st.height,
        moved.id == st.snakes[i].id,
        moved.health >= 1,
        moved.body == moved_body(st.snakes[i].body, d, g),
        in_bounds_spec(neighbour(head(st.snakes[i]), d), st),
        next.food.no_duplicates(),
    ensures
        state_wf(next),
{
    let old_body = st.snakes[i].body;
    assert(old_body.len() >= 2);
    assert forall|j: int|
        1 <= j < moved.body.len() implies old_body.contains(#[trigger] moved.body[j]) by {
        if j < old_body.len() {
            assert(moved.body[j] == old_body[j - 1]);
        } else {
            assert(moved.body[j] == old_body[old_body.len() - 2]);
        }
    }
    assert forall|a: int, j: int|
        0 <= a < next.snakes.len() && 0 <= j < next.snakes[a].body.len() implies in_bounds_spec(
        #[trigger] next.snakes[a].body[j],
        next,
    ) by {
        if a == i && j >= 1 {
            let w = choose|w: int|
                0 <= w < st.snakes[i].body.len() && st.snakes[i].body[w] == moved.body[j];
            assert(in_bounds_spec(st.snakes[i].body[w], st));
        } else if a != i {
            assert(in_bounds_spec(st.snakes[a].body[j], st));
        }
    }
}

/// Position of the last agent among the first `n` whose id is not `id`.
pub open spec fn last_other(st: StateModel, id: Seq<char>, n: int) -> Option<int>
    decreases n,
{
    if n <= 0 {
        None
    } else if st.snakes[n - 1].id != id {
        Some(n - 1)
    } else {
        last_other(st, id, n - 1)
    }
}

/// The move `AlphaBeta` picks for `me`: the direction of the chosen cell of the search
/// against the last other agent, when its value is above `MIN`; else the fallback move.
pub open spec fn alpha_beta_spec(me: SnakeModel, st: StateModel) -> Dir {
    match last_other(st, me.id, st.snakes.len() as int) {
        Some(e) => if present(st, me.id) {
            let r = minimax_value(me.id, st.snakes[e].id, 1, st, true, MIN as int, MAX as int);
            if r.0 > MIN && dir_to_spec(head(me), r.1) is Some {
                dir_to_spec(head(me), r.1)->0
            } else {
                safe_move_spec(me, st)
            }
        } else {
            safe_move_spec(me, st)
        },
        None => safe_move_spec(me, st),
    }
}

impl Profile for AlphaBeta {
    /// Searches the game against the last other agent in board order and moves towards the
    /// best successor; falls back to a safe move when no move scores above `MIN` or no
    /// opponent is left. When `s` is on the board and some direction leads to a cell that
    /// is not unsafe, the move leads to such a cell; otherwise it is the fallback move.
    fn get_move(&mut self, s: &Snake, st: &State) -> (d: Dir)
        ensures
            st@.snakes.contains(s@) && has_way_out(s@, st@) ==> safety_spec(neighbour(head(s@), d), s@, st@)
                != SafetyIndex::Unsafe,
            st@.snakes.contains(s@) && !has_way_out(s@, st@) ==> d == safe_move_spec(s@, st@),
            d == alpha_beta_spec(s@, st@),
    {
        proof {
            if has_way_out(s@, st@) {
                lemma_safe_move(s@, st@);
            }
        }
        let si = match st.find_snake(&s.id) {
            Some(i) => i,
            None => {
                return s.find_safe_move(st);
            },
        };
        let mut enemy: Option<usize> = None;
        let mut i: usize = 0;
        while i < st.board.snakes.len()
            invariant
                i <= st.board.snakes.len(),
                enemy matches Some(e) ==> e < st.board.snakes.len() && st.board.snakes@[e as int].id@
                    != s.id@,
                match enemy {
                    Some(e) => last_other(st@, s.id@, i as int) == Some(e as int),
                    None => last_other(st@, s.id@, i as int) is None,
                },
            decreases st.board.snakes.len() - i,
        {
            assert(st.board.snakes@[i as int]@ == st@.snakes[i as int]);
            if st.board.snakes[i].id != s.id {
                enemy = Some(i);
            }
            i += 1;
        }
        let ei = match enemy {
            Some(e) => e,
            None => {
                return s.find_safe_move(st);
            },
        };
        assert(st.board.snakes@[ei as int]@ == st@.snakes[ei as int]);
        assert(st.board.snakes@[si as int]@ == st@.snakes[si as int]);
        assert(present(st@, s.id@));
        assert(present(st@, st.board.snakes@[ei as int].id@));
        let (score, point) = self.minimax(&s.id, &st.board.snakes[ei].id, 1, st, true, MIN, MAX);
        if score > MIN {
            proof {
                if st@.snakes.contains(s@) {
                    let k = choose|k: int| 0 <= k < st@.snakes.len() && st@.snakes[k] == s@;
                    lemma_snake_of(st@, k);
                    crate::point::lemma_adjacent_step(head(s@), point);
                }
            }
            match s.body[0].dir_to(point) {
                Some(d) => {
                    proof {
                        if st@.snakes.contains(s@) {
                            assert(safety_spec(neighbour(head(s@), d), s@, st@) != SafetyIndex::Unsafe);
                            assert(has_way_out(s@, st@)) by {
                                if d == Dir::Up {
                                    assert(dir_at(0) == d);
                                } else if d == Dir::Down {
                                    assert(dir_at(1) == d);
                                } else if d == Dir::Left {
                                    assert(dir_at(2) == d);
                                } else {
                                    assert(dir_at(3) == d);
                                }
                            }
                        }
                    }
                    d
                },
                None => s.find_safe_move(st),
            }
        } else {
            s.find_safe_move(st)
        }
    }

    fn get_status(&self) -> (r: String)
        ensures
            r@ == "AlphaBeta"@,
    {
        "AlphaBeta".to_owned()
    }
}

} // verus!
