//! Agents, the board and the world state, with the point-level safety model.

use vstd::prelude::*;

use crate::point::{adjacent, dir_at, dx, dy, manhattan_spec, movable, neighbour, Dir, Point, SafetyIndex};

verus! {

/// An agent: its id, its health and its body, head first.
#[derive(Clone, Debug)]
pub struct Snake {
    pub id: String,
    pub health: u8,
    pub body: Vec<Point>,
}

/// The identifier of a match.
#[derive(Clone, Debug)]
pub struct Game {
    pub id: String,
}

/// Board dimensions, food cells and the agents on it.
#[derive(Clone, Debug)]
pub struct Board {
    pub height: i8,
    pub width: i8,
    pub food: Vec<Point>,
    pub snakes: Vec<Snake>,
}

/// A snapshot of the world at one turn.
#[derive(Clone, Debug)]
pub struct State {
    pub game: Game,
    pub turn: u32,
    pub board: Board,
}

/// The mathematical value of an agent.
pub struct SnakeModel {
    pub id: Seq<char>,
    pub health: u8,
    pub body: Seq<Point>,
}

/// The mathematical value of a world state.
pub struct StateModel {
    pub game: Seq<char>,
    pub turn: u32,
    pub width: i8,
    pub height: i8,
    pub food: Seq<Point>,
    pub snakes: Seq<SnakeModel>,
}

impl View for Snake {
    type V = SnakeModel;

    open spec fn view(&self) -> SnakeModel {
        SnakeModel { id: self.id@, health: self.health, body: self.body@ }
    }
}

impl View for State {
    type V = StateModel;

    open spec fn view(&self) -> StateModel {
        StateModel {
            game: self.game.id@,
            turn: self.turn,
            width: self.board.width,
            height: self.board.height,
            food: self.board.food@,
            snakes: self.board.snakes@.map_values(|s: Snake| s@),
        }
    }
}

/// The head of an agent.
pub open spec fn head(s: SnakeModel) -> Point {
    s.body[0]
}

/// `p` lies inside the board.
pub open spec fn in_bounds_spec(p: Point, st: StateModel) -> bool {
    0 <= p.x < st.width && 0 <= p.y < st.height
}

/// `p` lies on the outermost ring of the board.
pub open spec fn is_outer_spec(p: Point, st: StateModel) -> bool {
    p.x == 0 || p.x == st.width - 1 || p.y == 0 || p.y == st.height - 1
}

/// The tail tip moves away next turn: it differs from the segment before it.
pub open spec fn tail_vacating(s: SnakeModel) -> bool {
    s.body.len() >= 2 && s.body.last() != s.body[s.body.len() - 2]
}

/// `s` blocks `p` next turn: a segment other than the tail tip is on `p`, or the tail tip is
/// on `p` and does not move away.
pub open spec fn blocks(s: SnakeModel, p: Point) -> bool {
    (exists|j: int| 0 <= j < s.body.len() - 1 && #[trigger] s.body[j] == p) || (s.body.len() >= 1
        && s.body.last() == p && !tail_vacating(s))
}

/// `s` is another agent, at least as long as `me`, whose head touches `p`.
pub open spec fn threatens(s: SnakeModel, me: SnakeModel, p: Point) -> bool {
    s.id != me.id && adjacent(p, head(s)) && s.body.len() >= me.body.len()
}

/// The safety of `p` for the agent `me` in `st`.
pub open spec fn safety_spec(p: Point, me: SnakeModel, st: StateModel) -> SafetyIndex {
    if !in_bounds_spec(p, st) || exists|i: int| 0 <= i < st.snakes.len() && blocks(st.snakes[i], p) {
        SafetyIndex::Unsafe
    } else if exists|i: int| 0 <= i < st.snakes.len() && threatens(st.snakes[i], me, p) {
        SafetyIndex::Risky
    } else {
        SafetyIndex::Safe
    }
}

/// `p` is a legal head position for `me` once every agent has moved.
pub open spec fn valid_spec(p: Point, me: SnakeModel, st: StateModel) -> bool {
    &&& in_bounds_spec(p, st)
    &&& forall|i: int|
        0 <= i < st.snakes.len() ==> !(#[trigger] head(st.snakes[i]) == p && st.snakes[i].id != me.id
            && st.snakes[i].body.len() >= me.body.len())
    &&& forall|i: int, j: int|
        0 <= i < st.snakes.len() && 1 <= j < st.snakes[i].body.len() ==> #[trigger] st.snakes[i].body[j]
            != p
}

/// A step of a path: onto a neighbour that is not unsafe.
pub open spec fn path_step(a: Point, b: Point, me: SnakeModel, st: StateModel) -> bool {
    adjacent(a, b) && safety_spec(b, me, st) != SafetyIndex::Unsafe
}

/// The neighbours of `p` among the first `n` directions of the scan order that are not
/// unsafe, each with cost 1.
pub open spec fn successors_upto(p: Point, me: SnakeModel, st: StateModel, n: int) -> Seq<(Point, u32)>
    decreases n,
{
    if n <= 0 {
        Seq::empty()
    } else {
        let rest = successors_upto(p, me, st, n - 1);
        let q = neighbour(p, dir_at(n - 1));
        if safety_spec(q, me, st) != SafetyIndex::Unsafe {
            rest.push((q, 1u32))
        } else {
            rest
        }
    }
}

/// The first direction in the scan order whose target cell has safety `level`.
pub open spec fn first_dir_with(me: SnakeModel, st: StateModel, level: SafetyIndex) -> Option<Dir> {
    let h = head(me);
    if safety_spec(neighbour(h, Dir::Up), me, st) == level {
        Some(Dir::Up)
    } else if safety_spec(neighbour(h, Dir::Down), me, st) == level {
        Some(Dir::Down)
    } else if safety_spec(neighbour(h, Dir::Left), me, st) == level {
        Some(Dir::Left)
    } else if safety_spec(neighbour(h, Dir::Right), me, st) == level {
        Some(Dir::Right)
    } else {
        None
    }
}

/// The fallback move: the first safe direction, else the first risky one, else up.
pub open spec fn safe_move_spec(me: SnakeModel, st: StateModel) -> Dir {
    match first_dir_with(me, st, SafetyIndex::Safe) {
        Some(d) => d,
        None => match first_dir_with(me, st, SafetyIndex::Risky) {
            Some(d) => d,
            None => Dir::Up,
        },
    }
}

/// Every agent has a head.
pub open spec fn has_heads(st: StateModel) -> bool {
    forall|i: int| 0 <= i < st.snakes.len() ==> #[trigger] st.snakes[i].body.len() >= 1
}

/// Ids are unique, food cells are distinct, bodies have a head and a tail, every segment is
/// on the board and every agent has some health left.
pub open spec fn state_wf(st: StateModel) -> bool {
    &&& st.food.no_duplicates()
    &&& forall|i: int| 0 <= i < st.snakes.len() ==> #[trigger] st.snakes[i].body.len() >= 2
    &&& forall|i: int| 0 <= i < st.snakes.len() ==> #[trigger] st.snakes[i].health >= 1
    &&& forall|i: int, j: int|
        0 <= i < st.snakes.len() && 0 <= j < st.snakes[i].body.len() ==> in_bounds_spec(
            #[trigger] st.snakes[i].body[j],
            st,
        )
    &&& forall|i: int, k: int|
        0 <= i < st.snakes.len() && 0 <= k < st.snakes.len() && i != k ==> #[trigger] st.snakes[i].id
            != #[trigger] st.snakes[k].id
}

/// Manhattan distance from the head of `me` to food `k`.
pub open spec fn food_dist(me: SnakeModel, st: StateModel, k: int) -> int {
    manhattan_spec(head(me), st.food[k])
}

/// Agent `k` is another agent whose head is within the search radius of `me`'s head.
pub open spec fn snake_candidate(me: SnakeModel, st: StateModel, k: int) -> bool {
    st.snakes[k].id != me.id && manhattan_spec(head(me), head(st.snakes[k])) < 99
}

/// Head-to-head distance from `me` to agent `k`.
pub open spec fn snake_dist(me: SnakeModel, st: StateModel, k: int) -> int {
    manhattan_spec(head(me), head(st.snakes[k]))
}

/// Food `k` is the nearest food within the search radius, and the first such in board order.
pub open spec fn is_nearest_food(me: SnakeModel, st: StateModel, k: int) -> bool {
    &&& 0 <= k < st.food.len()
    &&& food_dist(me, st, k) < 99
    &&& forall|j: int| 0 <= j < st.food.len() ==> food_dist(me, st, j) >= food_dist(me, st, k)
    &&& forall|j: int| 0 <= j < k ==> food_dist(me, st, j) > food_dist(me, st, k)
}

/// The nearest food to the head of `me`, if any lies within the search radius.
pub open spec fn nearest_food_spec(me: SnakeModel, st: StateModel) -> Option<Point> {
    if exists|k: int| is_nearest_food(me, st, k) {
        Some(st.food[choose|k: int| is_nearest_food(me, st, k)])
    } else {
        None
    }
}

/// Agent `k` is the other agent nearest to `me`, and the first such in board order.
pub open spec fn is_nearest_snake(me: SnakeModel, st: StateModel, k: int) -> bool {
    &&& 0 <= k < st.snakes.len()
    &&& snake_candidate(me, st, k)
    &&& forall|j: int|
        0 <= j < st.snakes.len() && snake_candidate(me, st, j) ==> snake_dist(me, st, j) >= snake_dist(
            me,
            st,
            k,
        )
    &&& forall|j: int|
        0 <= j < k && snake_candidate(me, st, j) ==> snake_dist(me, st, j) > snake_dist(me, st, k)
}

/// Index of the other agent nearest to `me`, if any lies within the search radius.
pub open spec fn nearest_snake_spec(me: SnakeModel, st: StateModel) -> Option<int> {
    if exists|k: int| is_nearest_snake(me, st, k) {
        Some(choose|k: int| is_nearest_snake(me, st, k))
    } else {
        None
    }
}

/// The body after moving in direction `d`: a new head, the tail tip dropped, and the
/// (new) tail tip doubled when food was picked up.
pub open spec fn moved_body(body: Seq<Point>, d: Dir, grow: bool) -> Seq<Point> {
    let b = seq![neighbour(body[0], d)] + body.drop_last();
    if grow {
        b.push(b.last())
    } else {
        b
    }
}

/// Some segment of some agent lies on the cell `(x, y)`.
pub open spec fn occupied_cell(st: StateModel, x: int, y: int) -> bool {
    exists|i: int, j: int|
        0 <= i < st.snakes.len() && 0 <= j < st.snakes[i].body.len() && #[trigger] st.snakes[i].body[j].x
            == x && st.snakes[i].body[j].y == y
}

/// Column of the unit vector to the left of a direction of travel.
pub open spec fn side_x(d: Dir) -> int {
    match d {
        Dir::Up => -1,
        Dir::Down => 1,
        _ => 0,
    }
}

/// Row of the unit vector to the left of a direction of travel.
pub open spec fn side_y(d: Dir) -> int {
    match d {
        Dir::Left => 1,
        Dir::Right => -1,
        _ => 0,
    }
}

/// The cell `f` steps forward and `l` steps to the side of `h`, as integers.
pub open spec fn rel_x(h: Point, d: Dir, f: int, l: int) -> int {
    h.x + f * dx(d) + l * side_x(d)
}

/// Row of the cell `f` steps forward and `l` steps to the side of `h`.
pub open spec fn rel_y(h: Point, d: Dir, f: int, l: int) -> int {
    h.y + f * dy(d) + l * side_y(d)
}

/// The head of `s` is on the cell `(x, y)`.
pub open spec fn head_at(s: SnakeModel, x: int, y: int) -> bool {
    head(s).x == x && head(s).y == y
}

/// A cell next to the target of the move, diagonal to `h`.
pub open spec fn blocker(h: Point, d: Dir, l: int) -> Point {
    Point { x: rel_x(h, d, 1, l) as i8, y: rel_y(h, d, 1, l) as i8 }
}

/// Agent `s` is another agent, longer than `me`, whose head sits on one of the two
/// outer cells on side `l` of a move in direction `d`.
pub open spec fn lurks(s: SnakeModel, me: SnakeModel, d: Dir, l: int) -> bool {
    &&& s.id != me.id
    &&& s.body.len() > me.body.len()
    &&& head_at(s, rel_x(head(me), d, 2, 2 * l), rel_y(head(me), d, 2, 2 * l)) || head_at(
        s,
        rel_x(head(me), d, 3, l),
        rel_y(head(me), d, 3, l),
    )
}

/// Scan of the agents from index `i` for a longer agent in corner position; the first one
/// found decides by whether the blocker cell on its side is unsafe.
pub open spec fn corner_scan(d: Dir, me: SnakeModel, st: StateModel, i: int) -> bool
    decreases st.snakes.len() - i,
{
    if i < 0 || i >= st.snakes.len() {
        false
    } else if lurks(st.snakes[i], me, d, 1) {
        safety_spec(blocker(head(me), d, -1), me, st) == SafetyIndex::Unsafe
    } else if lurks(st.snakes[i], me, d, -1) {
        safety_spec(blocker(head(me), d, 1), me, st) == SafetyIndex::Unsafe
    } else {
        corner_scan(d, me, st, i + 1)
    }
}

/// Moving in direction `d` leaves `me` diagonally next to a strictly longer agent's head, with a
/// free diagonal cell and no occupied blocker between them.
pub open spec fn corner_risky_spec(d: Dir, me: SnakeModel, st: StateModel) -> bool {
    let h = head(me);
    !(occupied_cell(st, rel_x(h, d, 2, 1), rel_y(h, d, 2, 1)) && occupied_cell(
        st,
        rel_x(h, d, 2, -1),
        rel_y(h, d, 2, -1),
    )) && corner_scan(d, me, st, 0)
}

/// The search state after looking at the first `i` neighbours of `curr`: each one that is
/// new and not unsafe is appended to both lists.
pub open spec fn visit_nbrs(
    curr: Point,
    v: Seq<Point>,
    tv: Seq<Point>,
    me: SnakeModel,
    st: StateModel,
    i: int,
) -> (Seq<Point>, Seq<Point>)
    decreases i,
{
    if i <= 0 {
        (v, tv)
    } else {
        let prev = visit_nbrs(curr, v, tv, me, st, i - 1);
        let q = neighbour(curr, dir_at(i - 1));
        if !prev.0.contains(q) && safety_spec(q, me, st) != SafetyIndex::Unsafe {
            (prev.0.push(q), prev.1.push(q))
        } else {
            prev
        }
    }
}

/// The depth-first search from the visited list `v` and the stack `tv`: pop the newest cell,
/// visit its neighbours, stop once more than `max` cells are visited or the stack is empty.
pub open spec fn flood_run(me: SnakeModel, st: StateModel, max: int, v: Seq<Point>, tv: Seq<Point>, fuel: nat) -> Seq<Point>
    decreases fuel,
{
    if fuel == 0 || tv.len() == 0 {
        v
    } else {
        let next = visit_nbrs(tv.last(), v, tv.drop_last(), me, st, 4);
        if next.0.len() > max {
            next.0
        } else {
            flood_run(me, st, max, next.0, next.1, (fuel - 1) as nat)
        }
    }
}

/// The cells `flood_fill` finds from `p`, in the order found.
pub open spec fn flood_spec(p: Point, me: SnakeModel, st: StateModel, max: int) -> Seq<Point> {
    flood_run(me, st, max, seq![p], seq![p], (max + 6) as nat)
}

/// Every non-unsafe neighbour of each point of `v` is in `v`.
pub open spec fn closed_region(v: Seq<Point>, me: SnakeModel, st: StateModel) -> bool {
    forall|k: int, i: int|
        0 <= k < v.len() && 0 <= i < 4 && safety_spec(#[trigger] neighbour(v[k], dir_at(i)), me, st)
            != SafetyIndex::Unsafe ==> v.contains(neighbour(v[k], dir_at(i)))
}

/// A cell covered by a segment of some agent is never safe: it is unsafe, unless that
/// segment is the agent's tail tip and the tail moves away next turn.
pub proof fn lemma_body_never_safe(p: Point, me: SnakeModel, st: StateModel, i: int, j: int)
    requires
        0 <= i < st.snakes.len(),
        0 <= j < st.snakes[i].body.len(),
        st.snakes[i].body[j] == p,
        !(j == st.snakes[i].body.len() - 1 && tail_vacating(st.snakes[i])),
    ensures
        safety_spec(p, me, st) == SafetyIndex::Unsafe,
{
    assert(blocks(st.snakes[i], p));
}

/// The agent of a well-formed state has a movable head.
pub proof fn lemma_head_movable(st: StateModel, i: int)
    requires
        state_wf(st),
        0 <= i < st.snakes.len(),
    ensures
        movable(head(st.snakes[i])),
        in_bounds_spec(head(st.snakes[i]), st),
{
    assert(in_bounds_spec(st.snakes[i].body[0], st));
}

/// Copies a list of points.
pub fn copy_points(v: &Vec<Point>) -> (r: Vec<Point>)
    ensures
        r@ == v@,
{
    let mut r: Vec<Point> = Vec::new();
    let mut i: usize = 0;
    while i < v.len()
        invariant
            i <= v.len(),
            r@ == v@.subrange(0, i as int),
        decreases v.len() - i,
    {
        r.push(v[i]);
        i += 1;
        assert(r@ =~= v@.subrange(0, i as int));
    }
    assert(r@ =~= v@);
    r
}

/// Whether `p` occurs in `v`.
pub fn contains_point(v: &Vec<Point>, p: Point) -> (r: bool)
    ensures
        r == v@.contains(p),
{
    let mut i: usize = 0;
    while i < v.len()
        invariant
            i <= v.len(),
            forall|k: int| 0 <= k < i ==> v@[k] != p,
        decreases v.len() - i,
    {
        if v[i] == p {
            return true;
        }
        i += 1;
    }
    false
}

impl Snake {
    /// An independent copy of the agent.
    pub fn duplicate(&self) -> (r: Snake)
        ensures
            r@ == self@,
    {
        Snake { id: self.id.clone(), health: self.health, body: copy_points(&self.body) }
    }

    /// Whether the agent blocks `p` next turn.
    pub fn blocks_point(&self, p: Point) -> (r: bool)
        requires
            self.body.len() >= 2,
        ensures
            r == blocks(self@, p),
    {
        let len = self.body.len();
        let mut j: usize = 0;
        while j < len - 1
            invariant
                len == self.body.len(),
                len >= 2,
                j <= len - 1,
                forall|m: int| 0 <= m < j ==> self.body@[m] != p,
            decreases len - 1 - j,
        {
            if self.body[j] == p {
                assert(self@.body[j as int] == p);
                return true;
            }
            j += 1;
        }
        self.body[len - 1] == p && self.body[len - 1] == self.body[len - 2]
    }
}

impl State {
    /// An independent copy of the state.
    pub fn duplicate(&self) -> (r: State)
        ensures
            r@ == self@,
            r.board.snakes.len() == self.board.snakes.len(),
    {
        let mut snakes: Vec<Snake> = Vec::new();
        let mut i: usize = 0;
        while i < self.board.snakes.len()
            invariant
                i <= self.board.snakes.len(),
                snakes.len() == i,
                forall|k: int| 0 <= k < i ==> (#[trigger] snakes@[k])@ == self.board.snakes@[k]@,
            decreases self.board.snakes.len() - i,
        {
            snakes.push(self.board.snakes[i].duplicate());
            i += 1;
        }
        let r = State {
            game: Game { id: self.game.id.clone() },
            turn: self.turn,
            board: Board {
                height: self.board.height,
                width: self.board.width,
                food: copy_points(&self.board.food),
                snakes,
            },
        };
        assert(r@.snakes =~= self@.snakes);
        r
    }

    /// Position of the agent with the given id.
    pub fn find_snake(&self, id: &String) -> (r: Option<usize>)
        ensures
            match r {
                Some(i) => i < self.board.snakes.len() && self.board.snakes@[i as int].id@ == id@
                    && forall|k: int| 0 <= k < i ==> self.board.snakes@[k].id@ != id@,
                None => forall|i: int|
                    0 <= i < self.board.snakes.len() ==> self.board.snakes@[i].id@ != id@,
            },
    {
        let mut i: usize = 0;
        while i < self.board.snakes.len()
            invariant
                i <= self.board.snakes.len(),
                forall|k: int| 0 <= k < i ==> self.board.snakes@[k].id@ != id@,
            decreases self.board.snakes.len() - i,
        {
            if self.board.snakes[i].id == *id {
                return Some(i);
            }
            i += 1;
        }
        None
    }
}

impl Point {
    /// Whether the point is inside the board.
    pub fn in_bounds(self, st: &State) -> (r: bool)
        ensures
            r == in_bounds_spec(self, st@),
    {
        self.x < st.board.width && self.x >= 0 && self.y < st.board.height && self.y >= 0
    }

    /// Whether the point is on the outer edge of the board.
    pub fn is_outer(self, st: &State) -> (r: bool)
        ensures
            r == is_outer_spec(self, st@),
    {
        self.x == 0 || self.x as i16 == st.board.width as i16 - 1 || self.y == 0 || self.y as i16
            == st.board.height as i16 - 1
    }

    /// The safety of this point for agent `s`: unsafe when occupied (an about-to-vacate tail
    /// tip excepted) or off the board, risky when next to the head of another agent at least
    /// as long, safe otherwise.
    pub fn safety_index(self, s: &Snake, st: &State) -> (r: SafetyIndex)
        requires
            state_wf(st@),
        ensures
            r == safety_spec(self, s@, st@),
    {
        let mut curr = SafetyIndex::Safe;
        let mut i: usize = 0;
        while i < st.board.snakes.len()
            invariant
                state_wf(st@),
                i <= st.board.snakes.len(),
                forall|k: int| 0 <= k < i ==> !blocks(#[trigger] st@.snakes[k], self),
                curr == SafetyIndex::Safe || curr == SafetyIndex::Risky,
                (curr == SafetyIndex::Risky) == exists|k: int|
                    0 <= k < i && threatens(#[trigger] st@.snakes[k], s@, self),
            decreases st.board.snakes.len() - i,
        {
            let snake = &st.board.snakes[i];
            assert(snake@ == st@.snakes[i as int]);
            assert(st@.snakes[i as int].body.len() >= 2);
            if snake.blocks_point(self) {
                if self.in_bounds(st) {
                    assert(blocks(st@.snakes[i as int], self));
                }
                return SafetyIndex::Unsafe;
            }
            if snake.id != s.id && self.is_adjacent(snake.body[0]) && snake.body.len()
                >= s.body.len() {
                assert(threatens(st@.snakes[i as int], s@, self));
                curr = SafetyIndex::Risky;
            }
            i += 1;
        }
        if self.in_bounds(st) {
            curr
        } else {
            SafetyIndex::Unsafe
        }
    }

    /// Whether this point is a legal head position for `s` in a state where every agent has
    /// already moved.
    pub fn is_valid(self, s: &Snake, st: &State) -> (r: bool)
        requires
            has_heads(st@),
        ensures
            r == valid_spec(self, s@, st@),
    {
        let mut i: usize = 0;
        while i < st.board.snakes.len()
            invariant
                has_heads(st@),
                i <= st.board.snakes.len(),
                forall|k: int|
                    0 <= k < i ==> !(#[trigger] head(st@.snakes[k]) == self && st@.snakes[k].id
                        != s@.id && st@.snakes[k].body.len() >= s@.body.len()),
                forall|k: int, j: int|
                    0 <= k < i && 1 <= j < st@.snakes[k].body.len() ==> #[trigger] st@.snakes[k].body[j]
                        != self,
            decreases st.board.snakes.len() - i,
        {
            let snake = &st.board.snakes[i];
            assert(snake@ == st@.snakes[i as int]);
            assert(st@.snakes[i as int].body.len() >= 1);
            if self == snake.body[0] && snake.id != s.id {
                if snake.body.len() >= s.body.len() {
                    assert(head(st@.snakes[i as int]) == self);
                    return false;
                }
            }
            let mut j: usize = 1;
            while j < snake.body.len()
                invariant
                    1 <= j,
                    i < st.board.snakes.len(),
                    snake@ == st@.snakes[i as int],
                    forall|m: int| 1 <= m < j && m < snake.body.len() ==> snake.body@[m] != self,
                decreases snake.body.len() - j,
            {
                if snake.body[j] == self {
                    assert(st@.snakes[i as int].body[j as int] == self);
                    return false;
                }
                j += 1;
            }
            assert forall|k: int, m: int|
                0 <= k < i + 1 && 1 <= m < st@.snakes[k].body.len() implies #[trigger] st@.snakes[k].body[m]
                != self by {
                if k == i {
                    assert(snake.body@[m] != self);
                }
            }
            i += 1;
        }
        self.in_bounds(st)
    }

    /// The neighbours of this point that are not unsafe for `s`, each with cost 1, in the
    /// order Up, Down, Left, Right.
    pub fn successors(self, s: &Snake, st: &State) -> (r: Vec<(Self, u32)>)
        requires
            state_wf(st@),
            movable(self),
        ensures
            r@ == successors_upto(self, s@, st@, 4),
    {
        let orth = self.orthogonal();
        let mut r: Vec<(Self, u32)> = Vec::new();
        let mut i: usize = 0;
        while i < 4
            invariant
                state_wf(st@),
                movable(self),
                i <= 4,
                forall|k: int| 0 <= k < 4 ==> orth[k] == neighbour(self, #[trigger] dir_at(k)),
                r@ == successors_upto(self, s@, st@, i as int),
            decreases 4 - i,
        {
            let q = orth[i];
            assert(q == neighbour(self, dir_at(i as int)));
            if q.safety_index(s, st) != SafetyIndex::Unsafe {
                r.push((q, 1));
            }
            i += 1;
        }
        r
    }
}

impl Snake {
    /// The food closest to the head (first in board order among equals), if any lies
    /// within the search radius.
    pub fn nearest_food(&self, st: &State) -> (r: Option<Point>)
        requires
            self.body.len() >= 1,
        ensures
            r == nearest_food_spec(self@, st@),
    {
        let mut nearest_dist: u32 = 99;
        let mut nearest: Option<usize> = None;
        let mut i: usize = 0;
        while i < st.board.food.len()
            invariant
                self.body.len() >= 1,
                i <= st@.food.len(),
                match nearest {
                    Some(k) => k < i && nearest_dist == food_dist(self@, st@, k as int)
                        && nearest_dist < 99 && (forall|j: int|
                        0 <= j < i ==> food_dist(self@, st@, j) >= nearest_dist) && (forall|j: int|
                        0 <= j < k ==> food_dist(self@, st@, j) > nearest_dist),
                    None => nearest_dist == 99 && forall|j: int|
                        0 <= j < i ==> food_dist(self@, st@, j) >= 99,
                },
            decreases st@.food.len() - i,
        {
            let dist = self.body[0].manhattan(st.board.food[i]);
            if dist < nearest_dist {
                nearest_dist = dist;
                nearest = Some(i);
            }
            i += 1;
        }
        match nearest {
            Some(k) => {
                assert(is_nearest_food(self@, st@, k as int));
                assert forall|k2: int| is_nearest_food(self@, st@, k2) implies k2 == k by {
                    if k2 < k {
                        assert(food_dist(self@, st@, k2) > food_dist(self@, st@, k as int));
                    } else if k2 > k {
                        assert(food_dist(self@, st@, k as int) > food_dist(self@, st@, k2));
                    }
                }
                Some(st.board.food[k])
            },
            None => {
                assert(!exists|k2: int| is_nearest_food(self@, st@, k2));
                None
            },
        }
    }

    /// The other agent whose head is closest to this one's head (first in board order among
    /// equals), if any lies within the search radius.
    pub fn nearest_snake<'a>(&self, st: &'a State) -> (r: Option<&'a Snake>)
        requires
            self.body.len() >= 1,
            has_heads(st@),
        ensures
            r.is_some() == nearest_snake_spec(self@, st@).is_some(),
            r matches Some(sn) ==> *sn == st.board.snakes@[nearest_snake_spec(self@, st@).unwrap()],
    {
        let mut nearest_dist: u32 = 99;
        let mut nearest: Option<usize> = None;
        let mut i: usize = 0;
        while i < st.board.snakes.len()
            invariant
                self.body.len() >= 1,
                has_heads(st@),
                i <= st@.snakes.len(),
                match nearest {
                    Some(k) => k < i && nearest_dist == snake_dist(self@, st@, k as int)
                        && snake_candidate(self@, st@, k as int) && (forall|j: int|
                        0 <= j < i && snake_candidate(self@, st@, j) ==> snake_dist(self@, st@, j)
                            >= nearest_dist) && (forall|j: int|
                        0 <= j < k && snake_candidate(self@, st@, j) ==> snake_dist(self@, st@, j)
                            > nearest_dist),
                    None => nearest_dist == 99 && forall|j: int|
                        0 <= j < i ==> !snake_candidate(self@, st@, j),
                },
            decreases st@.snakes.len() - i,
        {
            let snake = &st.board.snakes[i];
            assert(snake@ == st@.snakes[i as int]);
            assert(st@.snakes[i as int].body.len() >= 1);
            if self.id != snake.id {
                let dist = self.body[0].manhattan(snake.body[0]);
                if dist < nearest_dist {
                    nearest_dist = dist;
                    nearest = Some(i);
                }
            }
            i += 1;
        }
        match nearest {
            Some(k) => {
                assert(is_nearest_snake(self@, st@, k as int));
                assert forall|k2: int| is_nearest_snake(self@, st@, k2) implies k2 == k by {
                    if k2 < k {
                        assert(snake_dist(self@, st@, k2) > snake_dist(self@, st@, k as int));
                    } else if k2 > k {
                        assert(snake_dist(self@, st@, k as int) > snake_dist(self@, st@, k2));
                    }
                }
                Some(&st.board.snakes[k])
            },
            None => {
                assert(!exists|k2: int| is_nearest_snake(self@, st@, k2));
                None
            },
        }
    }

    /// The first direction, in the order Up, Down, Left, Right, whose target cell has
    /// safety `level`.
    fn first_dir_at_level(&self, st: &State, level: SafetyIndex) -> (r: Option<Dir>)
        requires
            state_wf(st@),
            self.body.len() >= 1,
            movable(head(self@)),
        ensures
            r == first_dir_with(self@, st@, level),
    {
        let h = self.body[0];
        if Dir::Up.resulting_point(h).safety_index(self, st) == level {
            Some(Dir::Up)
        } else if Dir::Down.resulting_point(h).safety_index(self, st) == level {
            Some(Dir::Down)
        } else if Dir::Left.resulting_point(h).safety_index(self, st) == level {
            Some(Dir::Left)
        } else if Dir::Right.resulting_point(h).safety_index(self, st) == level {
            Some(Dir::Right)
        } else {
            None
        }
    }

    /// A move onto a safe cell, else onto a risky one, scanning Up, Down, Left, Right;
    /// up when every neighbour is unsafe.
    pub fn find_safe_move(&self, st: &State) -> (r: Dir)
        requires
            state_wf(st@),
            self.body.len() >= 1,
            movable(head(self@)),
        ensures
            r == safe_move_spec(self@, st@),
    {
        match self.first_dir_at_level(st, SafetyIndex::Safe) {
            Some(d) => d,
            None => match self.first_dir_at_level(st, SafetyIndex::Risky) {
                Some(d) => d,
                None => Dir::Up,
            },
        }
    }

    /// Moves the agent one step in direction `dir`. On food the health is restored to 100
    /// and the body grows by one; otherwise the health drops by one. Returns the new head
    /// and, when food was picked up, its cell.
    pub fn update_from_move(&mut self, dir: Dir, food: &Vec<Point>) -> (r: (Point, Option<Point>))
        requires
            old(self).body.len() >= 1,
            movable(head(old(self)@)),
            old(self).health >= 1 || food@.contains(neighbour(head(old(self)@), dir)),
        ensures
            ({
                let h = neighbour(head(old(self)@), dir);
                let grow = food@.contains(h);
                &&& final(self).id == old(self).id
                &&& final(self)@.body == moved_body(old(self)@.body, dir, grow)
                &&& final(self).health == if grow {
                    100
                } else {
                    (old(self).health - 1) as u8
                }
                &&& r == (h, if grow {
                    Some(h)
                } else {
                    None
                })
            }),
    {
        let collected = dir.will_collect_food(self, food);
        let new_point = dir.resulting_point(self.body[0]);
        let ghost old_body = self.body@;
        self.body.insert(0, new_point);
        self.body.pop();
        assert(self.body@ =~= seq![new_point] + old_body.drop_last());
        if collected {
            self.health = 100;
            let last = self.body[self.body.len() - 1];
            self.body.push(last);
            (new_point, Some(new_point))
        } else {
            self.health = self.health - 1;
            (new_point, None)
        }
    }
}

impl Dir {
    /// Whether moving in this direction puts the head of `s` on food.
    pub fn will_collect_food(self, s: &Snake, food: &Vec<Point>) -> (r: bool)
        requires
            s.body.len() >= 1,
            movable(head(s@)),
        ensures
            r == food@.contains(neighbour(head(s@), self)),
    {
        contains_point(food, self.resulting_point(s.body[0]))
    }

    /// Whether the cell this direction leads to has safety `se` for `s`.
    pub fn is_safety_index(self, s: &Snake, st: &State, se: &SafetyIndex) -> (r: bool)
        requires
            state_wf(st@),
            s.body.len() >= 1,
            movable(head(s@)),
        ensures
            r == (safety_spec(neighbour(head(s@), self), s@, st@) == *se),
    {
        self.resulting_point(s.body[0]).safety_index(s, st) == *se
    }

    /// Column and row offsets of this direction and of the unit vector to its left.
    fn frame(self) -> (r: (i16, i16, i16, i16))
        ensures
            r.0 == dx(self),
            r.1 == dy(self),
            r.2 == side_x(self),
            r.3 == side_y(self),
    {
        match self {
            Dir::Up => (0, -1, -1, 0),
            Dir::Down => (0, 1, 1, 0),
            Dir::Left => (-1, 0, 0, 1),
            Dir::Right => (1, 0, 0, -1),
        }
    }

    /// Whether moving in this direction may trap `s` next to the head of a longer agent
    /// that sits diagonally ahead, with no occupied cell shielding the move.
    pub fn is_corner_risky(self, s: &Snake, st: &State) -> (r: bool)
        requires
            state_wf(st@),
            s.body.len() >= 1,
            movable(head(s@)),
        ensures
            r == corner_risky_spec(self, s@, st@),
    {
        let h = s.body[0];
        let (fx, fy, lx, ly) = self.frame();
        let hx = h.x as i16;
        let hy = h.y as i16;
        let d0 = occupied_at(st, hx + 2 * fx + lx, hy + 2 * fy + ly);
        let d1 = occupied_at(st, hx + 2 * fx - lx, hy + 2 * fy - ly);
        assert(rel_x(h, self, 2, 1) == hx + 2 * fx + lx && rel_y(h, self, 2, 1) == hy + 2 * fy + ly);
        assert(rel_x(h, self, 2, -1) == hx + 2 * fx - lx && rel_y(h, self, 2, -1) == hy + 2 * fy
            - ly);
        if d0 && d1 {
            return false;
        }
        let ghost me = s@;
        let b0 = Point { x: (hx + fx + lx) as i8, y: (hy + fy + ly) as i8 };
        let b1 = Point { x: (hx + fx - lx) as i8, y: (hy + fy - ly) as i8 };
        assert(b0 == blocker(h, self, 1));
        assert(b1 == blocker(h, self, -1));
        let mut i: usize = 0;
        while i < st.board.snakes.len()
            invariant
                state_wf(st@),
                s.body.len() >= 1,
                me == s@,
                h == head(me),
                hx == h.x,
                hy == h.y,
                fx == dx(self),
                fy == dy(self),
                lx == side_x(self),
                ly == side_y(self),
                b0 == blocker(h, self, 1),
                b1 == blocker(h, self, -1),
                movable(head(s@)),
                i <= st@.snakes.len(),
                corner_scan(self, me, st@, 0) == corner_scan(self, me, st@, i as int),
                corner_risky_spec(self, me, st@) == corner_scan(self, me, st@, 0),
            decreases st@.snakes.len() - i,
        {
            let snake = &st.board.snakes[i];
            assert(snake@ == st@.snakes[i as int]);
            assert(st@.snakes[i as int].body.len() >= 2);
            if snake.id != s.id && snake.body.len() > s.body.len() {
                let sx = snake.body[0].x as i16;
                let sy = snake.body[0].y as i16;
                if (sx == hx + 2 * fx + 2 * lx && sy == hy + 2 * fy + 2 * ly) || (sx == hx + 3 * fx
                    + lx && sy == hy + 3 * fy + ly) {
                    assert(lurks(st@.snakes[i as int], me, self, 1));
                    assert(corner_scan(self, me, st@, i as int) == (safety_spec(b1, me, st@)
                        == SafetyIndex::Unsafe));
                    return b1.safety_index(s, st) == SafetyIndex::Unsafe;
                }
                if (sx == hx + 2 * fx - 2 * lx && sy == hy + 2 * fy - 2 * ly) || (sx == hx + 3 * fx
                    - lx && sy == hy + 3 * fy - ly) {
                    assert(lurks(st@.snakes[i as int], me, self, -1));
                    assert(!lurks(st@.snakes[i as int], me, self, 1));
                    assert(corner_scan(self, me, st@, i as int) == (safety_spec(b0, me, st@)
                        == SafetyIndex::Unsafe));
                    return b0.safety_index(s, st) == SafetyIndex::Unsafe;
                }
            }
            assert(!lurks(st@.snakes[i as int], me, self, 1));
            assert(!lurks(st@.snakes[i as int], me, self, -1));
            assert(corner_scan(self, me, st@, i as int) == corner_scan(self, me, st@, i + 1));
            i += 1;
        }
        false
    }
}

/// Whether some segment of some agent lies on the cell `(x, y)`.
fn occupied_at(st: &State, x: i16, y: i16) -> (r: bool)
    ensures
        r == occupied_cell(st@, x as int, y as int),
{
    let mut i: usize = 0;
    while i < st.board.snakes.len()
        invariant
            i <= st@.snakes.len(),
            forall|k: int, j: int|
                0 <= k < i && 0 <= j < st@.snakes[k].body.len() ==> !(#[trigger] st@.snakes[k].body[j].x
                    == x && st@.snakes[k].body[j].y == y),
        decreases st@.snakes.len() - i,
    {
        let snake = &st.board.snakes[i];
        assert(snake@ == st@.snakes[i as int]);
        let mut j: usize = 0;
        while j < snake.body.len()
            invariant
                i < st@.snakes.len(),
                snake@ == st@.snakes[i as int],
                j <= snake.body.len(),
                forall|m: int| 0 <= m < j ==> !(snake.body@[m].x == x && snake.body@[m].y == y),
            decreases snake.body.len() - j,
        {
            if snake.body[j].x as i16 == x && snake.body[j].y as i16 == y {
                assert(st@.snakes[i as int].body[j as int].x == x);
                return true;
            }
            j += 1;
        }
        assert forall|k: int, m: int|
            0 <= k < i + 1 && 0 <= m < st@.snakes[k].body.len() implies !(
            #[trigger] st@.snakes[k].body[m].x == x && st@.snakes[k].body[m].y == y) by {
            if k == i {
                assert(!(snake.body@[m].x == x && snake.body@[m].y == y));
            }
        }
        i += 1;
    }
    false
}

impl Point {
    /// The cells reachable from this one over cells that are not unsafe for `s`, found by
    /// depth-first search, stopping once more than `max_size` cells have been found. The
    /// start comes first and every later cell touches an earlier one; when at most
    /// `max_size` cells are returned they are the whole reachable region.
    #[verifier::rlimit(100)]
    pub fn flood_fill(self, s: &Snake, st: &State, max_size: u16) -> (r: Vec<Point>)
        requires
            state_wf(st@),
            movable(self),
        ensures
            r@.len() >= 1,
            r@[0] == self,
            r@.no_duplicates(),
            r@.len() <= (if max_size >= 1 {
                max_size as int
            } else {
                1
            }) + 4,
            forall|k: int|
                1 <= k < r@.len() ==> safety_spec(#[trigger] r@[k], s@, st@) != SafetyIndex::Unsafe,
            forall|k: int|
                1 <= k < r@.len() ==> exists|j: int| 0 <= j < k && adjacent(r@[j], #[trigger] r@[k]),
            r@.len() <= max_size ==> closed_region(r@, s@, st@),
            r@ == flood_spec(self, s@, st@, max_size as int),
    {
        let mut visited: Vec<Point> = vec![self];
        let mut to_visit: Vec<Point> = vec![self];
        let mut done = false;
        let ghost mut fuel: nat = (max_size + 6) as nat;
        assert(visited@ =~= seq![self]);
        assert(to_visit@ =~= seq![self]);
        while !done && to_visit.len() > 0
            invariant
                state_wf(st@),
                movable(self),
                visited@.len() >= 1,
                visited@[0] == self,
                visited@.no_duplicates(),
                visited@.len() <= (if max_size >= 1 {
                    max_size as int
                } else {
                    1
                }) + 4,
                !done ==> visited@.len() <= 1 || visited@.len() <= max_size,
                done ==> visited@.len() > max_size,
                forall|k: int|
                    1 <= k < visited@.len() ==> safety_spec(#[trigger] visited@[k], s@, st@)
                        != SafetyIndex::Unsafe,
                forall|k: int|
                    1 <= k < visited@.len() ==> exists|j: int|
                        0 <= j < k && adjacent(visited@[j], #[trigger] visited@[k]),
                forall|t: int| 0 <= t < to_visit@.len() ==> visited@.contains(#[trigger] to_visit@[t]),
                forall|k: int, i: int|
                    0 <= k < visited@.len() && 0 <= i < 4 && !to_visit@.contains(visited@[k])
                        && safety_spec(#[trigger] neighbour(visited@[k], dir_at(i)), s@, st@)
                        != SafetyIndex::Unsafe ==> visited@.contains(neighbour(visited@[k], dir_at(i))),
            fuel == max_size + 5 - visited@.len() + to_visit@.len() + 1,
            (if done {
                visited@
            } else {
                flood_run(s@, st@, max_size as int, visited@, to_visit@, fuel)
            }) == flood_spec(self, s@, st@, max_size as int),
            decreases max_size + 5 - visited@.len(), to_visit@.len(),
        {
            let ghost v_start = visited@;
            let ghost old_tv = to_visit@;
            let curr = to_visit.pop().unwrap();
            let ghost tv0 = to_visit@;
            assert(old_tv =~= tv0.push(curr));
            assert(visited@.contains(curr));
            let ghost ci = choose|c: int| 0 <= c < visited@.len() && visited@[c] == curr;
            assert(movable(curr)) by {
                if ci > 0 {
                    assert(safety_spec(visited@[ci], s@, st@) != SafetyIndex::Unsafe);
                }
            }
            let ghost before = visited@;
            let orth = curr.orthogonal();
            let mut i: usize = 0;
            while i < 4
                invariant
                    state_wf(st@),
                    movable(self),
                    movable(curr),
                    0 <= ci < before.len(),
                    before[ci] == curr,
                    i <= 4,
                    forall|k: int| 0 <= k < 4 ==> orth[k] == neighbour(curr, #[trigger] dir_at(k)),
                    before.len() <= visited@.len() <= before.len() + i,
                    forall|k: int| 0 <= k < before.len() ==> visited@[k] == before[k],
                    visited@.len() >= 1,
                    visited@[0] == self,
                    visited@.no_duplicates(),
                    forall|k: int|
                        1 <= k < visited@.len() ==> safety_spec(#[trigger] visited@[k], s@, st@)
                            != SafetyIndex::Unsafe,
                    forall|k: int|
                        1 <= k < visited@.len() ==> exists|j: int|
                            0 <= j < k && adjacent(visited@[j], #[trigger] visited@[k]),
                    forall|t: int|
                        0 <= t < to_visit@.len() ==> visited@.contains(#[trigger] to_visit@[t]),
                    forall|m: int|
                        0 <= m < i && safety_spec(#[trigger] neighbour(curr, dir_at(m)), s@, st@)
                            != SafetyIndex::Unsafe ==> visited@.contains(neighbour(curr, dir_at(m))),
                    forall|x: Point| before.contains(x) ==> visited@.contains(x),
                    forall|x: Point| tv0.contains(x) ==> to_visit@.contains(x),
                    forall|x: Point|
                        #[trigger] visited@.contains(x) && !before.contains(x) ==> to_visit@.contains(x),
                    to_visit@.len() == tv0.len() + visited@.len() - before.len(),
                    (visited@, to_visit@) == visit_nbrs(curr, before, tv0, s@, st@, i as int),
                decreases 4 - i,
            {
                let p = orth[i];
                assert(p == neighbour(curr, dir_at(i as int)));
                if !contains_point(&visited, p) && p.safety_index(s, st) != SafetyIndex::Unsafe {
                    let ghost n = visited@.len();
                    let ghost vprev = visited@;
                    let ghost tprev = to_visit@;
                    assert(adjacent(visited@[ci], p)) by {
                        crate::point::lemma_dir_to_step(curr, dir_at(i as int));
                    }
                    visited.push(p);
                    to_visit.push(p);
                    assert(visited@ =~= vprev.push(p));
                    assert(to_visit@ =~= tprev.push(p));
                    assert((visited@, to_visit@) == visit_nbrs(curr, before, tv0, s@, st@, i + 1));
                    assert(visited@[n as int] == p);
                    assert(visited@.contains(p));
                    assert(visited@.no_duplicates()) by {
                        assert forall|a: int, b: int|
                            0 <= a < visited@.len() && 0 <= b < visited@.len() && a != b implies visited@[a]
                            != visited@[b] by {
                            if a == n {
                                assert(!vprev.contains(visited@[b]) || b != n);
                            } else if b == n {
                                assert(vprev[a] == visited@[a]);
                            }
                        }
                    }
                    assert forall|k: int|
                        1 <= k < visited@.len() implies exists|j: int|
                        0 <= j < k && adjacent(visited@[j], #[trigger] visited@[k]) by {
                        if k == n {
                            assert(0 <= ci < k && adjacent(visited@[ci], visited@[k]));
                        } else {
                            assert(vprev[k] == visited@[k]);
                            let j = choose|j: int| 0 <= j < k && adjacent(vprev[j], vprev[k]);
                            assert(visited@[j] == vprev[j]);
                        }
                    }
                    assert forall|x: Point| before.contains(x) implies visited@.contains(x) by {
                        if before.contains(x) {
                            let w = choose|w: int| 0 <= w < vprev.len() && vprev[w] == x;
                            assert(visited@[w] == x);
                        }
                    }
                    assert forall|x: Point| tv0.contains(x) implies to_visit@.contains(x) by {
                        if tv0.contains(x) {
                            let w = choose|w: int| 0 <= w < tprev.len() && tprev[w] == x;
                            assert(to_visit@[w] == x);
                        }
                    }
                    assert forall|x: Point|
                        #[trigger] visited@.contains(x) && !before.contains(x) implies to_visit@.contains(x) by {
                        if x == p {
                            assert(to_visit@[to_visit@.len() - 1] == p);
                        } else {
                            let w = choose|w: int| 0 <= w < visited@.len() && visited@[w] == x;
                            assert(vprev[w] == x);
                            assert(vprev.contains(x));
                            assert(tprev.contains(x));
                            let w2 = choose|w2: int| 0 <= w2 < tprev.len() && tprev[w2] == x;
                            assert(to_visit@[w2] == x);
                        }
                    }
                    assert forall|t: int|
                        0 <= t < to_visit@.len() implies visited@.contains(#[trigger] to_visit@[t]) by {
                        if t == to_visit@.len() - 1 {
                            assert(visited@[n as int] == p);
                        } else {
                            assert(tprev[t] == to_visit@[t]);
                            let w = choose|w: int| 0 <= w < vprev.len() && vprev[w] == tprev[t];
                            assert(visited@[w] == vprev[w]);
                        }
                    }
                    assert forall|m: int|
                        0 <= m < i && safety_spec(#[trigger] neighbour(curr, dir_at(m)), s@, st@)
                            != SafetyIndex::Unsafe implies visited@.contains(neighbour(curr, dir_at(m))) by {
                        let w = choose|w: int| 0 <= w < vprev.len() && vprev[w] == neighbour(curr, dir_at(m));
                        assert(visited@[w] == vprev[w]);
                    }
                }
                assert(safety_spec(neighbour(curr, dir_at(i as int)), s@, st@) != SafetyIndex::Unsafe
                    ==> visited@.contains(neighbour(curr, dir_at(i as int))));
                i += 1;
            }
            assert forall|k: int, i: int|
                0 <= k < visited@.len() && 0 <= i < 4 && !to_visit@.contains(visited@[k])
                    && safety_spec(#[trigger] neighbour(visited@[k], dir_at(i)), s@, st@)
                    != SafetyIndex::Unsafe implies visited@.contains(neighbour(visited@[k], dir_at(i))) by {
                let v = visited@[k];
                assert(visited@.contains(v));
                if !before.contains(v) {
                } else if v == curr {
                } else {
                    let kb = choose|kb: int| 0 <= kb < before.len() && before[kb] == v;
                    if old_tv.contains(v) {
                        let w = choose|w: int| 0 <= w < old_tv.len() && old_tv[w] == v;
                        if w < tv0.len() {
                            assert(tv0[w] == v);
                            assert(tv0.contains(v));
                        }
                    }
                    assert(!old_tv.contains(before[kb]));
                    assert(before.contains(neighbour(before[kb], dir_at(i))));
                }
            }
            proof {
                assert(flood_run(s@, st@, max_size as int, v_start, old_tv, fuel) == (if visited@.len() > max_size {
                    visited@
                } else {
                    flood_run(s@, st@, max_size as int, visited@, to_visit@, (fuel - 1) as nat)
                }));
                fuel = (fuel - 1) as nat;
            }
            if visited.len() > max_size as usize {
                done = true;
            }
        }
        visited
    }
}

} // verus!
