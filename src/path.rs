//! Shortest paths over the board, by A* search over cells that are not unsafe.

use vstd::prelude::*;

use crate::board::{head, path_step, state_wf, Snake, SnakeModel, State, StateModel};
use crate::point::{dir_to_spec, movable, neighbour, Dir, Point};

verus! {

/// `path` leads from `start` to `goal` in steps onto neighbouring cells that are not
/// unsafe for `me`.
pub open spec fn is_route(path: Seq<Point>, start: Point, goal: Point, me: SnakeModel, st: StateModel) -> bool {
    &&& path.len() >= 1
    &&& path[0] == start
    &&& path.last() == goal
    &&& forall|k: int| 0 <= k < path.len() - 1 ==> path_step(#[trigger] path[k], path[k + 1], me, st)
}

/// The path and cost that the A* search of the pathfinding crate returns for these
/// arguments.
pub uninterp spec fn astar_route(start: Point, goal: Point, me: SnakeModel, st: StateModel) -> Option<(Seq<Point>, u32)>;

/// Relies on `pathfinding::directed::astar::astar`: with unit step costs and the Manhattan
/// distance as heuristic (which never overestimates), it returns a shortest path from
/// `start` to the first node that satisfies the goal test, start and end included, no node
/// twice, with its total cost; `None` when no such path exists. Its result depends on its
/// arguments alone (its index map uses a fixed hasher).
#[verifier::external_body]
fn shortest_path(start: Point, goal: Point, s: &Snake, st: &State) -> (r: Option<(Vec<Point>, u32)>)
    requires
        state_wf(st@),
        movable(start),
    ensures
        match r {
            Some((p, c)) => {
                &&& astar_route(start, goal, s@, st@) == Some((p@, c))
                &&& is_route(p@, start, goal, s@, st@)
                &&& p@.no_duplicates()
                &&& c == p@.len() - 1
                &&& forall|q: Seq<Point>| is_route(q, start, goal, s@, st@) ==> q.len() >= p@.len()
            },
            None => {
                &&& astar_route(start, goal, s@, st@) is None
                &&& forall|q: Seq<Point>| !is_route(q, start, goal, s@, st@)
            },
        },
{
    pathfinding::prelude::astar(
        &start,
        |p| p.successors(s, st),
        |p| p.manhattan(goal),
        |p| p.coincides(goal),
    )
}

/// The direction of the first step of the A* path from the head of `me` to `goal`, when
/// that path has at least one step.
pub open spec fn route_step(me: SnakeModel, st: StateModel, goal: Point) -> Option<Dir> {
    match astar_route(head(me), goal, me, st) {
        Some((p, c)) => if p.len() > 1 {
            dir_to_spec(head(me), p[1])
        } else {
            None
        },
        None => None,
    }
}

impl Point {
    /// Whether the two points are the same cell.
    pub fn coincides(self, p: Point) -> (r: bool)
        ensures
            r == (self == p),
    {
        self == p
    }
}

/// The first move along a shortest path from the head of `s` to `goal`, if the path has a
/// first step.
pub fn first_step(s: &Snake, st: &State, goal: Point) -> (r: Option<Dir>)
    requires
        state_wf(st@),
        s.body.len() >= 1,
        movable(head(s@)),
    ensures
        r == route_step(s@, st@, goal),
        r matches Some(d) ==> exists|p: Seq<Point>|
            is_route(p, head(s@), goal, s@, st@) && p.len() > 1 && p[1] == neighbour(head(s@), d) && forall|
                q: Seq<Point>,
            | is_route(q, head(s@), goal, s@, st@) ==> q.len() >= p.len(),
        r is None ==> goal == head(s@) || forall|q: Seq<Point>| !is_route(q, head(s@), goal, s@, st@),
{
    match shortest_path(s.body[0], goal, s, st) {
        Some((path, _)) => {
            if path.len() > 1 {
                proof {
                    assert(path_step(path@[0], path@[1], s@, st@));
                    crate::point::lemma_adjacent_step(head(s@), path@[1]);
                }
                s.body[0].dir_to(path[1])
            } else {
                None
            }
        },
        None => None,
    }
}

} // verus!
