//! Move controllers: the simple heuristics that play an agent, and the common interface
//! of every strategy.

use vstd::prelude::*;

use crate::board::{
    head, nearest_food_spec, nearest_snake_spec, safe_move_spec, safety_spec, state_wf, Snake,
    SnakeModel, State, StateModel,
};
use crate::path::{first_step, route_step};
use crate::point::{dir_to_spec, movable, neighbour, Dir, SafetyIndex};

verus! {

/// A strategy that picks the next move of an agent.
pub trait Profile {
    /// Sets the strategy up with the first state of a game.
    fn init(&mut self, st: &State, self_id: &String) {
    }

    /// The move for agent `s` in state `st`.
    fn get_move(&mut self, s: &Snake, st: &State) -> (d: Dir)
        requires
            state_wf(st@),
            s.body.len() >= 2,
            movable(head(s@)),
    ;

    /// The name of the strategy.
    fn get_status(&self) -> String;
}

/// Keeps going straight while that is safe, else falls back to a safe move.
#[derive(Clone, Copy, Debug)]
pub struct Straight;

/// Heads for the nearest food by direction alone, when the first step is safe.
#[derive(Clone, Copy, Debug)]
pub struct NotSuck;

/// Follows a shortest path to the nearest food.
#[derive(Clone, Copy, Debug)]
pub struct AStarBasic;

/// Chases its own tail along a shortest path.
#[derive(Clone, Copy, Debug)]
pub struct Cautious;

/// Chases the tail of the nearest other agent along a shortest path.
#[derive(Clone, Copy, Debug)]
pub struct Follow;

/// Hunts the cell a shorter nearest agent is likely to move to.
#[derive(Clone, Copy, Debug)]
pub struct Aggressive;

/// The direction the agent moved last turn, when its first two segments differ.
pub open spec fn forward(me: SnakeModel) -> Option<Dir> {
    dir_to_spec(me.body[1], head(me))
}

/// The move `Straight` picks.
pub open spec fn straight_spec(me: SnakeModel, st: StateModel) -> Dir {
    let f = forward(me);
    if f is Some && safety_spec(neighbour(head(me), f->0), me, st) == SafetyIndex::Safe {
        f->0
    } else {
        safe_move_spec(me, st)
    }
}

/// The move `NotSuck` picks.
pub open spec fn not_suck_spec(me: SnakeModel, st: StateModel) -> Dir {
    let f = nearest_food_spec(me, st);
    if f is Some && dir_to_spec(head(me), f->0) is Some && safety_spec(
        neighbour(head(me), dir_to_spec(head(me), f->0)->0),
        me,
        st,
    ) == SafetyIndex::Safe {
        dir_to_spec(head(me), f->0)->0
    } else {
        safe_move_spec(me, st)
    }
}

/// The move `AStarBasic` picks.
pub open spec fn astar_basic_spec(me: SnakeModel, st: StateModel) -> Dir {
    let f = nearest_food_spec(me, st);
    if f is Some && route_step(me, st, f->0) is Some {
        route_step(me, st, f->0)->0
    } else {
        safe_move_spec(me, st)
    }
}

/// The move `Cautious` picks.
pub open spec fn cautious_spec(me: SnakeModel, st: StateModel) -> Dir {
    match route_step(me, st, me.body.last()) {
        Some(d) => d,
        None => safe_move_spec(me, st),
    }
}

/// The move `Follow` picks.
pub open spec fn follow_spec(me: SnakeModel, st: StateModel) -> Dir {
    let n = nearest_snake_spec(me, st);
    if n is Some && route_step(me, st, st.snakes[n->0].body.last()) is Some {
        route_step(me, st, st.snakes[n->0].body.last())->0
    } else {
        safe_move_spec(me, st)
    }
}

/// The cell the shorter agent `e` would move to by its fallback rule.
pub open spec fn prey_target(e: SnakeModel, st: StateModel) -> crate::point::Point {
    neighbour(head(e), safe_move_spec(e, st))
}

/// The move `Aggressive` picks.
pub open spec fn aggressive_spec(me: SnakeModel, st: StateModel) -> Dir {
    let n = nearest_snake_spec(me, st);
    if n is Some && st.snakes[n->0].body.len() < me.body.len() {
        let r = route_step(me, st, prey_target(st.snakes[n->0], st));
        if r is Some && safety_spec(neighbour(head(me), r->0), me, st) == SafetyIndex::Safe {
            r->0
        } else {
            safe_move_spec(me, st)
        }
    } else {
        safe_move_spec(me, st)
    }
}

impl Straight {
    pub fn new() -> Self {
        Straight
    }
}

impl NotSuck {
    pub fn new() -> Self {
        NotSuck
    }
}

impl AStarBasic {
    pub fn new() -> Self {
        AStarBasic
    }
}

impl Cautious {
    pub fn new() -> Self {
        Cautious
    }
}

impl Follow {
    pub fn new() -> Self {
        Follow
    }
}

impl Aggressive {
    pub fn new() -> Self {
        Aggressive
    }
}

impl Profile for Straight {
    fn get_move(&mut self, s: &Snake, st: &State) -> (d: Dir)
        ensures
            d == straight_spec(s@, st@),
    {
        if let Some(d) = s.body[1].dir_to(s.body[0]) {
            if d.is_safety_index(s, st, &SafetyIndex::Safe) {
                return d;
            }
        }
        s.find_safe_move(st)
    }

    fn get_status(&self) -> (r: String)
        ensures
            r@ == "Straight"@,
    {
        "Straight".to_owned()
    }
}

impl Profile for NotSuck {
    fn get_move(&mut self, s: &Snake, st: &State) -> (d: Dir)
        ensures
            d == not_suck_spec(s@, st@),
    {
        if let Some(nearest_food) = s.nearest_food(st) {
            if let Some(d) = s.body[0].dir_to(nearest_food) {
                if d.is_safety_index(s, st, &SafetyIndex::Safe) {
                    return d;
                }
            }
        }
        s.find_safe_move(st)
    }

    fn get_status(&self) -> (r: String)
        ensures
            r@ == "NotSuck"@,
    {
        "NotSuck".to_owned()
    }
}

impl Profile for AStarBasic {
    fn get_move(&mut self, s: &Snake, st: &State) -> (d: Dir)
        ensures
            d == astar_basic_spec(s@, st@),
            match nearest_food_spec(s@, st@) {
                Some(f) => route_step(s@, st@, f) is Some ==> exists|p: Seq<crate::point::Point>|
                    crate::path::is_route(p, head(s@), f, s@, st@) && p.len() > 1 && p[1] == neighbour(head(s@), d)
                        && forall|q: Seq<crate::point::Point>|
                        crate::path::is_route(q, head(s@), f, s@, st@) ==> q.len() >= p.len(),
                None => true,
            },
    {
        if let Some(nearest_food) = s.nearest_food(st) {
            if let Some(dir) = first_step(s, st, nearest_food) {
                return dir;
            }
        }
        s.find_safe_move(st)
    }

    fn get_status(&self) -> (r: String)
        ensures
            r@ == "AStarBasic"@,
    {
        "AStarBasic".to_owned()
    }
}

impl Profile for Cautious {
    fn get_move(&mut self, s: &Snake, st: &State) -> (d: Dir)
        ensures
            d == cautious_spec(s@, st@),
    {
        let len = s.body.len();
        if let Some(dir) = first_step(s, st, s.body[len - 1]) {
            return dir;
        }
        s.find_safe_move(st)
    }

    fn get_status(&self) -> (r: String)
        ensures
            r@ == "Cautious"@,
    {
        "Cautious".to_owned()
    }
}

impl Profile for Follow {
    fn get_move(&mut self, s: &Snake, st: &State) -> (d: Dir)
        ensures
            d == follow_spec(s@, st@),
    {
        if let Some(enemy) = s.nearest_snake(st) {
            let ghost k = nearest_snake_spec(s@, st@)->0;
            assert(enemy@ == st@.snakes[k]);
            assert(st@.snakes[k].body.len() >= 2);
            let len = enemy.body.len();
            if let Some(dir) = first_step(s, st, enemy.body[len - 1]) {
                return dir;
            }
        }
        s.find_safe_move(st)
    }

    fn get_status(&self) -> (r: String)
        ensures
            r@ == "Follow"@,
    {
        "Follow".to_owned()
    }
}

impl Profile for Aggressive {
    fn get_move(&mut self, s: &Snake, st: &State) -> (d: Dir)
        ensures
            d == aggressive_spec(s@, st@),
    {
        if let Some(nearest_snake) = s.nearest_snake(st) {
            let ghost k = nearest_snake_spec(s@, st@)->0;
            assert(nearest_snake@ == st@.snakes[k]);
            if nearest_snake.body.len() < s.body.len() {
                proof {
                    crate::board::lemma_head_movable(st@, k);
                }
                let dest_point = nearest_snake.find_safe_move(st).resulting_point(
                    nearest_snake.body[0],
                );
                if let Some(dir) = first_step(s, st, dest_point) {
                    if dir.is_safety_index(s, st, &SafetyIndex::Safe) {
                        return dir;
                    }
                }
            }
        }
        s.find_safe_move(st)
    }

    fn get_status(&self) -> (r: String)
        ensures
            r@ == "Aggressive"@,
    {
        "Aggressive".to_owned()
    }
}

/// One of the heuristic controllers, chosen by name.
#[derive(Clone, Copy, Debug)]
pub enum Controller {
    Aggressive(Aggressive),
    AlphaBeta(crate::alpha_beta::AlphaBeta),
    AStarBasic(AStarBasic),
    Cautious(Cautious),
    Follow(Follow),
    NotSuck(NotSuck),
    Straight(Straight),
}

/// The move a controller picks.
pub open spec fn controller_spec(c: Controller, me: SnakeModel, st: StateModel) -> Dir {
    match c {
        Controller::Aggressive(_) => aggressive_spec(me, st),
        Controller::AlphaBeta(_) => crate::alpha_beta::alpha_beta_spec(me, st),
        Controller::AStarBasic(_) => astar_basic_spec(me, st),
        Controller::Cautious(_) => cautious_spec(me, st),
        Controller::Follow(_) => follow_spec(me, st),
        Controller::NotSuck(_) => not_suck_spec(me, st),
        Controller::Straight(_) => straight_spec(me, st),
    }
}

/// The controller registered under `name`.
pub open spec fn profile_named(name: Seq<char>) -> Option<Controller> {
    if name == "aggressive"@ {
        Some(Controller::Aggressive(Aggressive))
    } else if name == "alpha_beta"@ {
        Some(Controller::AlphaBeta(crate::alpha_beta::AlphaBeta))
    } else if name == "astarbasic"@ {
        Some(Controller::AStarBasic(AStarBasic))
    } else if name == "cautious"@ {
        Some(Controller::Cautious(Cautious))
    } else if name == "follow"@ {
        Some(Controller::Follow(Follow))
    } else if name == "notsuck"@ {
        Some(Controller::NotSuck(NotSuck))
    } else if name == "straight"@ {
        Some(Controller::Straight(Straight))
    } else {
        None
    }
}

impl Profile for Controller {
    fn get_move(&mut self, s: &Snake, st: &State) -> (d: Dir)
        ensures
            d == controller_spec(*old(self), s@, st@),
    {
        match self {
            Controller::Aggressive(c) => c.get_move(s, st),
            Controller::AlphaBeta(c) => c.get_move(s, st),
            Controller::AStarBasic(c) => c.get_move(s, st),
            Controller::Cautious(c) => c.get_move(s, st),
            Controller::Follow(c) => c.get_move(s, st),
            Controller::NotSuck(c) => c.get_move(s, st),
            Controller::Straight(c) => c.get_move(s, st),
        }
    }

    fn get_status(&self) -> (r: String) {
        match self {
            Controller::Aggressive(c) => c.get_status(),
            Controller::AlphaBeta(c) => c.get_status(),
            Controller::AStarBasic(c) => c.get_status(),
            Controller::Cautious(c) => c.get_status(),
            Controller::Follow(c) => c.get_status(),
            Controller::NotSuck(c) => c.get_status(),
            Controller::Straight(c) => c.get_status(),
        }
    }
}

/// The controller with the given name: "aggressive", "alpha_beta", "astarbasic",
/// "cautious", "follow", "notsuck" or "straight"; `None` for any other name (the
/// simulator and tree-search strategies run under a clock and are not controllers).
pub fn string_to_profile(profile: &str) -> (r: Option<Controller>)
    ensures
        r == profile_named(profile@),
{
    let name = profile.to_owned();
    if name == "aggressive".to_owned() {
        Some(Controller::Aggressive(Aggressive))
    } else if name == "alpha_beta".to_owned() {
        Some(Controller::AlphaBeta(crate::alpha_beta::AlphaBeta))
    } else if name == "astarbasic".to_owned() {
        Some(Controller::AStarBasic(AStarBasic))
    } else if name == "cautious".to_owned() {
        Some(Controller::Cautious(Cautious))
    } else if name == "follow".to_owned() {
        Some(Controller::Follow(Follow))
    } else if name == "notsuck".to_owned() {
        Some(Controller::NotSuck(NotSuck))
    } else if name == "straight".to_owned() {
        Some(Controller::Straight(Straight))
    } else {
        None
    }
}

} // verus!
