use snake_brain::analytics::{best_match, match_score};
use snake_brain::game_tree::merge_child_scores;
use snake_brain::{
    string_to_profile, AStarBasic, Aggressive, AlphaBeta, Analytics, Board, Cautious, Controller, Dir,
    Follow, Game, GameTree, NotSuck, Point, Profile, SafetyIndex, Sim, Snake, State, Straight,
};

fn p(x: i8, y: i8) -> Point {
    Point { x, y }
}

fn snake(id: &str, health: u8, body: &[(i8, i8)]) -> Snake {
    Snake { id: id.to_string(), health, body: body.iter().map(|&(x, y)| p(x, y)).collect() }
}

fn state(size: i8, food: &[(i8, i8)], snakes: Vec<Snake>) -> State {
    State {
        game: Game { id: "g".to_string() },
        turn: 0,
        board: Board { height: size, width: size, food: food.iter().map(|&(x, y)| p(x, y)).collect(), snakes },
    }
}

fn lone_state() -> State {
    state(11, &[(5, 5)], vec![snake("me", 90, &[(5, 6), (5, 7), (5, 8)])])
}

#[test]
fn nearest_food_strategies_go_up_to_the_food() {
    let st = lone_state();
    let me = &st.board.snakes[0];
    assert_eq!(AStarBasic::new().get_move(me, &st), Dir::Up);
    assert_eq!(NotSuck::new().get_move(me, &st), Dir::Up);
}

#[test]
fn straight_keeps_its_heading() {
    let st = state(11, &[], vec![snake("me", 90, &[(5, 5), (5, 6), (5, 7)])]);
    assert_eq!(Straight::new().get_move(&st.board.snakes[0], &st), Dir::Up);
    let wall = state(11, &[], vec![snake("me", 90, &[(5, 0), (5, 1), (5, 2)])]);
    assert_eq!(Straight::new().get_move(&wall.board.snakes[0], &wall), Dir::Left);
}

#[test]
fn cautious_chases_its_tail() {
    let st = state(11, &[], vec![snake("me", 90, &[(5, 5), (5, 6), (6, 6), (6, 5)])]);
    assert_eq!(Cautious::new().get_move(&st.board.snakes[0], &st), Dir::Right);
}

#[test]
fn follow_and_aggressive_fall_back_when_alone() {
    let st = lone_state();
    let me = &st.board.snakes[0];
    assert_eq!(Follow::new().get_move(me, &st), me.find_safe_move(&st));
    assert_eq!(Aggressive::new().get_move(me, &st), me.find_safe_move(&st));
}

#[test]
fn profiles_by_name() {
    assert!(matches!(string_to_profile("cautious"), Some(Controller::Cautious(_))));
    assert!(matches!(string_to_profile("aggressive"), Some(Controller::Aggressive(_))));
    assert!(matches!(string_to_profile("straight"), Some(Controller::Straight(_))));
    assert!(matches!(string_to_profile("alpha_beta"), Some(Controller::AlphaBeta(_))));
    assert!(string_to_profile("nonsense").is_none());
    assert!(string_to_profile("sim").is_none());
    assert_eq!(Cautious::new().get_status(), "Cautious");
    assert_eq!(Controller::AStarBasic(AStarBasic::new()).get_status(), "AStarBasic");
}

#[test]
fn alpha_beta_moves_onto_a_cell_that_is_not_unsafe() {
    let st = state(
        5,
        &[],
        vec![snake("me", 90, &[(1, 1), (1, 2), (1, 3)]), snake("you", 90, &[(3, 3), (3, 4), (4, 4)])],
    );
    let me = &st.board.snakes[0];
    let d = AlphaBeta::new().get_move(me, &st);
    let target = d.resulting_point(me.body[0]);
    assert_ne!(target.safety_index(me, &st), SafetyIndex::Unsafe);
}

#[test]
fn alpha_beta_falls_back_without_opponent() {
    let st = lone_state();
    let me = &st.board.snakes[0];
    assert_eq!(AlphaBeta::new().get_move(me, &st), me.find_safe_move(&st));
}

#[test]
fn tree_visits_never_outrun_parents() {
    let st = state(
        7,
        &[(3, 1)],
        vec![snake("me", 90, &[(3, 3), (3, 4), (3, 5)]), snake("you", 90, &[(0, 0), (1, 0), (2, 0)])],
    );
    let mut tree = GameTree::new(st, "me".to_string(), "you".to_string());
    tree.rollout(0);
    assert_eq!(tree.node_stats(0).1, 1);
    let first = tree.expand(0).unwrap();
    assert!(!tree.node_is_leaf(0));
    assert!(tree.node_is_leaf(first));
    for _ in 0..5 {
        tree.rollout(first);
    }
    assert_eq!(tree.node_stats(first).1, 5);
    assert_eq!(tree.node_stats(0).1, 6);
    let child = tree.expand(first);
    if let Some(c) = child {
        tree.rollout(c);
        assert_eq!(tree.node_stats(first).1, 6);
        let kids = tree.node_children(first);
        let below: usize = kids.iter().flatten().map(|&k| tree.node_stats(k).1).sum();
        assert!(below + 1 <= tree.node_stats(first).1);
    }
    let scores = tree.root_child_scores();
    let total: usize = scores.iter().map(|s| s.0).sum();
    assert!(total + 1 <= tree.node_stats(0).1);
    assert!(!scores.is_empty());
}

#[test]
fn merged_scores_add_entry_by_entry() {
    let mut acc = vec![(3, 1), (4, 2)];
    merge_child_scores(&mut acc, &vec![(5, 1), (1, 2), (7, 3)]);
    assert_eq!(acc, vec![(8, 1), (5, 2), (7, 3)]);
}

#[test]
fn best_move_is_the_most_visited_child() {
    let st = state(
        7,
        &[],
        vec![snake("me", 90, &[(3, 3), (3, 4), (3, 5)]), snake("you", 90, &[(0, 6), (1, 6), (2, 6)])],
    );
    let mut tree = GameTree::new(st, "me".to_string(), "you".to_string());
    tree.rollout(0);
    tree.expand(0).unwrap();
    let kids = tree.node_children(0);
    let ids: Vec<usize> = kids.iter().flatten().copied().collect();
    assert!(ids.len() >= 2);
    let scores = vec![(1, ids[0]), (9, ids[1])];
    let expected = {
        let node_dir = tree.get_best_move(&vec![(1, ids[1])]);
        node_dir
    };
    assert_eq!(tree.get_best_move(&scores), expected);
}

#[test]
fn identical_branches_produce_identical_outcomes() {
    let st = state(
        9,
        &[(4, 1), (1, 7)],
        vec![snake("me", 90, &[(4, 4), (4, 5), (4, 6)]), snake("you", 90, &[(7, 7), (7, 8), (6, 8)])],
    );
    let me = st.board.snakes[0].clone();
    let mut a = Sim::new();
    let mut b = Sim::new();
    a.init(&st, &"me".to_string());
    b.init(&st, &"me".to_string());
    a.reseed(&"me".to_string(), &st);
    b.reseed(&"me".to_string(), &st);
    for _ in 0..6 {
        a.tick();
        b.tick();
    }
    let da = a.choose_move(&me, &st);
    let db = b.choose_move(&me, &st);
    assert_eq!(da, db);
    assert_eq!(a.get_status(), "Sim");
}

#[test]
fn sim_picks_a_safe_move_when_one_exists() {
    let st = state(
        9,
        &[(4, 1)],
        vec![snake("me", 90, &[(4, 4), (4, 5), (4, 6)]), snake("you", 90, &[(7, 7), (7, 8), (6, 8)])],
    );
    let me = st.board.snakes[0].clone();
    let mut sim = Sim::new();
    sim.init(&st, &"me".to_string());
    sim.reseed(&"me".to_string(), &st);
    let mut rounds = 0;
    while sim.any_live() && rounds < 30 {
        sim.tick();
        rounds += 1;
    }
    let d = sim.choose_move(&me, &st);
    assert_ne!(d.resulting_point(me.body[0]).safety_index(&me, &st), SafetyIndex::Unsafe);
}

#[test]
fn profiler_matches_nine_of_ten_and_clears_at_eight() {
    let observed = vec![Dir::Up, Dir::Up, Dir::Left, Dir::Left, Dir::Down, Dir::Down, Dir::Right, Dir::Right, Dir::Up, Dir::Left];
    let mut predicted = observed.clone();
    predicted[9] = Dir::Down;
    assert_eq!(match_score(&observed, &predicted), 9);
    assert_eq!(best_match(&observed, &vec![vec![Dir::Down; 10], predicted.clone()]), Some(1));
    predicted[3] = Dir::Right;
    assert_eq!(match_score(&observed, &predicted), 8);
    assert_eq!(best_match(&observed, &vec![vec![Dir::Down; 10], predicted.clone()]), None);
}

#[test]
fn profiler_follows_every_agent() {
    let st = state(
        9,
        &[(4, 1)],
        vec![snake("me", 90, &[(4, 4), (4, 5), (4, 6)]), snake("you", 90, &[(7, 7), (7, 8), (6, 8)])],
    );
    let mut an = Analytics::new(&st, &["cautious", "astarbasic", "aggressive"]);
    assert!(an.matches().is_empty());
    for _ in 0..3 {
        an.fire(&"me".to_string(), &st);
    }
    assert!(an.matches().is_empty());
}

#[test]
fn profiler_recognises_a_tail_chaser() {
    let mut st = state(
        9,
        &[],
        vec![
            snake("me", 90, &[(1, 1), (1, 2), (2, 2), (2, 1)]),
            snake("you", 90, &[(5, 5), (5, 6), (6, 6), (6, 5)]),
        ],
    );
    let mut an = Analytics::new(&st, &["cautious", "astarbasic", "aggressive"]);
    let me_id = "me".to_string();
    for _ in 0..12 {
        an.fire(&me_id, &st);
        let mut c = Cautious::new();
        let mine = c.get_move(&st.board.snakes[0], &st);
        let theirs = c.get_move(&st.board.snakes[1], &st);
        let moves = vec![("me".to_string(), mine), ("you".to_string(), theirs)];
        let f = snake_brain::process_step(&mut st, &me_id, &moves);
        assert!(f.alive);
    }
    an.fire(&me_id, &st);
    let m = an.matches();
    assert_eq!(m, vec![("you".to_string(), "cautious".to_string())]);
}
