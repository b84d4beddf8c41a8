use snake_brain::{Board, Dir, Game, Point, SafetyIndex, Snake, State};

const SELF_ID: &str = "2d397b8c-8b3f-416d-bb16-6bc85ab3226e";
const SBOT_ID: &str = "0633b850-fa2b-4165-97d4-b88cf3acfe7f";
const ALEX_ID: &str = "4e073745-ba79-4764-8c6c-388dd7b86943";

fn p(x: i8, y: i8) -> Point {
    Point { x, y }
}

fn snake(id: &str, health: u8, body: &[(i8, i8)]) -> Snake {
    Snake { id: id.to_string(), health, body: body.iter().map(|&(x, y)| p(x, y)).collect() }
}

fn state(width: i8, height: i8, food: &[(i8, i8)], snakes: Vec<Snake>) -> State {
    State {
        game: Game { id: "game".to_string() },
        turn: 0,
        board: Board {
            height,
            width,
            food: food.iter().map(|&(x, y)| p(x, y)).collect(),
            snakes,
        },
    }
}

/// Three agents: the protagonist next to a longer agent's head, and a long agent in the
/// top right corner, with two food cells.
fn scenario_three() -> State {
    state(
        15,
        15,
        &[(3, 7), (11, 1)],
        vec![
            snake(SELF_ID, 80, &[(3, 8), (3, 9), (3, 10)]),
            snake(ALEX_ID, 70, &[(4, 7), (5, 7), (6, 7), (7, 7)]),
            snake(SBOT_ID, 59, &[(11, 2), (10, 2), (10, 3), (9, 3), (8, 3), (7, 3), (7, 2), (8, 2), (8, 1)]),
        ],
    )
}

fn find<'a>(st: &'a State, id: &str) -> &'a Snake {
    st.board.snakes.iter().find(|s| s.id == id).unwrap()
}

/// The protagonist against the left wall, its neck on the edge.
fn scenario_wall() -> State {
    state(11, 11, &[], vec![snake(SELF_ID, 90, &[(1, 3), (0, 3), (0, 4)])])
}

/// The protagonist with another agent's body to its right.
fn scenario_blocked() -> State {
    state(
        11,
        11,
        &[],
        vec![
            snake(SELF_ID, 90, &[(9, 2), (9, 3), (9, 4)]),
            snake(ALEX_ID, 90, &[(10, 1), (10, 2), (10, 3), (10, 4)]),
        ],
    )
}

#[test]
fn test_safety_index() {
    let st = scenario_three();
    let me = find(&st, SELF_ID);
    assert_eq!(p(2, 8).safety_index(me, &st), SafetyIndex::Safe);
    assert_eq!(p(3, 7).safety_index(me, &st), SafetyIndex::Risky);
    assert_eq!(p(4, 7).safety_index(me, &st), SafetyIndex::Unsafe);
    assert_eq!(p(-1, -1).safety_index(me, &st), SafetyIndex::Unsafe);
    let st5 = scenario_blocked();
    assert_eq!(p(10, 2).safety_index(find(&st5, SELF_ID), &st5), SafetyIndex::Unsafe);
}

#[test]
fn test_in_bounds() {
    let st = scenario_three();
    assert_eq!(p(-1, 3).in_bounds(&st), false);
    assert_eq!(p(1, -3).in_bounds(&st), false);
    assert_eq!(p(-1, -3).in_bounds(&st), false);
    assert_eq!(p(1, 3).in_bounds(&st), true);
}

#[test]
fn test_successors() {
    let st = scenario_three();
    assert_eq!(
        p(3, 8).successors(find(&st, SELF_ID), &st),
        vec![(p(3, 7), 1), (p(2, 8), 1), (p(4, 8), 1)]
    );
    let st1 = scenario_wall();
    assert_eq!(
        p(1, 3).successors(find(&st1, SELF_ID), &st1),
        vec![(p(1, 2), 1), (p(1, 4), 1), (p(2, 3), 1)]
    );
}

#[test]
fn test_is_safety_index() {
    let st = scenario_three();
    let me = find(&st, SELF_ID);
    let alex = find(&st, ALEX_ID);
    assert_eq!(Dir::Up.is_safety_index(me, &st, &SafetyIndex::Safe), false);
    assert_eq!(Dir::Down.is_safety_index(me, &st, &SafetyIndex::Unsafe), true);
    assert_eq!(Dir::Left.is_safety_index(me, &st, &SafetyIndex::Safe), true);
    assert_eq!(Dir::Right.is_safety_index(me, &st, &SafetyIndex::Risky), true);
    assert_eq!(Dir::Up.is_safety_index(alex, &st, &SafetyIndex::Safe), true);
    assert_eq!(Dir::Down.is_safety_index(alex, &st, &SafetyIndex::Safe), true);
    assert_eq!(Dir::Left.is_safety_index(alex, &st, &SafetyIndex::Safe), true);
    assert_eq!(Dir::Right.is_safety_index(alex, &st, &SafetyIndex::Unsafe), true);
    let st5 = scenario_blocked();
    assert_eq!(Dir::Right.is_safety_index(find(&st5, SELF_ID), &st5, &SafetyIndex::Unsafe), true);
}

#[test]
fn test_will_collect_food() {
    let st = scenario_three();
    let food = &st.board.food;
    let me = find(&st, SELF_ID);
    let alex = find(&st, ALEX_ID);
    let sbot = find(&st, SBOT_ID);
    assert_eq!(Dir::Up.will_collect_food(me, food), true);
    assert_eq!(Dir::Down.will_collect_food(me, food), false);
    assert_eq!(Dir::Left.will_collect_food(me, food), false);
    assert_eq!(Dir::Right.will_collect_food(me, food), false);
    assert_eq!(Dir::Up.will_collect_food(alex, food), false);
    assert_eq!(Dir::Down.will_collect_food(alex, food), false);
    assert_eq!(Dir::Left.will_collect_food(alex, food), true);
    assert_eq!(Dir::Right.will_collect_food(alex, food), false);
    assert_eq!(Dir::Up.will_collect_food(sbot, food), true);
    assert_eq!(Dir::Down.will_collect_food(sbot, food), false);
    assert_eq!(Dir::Left.will_collect_food(sbot, food), false);
    assert_eq!(Dir::Right.will_collect_food(sbot, food), false);
}

#[test]
fn test_nearest_food() {
    let st = scenario_three();
    assert_eq!(find(&st, SELF_ID).nearest_food(&st), Some(p(3, 7)));
    assert_eq!(find(&st, SBOT_ID).nearest_food(&st), Some(p(11, 1)));
    assert_eq!(find(&st, ALEX_ID).nearest_food(&st), Some(p(3, 7)));
}

#[test]
fn test_find_safe_move() {
    let st = scenario_three();
    assert_eq!(find(&st, SELF_ID).find_safe_move(&st), Dir::Left);
    assert_eq!(find(&st, SBOT_ID).find_safe_move(&st), Dir::Up);
    assert_eq!(find(&st, ALEX_ID).find_safe_move(&st), Dir::Up);
}

#[test]
fn test_update_from_move() {
    let mut st = scenario_three();
    let food = st.board.food.clone();
    let snake = st.board.snakes.iter_mut().find(|s| s.id == SBOT_ID).unwrap();

    let point = snake.update_from_move(Dir::Right, &food);
    assert_eq!(point, (p(12, 2), None));
    assert_eq!(
        snake.body,
        [p(12, 2), p(11, 2), p(10, 2), p(10, 3), p(9, 3), p(8, 3), p(7, 3), p(7, 2), p(8, 2)]
    );
    assert_eq!(snake.health, 58);

    let point = snake.update_from_move(Dir::Up, &food);
    assert_eq!(point, (p(12, 1), None));
    assert_eq!(
        snake.body,
        [p(12, 1), p(12, 2), p(11, 2), p(10, 2), p(10, 3), p(9, 3), p(8, 3), p(7, 3), p(7, 2)]
    );
    assert_eq!(snake.health, 57);

    let point = snake.update_from_move(Dir::Left, &food);
    assert_eq!(point, (p(11, 1), Some(p(11, 1))));
    assert_eq!(
        snake.body,
        [p(11, 1), p(12, 1), p(12, 2), p(11, 2), p(10, 2), p(10, 3), p(9, 3), p(8, 3), p(7, 3), p(7, 3)]
    );
    assert_eq!(snake.health, 100);
}

#[test]
fn risky_cell_next_to_longer_head_and_safe_cell_opposite() {
    let st = state(
        11,
        11,
        &[],
        vec![
            snake(SELF_ID, 90, &[(5, 5), (5, 6), (5, 7)]),
            snake(ALEX_ID, 90, &[(7, 5), (8, 5), (9, 5), (10, 5)]),
        ],
    );
    let me = find(&st, SELF_ID);
    assert_eq!(p(6, 5).safety_index(me, &st), SafetyIndex::Risky);
    assert_eq!(p(4, 5).safety_index(me, &st), SafetyIndex::Safe);
}

#[test]
fn vacating_tail_is_not_unsafe_but_coiled_tail_is() {
    let moving = state(11, 11, &[], vec![snake(SELF_ID, 90, &[(5, 5), (5, 6), (5, 7)])]);
    let me = find(&moving, SELF_ID);
    assert_eq!(p(5, 7).safety_index(me, &moving), SafetyIndex::Safe);
    assert_eq!(p(5, 6).safety_index(me, &moving), SafetyIndex::Unsafe);
    let coiled = state(11, 11, &[], vec![snake(SELF_ID, 90, &[(5, 5), (5, 6), (5, 6)])]);
    assert_eq!(p(5, 6).safety_index(find(&coiled, SELF_ID), &coiled), SafetyIndex::Unsafe);
}

#[test]
fn is_valid_rejects_longer_head_and_body() {
    let st = state(
        11,
        11,
        &[],
        vec![
            snake(SELF_ID, 90, &[(5, 5), (5, 6), (5, 7)]),
            snake(ALEX_ID, 90, &[(6, 5), (7, 5), (8, 5), (9, 5)]),
        ],
    );
    let me = find(&st, SELF_ID);
    assert!(!p(6, 5).is_valid(me, &st));
    assert!(!p(7, 5).is_valid(me, &st));
    assert!(p(4, 5).is_valid(me, &st));
    assert!(!p(11, 5).is_valid(me, &st));
    let alex = find(&st, ALEX_ID);
    assert!(p(5, 5).is_valid(alex, &st));
}

#[test]
fn is_outer_marks_the_edge() {
    let st = scenario_wall();
    assert!(p(0, 5).is_outer(&st));
    assert!(p(10, 5).is_outer(&st));
    assert!(p(5, 10).is_outer(&st));
    assert!(!p(5, 5).is_outer(&st));
}

#[test]
fn flood_fill_counts_the_open_region() {
    let st = state(3, 3, &[], vec![snake(SELF_ID, 90, &[(0, 0), (1, 0), (2, 0)])]);
    let me = find(&st, SELF_ID);
    let region = p(0, 0).flood_fill(me, &st, 100);
    assert_eq!(region.len(), 8);
    assert_eq!(region[0], p(0, 0));
    let capped = p(0, 0).flood_fill(me, &st, 2);
    assert!(capped.len() > 2);
}

#[test]
fn nearest_snake_picks_the_closest_other_head() {
    let st = scenario_three();
    let me = find(&st, SELF_ID);
    assert_eq!(me.nearest_snake(&st).unwrap().id, ALEX_ID);
    let alone = scenario_wall();
    assert!(find(&alone, SELF_ID).nearest_snake(&alone).is_none());
}

#[test]
fn corner_risk_detects_longer_head_diagonally_ahead() {
    let st = state(
        11,
        11,
        &[],
        vec![
            snake(SELF_ID, 90, &[(5, 5), (5, 6), (5, 7)]),
            snake(ALEX_ID, 90, &[(7, 3), (8, 3), (9, 3), (10, 3)]),
        ],
    );
    let me = find(&st, SELF_ID);
    assert!(!Dir::Up.is_corner_risky(me, &st));
    let st2 = state(
        11,
        11,
        &[],
        vec![
            snake(SELF_ID, 90, &[(5, 5), (5, 6), (5, 7)]),
            snake(ALEX_ID, 90, &[(7, 3), (7, 2), (7, 1), (7, 0)]),
            snake(SBOT_ID, 90, &[(4, 4), (3, 4), (2, 4)]),
        ],
    );
    assert!(Dir::Up.is_corner_risky(find(&st2, SELF_ID), &st2));
}

#[test]
fn head_on_the_vacating_tail_cell_still_blocks() {
    let st = state(11, 11, &[], vec![snake(SELF_ID, 90, &[(5, 5), (5, 6), (6, 6), (6, 5), (5, 5)])]);
    let me = find(&st, SELF_ID);
    assert_eq!(p(5, 5).safety_index(me, &st), SafetyIndex::Unsafe);
}

#[test]
fn equal_length_opponent_sets_no_corner_trap() {
    let st = state(
        11,
        11,
        &[],
        vec![
            snake(SELF_ID, 90, &[(5, 5), (5, 6), (5, 7)]),
            snake(ALEX_ID, 90, &[(7, 3), (7, 2), (7, 1)]),
            snake(SBOT_ID, 90, &[(4, 4), (3, 4), (2, 4)]),
        ],
    );
    assert!(!Dir::Up.is_corner_risky(find(&st, SELF_ID), &st));
}
