use snake_brain::{process_step, Board, Dir, Game, Point, Snake, State};

fn p(x: i8, y: i8) -> Point {
    Point { x, y }
}

fn snake(id: &str, health: u8, body: &[(i8, i8)]) -> Snake {
    Snake { id: id.to_string(), health, body: body.iter().map(|&(x, y)| p(x, y)).collect() }
}

fn state(food: &[(i8, i8)], snakes: Vec<Snake>) -> State {
    State {
        game: Game { id: "g".to_string() },
        turn: 7,
        board: Board { height: 11, width: 11, food: food.iter().map(|&(x, y)| p(x, y)).collect(), snakes },
    }
}

fn moves(m: &[(&str, Dir)]) -> Vec<(String, Dir)> {
    m.iter().map(|(id, d)| (id.to_string(), *d)).collect()
}

#[test]
fn step_moves_eats_and_advances_the_turn() {
    let mut st = state(
        &[(5, 4), (0, 0)],
        vec![snake("me", 50, &[(5, 5), (5, 6), (5, 7)]), snake("you", 50, &[(8, 8), (8, 9), (8, 10)])],
    );
    let f = process_step(&mut st, &"me".to_string(), &moves(&[("me", Dir::Up), ("you", Dir::Left)]));
    assert!(f.alive);
    assert!(!f.finished);
    assert_eq!(f.foods, 1);
    assert_eq!(f.enemy_foods, 0);
    assert_eq!(f.dead_snakes, 0);
    assert_eq!(f.dir, Dir::Up);
    assert_eq!(st.turn, 8);
    assert_eq!(st.board.food, vec![p(0, 0)]);
    let me = &st.board.snakes[0];
    assert_eq!(me.body, vec![p(5, 4), p(5, 5), p(5, 6), p(5, 6)]);
    assert_eq!(me.health, 100);
    assert_eq!(st.board.snakes[1].body[0], p(7, 8));
    assert_eq!(st.board.snakes[1].health, 49);
}

#[test]
fn step_is_deterministic() {
    let st0 = state(
        &[(5, 4)],
        vec![snake("me", 50, &[(5, 5), (5, 6), (5, 7)]), snake("you", 50, &[(5, 3), (6, 3), (7, 3)])],
    );
    let mv = moves(&[("me", Dir::Up), ("you", Dir::Left)]);
    let mut a = st0.clone();
    let mut b = st0.clone();
    let fa = process_step(&mut a, &"me".to_string(), &mv);
    let fb = process_step(&mut b, &"me".to_string(), &mv);
    assert_eq!(fa, fb);
    assert_eq!(format!("{:?}", a), format!("{:?}", b));
}

#[test]
fn food_shared_by_two_heads_is_removed_once() {
    let mut st = state(
        &[(5, 4), (1, 1)],
        vec![snake("me", 50, &[(5, 5), (5, 6), (5, 7)]), snake("you", 50, &[(5, 3), (4, 3), (3, 3)])],
    );
    let f = process_step(&mut st, &"me".to_string(), &moves(&[("me", Dir::Up), ("you", Dir::Down)]));
    assert_eq!(st.board.food, vec![p(1, 1)]);
    assert_eq!(f.foods, 1);
    assert_eq!(f.enemy_foods, 1);
    assert!(!f.alive);
    assert!(f.finished);
    assert_eq!(st.board.snakes.len(), 2);
}

#[test]
fn starving_protagonist_dies() {
    let mut st = state(&[], vec![snake("me", 1, &[(5, 5), (5, 6), (5, 7)]), snake("you", 50, &[(1, 1), (1, 2), (1, 3)])]);
    let f = process_step(&mut st, &"me".to_string(), &moves(&[("me", Dir::Up)]));
    assert!(!f.alive);
    assert!(f.finished);
    assert_eq!(st.board.snakes[0].health, 0);
}

#[test]
fn head_on_with_longer_opponent_removes_it_and_wins() {
    let mut st = state(
        &[],
        vec![
            snake("me", 50, &[(5, 5), (5, 6), (5, 7), (5, 8)]),
            snake("you", 50, &[(5, 3), (6, 3), (7, 3)]),
        ],
    );
    let f = process_step(&mut st, &"me".to_string(), &moves(&[("me", Dir::Up), ("you", Dir::Down)]));
    assert!(f.alive);
    assert!(f.finished);
    assert_eq!(f.dead_snakes, 1);
    assert_eq!(st.board.snakes.len(), 1);
}

#[test]
fn agent_without_move_stays_put() {
    let mut st = state(&[], vec![snake("me", 50, &[(5, 5), (5, 6), (5, 7)]), snake("you", 50, &[(1, 1), (1, 2), (1, 3)])]);
    let f = process_step(&mut st, &"me".to_string(), &moves(&[("you", Dir::Right)]));
    assert_eq!(f.dir, Dir::Up);
    assert_eq!(st.board.snakes[0].body, vec![p(5, 5), p(5, 6), p(5, 7)]);
    assert_eq!(st.board.snakes[0].health, 50);
    assert_eq!(st.board.snakes[1].body[0], p(2, 1));
}

#[test]
fn leaving_the_board_kills_an_opponent() {
    let mut st = state(&[], vec![snake("me", 50, &[(5, 5), (5, 6), (5, 7)]), snake("you", 50, &[(0, 1), (0, 2), (0, 3)])]);
    let f = process_step(&mut st, &"me".to_string(), &moves(&[("me", Dir::Up), ("you", Dir::Left)]));
    assert!(f.alive);
    assert_eq!(f.dead_snakes, 1);
    assert!(f.finished);
    assert_eq!(st.board.snakes.len(), 1);
    assert_eq!(st.board.snakes[0].id, "me");
}
