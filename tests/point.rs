use snake_brain::{Dir, Move, Point};

#[test]
fn test_as_move() {
    assert_eq!(Dir::Up.as_move(), Move { dir: "up" });
    assert_eq!(Dir::Down.as_move(), Move { dir: "down" });
    assert_eq!(Dir::Left.as_move(), Move { dir: "left" });
    assert_eq!(Dir::Right.as_move(), Move { dir: "right" });
}

#[test]
fn test_resulting_point() {
    assert_eq!(Dir::Up.resulting_point(Point { x: 10, y: 10 }), Point { x: 10, y: 9 });
    assert_eq!(Dir::Down.resulting_point(Point { x: 10, y: 10 }), Point { x: 10, y: 11 });
    assert_eq!(Dir::Left.resulting_point(Point { x: 10, y: 10 }), Point { x: 9, y: 10 });
    assert_eq!(Dir::Right.resulting_point(Point { x: 10, y: 10 }), Point { x: 11, y: 10 });
}

#[test]
fn test_manhattan() {
    let points = vec![
        Point { x: 1, y: 1 },
        Point { x: 10, y: 10 },
        Point { x: 3, y: 4 },
        Point { x: 6, y: 5 },
        Point { x: 20, y: 0 },
        Point { x: 19, y: 4 },
        Point { x: 6, y: 22 },
        Point { x: 10, y: 15 },
    ];
    let dists = vec![18, 13, 4, 19, 5, 31, 11, 23];
    for (i, point) in points.iter().enumerate() {
        if i < points.len() - 1 {
            assert_eq!(point.manhattan(points[i + 1]), dists[i]);
        } else {
            assert_eq!(point.manhattan(points[0]), dists[i]);
        }
    }
}

#[test]
fn test_dir_to() {
    let points = vec![
        Point { x: 1, y: 1 },
        Point { x: 10, y: 10 },
        Point { x: 3, y: 4 },
        Point { x: 6, y: 5 },
        Point { x: 20, y: 5 },
        Point { x: 19, y: 5 },
        Point { x: 6, y: 22 },
        Point { x: 10, y: 1 },
    ];
    let dirs = vec![
        Dir::Down,
        Dir::Up,
        Dir::Down,
        Dir::Right,
        Dir::Left,
        Dir::Down,
        Dir::Up,
        Dir::Left,
    ];
    for (i, point) in points.iter().enumerate() {
        if i < points.len() - 1 {
            assert_eq!(point.dir_to(points[i + 1]), Some(dirs[i]));
        } else {
            assert_eq!(point.dir_to(points[0]), Some(dirs[i]));
        }
    }
    let zero_dir_point = Point { x: 5, y: 5 };
    assert_eq!(zero_dir_point.dir_to(zero_dir_point), None);
}

#[test]
fn test_orthogonal() {
    assert_eq!(
        Point { x: 5, y: 5 }.orthogonal(),
        [
            Point { x: 5, y: 4 },
            Point { x: 5, y: 6 },
            Point { x: 4, y: 5 },
            Point { x: 6, y: 5 },
        ]
    );
}

#[test]
fn manhattan_handles_far_apart_points() {
    assert_eq!(Point { x: -100, y: 100 }.manhattan(Point { x: 100, y: -100 }), 400);
}

#[test]
fn is_adjacent_only_for_orthogonal_neighbours() {
    let p = Point { x: 3, y: 3 };
    assert!(p.is_adjacent(Point { x: 3, y: 4 }));
    assert!(!p.is_adjacent(Point { x: 4, y: 4 }));
    assert!(!p.is_adjacent(p));
}
