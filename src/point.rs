//! Grid points, directions and the tri-state safety classification.

use vstd::prelude::*;

verus! {

/// A cell of the board, addressed by column `x` and row `y` (rows grow downwards).
#[derive(Clone, Copy, PartialEq, Eq, Structural, Debug, Hash)]
pub struct Point {
    pub x: i8,
    pub y: i8,
}

/// One of the four moves an agent can make.
#[derive(Clone, Copy, PartialEq, Eq, Structural, Debug, Hash)]
pub enum Dir {
    Up,
    Down,
    Left,
    Right,
}

/// How safe it is for an agent to put its head on a cell next turn.
#[derive(Clone, Copy, PartialEq, Eq, Structural, Debug)]
pub enum SafetyIndex {
    Safe,
    Risky,
    Unsafe,
}

/// The reply sent for a move: its wire label.
#[derive(Debug, PartialEq)]
pub struct Move {
    pub dir: &'static str,
}

/// Absolute value of an integer.
pub open spec fn abs(a: int) -> int {
    if a < 0 {
        -a
    } else {
        a
    }
}

/// Manhattan distance between two points.
pub open spec fn manhattan_spec(a: Point, b: Point) -> int {
    abs(b.x - a.x) + abs(b.y - a.y)
}

/// Two points are orthogonal neighbours.
pub open spec fn adjacent(a: Point, b: Point) -> bool {
    manhattan_spec(a, b) == 1
}

/// Column offset of a direction.
pub open spec fn dx(d: Dir) -> int {
    match d {
        Dir::Left => -1,
        Dir::Right => 1,
        _ => 0,
    }
}

/// Row offset of a direction.
pub open spec fn dy(d: Dir) -> int {
    match d {
        Dir::Up => -1,
        Dir::Down => 1,
        _ => 0,
    }
}

/// All four neighbours of the point fit in the coordinate type.
pub open spec fn movable(p: Point) -> bool {
    -128 < p.x < 127 && -128 < p.y < 127
}

/// The point one step from `p` in direction `d`.
pub open spec fn neighbour(p: Point, d: Dir) -> Point
    recommends
        movable(p),
{
    Point { x: (p.x + dx(d)) as i8, y: (p.y + dy(d)) as i8 }
}

/// The direction tried at index `i` of the fixed scan order Up, Down, Left, Right.
pub open spec fn dir_at(i: int) -> Dir {
    if i == 0 {
        Dir::Up
    } else if i == 1 {
        Dir::Down
    } else if i == 2 {
        Dir::Left
    } else {
        Dir::Right
    }
}

/// The direction pointing from `a` towards `b`: vertical offsets win over horizontal ones.
pub open spec fn dir_to_spec(a: Point, b: Point) -> Option<Dir> {
    if b.y > a.y {
        Some(Dir::Down)
    } else if b.y < a.y {
        Some(Dir::Up)
    } else if b.x > a.x {
        Some(Dir::Right)
    } else if b.x < a.x {
        Some(Dir::Left)
    } else {
        None
    }
}

/// The wire label of a direction.
pub open spec fn label(d: Dir) -> Seq<char> {
    match d {
        Dir::Up => "up"@,
        Dir::Down => "down"@,
        Dir::Left => "left"@,
        Dir::Right => "right"@,
    }
}

/// Stepping from `p` and then looking back from the new point leads to `d` again.
pub proof fn lemma_dir_to_step(p: Point, d: Dir)
    requires
        movable(p),
    ensures
        dir_to_spec(p, neighbour(p, d)) == Some(d),
        adjacent(p, neighbour(p, d)),
{
}

/// Adjacent points are one step apart in the direction that `dir_to` reports.
pub proof fn lemma_adjacent_step(p: Point, q: Point)
    requires
        adjacent(p, q),
        movable(p),
    ensures
        dir_to_spec(p, q).is_some(),
        neighbour(p, dir_to_spec(p, q).unwrap()) == q,
{
}

impl Dir {
    /// Converts the direction to the move sent over the wire.
    pub fn as_move(self) -> (m: Move)
        ensures
            m.dir@ == label(self),
    {
        match self {
            Dir::Up => Move { dir: "up" },
            Dir::Down => Move { dir: "down" },
            Dir::Left => Move { dir: "left" },
            Dir::Right => Move { dir: "right" },
        }
    }

    /// The point this direction leads to from `p`.
    pub fn resulting_point(self, p: Point) -> (r: Point)
        requires
            movable(p),
        ensures
            r == neighbour(p, self),
    {
        match self {
            Dir::Up => Point { x: p.x, y: p.y - 1 },
            Dir::Down => Point { x: p.x, y: p.y + 1 },
            Dir::Left => Point { x: p.x - 1, y: p.y },
            Dir::Right => Point { x: p.x + 1, y: p.y },
        }
    }
}

impl Point {
    /// Manhattan distance between `self` and `p`.
    pub fn manhattan(self, p: Self) -> (r: u32)
        ensures
            r == manhattan_spec(self, p),
    {
        let ddx: i16 = p.x as i16 - self.x as i16;
        let ddy: i16 = p.y as i16 - self.y as i16;
        let ax: i16 = if ddx < 0 {
            -ddx
        } else {
            ddx
        };
        let ay: i16 = if ddy < 0 {
            -ddy
        } else {
            ddy
        };
        (ax + ay) as u32
    }

    /// Whether `p` is one of the four neighbours of `self`.
    pub fn is_adjacent(self, p: Self) -> (r: bool)
        ensures
            r == adjacent(self, p),
    {
        self.manhattan(p) == 1
    }

    /// The direction from this point to `p`, or `None` when they coincide.
    pub fn dir_to(self, p: Self) -> (r: Option<Dir>)
        ensures
            r == dir_to_spec(self, p),
    {
        if p.y > self.y {
            Some(Dir::Down)
        } else if p.y < self.y {
            Some(Dir::Up)
        } else if p.x > self.x {
            Some(Dir::Right)
        } else if p.x < self.x {
            Some(Dir::Left)
        } else {
            None
        }
    }

    /// The four neighbours of `self`, in the order Up, Down, Left, Right.
    pub fn orthogonal(self) -> (r: [Self; 4])
        requires
            movable(self),
        ensures
            forall|i: int| 0 <= i < 4 ==> r[i] == neighbour(self, #[trigger] dir_at(i)),
    {
        [
            Self { x: self.x, y: self.y - 1 },
            Self { x: self.x, y: self.y + 1 },
            Self { x: self.x - 1, y: self.y },
            Self { x: self.x + 1, y: self.y },
        ]
    }
}

} // verus!
