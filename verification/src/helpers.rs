use vstd::prelude::*;

verus! {

/// A point of the unbounded integer grid: what a `BoardPos` stands for in contracts.
pub struct Point {
    pub x: int,
    pub y: int,
}

impl Point {
    /// The point moved by `(dx, dy)`.
    pub open spec fn shift(self, dx: int, dy: int) -> Point {
        Point { x: self.x + dx, y: self.y + dy }
    }

    /// The point after a quarter turn clockwise about `around`.
    pub open spec fn turn_cw(self, around: Point) -> Point {
        Point { x: around.y - self.y + around.x, y: self.x - around.x + around.y }
    }

    /// The point after a quarter turn counterclockwise about `around`.
    pub open spec fn turn_ccw(self, around: Point) -> Point {
        Point { x: self.y - around.y + around.x, y: around.x - self.x + around.y }
    }

    /// Both coordinates can be held in an `i32`.
    pub open spec fn fits(self) -> bool {
        i32::MIN <= self.x <= i32::MAX && i32::MIN <= self.y <= i32::MAX
    }
}

/// A cell of the board.
#[derive(Clone, Copy, PartialEq, Eq, Structural, Hash, Debug)]
pub struct BoardPos {
    pub x: i32,
    pub y: i32,
}

impl View for BoardPos {
    type V = Point;

    open spec fn view(&self) -> Point {
        Point { x: self.x as int, y: self.y as int }
    }
}

/// The points that a list of board positions stands for, in the order of the list.
pub open spec fn points_of(positions: Seq<BoardPos>) -> Seq<Point> {
    positions.map_values(|p: BoardPos| p@)
}

#[derive(Clone, Copy, PartialEq, Eq, Structural, Hash, Debug)]
pub enum Direction {
    Up,
    Down,
    Left,
    Right,
}

impl Direction {
    /// The direction a quarter turn clockwise from this one (the y axis points down).
    pub open spec fn turned_cw(self) -> Direction {
        match self {
            Direction::Right => Direction::Down,
            Direction::Down => Direction::Left,
            Direction::Left => Direction::Up,
            Direction::Up => Direction::Right,
        }
    }

    /// The direction a quarter turn counterclockwise from this one.
    pub open spec fn turned_ccw(self) -> Direction {
        match self {
            Direction::Right => Direction::Up,
            Direction::Down => Direction::Right,
            Direction::Left => Direction::Down,
            Direction::Up => Direction::Left,
        }
    }

    /// The opposite direction.
    pub open spec fn reversed(self) -> Direction {
        self.turned_cw().turned_cw()
    }

    /// The step that one move in this direction makes.
    pub open spec fn step(self) -> Point {
        match self {
            Direction::Right => Point { x: 1, y: 0 },
            Direction::Down => Point { x: 0, y: 1 },
            Direction::Left => Point { x: -1, y: 0 },
            Direction::Up => Point { x: 0, y: -1 },
        }
    }

    /// The lower-case English name of the direction.
    pub open spec fn name(self) -> Seq<char> {
        match self {
            Direction::Right => "right"@,
            Direction::Down => "down"@,
            Direction::Left => "left"@,
            Direction::Up => "up"@,
        }
    }

    pub fn clockwise(&self) -> (r: Direction)
        ensures
            r == self.turned_cw(),
    {
        match self {
            Direction::Right => Direction::Down,
            Direction::Down => Direction::Left,
            Direction::Left => Direction::Up,
            Direction::Up => Direction::Right,
        }
    }

    pub fn counterclockwise(&self) -> (r: Direction)
        ensures
            r == self.turned_ccw(),
    {
        match self {
            Direction::Right => Direction::Up,
            Direction::Down => Direction::Right,
            Direction::Left => Direction::Down,
            Direction::Up => Direction::Left,
        }
    }

    /// The grid step of one move in this direction, as `(dx, dy)`.
    pub fn delta(&self) -> (r: (i32, i32))
        ensures
            r.0 == self.step().x,
            r.1 == self.step().y,
    {
        match self {
            Direction::Right => (1, 0),
            Direction::Down => (0, 1),
            Direction::Left => (-1, 0),
            Direction::Up => (0, -1),
        }
    }

    pub fn to_string(&self) -> (r: &'static str)
        ensures
            r@ == self.name(),
    {
        match self {
            Direction::Right => "right",
            Direction::Down => "down",
            Direction::Left => "left",
            Direction::Up => "up",
        }
    }
}

/// The four directions form a cycle: four quarter turns, or one turn each way, change nothing.
pub proof fn lemma_direction_turns(d: Direction)
    ensures
        d.turned_cw().turned_cw().turned_cw().turned_cw() == d,
        d.turned_cw().turned_ccw() == d,
        d.turned_ccw().turned_cw() == d,
        d.reversed().reversed() == d,
        d.reversed() != d,
        d.reversed().step() == (Point { x: -d.step().x, y: -d.step().y }),
{
}

/// What one tick does to a block object as a whole.
#[derive(Clone, Copy, PartialEq, Eq, Structural, Debug)]
pub enum MovementType {
    Translation(Direction),
    Rotation { cw: bool, around: BoardPos },
    NoMove,
}

/// One record of a level description: an input or an output, its cells and its count.
pub struct SerializedBlockObject {
    pub input: bool,
    pub blocks: Vec<BoardPos>,
    pub counter: i32,
}

/// A failed tick: what went wrong, and the cells it concerns.
pub struct SimulationError {
    pub message: String,
    pub relevant_locations: Vec<BoardPos>,
}

impl SimulationError {
    pub fn from_string(message: String) -> (e: SimulationError)
        ensures
            e.message == message,
            e.relevant_locations@ == Seq::<BoardPos>::empty(),
    {
        SimulationError { message, relevant_locations: Vec::new() }
    }
}

/// What the simulation gives back: a value, or the failure of the tick.
pub type SimulationResult<T = ()> = Result<T, SimulationError>;

/// What a scene asks of the scene that holds it.
pub enum SceneMessage {
    EnterSceneLevel { levelname: String },
    EnterSceneMainMenu,
}

} // verus!
