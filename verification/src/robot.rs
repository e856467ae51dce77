//! A robot on an integer grid that turns, advances and follows a string of
//! instructions.
use vstd::prelude::*;
use vstd::string::*;

verus! {

/// The four headings of the robot, numbered clockwise from north.
#[derive(PartialEq, Eq, Debug, Copy, Clone, Structural)]
pub enum Direction {
    North,
    East,
    South,
    West,
}

/// The number of a heading: north 0, east 1, south 2, west 3.
pub open spec fn direction_number(d: Direction) -> int {
    match d {
        Direction::North => 0,
        Direction::East => 1,
        Direction::South => 2,
        Direction::West => 3,
    }
}

/// The heading with the given number, if there is one.
pub open spec fn direction_from_number(n: int) -> Option<Direction> {
    if n == 0 {
        Some(Direction::North)
    } else if n == 1 {
        Some(Direction::East)
    } else if n == 2 {
        Some(Direction::South)
    } else if n == 3 {
        Some(Direction::West)
    } else {
        None
    }
}

/// The heading after a right turn.
pub open spec fn right_of(d: Direction) -> Direction {
    direction_from_number((direction_number(d) + 1) % 4).unwrap()
}

/// The heading after a left turn: a quarter turn counterclockwise, so that
/// north turns to west.
pub open spec fn left_of(d: Direction) -> Direction {
    direction_from_number((direction_number(d) + 3) % 4).unwrap()
}

impl Direction {
    /// The number of this heading.
    pub fn int_value(&self) -> (n: u8)
        ensures
            n as int == direction_number(*self),
    {
        match self {
            Direction::North => 0,
            Direction::East => 1,
            Direction::South => 2,
            Direction::West => 3,
        }
    }

    /// The heading with number `n`, or `None` when `n` names none.
    pub fn from_int(n: u8) -> (d: Option<Direction>)
        ensures
            d == direction_from_number(n as int),
    {
        if n == 0 {
            Some(Direction::North)
        } else if n == 1 {
            Some(Direction::East)
        } else if n == 2 {
            Some(Direction::South)
        } else if n == 3 {
            Some(Direction::West)
        } else {
            None
        }
    }
}

/// The position and heading of a robot, as mathematical values.
pub struct RobotView {
    pub x: int,
    pub y: int,
    pub d: Direction,
}

/// The robot after one step forward.
pub open spec fn advanced(r: RobotView) -> RobotView {
    match r.d {
        Direction::North => RobotView { x: r.x, y: r.y + 1, d: r.d },
        Direction::East => RobotView { x: r.x + 1, y: r.y, d: r.d },
        Direction::South => RobotView { x: r.x, y: r.y - 1, d: r.d },
        Direction::West => RobotView { x: r.x - 1, y: r.y, d: r.d },
    }
}

/// Whether a position fits the robot's 32-bit coordinates.
pub open spec fn fits_i32(r: RobotView) -> bool {
    i32::MIN <= r.x <= i32::MAX && i32::MIN <= r.y <= i32::MAX
}

/// The robot after one instruction: `L` turns left, `R` turns right, `A`
/// advances, anything else is ignored. `None` where the robot cannot follow
/// the instruction: a step off the 32-bit grid.
pub open spec fn step(r: RobotView, c: char) -> Option<RobotView> {
    if c == 'L' {
        Some(RobotView { x: r.x, y: r.y, d: left_of(r.d) })
    } else if c == 'R' {
        Some(RobotView { x: r.x, y: r.y, d: right_of(r.d) })
    } else if c == 'A' {
        if fits_i32(advanced(r)) {
            Some(advanced(r))
        } else {
            None
        }
    } else {
        Some(r)
    }
}

/// The robot after the instructions `cs`, taken from first to last, or
/// `None` where one of them cannot be followed.
pub open spec fn run(r: RobotView, cs: Seq<char>) -> Option<RobotView>
    decreases cs.len(),
{
    if cs.len() == 0 {
        Some(r)
    } else {
        match step(r, cs[0]) {
            Some(r1) => run(r1, cs.drop_first()),
            None => None,
        }
    }
}

/// A robot at integer coordinates facing one of four headings.
pub struct Robot {
    x: i32,
    y: i32,
    d: Direction,
}

impl Robot {
    /// The robot's position and heading.
    pub closed spec fn view(&self) -> RobotView {
        RobotView { x: self.x as int, y: self.y as int, d: self.d }
    }

    /// A robot at `(x, y)` facing `d`.
    pub fn new(x: i32, y: i32, d: Direction) -> (r: Self)
        ensures
            r.view() == (RobotView { x: x as int, y: y as int, d }),
    {
        Self { x, y, d }
    }

    /// The robot turned right by a quarter turn.
    pub fn turn_right(self) -> (r: Self)
        ensures
            r.view() == (RobotView { x: self.view().x, y: self.view().y, d: right_of(self.view().d) }),
    {
        let n: u8 = (self.d.int_value() + 1) % 4;
        match Direction::from_int(n) {
            Some(d) => Self { d, ..self },
            None => self,
        }
    }

    /// The robot turned left by a quarter turn.
    pub fn turn_left(self) -> (r: Self)
        ensures
            r.view() == (RobotView { x: self.view().x, y: self.view().y, d: left_of(self.view().d) }),
    {
        let n: u8 = (self.d.int_value() + 3) % 4;
        match Direction::from_int(n) {
            Some(d) => Self { d, ..self },
            None => self,
        }
    }

    /// The robot one step further along its heading; the step must stay on
    /// the 32-bit grid.
    pub fn advance(self) -> (r: Self)
        requires
            fits_i32(advanced(self.view())),
        ensures
            r.view() == advanced(self.view()),
    {
        let x = match self.d {
            Direction::East => self.x + 1,
            Direction::West => self.x - 1,
            _ => self.x,
        };
        let y = match self.d {
            Direction::North => self.y + 1,
            Direction::South => self.y - 1,
            _ => self.y,
        };
        Self { x, y, ..self }
    }

    /// Follows the instructions of `instructions`, from the first character
    /// to the last, where each of them can be followed.
    pub fn instructions(&mut self, instructions: &str)
        requires
            run(old(self).view(), instructions@) is Some,
        ensures
            final(self).view() == run(old(self).view(), instructions@).unwrap(),
    {
        let n = instructions.unicode_len();
        let mut i: usize = 0;
        assert(instructions@.subrange(0, n as int) =~= instructions@);
        while i < n
            invariant
                i <= n,
                n == instructions@.len(),
                run(old(self).view(), instructions@) == run(self.view(), instructions@.subrange(i as int, n as int)),
                run(self.view(), instructions@.subrange(i as int, n as int)) is Some,
            decreases n - i,
        {
            let ghost before = self.view();
            let c = instructions.get_char(i);
            proof {
                let rest = instructions@.subrange(i as int, n as int);
                assert(rest[0] == c);
                assert(rest.drop_first() =~= instructions@.subrange(i + 1, n as int));
            }
            if c == 'L' {
                let m: u8 = (self.d.int_value() + 3) % 4;
                if let Some(d) = Direction::from_int(m) {
                    self.d = d;
                }
            } else if c == 'R' {
                let m: u8 = (self.d.int_value() + 1) % 4;
                if let Some(d) = Direction::from_int(m) {
                    self.d = d;
                }
            } else if c == 'A' {
                match self.d {
                    Direction::North => {
                        self.y = self.y + 1;
                    },
                    Direction::East => {
                        self.x = self.x + 1;
                    },
                    Direction::South => {
                        self.y = self.y - 1;
                    },
                    Direction::West => {
                        self.x = self.x - 1;
                    },
                }
            }
            assert(step(before, c) == Some(self.view()));
            i = i + 1;
        }
    }

    /// The robot's position.
    pub fn position(&self) -> (p: (i32, i32))
        ensures
            p.0 as int == self.view().x,
            p.1 as int == self.view().y,
    {
        (self.x, self.y)
    }

    /// The robot's heading.
    pub fn direction(&self) -> (d: &Direction)
        ensures
            *d == self.view().d,
    {
        &self.d
    }
}

/// Four right turns bring a robot back to its heading.
pub proof fn lemma_four_right_turns(d: Direction)
    ensures
        right_of(right_of(right_of(right_of(d)))) == d,
{
}

/// A left turn undoes a right turn.
pub proof fn lemma_left_undoes_right(d: Direction)
    ensures
        left_of(right_of(d)) == d,
{
}

/// A right turn undoes a left turn.
pub proof fn lemma_right_undoes_left(d: Direction)
    ensures
        right_of(left_of(d)) == d,
{
}

/// Following no instructions leaves the robot where it is.
pub proof fn lemma_no_instructions(r: RobotView)
    ensures
        run(r, Seq::<char>::empty()) == Some(r),
{
}

/// Following the instructions `a + b` is following `a`, then `b`.
pub proof fn lemma_run_concat(r: RobotView, a: Seq<char>, b: Seq<char>)
    ensures
        run(r, a + b) == match run(r, a) {
            Some(r1) => run(r1, b),
            None => None,
        },
    decreases a.len(),
{
    if a.len() == 0 {
        assert(a + b =~= b);
    } else {
        assert((a + b).drop_first() =~= a.drop_first() + b);
        match step(r, a[0]) {
            Some(r1) => lemma_run_concat(r1, a.drop_first(), b),
            None => {},
        }
    }
}

} // verus!
