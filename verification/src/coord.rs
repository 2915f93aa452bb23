//! Coordinates and step vectors on the 11 x 11 grid that holds the hexagonal board.

use vstd::prelude::*;
use vstd::std_specs::ops::AddSpecImpl;
use vstd::std_specs::ops::SubSpecImpl;

verus! {

/// Number of rows and of columns of every board.
pub const BOARD_SIZE: usize = 11;

/// Largest row or column index of a board.
pub const BOARD_MAXID: usize = 10;

/// A cell position: `x` is the row, `y` the column.
#[derive(Clone, Copy, Debug, PartialEq, Eq, Ord, Hash, Structural)]
pub struct Coord {
    pub x: usize,
    pub y: usize,
}

/// A step from one cell to another, one unit per axis at most for the moves of the game.
#[derive(Clone, Copy, Debug, PartialEq, Eq, Hash, Structural)]
pub struct MarbleMove {
    /// position change in x direction
    pub dx: i8,
    /// position change in y direction
    pub dy: i8,
}

/// The product of a unit step and a factor, case by case.
pub proof fn lemma_step_product(d: int, factor: int)
    requires
        -1 <= d <= 1,
    ensures
        d == 1 ==> d * factor == factor,
        d == 0 ==> d * factor == 0,
        d == -1 ==> d * factor == -factor,
{
    assert(1 * factor == factor) by (nonlinear_arith);
    assert(0 * factor == 0) by (nonlinear_arith);
    assert((-1) * factor == -factor) by (nonlinear_arith);
}

impl MarbleMove {
    /// A step is made of -1, 0 or 1 on each axis.
    pub open spec fn is_step(self) -> bool {
        -1 <= self.dx <= 1 && -1 <= self.dy <= 1
    }

    /// The step with the given change on each axis.
    pub fn new(dx: i8, dy: i8) -> (m: Self)
        ensures
            m.dx == dx,
            m.dy == dy,
    {
        Self { dx, dy }
    }
}

impl Coord {
    /// The position reached from `self` by `factor` steps of `m`, as integers.
    pub open spec fn shifted(self, m: MarbleMove, factor: int) -> (int, int) {
        (self.x + m.dx * factor, self.y + m.dy * factor)
    }

    /// Whether `factor` steps of `m` from `self` end on the grid.
    pub open spec fn stays_on_grid(self, m: MarbleMove, factor: int) -> bool {
        let (x, y) = self.shifted(m, factor);
        0 <= x <= BOARD_MAXID && 0 <= y <= BOARD_MAXID
    }

    /// The coordinate of row `x` and column `y`.
    pub fn new(x: usize, y: usize) -> (c: Self)
        ensures
            c.x == x,
            c.y == y,
    {
        Self { x, y }
    }

    /// Performs the step `marb_move` `factor` times.
    pub fn multi_move(self, marb_move: &MarbleMove, factor: usize) -> (c: Self)
        requires
            marb_move.is_step(),
            self.stays_on_grid(*marb_move, factor as int),
        ensures
            (c.x as int, c.y as int) == self.shifted(*marb_move, factor as int),
    {
        proof {
            lemma_step_product(marb_move.dx as int, factor as int);
            lemma_step_product(marb_move.dy as int, factor as int);
        }
        let x: usize = if marb_move.dx == 1 {
            self.x + factor
        } else if marb_move.dx == 0 {
            self.x
        } else {
            self.x - factor
        };
        let y: usize = if marb_move.dy == 1 {
            self.y + factor
        } else if marb_move.dy == 0 {
            self.y
        } else {
            self.y - factor
        };
        Self::new(x, y)
    }

    /// Whether the coordinate lies strictly inside the outer ring of the grid.
    pub fn in_board_range(&self) -> (b: bool)
        ensures
            b == (0 < self.x < BOARD_MAXID && 0 < self.y < BOARD_MAXID),
    {
        self.x > 0 && self.x < BOARD_MAXID && self.y > 0 && self.y < BOARD_MAXID
    }
}

impl core::ops::Add<MarbleMove> for Coord {
    type Output = Coord;

    /// One step of `rhs` from `self`.
    fn add(self, rhs: MarbleMove) -> (c: Coord) {
        self.multi_move(&rhs, 1)
    }
}

impl AddSpecImpl<MarbleMove> for Coord {
    open spec fn obeys_add_spec() -> bool {
        true
    }

    open spec fn add_req(self, rhs: MarbleMove) -> bool {
        rhs.is_step() && self.stays_on_grid(rhs, 1)
    }

    open spec fn add_spec(self, rhs: MarbleMove) -> Coord {
        Coord { x: (self.x + rhs.dx) as usize, y: (self.y + rhs.dy) as usize }
    }
}

impl core::ops::Sub<MarbleMove> for Coord {
    type Output = Coord;

    /// One step against `rhs` from `self`.
    fn sub(self, rhs: MarbleMove) -> (c: Coord) {
        let back = MarbleMove { dx: -rhs.dx, dy: -rhs.dy };
        self.multi_move(&back, 1)
    }
}

impl SubSpecImpl<MarbleMove> for Coord {
    open spec fn obeys_sub_spec() -> bool {
        true
    }

    open spec fn sub_req(self, rhs: MarbleMove) -> bool {
        rhs.is_step() && self.stays_on_grid(rhs, -1)
    }

    open spec fn sub_spec(self, rhs: MarbleMove) -> Coord {
        Coord { x: (self.x - rhs.dx) as usize, y: (self.y - rhs.dy) as usize }
    }
}

impl core::ops::Sub<Coord> for Coord {
    type Output = MarbleMove;

    /// The step that leads from `rhs` towards `self`: the sign of the difference
    /// on each axis.
    fn sub(self, rhs: Coord) -> (m: MarbleMove) {
        let dx: i8 = if self.x > rhs.x {
            1
        } else if self.x < rhs.x {
            -1
        } else {
            0
        };
        let dy: i8 = if self.y > rhs.y {
            1
        } else if self.y < rhs.y {
            -1
        } else {
            0
        };
        MarbleMove { dx, dy }
    }
}

impl SubSpecImpl<Coord> for Coord {
    open spec fn obeys_sub_spec() -> bool {
        true
    }

    open spec fn sub_req(self, rhs: Coord) -> bool {
        true
    }

    open spec fn sub_spec(self, rhs: Coord) -> MarbleMove {
        MarbleMove { dx: sign_of(self.x - rhs.x), dy: sign_of(self.y - rhs.y) }
    }
}

/// The sign of an integer: -1, 0 or 1.
pub open spec fn sign_of(v: int) -> i8 {
    if v > 0 {
        1
    } else if v < 0 {
        -1i8
    } else {
        0
    }
}

} // verus!
