//! Positions, directions and the character grid that both the compiler and
//! the interpreter walk over.

use vstd::prelude::*;

verus! {

/// A position or offset on the instruction grid.
#[derive(PartialEq, Eq, Structural, Clone, Copy, Debug, Hash)]
pub struct Vec2 {
    pub x: isize,
    pub y: isize,
}

/// One of the four directions in which control may flow over the grid.
#[derive(PartialEq, Eq, Structural, Clone, Copy, Debug, Hash)]
pub enum Direction {
    Left,
    Right,
    Up,
    Down,
}

/// The horizontal component of a unit step in direction `d`.
pub open spec fn dx(d: Direction) -> int {
    match d {
        Direction::Left => -1,
        Direction::Right => 1,
        Direction::Up => 0,
        Direction::Down => 0,
    }
}

/// The vertical component of a unit step in direction `d` (rows grow downwards).
pub open spec fn dy(d: Direction) -> int {
    match d {
        Direction::Left => 0,
        Direction::Right => 0,
        Direction::Up => -1,
        Direction::Down => 1,
    }
}

/// The direction that points the other way.
pub open spec fn opposite(d: Direction) -> Direction {
    match d {
        Direction::Left => Direction::Right,
        Direction::Right => Direction::Left,
        Direction::Up => Direction::Down,
        Direction::Down => Direction::Up,
    }
}

/// The position `k` steps from `(x, y)` in direction `d`.
pub open spec fn ahead(x: int, y: int, d: Direction, k: int) -> (int, int) {
    (x + k * dx(d), y + k * dy(d))
}

/// Walking `i + 1` steps is one step and then `i` more; walking no step
/// stays put.
pub proof fn lemma_ahead_shift(x: int, y: int, d: Direction, i: int)
    ensures
        ahead(x, y, d, i + 1) == ahead(x + dx(d), y + dy(d), d, i),
        ahead(x, y, d, 0) == (x, y),
{
    assert((i + 1) * dx(d) == dx(d) + i * dx(d)) by (nonlinear_arith);
    assert((i + 1) * dy(d) == dy(d) + i * dy(d)) by (nonlinear_arith);
    assert(0 * dx(d) == 0 && 0 * dy(d) == 0);
}

/// Whether a value fits in an `isize`.
pub open spec fn fits_isize(v: int) -> bool {
    isize::MIN <= v <= isize::MAX
}

impl Vec2 {
    pub fn new(x: isize, y: isize) -> (r: Self)
        ensures
            r.x == x,
            r.y == y,
    {
        Vec2 { x, y }
    }

    /// Component-wise sum of two vectors.
    pub fn add_vec(self, rhs: Vec2) -> (r: Vec2)
        requires
            fits_isize(self.x + rhs.x),
            fits_isize(self.y + rhs.y),
        ensures
            r.x == self.x + rhs.x,
            r.y == self.y + rhs.y,
    {
        Vec2::new(self.x + rhs.x, self.y + rhs.y)
    }

    /// The position one step away in direction `dir`.
    pub fn add_dir(self, dir: Direction) -> (r: Vec2)
        requires
            fits_isize(self.x + dx(dir)),
            fits_isize(self.y + dy(dir)),
        ensures
            r.x == self.x + dx(dir),
            r.y == self.y + dy(dir),
    {
        let rhs = match dir {
            Direction::Right => Vec2::new(1, 0),
            Direction::Left => Vec2::new(-1, 0),
            Direction::Up => Vec2::new(0, -1),
            Direction::Down => Vec2::new(0, 1),
        };
        Vec2::new(self.x + rhs.x, self.y + rhs.y)
    }

    /// Moves this position one step in direction `dir`.
    pub fn add_assign(&mut self, dir: Direction)
        requires
            fits_isize(old(self).x + dx(dir)),
            fits_isize(old(self).y + dy(dir)),
        ensures
            final(self).x == old(self).x + dx(dir),
            final(self).y == old(self).y + dy(dir),
    {
        match dir {
            Direction::Right => self.x = self.x + 1,
            Direction::Left => self.x = self.x - 1,
            Direction::Up => self.y = self.y - 1,
            Direction::Down => self.y = self.y + 1,
        }
    }
}

impl Direction {
    pub fn mirror(&self) -> (r: Self)
        ensures
            r == opposite(*self),
    {
        match self {
            Direction::Left => Direction::Right,
            Direction::Right => Direction::Left,
            Direction::Up => Direction::Down,
            Direction::Down => Direction::Up,
        }
    }

    /// The position of this direction in the order left, right, up, down.
    pub fn index(&self) -> (r: usize)
        ensures
            r < 4,
            r == direction_index(*self),
    {
        match self {
            Direction::Left => 0,
            Direction::Right => 1,
            Direction::Up => 2,
            Direction::Down => 3,
        }
    }
}

pub open spec fn direction_index(d: Direction) -> nat {
    match d {
        Direction::Left => 0,
        Direction::Right => 1,
        Direction::Up => 2,
        Direction::Down => 3,
    }
}

/// Mirroring twice gives back the same direction, and a mirrored step
/// undoes the first one.
pub proof fn lemma_mirror_involution(d: Direction)
    ensures
        opposite(opposite(d)) == d,
        dx(opposite(d)) == -dx(d),
        dy(opposite(d)) == -dy(d),
{
}

/// Stepping in a direction and then in its mirror returns to the start.
pub proof fn lemma_step_back(x: int, y: int, d: Direction)
    ensures
        x + dx(d) + dx(opposite(d)) == x,
        y + dy(d) + dy(opposite(d)) == y,
{
}

// ----------------------------------------------------------------------
// The instruction grid: rows of characters, indexed as grid[y][x].
// ----------------------------------------------------------------------

/// The grid's rows as sequences of characters.
pub open spec fn grid_view(g: Seq<Vec<char>>) -> Seq<Seq<char>> {
    Seq::new(g.len(), |i: int| g[i]@)
}

/// Whether `(x, y)` names a cell of grid `g` (row `y`, column `x`).
pub open spec fn in_grid(g: Seq<Seq<char>>, x: int, y: int) -> bool {
    0 <= y < g.len() && 0 <= x < g[y].len()
}

/// The character at column `x` of row `y`, if there is one.
pub open spec fn cell(g: Seq<Seq<char>>, x: int, y: int) -> Option<char> {
    if in_grid(g, x, y) {
        Some(g[y][x])
    } else {
        None
    }
}

/// Steps left inside the grid when walking from `(x, y)` in direction `d`,
/// counting the cell itself; zero outside the grid.
pub open spec fn dist(g: Seq<Seq<char>>, x: int, y: int, d: Direction) -> nat {
    if in_grid(g, x, y) {
        match d {
            Direction::Right => (g[y].len() - x) as nat,
            Direction::Left => (x + 1) as nat,
            Direction::Down => (g.len() - y) as nat,
            Direction::Up => (y + 1) as nat,
        }
    } else {
        0
    }
}

/// Walking one step from a cell strictly shortens the remaining walk.
pub proof fn lemma_dist_step(g: Seq<Seq<char>>, x: int, y: int, d: Direction)
    requires
        in_grid(g, x, y),
    ensures
        dist(g, x + dx(d), y + dy(d), d) < dist(g, x, y, d),
        dist(g, x, y, d) >= 1,
{
}

} // verus!
