use vstd::prelude::*;

verus! {

/// A position on the area grid.  Coordinates are signed: values outside
/// `[0, width) x [0, height)` denote positions off the grid.
#[derive(Clone, Copy, Debug, PartialEq, Eq, Structural)]
pub struct Point {
    pub x: i32,
    pub y: i32,
}

impl Point {
    pub fn new(x: i32, y: i32) -> (p: Point)
        ensures
            p.x == x,
            p.y == y,
    {
        Point { x, y }
    }

    pub fn as_zero() -> (p: Point)
        ensures
            p.x == 0,
            p.y == 0,
    {
        Point { x: 0, y: 0 }
    }
}

/// The extent of a rectangular footprint, in grid cells.
#[derive(Clone, Copy, Debug, PartialEq, Eq, Structural)]
pub struct Size {
    pub width: i32,
    pub height: i32,
}

impl Size {
    pub fn new(width: i32, height: i32) -> (s: Size)
        ensures
            s.width == width,
            s.height == height,
    {
        Size { width, height }
    }
}

/// A duration in milliseconds that may be unbounded: active "mode"
/// abilities remain on until deactivated, which is represented by
/// `Infinity`.
#[derive(Clone, Copy, Debug, PartialEq, Eq, Structural)]
pub enum ExtInt {
    Int(u32),
    Infinity,
}

impl ExtInt {
    pub fn is_zero(&self) -> (r: bool)
        ensures
            r == (*self == ExtInt::Int(0u32)),
    {
        match *self {
            ExtInt::Int(v) => v == 0,
            ExtInt::Infinity => false,
        }
    }

    pub fn is_infinite(&self) -> (r: bool)
        ensures
            r == (*self == ExtInt::Infinity),
    {
        match *self {
            ExtInt::Int(_) => false,
            ExtInt::Infinity => true,
        }
    }

    /// What subtraction that stops at zero yields.
    pub open spec fn spec_saturating_sub(self, other: u32) -> ExtInt {
        match self {
            ExtInt::Infinity => ExtInt::Infinity,
            ExtInt::Int(v) => if v >= other {
                ExtInt::Int((v - other) as u32)
            } else {
                ExtInt::Int(0u32)
            },
        }
    }

    /// Subtraction that stops at zero; infinity is unaffected by any
    /// finite subtrahend.
    pub fn saturating_sub(self, other: u32) -> (r: ExtInt)
        ensures
            r == self.spec_saturating_sub(other),
    {
        match self {
            ExtInt::Int(v) => {
                if v >= other {
                    ExtInt::Int(v - other)
                } else {
                    ExtInt::Int(0)
                }
            },
            ExtInt::Infinity => ExtInt::Infinity,
        }
    }
}

/// Whether `(x, y)` lies on a `width` by `height` grid.
pub open spec fn valid_coords(width: int, height: int, x: int, y: int) -> bool {
    0 <= x < width && 0 <= y < height
}

/// The linear index of the cell at `(x, y)` on a grid of the given width.
pub open spec fn cell_index(width: int, x: int, y: int) -> int {
    x + y * width
}

/// The x coordinate of the cell with linear index `cell`.
pub open spec fn cell_x(width: int, cell: int) -> int {
    cell % width
}

/// The y coordinate of the cell with linear index `cell`.
pub open spec fn cell_y(width: int, cell: int) -> int {
    cell / width
}

/// The linear index of the on-grid cell `(x, y)`, as a vector index.
pub fn cell_index_exec(width: i32, height: i32, x: i32, y: i32) -> (c: usize)
    requires
        1 <= width,
        1 <= height,
        width * height <= i32::MAX,
        valid_coords(width as int, height as int, x as int, y as int),
    ensures
        c == cell_index(width as int, x as int, y as int),
        c < width * height,
{
    proof {
        lemma_cell_index_bijective(width as int, height as int, x as int, y as int);
    }
    (x + y * width) as usize
}

/// On-grid coordinates map to an in-range linear index and back.
pub proof fn lemma_cell_index_bijective(width: int, height: int, x: int, y: int)
    requires
        width >= 1,
        height >= 1,
        valid_coords(width, height, x, y),
    ensures
        0 <= cell_index(width, x, y) < width * height,
        cell_x(width, cell_index(width, x, y)) == x,
        cell_y(width, cell_index(width, x, y)) == y,
{
    let c = x + y * width;
    assert(0 <= c < width * height) by (nonlinear_arith)
        requires
            width >= 1,
            height >= 1,
            0 <= x < width,
            0 <= y < height,
            c == x + y * width,
    ;
    assert(c % width == x && c / width == y) by (nonlinear_arith)
        requires
            width >= 1,
            0 <= x < width,
            c == x + y * width,
    ;
}

/// An in-range linear index maps to on-grid coordinates and back.
pub proof fn lemma_cell_coords_bijective(width: int, height: int, cell: int)
    requires
        width >= 1,
        height >= 1,
        0 <= cell < width * height,
    ensures
        valid_coords(width, height, cell_x(width, cell), cell_y(width, cell)),
        cell_index(width, cell_x(width, cell), cell_y(width, cell)) == cell,
{
    assert(0 <= cell % width < width && 0 <= cell / width < height && cell % width + (cell / width)
        * width == cell) by (nonlinear_arith)
        requires
            width >= 1,
            height >= 1,
            0 <= cell < width * height,
    ;
}

/// Within one grid, distinct cells have distinct coordinates: every
/// in-range linear index is recovered from its own coordinates.
pub proof fn lemma_grid_injective(width: int, height: int)
    requires
        width >= 1,
        height >= 1,
    ensures
        forall|c: int| #![trigger cell_x(width, c)]
            0 <= c < width * height ==> valid_coords(width, height, cell_x(width, c), cell_y(width, c))
                && cell_index(width, cell_x(width, c), cell_y(width, c)) == c,
{
    assert forall|c: int| 0 <= c < width * height implies valid_coords(
        width,
        height,
        cell_x(width, c),
        cell_y(width, c),
    ) && cell_index(width, cell_x(width, c), cell_y(width, c)) == c by {
        lemma_cell_coords_bijective(width, height, c);
    }
}

} // verus!
