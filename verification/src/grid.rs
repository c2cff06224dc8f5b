use vstd::prelude::*;

verus! {

/// A cell coordinate: a pair of signed integers.
#[derive(Debug, Clone, Copy, PartialEq, Eq, Structural)]
pub struct Point {
    pub x: i32,
    pub y: i32,
}

/// Whether `b` is exactly one axis-aligned unit step away from `a`.
pub open spec fn adjacent(a: Point, b: Point) -> bool {
    ||| b.x == a.x && b.y == a.y - 1
    ||| b.x == a.x + 1 && b.y == a.y
    ||| b.x == a.x && b.y == a.y + 1
    ||| b.x == a.x - 1 && b.y == a.y
}

/// A fixed `width x height` rectangle of cells, each passable or blocked,
/// stored row-major. Read-only for the lifetime of a search.
pub struct Board {
    pub tiles: Vec<bool>,
    pub width: usize,
    pub height: usize,
}

impl Board {
    /// Shape invariant: one tile per cell.
    pub open spec fn wf(self) -> bool {
        self.tiles@.len() == self.width * self.height
    }

    pub open spec fn spec_in_bounds(self, p: Point) -> bool {
        0 <= p.x < self.width && 0 <= p.y < self.height
    }

    /// The tile index of an in-bounds cell.
    pub open spec fn cell_index(self, p: Point) -> int {
        p.x + p.y * self.width
    }

    pub open spec fn spec_blocked(self, p: Point) -> bool
        recommends
            self.wf(),
            self.spec_in_bounds(p),
    {
        self.tiles@[self.cell_index(p)]
    }

    pub fn in_bounds(&self, p: &Point) -> (r: bool)
        ensures
            r == self.spec_in_bounds(*p),
    {
        p.x >= 0 && p.y >= 0 && (p.x as usize) < self.width && (p.y as usize) < self.height
    }

    pub fn is_blocked(&self, p: &Point) -> (r: bool)
        requires
            self.wf(),
            self.spec_in_bounds(*p),
        ensures
            r == self.spec_blocked(*p),
    {
        proof {
            lemma_cell_index_in_range(
                self.width as int,
                self.height as int,
                p.x as int,
                p.y as int,
            );
        }
        let n = self.tiles.len();
        let index = (p.x as usize) + (p.y as usize) * self.width;
        assert(index < n);
        self.tiles[index]
    }

    /// A board of the given size with every cell passable.
    pub fn new(width: usize, height: usize) -> (b: Board)
        requires
            width * height <= usize::MAX,
        ensures
            b.wf(),
            b.width == width,
            b.height == height,
            forall|i: int| 0 <= i < b.tiles@.len() ==> !b.tiles@[i],
    {
        let n = width * height;
        let mut tiles: Vec<bool> = Vec::new();
        let mut i: usize = 0;
        while i < n
            invariant
                i <= n,
                tiles@.len() == i,
                forall|j: int| 0 <= j < i ==> !tiles@[j],
            decreases n - i,
        {
            tiles.push(false);
            i = i + 1;
        }
        Board { tiles, width, height }
    }
}

/// An in-bounds cell's tile index lies inside the tile array.
pub proof fn lemma_cell_index_in_range(width: int, height: int, x: int, y: int)
    requires
        0 <= x < width,
        0 <= y < height,
    ensures
        0 <= x + y * width < width * height,
{
    assert(x + y * width < width * height) by (nonlinear_arith)
        requires
            0 <= x < width,
            0 <= y < height,
    ;
    assert(0 <= x + y * width) by (nonlinear_arith)
        requires
            0 <= x,
            0 <= y,
            0 <= width,
    ;
}

} // verus!
