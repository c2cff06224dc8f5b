use vstd::prelude::*;

use crate::grid::{lemma_cell_index_in_range, Board, Point};
use vstd::string::{StrSliceExecFns, StringExecFns};

verus! {

/// Index of the first newline in the text, or the text's length if none
/// occurs.
pub open spec fn newline_index(s: Seq<char>) -> int
    decreases s.len(),
{
    if s.len() == 0 {
        0
    } else if s[0] == '\n' {
        0
    } else {
        1 + newline_index(s.subrange(1, s.len() as int))
    }
}

pub proof fn lemma_newline_index_props(s: Seq<char>)
    ensures
        0 <= newline_index(s) <= s.len(),
        forall|i: int| 0 <= i < newline_index(s) ==> s[i] != '\n',
        newline_index(s) < s.len() ==> s[newline_index(s)] == '\n',
    decreases s.len(),
{
    if s.len() > 0 && s[0] != '\n' {
        let t = s.subrange(1, s.len() as int);
        lemma_newline_index_props(t);
        assert forall|i: int| 0 <= i < newline_index(s) implies s[i] != '\n' by {
            if i > 0 {
                assert(t[i - 1] == s[i]);
            }
        }
        if newline_index(s) < s.len() {
            assert(t[newline_index(s) - 1] == s[newline_index(s)]);
        }
    }
}

/// Only the index of the first newline satisfies the characterization of
/// `newline_index`.
pub proof fn lemma_newline_index_unique(s: Seq<char>, k: int)
    requires
        0 <= k <= s.len(),
        forall|i: int| 0 <= i < k ==> s[i] != '\n',
        k < s.len() ==> s[k] == '\n',
    ensures
        newline_index(s) == k,
{
    lemma_newline_index_props(s);
}

/// The tiles a text denotes: one tile per character in reading order,
/// blocked for `X` and passable for anything else; newlines only delimit
/// rows and produce no tile.
pub open spec fn parse_tiles(s: Seq<char>) -> Seq<bool>
    decreases s.len(),
{
    if s.len() == 0 {
        Seq::empty()
    } else {
        let rest = parse_tiles(s.drop_last());
        if s.last() == '\n' {
            rest
        } else {
            rest.push(s.last() == 'X')
        }
    }
}

/// Parsing splits over concatenation.
pub proof fn lemma_parse_tiles_add(a: Seq<char>, b: Seq<char>)
    ensures
        parse_tiles(a + b) == parse_tiles(a) + parse_tiles(b),
    decreases b.len(),
{
    if b.len() == 0 {
        assert(a + b =~= a);
        assert(parse_tiles(a) + parse_tiles(b) =~= parse_tiles(a));
    } else {
        lemma_parse_tiles_add(a, b.drop_last());
        assert((a + b).drop_last() =~= a + b.drop_last());
        assert((a + b).last() == b.last());
        assert((parse_tiles(a) + parse_tiles(b.drop_last())).push(b.last() == 'X')
            =~= parse_tiles(a) + parse_tiles(b.drop_last()).push(b.last() == 'X'));
    }
}

/// The character a tile renders to.
pub open spec fn tile_char(t: bool) -> char {
    if t {
        'X'
    } else {
        ' '
    }
}

/// The character the plain rendering prints for cell `(x, y)`.
pub open spec fn cell_char(b: Board, x: int, y: int) -> char {
    tile_char(b.tiles@[x + y * b.width])
}

/// One rendered row, terminating newline included.
pub open spec fn row_text(b: Board, y: int) -> Seq<char> {
    Seq::new(b.width as nat, |x: int| cell_char(b, x, y)).push('\n')
}

/// The first `rows` rendered rows of the plain board text.
pub open spec fn grid_text(b: Board, rows: int) -> Seq<char>
    decreases rows,
{
    if rows <= 0 {
        Seq::empty()
    } else {
        grid_text(b, rows - 1) + row_text(b, rows - 1)
    }
}

/// A prefix of one rendered row parses back to exactly the tiles it shows.
pub proof fn lemma_parse_row(b: Board, y: int, k: int)
    requires
        b.wf(),
        0 <= y < b.height,
        0 <= k <= b.width,
    ensures
        parse_tiles(row_text(b, y).take(k)) == b.tiles@.subrange(y * b.width, y * b.width + k),
    decreases k,
{
    assert(0 <= y * b.width && y * b.width + b.width <= b.tiles@.len()) by (nonlinear_arith)
        requires
            0 <= y < b.height,
            b.tiles@.len() == b.width * b.height,
    ;
    if k == 0 {
        assert(row_text(b, y).take(0) =~= Seq::<char>::empty());
        assert(parse_tiles(row_text(b, y).take(0)) =~= b.tiles@.subrange(
            y * b.width,
            y * b.width,
        ));
    } else {
        lemma_parse_row(b, y, k - 1);
        lemma_cell_index_in_range(b.width as int, b.height as int, k - 1, y);
        let q = row_text(b, y).take(k);
        assert(q.drop_last() =~= row_text(b, y).take(k - 1));
        assert(q.last() == cell_char(b, k - 1, y));
        assert(b.tiles@.subrange(y * b.width, y * b.width + k) =~= b.tiles@.subrange(
            y * b.width,
            y * b.width + k - 1,
        ).push(b.tiles@[y * b.width + k - 1]));
    }
}

/// The rendered rows parse back to exactly the tiles they show.
pub proof fn lemma_parse_grid(b: Board, rows: int)
    requires
        b.wf(),
        0 <= rows <= b.height,
    ensures
        parse_tiles(grid_text(b, rows)) == b.tiles@.subrange(0, rows * b.width),
    decreases rows,
{
    if rows == 0 {
        assert(rows * b.width == 0) by (nonlinear_arith)
            requires
                rows == 0,
        ;
        assert(parse_tiles(grid_text(b, 0)) =~= b.tiles@.subrange(0, 0));
    } else {
        lemma_parse_grid(b, rows - 1);
        lemma_parse_tiles_add(grid_text(b, rows - 1), row_text(b, rows - 1));
        lemma_parse_row(b, rows - 1, b.width as int);
        let row = row_text(b, rows - 1);
        assert(row.last() == '\n');
        assert(row.drop_last() =~= row.take(b.width as int));
        assert(parse_tiles(row) == parse_tiles(row.take(b.width as int)));
        assert((rows - 1) * b.width + b.width == rows * b.width) by (nonlinear_arith);
        assert(0 <= (rows - 1) * b.width && rows * b.width <= b.tiles@.len()) by (nonlinear_arith)
            requires
                0 < rows <= b.height,
                b.tiles@.len() == b.width * b.height,
        ;
        assert(b.tiles@.subrange(0, (rows - 1) * b.width) + b.tiles@.subrange(
            (rows - 1) * b.width,
            rows * b.width,
        ) =~= b.tiles@.subrange(0, rows * b.width));
    }
}

/// The rendered text's length, and the place of its first newline: one
/// full row of cell characters, then the newline.
pub proof fn lemma_grid_text_shape(b: Board, rows: int)
    requires
        b.wf(),
        0 < b.width,
        0 <= rows <= b.height,
    ensures
        grid_text(b, rows).len() == rows * (b.width + 1),
        rows > 0 ==> forall|i: int| 0 <= i < b.width ==> grid_text(b, rows)[i] != '\n',
        rows > 0 ==> grid_text(b, rows)[b.width as int] == '\n',
    decreases rows,
{
    if rows == 0 {
        assert(rows * (b.width + 1) == 0) by (nonlinear_arith)
            requires
                rows == 0,
        ;
    }
    if rows > 0 {
        lemma_grid_text_shape(b, rows - 1);
        assert((rows - 1) * (b.width + 1) + (b.width + 1) == rows * (b.width + 1))
            by (nonlinear_arith);
        let g = grid_text(b, rows);
        let prev = grid_text(b, rows - 1);
        let row = row_text(b, rows - 1);
        assert(row.len() == b.width + 1);
        assert(prev.len() == (rows - 1) * (b.width + 1));
        assert(g.len() == prev.len() + row.len());
        assert(g.len() == rows * (b.width + 1));
        if rows == 1 {
            assert(prev.len() == 0);
            assert forall|i: int| 0 <= i < b.width implies g[i] != '\n' by {
                assert(g[i] == row[i]);
                assert(row[i] == cell_char(b, i, rows - 1));
            }
            assert(g[b.width as int] == row[b.width as int]);
            assert(row[b.width as int] == '\n');
        } else {
            assert(prev.len() == (rows - 1) * (b.width + 1));
            assert(b.width + 1 <= (rows - 1) * (b.width + 1)) by (nonlinear_arith)
                requires
                    rows >= 2,
                    0 < b.width,
            ;
            assert forall|i: int| 0 <= i < b.width implies g[i] != '\n' by {
                assert(g[i] == prev[i]);
            }
            assert(g[b.width as int] == prev[b.width as int]);
        }
    }
}

/// Round trip: rendering a board and re-ingesting the text reproduces the
/// same width, height, and blocked/passable pattern. The degenerate boards
/// with no columns or no rows render to text without a proper first row,
/// so they are left out.
pub proof fn lemma_render_parse_round_trip(b: Board)
    requires
        b.wf(),
        0 < b.width,
        0 < b.height,
    ensures
        newline_index(grid_text(b, b.height as int)) == b.width,
        b.width < grid_text(b, b.height as int).len(),
        parse_tiles(grid_text(b, b.height as int)) == b.tiles@,
        parse_tiles(grid_text(b, b.height as int)).len() as int / (b.width as int) == b.height,
        parse_tiles(grid_text(b, b.height as int)).take(
            b.width * (parse_tiles(grid_text(b, b.height as int)).len() as int / b.width as int),
        ) == b.tiles@,
{
    let t = grid_text(b, b.height as int);
    lemma_grid_text_shape(b, b.height as int);
    assert(b.width < b.height * (b.width + 1)) by (nonlinear_arith)
        requires
            0 < b.width,
            0 < b.height,
    ;
    lemma_newline_index_unique(t, b.width as int);
    lemma_parse_grid(b, b.height as int);
    assert(b.height * b.width == b.width * b.height) by (nonlinear_arith);
    assert(b.tiles@.subrange(0, b.height * b.width) =~= b.tiles@);
    vstd::arithmetic::div_mod::lemma_div_by_multiple(b.height as int, b.width as int);
    assert(parse_tiles(t).len() as int / (b.width as int) == b.height);
    assert(b.width * (parse_tiles(t).len() as int / b.width as int) == b.width * b.height)
        by (nonlinear_arith)
        requires
            parse_tiles(t).len() as int / b.width as int == b.height,
    ;
    assert(parse_tiles(t).take((b.width * b.height) as int) =~= parse_tiles(t));
}

/// The character the replay rendering prints for cell `(x, y)`: the
/// walker's marker, the goal marker, or the cell's own tile character.
pub open spec fn marked_cell_char(b: Board, walker: Point, goal: Point, x: int, y: int) -> char {
    if x == walker.x && y == walker.y {
        'O'
    } else if x == goal.x && y == goal.y {
        'G'
    } else {
        cell_char(b, x, y)
    }
}

/// One row of the replay rendering, terminating newline included.
pub open spec fn marked_row_text(b: Board, walker: Point, goal: Point, y: int) -> Seq<char> {
    Seq::new(b.width as nat, |x: int| marked_cell_char(b, walker, goal, x, y)).push('\n')
}

/// The first `rows` rows of the replay rendering.
pub open spec fn marked_grid_text(b: Board, walker: Point, goal: Point, rows: int) -> Seq<char>
    decreases rows,
{
    if rows <= 0 {
        Seq::empty()
    } else {
        marked_grid_text(b, walker, goal, rows - 1) + marked_row_text(b, walker, goal, rows - 1)
    }
}

/// A prefix of one replay row parses back to the tiles it covers,
/// provided each marker stands on a passable cell or off the grid: the
/// marker characters read back as passable, which the cells under them
/// are.
pub proof fn lemma_parse_marked_row(b: Board, walker: Point, goal: Point, y: int, k: int)
    requires
        b.wf(),
        b.spec_in_bounds(walker) ==> !b.spec_blocked(walker),
        b.spec_in_bounds(goal) ==> !b.spec_blocked(goal),
        0 <= y < b.height,
        0 <= k <= b.width,
    ensures
        parse_tiles(marked_row_text(b, walker, goal, y).take(k)) == b.tiles@.subrange(
            y * b.width,
            y * b.width + k,
        ),
    decreases k,
{
    assert(0 <= y * b.width && y * b.width + b.width <= b.tiles@.len()) by (nonlinear_arith)
        requires
            0 <= y < b.height,
            b.tiles@.len() == b.width * b.height,
    ;
    if k == 0 {
        assert(marked_row_text(b, walker, goal, y).take(0) =~= Seq::<char>::empty());
        assert(parse_tiles(marked_row_text(b, walker, goal, y).take(0)) =~= b.tiles@.subrange(
            y * b.width,
            y * b.width,
        ));
    } else {
        lemma_parse_marked_row(b, walker, goal, y, k - 1);
        lemma_cell_index_in_range(b.width as int, b.height as int, k - 1, y);
        let q = marked_row_text(b, walker, goal, y).take(k);
        assert(q.drop_last() =~= marked_row_text(b, walker, goal, y).take(k - 1));
        assert(q.last() == marked_cell_char(b, walker, goal, k - 1, y));
        assert((q.last() == 'X') == b.tiles@[y * b.width + k - 1]) by {
            if k - 1 == walker.x && y == walker.y {
                assert(b.spec_in_bounds(walker));
                assert(!b.tiles@[y * b.width + k - 1]);
            } else if k - 1 == goal.x && y == goal.y {
                assert(b.spec_in_bounds(goal));
                assert(!b.tiles@[y * b.width + k - 1]);
            }
        }
        assert(b.tiles@.subrange(y * b.width, y * b.width + k) =~= b.tiles@.subrange(
            y * b.width,
            y * b.width + k - 1,
        ).push(b.tiles@[y * b.width + k - 1]));
    }
}

/// The replay rendering's rows parse back to exactly the board's tiles,
/// provided each marker stands on a passable cell or off the grid.
pub proof fn lemma_parse_marked_grid(b: Board, walker: Point, goal: Point, rows: int)
    requires
        b.wf(),
        b.spec_in_bounds(walker) ==> !b.spec_blocked(walker),
        b.spec_in_bounds(goal) ==> !b.spec_blocked(goal),
        0 <= rows <= b.height,
    ensures
        parse_tiles(marked_grid_text(b, walker, goal, rows)) == b.tiles@.subrange(
            0,
            rows * b.width,
        ),
    decreases rows,
{
    if rows == 0 {
        assert(rows * b.width == 0) by (nonlinear_arith)
            requires
                rows == 0,
        ;
        assert(parse_tiles(marked_grid_text(b, walker, goal, 0)) =~= b.tiles@.subrange(0, 0));
    } else {
        lemma_parse_marked_grid(b, walker, goal, rows - 1);
        lemma_parse_tiles_add(
            marked_grid_text(b, walker, goal, rows - 1),
            marked_row_text(b, walker, goal, rows - 1),
        );
        lemma_parse_marked_row(b, walker, goal, rows - 1, b.width as int);
        let row = marked_row_text(b, walker, goal, rows - 1);
        assert(row.last() == '\n');
        assert(row.drop_last() =~= row.take(b.width as int));
        assert(parse_tiles(row) == parse_tiles(row.take(b.width as int)));
        assert((rows - 1) * b.width + b.width == rows * b.width) by (nonlinear_arith);
        assert(0 <= (rows - 1) * b.width && rows * b.width <= b.tiles@.len()) by (nonlinear_arith)
            requires
                0 < rows <= b.height,
                b.tiles@.len() == b.width * b.height,
        ;
        assert(b.tiles@.subrange(0, (rows - 1) * b.width) + b.tiles@.subrange(
            (rows - 1) * b.width,
            rows * b.width,
        ) =~= b.tiles@.subrange(0, rows * b.width));
    }
}

/// The replay rendering's length, and the place of its first newline.
pub proof fn lemma_marked_grid_text_shape(b: Board, walker: Point, goal: Point, rows: int)
    requires
        b.wf(),
        0 < b.width,
        0 <= rows <= b.height,
    ensures
        marked_grid_text(b, walker, goal, rows).len() == rows * (b.width + 1),
        rows > 0 ==> forall|i: int|
            0 <= i < b.width ==> marked_grid_text(b, walker, goal, rows)[i] != '\n',
        rows > 0 ==> marked_grid_text(b, walker, goal, rows)[b.width as int] == '\n',
    decreases rows,
{
    if rows == 0 {
        assert(rows * (b.width + 1) == 0) by (nonlinear_arith)
            requires
                rows == 0,
        ;
    }
    if rows > 0 {
        lemma_marked_grid_text_shape(b, walker, goal, rows - 1);
        assert((rows - 1) * (b.width + 1) + (b.width + 1) == rows * (b.width + 1))
            by (nonlinear_arith);
        let g = marked_grid_text(b, walker, goal, rows);
        let prev = marked_grid_text(b, walker, goal, rows - 1);
        let row = marked_row_text(b, walker, goal, rows - 1);
        assert(row.len() == b.width + 1);
        assert(prev.len() == (rows - 1) * (b.width + 1));
        assert(g.len() == prev.len() + row.len());
        assert(g.len() == rows * (b.width + 1));
        if rows == 1 {
            assert(prev.len() == 0);
            assert forall|i: int| 0 <= i < b.width implies g[i] != '\n' by {
                assert(g[i] == row[i]);
                assert(row[i] == marked_cell_char(b, walker, goal, i, rows - 1));
            }
            assert(g[b.width as int] == row[b.width as int]);
            assert(row[b.width as int] == '\n');
        } else {
            assert(prev.len() == (rows - 1) * (b.width + 1));
            assert(b.width + 1 <= (rows - 1) * (b.width + 1)) by (nonlinear_arith)
                requires
                    rows >= 2,
                    0 < b.width,
            ;
            assert forall|i: int| 0 <= i < b.width implies g[i] != '\n' by {
                assert(g[i] == prev[i]);
            }
            assert(g[b.width as int] == prev[b.width as int]);
        }
    }
}

/// Round trip of a replay snapshot: rendering a board with the walker and
/// goal markers and re-ingesting the text reproduces the same width,
/// height, and blocked/passable pattern, provided each marker stands on a
/// passable cell or off the grid (a marker over a blocked cell hides it,
/// and the degenerate boards with no columns or no rows render to text
/// without a proper first row, so those are left out).
pub proof fn lemma_marked_render_parse_round_trip(b: Board, walker: Point, goal: Point)
    requires
        b.wf(),
        0 < b.width,
        0 < b.height,
        b.spec_in_bounds(walker) ==> !b.spec_blocked(walker),
        b.spec_in_bounds(goal) ==> !b.spec_blocked(goal),
    ensures
        newline_index(marked_grid_text(b, walker, goal, b.height as int)) == b.width,
        b.width < marked_grid_text(b, walker, goal, b.height as int).len(),
        parse_tiles(marked_grid_text(b, walker, goal, b.height as int)) == b.tiles@,
        parse_tiles(marked_grid_text(b, walker, goal, b.height as int)).len() as int / (
        b.width as int) == b.height,
        parse_tiles(marked_grid_text(b, walker, goal, b.height as int)).take(
            b.width * (parse_tiles(marked_grid_text(b, walker, goal, b.height as int)).len() as int
                / b.width as int),
        ) == b.tiles@,
{
    let t = marked_grid_text(b, walker, goal, b.height as int);
    lemma_marked_grid_text_shape(b, walker, goal, b.height as int);
    assert(b.width < b.height * (b.width + 1)) by (nonlinear_arith)
        requires
            0 < b.width,
            0 < b.height,
    ;
    lemma_newline_index_unique(t, b.width as int);
    lemma_parse_marked_grid(b, walker, goal, b.height as int);
    assert(b.height * b.width == b.width * b.height) by (nonlinear_arith);
    assert(b.tiles@.subrange(0, b.height * b.width) =~= b.tiles@);
    vstd::arithmetic::div_mod::lemma_div_by_multiple(b.height as int, b.width as int);
    assert(parse_tiles(t).len() as int / (b.width as int) == b.height);
    assert(b.width * (parse_tiles(t).len() as int / b.width as int) == b.width * b.height)
        by (nonlinear_arith)
        requires
            parse_tiles(t).len() as int / b.width as int == b.height,
    ;
    assert(parse_tiles(t).take((b.width * b.height) as int) =~= parse_tiles(t));
}

/// The index of the first newline of the text, or its length if none
/// occurs.
pub fn find_newline(s: &str) -> (r: usize)
    ensures
        r as int == newline_index(s@),
{
    let n = s.unicode_len();
    let mut i: usize = 0;
    while i < n
        invariant
            i <= n,
            n == s@.len(),
            forall|j: int| 0 <= j < i ==> s@[j] != '\n',
        decreases n - i,
    {
        let c = s.get_char(i);
        if c == '\n' {
            proof {
                lemma_newline_index_unique(s@, i as int);
            }
            return i;
        }
        i = i + 1;
    }
    proof {
        lemma_newline_index_unique(s@, n as int);
    }
    n
}

impl Board {
    /// Builds a board from a textual layout. The first newline fixes the
    /// width; every character other than a newline is one cell, blocked
    /// for `X` and passable for anything else; the height is the tile
    /// count divided by the width, any ragged tail of tiles dropped.
    /// Text without a newline, or with a leading newline, degrades to the
    /// zero-sized board rather than failing.
    pub fn from_text(s: &str) -> (b: Board)
        ensures
            b.wf(),
            ({
                let w = newline_index(s@);
                if w == 0 || w == s@.len() {
                    b.width == 0 && b.height == 0 && b.tiles@.len() == 0
                } else {
                    &&& b.width == w
                    &&& b.height == parse_tiles(s@).len() as int / w
                    &&& b.tiles@ == parse_tiles(s@).take(w * (parse_tiles(s@).len() as int / w))
                }
            }),
    {
        let w = find_newline(s);
        let n = s.unicode_len();
        if w == 0 || w == n {
            return Board::new(0, 0);
        }
        let mut tiles: Vec<bool> = Vec::new();
        let mut i: usize = 0;
        while i < n
            invariant
                i <= n,
                n == s@.len(),
                tiles@ == parse_tiles(s@.take(i as int)),
            decreases n - i,
        {
            let c = s.get_char(i);
            if c != '\n' {
                tiles.push(c == 'X');
            }
            proof {
                let t = s@.take(i + 1 as int);
                assert(t.drop_last() =~= s@.take(i as int));
                assert(t.last() == s@[i as int]);
            }
            i = i + 1;
        }
        proof {
            assert(s@.take(n as int) =~= s@);
        }
        let height = tiles.len() / w;
        proof {
            vstd::arithmetic::div_mod::lemma_fundamental_div_mod(tiles@.len() as int, w as int);
            vstd::arithmetic::div_mod::lemma_mod_bound(tiles@.len() as int, w as int);
        }
        let target = w * height;
        tiles.truncate(target);
        Board { tiles, width: w, height }
    }

    /// The plain text of the whole board: one character per cell, row-major,
    /// one row per line.
    #[verifier::loop_isolation(false)]
    pub fn render_grid(&self) -> (r: String)
        requires
            self.wf(),
            self.width <= i32::MAX,
            self.height <= i32::MAX,
        ensures
            r@ == grid_text(*self, self.height as int),
    {
        let mut out = String::new();
        let mut y: usize = 0;
        while y < self.height
            invariant
                y <= self.height,
                out@ == grid_text(*self, y as int),
            decreases self.height - y,
        {
            let mut x: usize = 0;
            while x < self.width
                invariant
                    x <= self.width,
                    y < self.height,
                    out@ == grid_text(*self, y as int) + Seq::new(
                        x as nat,
                        |xx: int| cell_char(*self, xx, y as int),
                    ),
                decreases self.width - x,
            {
                let p = Point { x: x as i32, y: y as i32 };
                if self.is_blocked(&p) {
                    out.append("X");
                } else {
                    out.append(" ");
                }
                proof {
                    reveal_strlit("X");
                    reveal_strlit(" ");
                    assert(out@ =~= grid_text(*self, y as int) + Seq::new(
                        (x + 1) as nat,
                        |xx: int| cell_char(*self, xx, y as int),
                    ));
                }
                x = x + 1;
            }
            out.append("\n");
            proof {
                reveal_strlit("\n");
                assert(out@ =~= grid_text(*self, y + 1 as int));
            }
            y = y + 1;
        }
        out
    }

    /// One snapshot of the replay: the board's text with the walker's cell
    /// shown as `O` and the goal cell as `G`.
    #[verifier::loop_isolation(false)]
    pub fn render(&self, walker: &Point, goal: &Point) -> (r: String)
        requires
            self.wf(),
            self.width <= i32::MAX,
            self.height <= i32::MAX,
        ensures
            r@ == marked_grid_text(*self, *walker, *goal, self.height as int),
    {
        let mut out = String::new();
        let mut y: usize = 0;
        while y < self.height
            invariant
                y <= self.height,
                out@ == marked_grid_text(*self, *walker, *goal, y as int),
            decreases self.height - y,
        {
            let mut x: usize = 0;
            while x < self.width
                invariant
                    x <= self.width,
                    y < self.height,
                    out@ == marked_grid_text(*self, *walker, *goal, y as int) + Seq::new(
                        x as nat,
                        |xx: int| marked_cell_char(*self, *walker, *goal, xx, y as int),
                    ),
                decreases self.width - x,
            {
                let p = Point { x: x as i32, y: y as i32 };
                if walker.x == p.x && walker.y == p.y {
                    out.append("O");
                } else if goal.x == p.x && goal.y == p.y {
                    out.append("G");
                } else if self.is_blocked(&p) {
                    out.append("X");
                } else {
                    out.append(" ");
                }
                proof {
                    reveal_strlit("O");
                    reveal_strlit("G");
                    reveal_strlit("X");
                    reveal_strlit(" ");
                    assert(out@ =~= marked_grid_text(*self, *walker, *goal, y as int) + Seq::new(
                        (x + 1) as nat,
                        |xx: int| marked_cell_char(*self, *walker, *goal, xx, y as int),
                    ));
                }
                x = x + 1;
            }
            out.append("\n");
            proof {
                reveal_strlit("\n");
                assert(out@ =~= marked_grid_text(*self, *walker, *goal, y + 1 as int));
            }
            y = y + 1;
        }
        out
    }
}

} // verus!
