//! Grids of colour cells, their mathematical view, and the small set of
//! operations the rest of the library performs on them.

use vstd::prelude::*;

verus! {

/// A grid of colour cells, indexed `grid[y][x]`.
pub type Grid = Vec<Vec<u8>>;

/// The mathematical value of a grid: its rows as sequences of colours.
pub open spec fn board(g: &Grid) -> Seq<Seq<u8>> {
    g.deep_view()
}

/// Row `i` of a grid's view is the view of row `i`.
pub broadcast proof fn lemma_board_row(g: &Grid, i: int)
    requires
        0 <= i < g.len(),
    ensures
        #[trigger] board(g)[i] == g@[i]@,
        board(g).len() == g.len(),
{
    assert(board(g)[i] =~= g@[i]@);
}

/// A grid's view has one row per row of the grid.
pub broadcast proof fn lemma_board_len(g: &Grid)
    ensures
        #[trigger] board(g).len() == g.len(),
{
}

pub broadcast group group_board {
    lemma_board_row,
    lemma_board_len,
}

/// `(x, y)` names a cell that the program interpreter treats as part of the
/// board: inside the row count, inside the width of the first row, and inside
/// its own row.
pub open spec fn in_bounds(b: Seq<Seq<u8>>, x: int, y: int) -> bool {
    &&& 0 <= y < b.len()
    &&& 0 <= x < b[0].len()
    &&& x < b[y].len()
}

/// `(x, y)` names a cell of the board: a row that exists and a column inside
/// that row.
pub open spec fn on_board(b: Seq<Seq<u8>>, x: int, y: int) -> bool {
    0 <= y < b.len() && 0 <= x < b[y].len()
}

/// The board after the player at `(px, py)` moved onto `(tx, ty)`.
pub open spec fn moved_spec(b: Seq<Seq<u8>>, px: int, py: int, tx: int, ty: int) -> Seq<Seq<u8>> {
    set_cell_spec(set_cell_spec(b, px, py, 0), tx, ty, 1)
}

/// The board with cell `(x, y)` set to `v`.
pub open spec fn set_cell_spec(b: Seq<Seq<u8>>, x: int, y: int, v: u8) -> Seq<Seq<u8>> {
    b.update(y, b[y].update(x, v))
}

/// `(x, y)` is the first cell of colour `c` in row-major order.
pub open spec fn first_at(b: Seq<Seq<u8>>, c: u8, x: int, y: int) -> bool {
    &&& 0 <= y < b.len()
    &&& 0 <= x < b[y].len()
    &&& b[y][x] == c
    &&& forall|y2: int, x2: int| 0 <= y2 < y && 0 <= x2 < b[y2].len() ==> b[y2][x2] != c
    &&& forall|x2: int| 0 <= x2 < x ==> b[y][x2] != c
}

/// The colour `c` occurs somewhere on the board.
pub open spec fn has_color(b: Seq<Seq<u8>>, c: u8) -> bool {
    exists|y: int, x: int| 0 <= y < b.len() && 0 <= x < b[y].len() && b[y][x] == c
}

/// The first cell of colour `c` in row-major order, if any.
pub open spec fn first_of(b: Seq<Seq<u8>>, c: u8) -> Option<(int, int)> {
    if exists|p: (int, int)| first_at(b, c, p.0, p.1) {
        Some(choose|p: (int, int)| first_at(b, c, p.0, p.1))
    } else {
        None
    }
}

/// The player is colour 1; its cell is the first cell of that colour.
pub open spec fn player_of(b: Seq<Seq<u8>>) -> Option<(int, int)> {
    first_of(b, 1)
}

/// When the colour occurs at `(x0, y0)`, some cell is the first of it.
pub proof fn lemma_first_exists(b: Seq<Seq<u8>>, c: u8, x0: int, y0: int)
    requires
        0 <= y0 < b.len(),
        0 <= x0 < b[y0].len(),
        b[y0][x0] == c,
    ensures
        first_of(b, c) is Some,
        exists|p: (int, int)| first_at(b, c, p.0, p.1),
    decreases y0, x0,
{
    if exists|y: int, x: int| 0 <= y < y0 && 0 <= x < b[y].len() && b[y][x] == c {
        let (y, x) = choose|y: int, x: int| 0 <= y < y0 && 0 <= x < b[y].len() && b[y][x] == c;
        lemma_first_exists(b, c, x, y);
    } else if exists|x: int| 0 <= x < x0 && b[y0][x] == c {
        let x = choose|x: int| 0 <= x < x0 && b[y0][x] == c;
        lemma_first_exists(b, c, x, y0);
    } else {
        assert(first_at(b, c, (x0, y0).0, (x0, y0).1));
    }
}

/// Two different cells cannot both be the first of a colour.
pub proof fn lemma_first_at_unique(b: Seq<Seq<u8>>, c: u8, x1: int, y1: int, x2: int, y2: int)
    requires
        first_at(b, c, x1, y1),
        first_at(b, c, x2, y2),
    ensures
        x1 == x2 && y1 == y2,
{
    if y1 < y2 {
        assert(b[y1][x1] != c);
    } else if y2 < y1 {
        assert(b[y2][x2] != c);
    } else if x1 < x2 {
        assert(b[y2][x1] != c);
    } else if x2 < x1 {
        assert(b[y1][x2] != c);
    }
}

/// `first_of` names exactly the first cell of the colour, when there is one.
pub proof fn lemma_first_of(b: Seq<Seq<u8>>, c: u8, x: int, y: int)
    requires
        first_at(b, c, x, y),
    ensures
        first_of(b, c) == Some((x, y)),
{
    assert(first_at(b, c, (x, y).0, (x, y).1));
    let p = choose|p: (int, int)| first_at(b, c, p.0, p.1);
    assert(first_at(b, c, (x, y).0, (x, y).1));
    lemma_first_at_unique(b, c, p.0, p.1, x, y);
}

/// The cell `first_of` names is the first of its colour.
pub proof fn lemma_first_of_some(b: Seq<Seq<u8>>, c: u8)
    requires
        first_of(b, c) is Some,
    ensures
        first_at(b, c, first_of(b, c).unwrap().0, first_of(b, c).unwrap().1),
{
    let p = choose|p: (int, int)| first_at(b, c, p.0, p.1);
    assert(first_at(b, c, p.0, p.1));
}

/// Finds the first cell of colour `c` in row-major order.
pub fn locate(g: &Grid, c: u8) -> (r: Option<(usize, usize)>)
    ensures
        match r {
            Some((x, y)) => first_of(board(g), c) == Some((x as int, y as int)),
            None => first_of(board(g), c) is None,
        },
{
    broadcast use group_board;

    let ghost b = board(g);
    let mut y: usize = 0;
    while y < g.len()
        invariant
            b == board(g),
            y <= g.len(),
            forall|y2: int, x2: int| 0 <= y2 < y && 0 <= x2 < b[y2].len() ==> b[y2][x2] != c,
        decreases g.len() - y,
    {
        let row = &g[y];
        let mut x: usize = 0;
        while x < row.len()
            invariant
                b == board(g),
                y < g.len(),
                row@ == b[y as int],
                x <= row.len(),
                forall|y2: int, x2: int| 0 <= y2 < y && 0 <= x2 < b[y2].len() ==> b[y2][x2] != c,
                forall|x2: int| 0 <= x2 < x ==> b[y as int][x2] != c,
            decreases row.len() - x,
        {
            if row[x] == c {
                proof {
                    lemma_first_of(b, c, x as int, y as int);
                }
                return Some((x, y));
            }
            x = x + 1;
        }
        y = y + 1;
    }
    assert(!has_color(b, c));
    assert(!exists|p: (int, int)| first_at(b, c, p.0, p.1));
    None
}

/// A copy of a grid.
pub fn copy_grid(g: &Grid) -> (r: Grid)
    ensures
        board(&r) == board(g),
{
    broadcast use group_board;

    let mut out: Grid = Vec::new();
    let mut y: usize = 0;
    while y < g.len()
        invariant
            y <= g.len(),
            out.len() == y,
            forall|i: int| 0 <= i < y ==> #[trigger] out[i]@ == g[i]@,
        decreases g.len() - y,
    {
        let row = copy_row(&g[y]);
        out.push(row);
        y = y + 1;
    }
    assert(board(&out) =~= board(g));
    out
}

/// A copy of one row.
pub fn copy_row(r: &Vec<u8>) -> (out: Vec<u8>)
    ensures
        out@ == r@,
{
    let mut out: Vec<u8> = Vec::new();
    let mut x: usize = 0;
    while x < r.len()
        invariant
            x <= r.len(),
            out@ == r@.take(x as int),
        decreases r.len() - x,
    {
        out.push(r[x]);
        x = x + 1;
        assert(out@ =~= r@.take(x as int));
    }
    assert(r@.take(r.len() as int) =~= r@);
    out
}

/// Whether two grids hold the same cells.
pub fn grids_equal(a: &Grid, b: &Grid) -> (r: bool)
    ensures
        r == (board(a) == board(b)),
{
    broadcast use group_board;

    if a.len() != b.len() {
        assert(board(a).len() != board(b).len());
        return false;
    }
    let mut y: usize = 0;
    while y < a.len()
        invariant
            a.len() == b.len(),
            y <= a.len(),
            forall|i: int| 0 <= i < y ==> #[trigger] a[i]@ == b[i]@,
        decreases a.len() - y,
    {
        if !rows_equal(&a[y], &b[y]) {
            assert(a@[y as int]@ != b@[y as int]@);
            assert(board(a)[y as int] == a@[y as int]@);
            assert(board(b)[y as int] == b@[y as int]@);
            assert(board(a)[y as int] != board(b)[y as int]);
            return false;
        }
        y = y + 1;
    }
    assert(board(a) =~= board(b));
    true
}

/// Whether two rows hold the same cells.
pub fn rows_equal(a: &Vec<u8>, b: &Vec<u8>) -> (r: bool)
    ensures
        r == (a@ == b@),
{
    if a.len() != b.len() {
        return false;
    }
    let mut x: usize = 0;
    while x < a.len()
        invariant
            a.len() == b.len(),
            x <= a.len(),
            forall|i: int| 0 <= i < x ==> a@[i] == b@[i],
        decreases a.len() - x,
    {
        if a[x] != b[x] {
            return false;
        }
        x = x + 1;
    }
    assert(a@ =~= b@);
    true
}

/// Sets cell `(x, y)` to `v`.
pub fn set_cell(g: &mut Grid, x: usize, y: usize, v: u8)
    requires
        y < old(g).len(),
        x < old(g)[y as int].len(),
    ensures
        board(final(g)) == set_cell_spec(board(old(g)), x as int, y as int, v),
{
    broadcast use group_board;

    let mut row = copy_row(&g[y]);
    row.set(x, v);
    g.set(y, row);
    assert(board(g) =~= set_cell_spec(board(old(g)), x as int, y as int, v));
}

/// Whether `(x, y)` lies on the board in the sense of [`on_board`].
pub fn cell_on_board(g: &Grid, x: i128, y: i128) -> (r: bool)
    ensures
        r == on_board(board(g), x as int, y as int),
        r ==> 0 <= x < usize::MAX && 0 <= y < usize::MAX,
{
    broadcast use group_board;

    if y < 0 || x < 0 || y >= g.len() as i128 {
        return false;
    }
    x < g[y as usize].len() as i128
}

/// A copy of the grid with the player at `(px, py)` moved onto `(tx, ty)`.
pub fn moved(g: &Grid, px: usize, py: usize, tx: usize, ty: usize) -> (r: Grid)
    requires
        on_board(board(g), px as int, py as int),
        on_board(board(g), tx as int, ty as int),
    ensures
        board(&r) == moved_spec(board(g), px as int, py as int, tx as int, ty as int),
{
    broadcast use group_board;

    let mut r = copy_grid(g);
    assert(board(&r).len() == r.len());
    set_cell(&mut r, px, py, 0);
    assert(board(&r).len() == r.len());
    assert(board(&r)[ty as int].len() == r[ty as int].len());
    set_cell(&mut r, tx, ty, 1);
    r
}

/// The cell offset an action moves the player by.
pub open spec fn action_delta(a: Seq<char>) -> (int, int) {
    if a == "up"@ {
        (0, -1)
    } else if a == "down"@ {
        (0, 1)
    } else if a == "left"@ {
        (-1, 0)
    } else if a == "right"@ {
        (1, 0)
    } else {
        (0, 0)
    }
}

/// Whether `(x, y)` lies on the board in the sense of [`in_bounds`].
pub fn cell_in_bounds(g: &Grid, x: i128, y: i128) -> (r: bool)
    ensures
        r == in_bounds(board(g), x as int, y as int),
        r ==> 0 <= x < usize::MAX && 0 <= y < usize::MAX,
{
    broadcast use group_board;

    if y < 0 || x < 0 || g.len() == 0 {
        return false;
    }
    if y >= g.len() as i128 || x >= g[0].len() as i128 {
        return false;
    }
    x < g[y as usize].len() as i128
}

} // verus!
