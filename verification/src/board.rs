//! The board: a rectangle of cells that keeps one ring of free cells around
//! the tiles played so far, grows when a tile lands on that ring, and marks
//! the free cells next to a tile as targets for the next one.

use crate::tile::TILE_KINDS;
use std::collections::VecDeque;
use vstd::arithmetic::div_mod::lemma_fundamental_div_mod_converse;
use vstd::prelude::*;

verus! {

/// The id of a free cell that no tile touches.
pub const EMPTY: u8 = 255;

/// The id of a free cell next to a tile: a target for the next placement.
pub const CLICKABLE: u8 = 254;

/// The kind of the tile that lies on the board when a game starts.
pub const START_TILE: u8 = 3;

/// The largest height or width that a board can reach.
pub const MAX_EXTENT: usize = 255;

/// What one cell of the board holds: the id of a tile kind with the tile's
/// rotation in quarter turns, or one of the two ids of a free cell.
#[derive(Clone, Copy, PartialEq, Eq, Structural, Debug)]
pub struct TilePlacement {
    pub tile: u8,
    pub rotation: u8,
}

impl TilePlacement {
    /// Whether the cell holds a tile.
    pub open spec fn is_placed(self) -> bool {
        self.tile != EMPTY && self.tile != CLICKABLE
    }

    pub fn new(tile: u8, rotation: u8) -> (p: TilePlacement)
        ensures
            p == (TilePlacement { tile, rotation }),
    {
        TilePlacement { tile, rotation }
    }

    pub fn from(tile: u8) -> (p: TilePlacement)
        ensures
            p == (TilePlacement { tile, rotation: 0 }),
    {
        TilePlacement { tile, rotation: 0 }
    }

    /// Whether the cell holds a tile.
    pub fn placed(&self) -> (b: bool)
        ensures
            b == self.is_placed(),
    {
        self.tile != EMPTY && self.tile != CLICKABLE
    }
}

/// A free cell that no tile touches.
pub open spec fn empty_cell() -> TilePlacement {
    TilePlacement { tile: EMPTY, rotation: 0 }
}

/// A free cell next to a tile.
pub open spec fn clickable_cell() -> TilePlacement {
    TilePlacement { tile: CLICKABLE, rotation: 0 }
}

/// The number of rows of a grid.
pub open spec fn grid_height(g: Seq<Seq<TilePlacement>>) -> int {
    g.len() as int
}

/// The number of columns of a grid, read from its first row.
pub open spec fn grid_width(g: Seq<Seq<TilePlacement>>) -> int {
    if g.len() > 0 {
        g[0].len() as int
    } else {
        0
    }
}

/// Every row is as long as the first.
pub open spec fn rectangular(g: Seq<Seq<TilePlacement>>) -> bool {
    forall|r: int| 0 <= r < g.len() ==> (#[trigger] g[r]).len() == grid_width(g)
}

/// Whether `(r, c)` names a cell of the grid.
pub open spec fn in_grid(g: Seq<Seq<TilePlacement>>, r: int, c: int) -> bool {
    0 <= r < grid_height(g) && 0 <= c < grid_width(g)
}

/// Whether `(r, c)` names a cell of the grid that holds a tile.
pub open spec fn placed_at(g: Seq<Seq<TilePlacement>>, r: int, c: int) -> bool {
    in_grid(g, r, c) && g[r][c].is_placed()
}

/// Whether one of the up to four cells next to `(r, c)`, above, below, left
/// or right of it and inside the grid, holds a tile.
pub open spec fn has_placed_neighbour(g: Seq<Seq<TilePlacement>>, r: int, c: int) -> bool {
    placed_at(g, r - 1, c) || placed_at(g, r + 1, c) || placed_at(g, r, c - 1) || placed_at(
        g,
        r,
        c + 1,
    )
}

/// Whether `(r, c)` lies on the outermost ring of the grid.
pub open spec fn on_border(g: Seq<Seq<TilePlacement>>, r: int, c: int) -> bool {
    in_grid(g, r, c) && (r == 0 || r == grid_height(g) - 1 || c == 0 || c == grid_width(g) - 1)
}

/// What the cell `(r, c)` holds once the targets are marked: a tile stays,
/// a free cell is a target exactly if a tile is next to it.
pub open spec fn marked_cell(g: Seq<Seq<TilePlacement>>, r: int, c: int) -> TilePlacement {
    if g[r][c].is_placed() {
        g[r][c]
    } else if has_placed_neighbour(g, r, c) {
        clickable_cell()
    } else {
        empty_cell()
    }
}

/// The grid with the targets marked anew in every free cell.
pub open spec fn marked(g: Seq<Seq<TilePlacement>>) -> Seq<Seq<TilePlacement>> {
    Seq::new(g.len(), |r: int| Seq::new(grid_width(g) as nat, |c: int| marked_cell(g, r, c)))
}

/// Every free cell is a target exactly if a tile is next to it, and every
/// free cell has rotation 0.
pub open spec fn targets_marked(g: Seq<Seq<TilePlacement>>) -> bool {
    forall|r: int, c: int| in_grid(g, r, c) ==> #[trigger] g[r][c] == marked_cell(g, r, c)
}

/// No tile lies on the outermost ring.
pub open spec fn ring_free(g: Seq<Seq<TilePlacement>>) -> bool {
    forall|r: int, c: int| on_border(g, r, c) ==> !(#[trigger] g[r][c]).is_placed()
}

/// Whether a tile lies somewhere in row `r`.
pub open spec fn row_has_tile(g: Seq<Seq<TilePlacement>>, r: int) -> bool {
    exists|c: int| #[trigger] placed_at(g, r, c)
}

/// Whether a tile lies somewhere in column `c`.
pub open spec fn col_has_tile(g: Seq<Seq<TilePlacement>>, c: int) -> bool {
    exists|r: int| #[trigger] placed_at(g, r, c)
}

/// The ring is tight: a tile lies in the row below the first, in the row
/// above the last, and in the columns beside the first and the last.
pub open spec fn ring_tight(g: Seq<Seq<TilePlacement>>) -> bool {
    &&& row_has_tile(g, 1)
    &&& row_has_tile(g, grid_height(g) - 2)
    &&& col_has_tile(g, 1)
    &&& col_has_tile(g, grid_width(g) - 2)
}

/// Every tile on the grid is of a kind of the catalog.
pub open spec fn tiles_known(g: Seq<Seq<TilePlacement>>) -> bool {
    forall|r: int, c: int|
        in_grid(g, r, c) && (#[trigger] g[r][c]).is_placed() ==> g[r][c].tile < TILE_KINDS
}

/// What holds of every board: it is a rectangle of 3 to 255 rows and
/// columns, exactly one ring of free cells lies around its tiles, and its
/// free cells are marked as targets where a tile is next to them.
pub open spec fn valid_grid(g: Seq<Seq<TilePlacement>>) -> bool {
    &&& rectangular(g)
    &&& 3 <= grid_height(g) <= MAX_EXTENT
    &&& 3 <= grid_width(g) <= MAX_EXTENT
    &&& ring_free(g)
    &&& ring_tight(g)
    &&& tiles_known(g)
    &&& targets_marked(g)
}

/// The board of a new game: the start tile, unrotated, in the middle of
/// three rows of three cells, its four neighbours marked as targets.
pub open spec fn start_grid() -> Seq<Seq<TilePlacement>> {
    seq![
        seq![empty_cell(), clickable_cell(), empty_cell()],
        seq![clickable_cell(), TilePlacement { tile: START_TILE, rotation: 0 }, clickable_cell()],
        seq![empty_cell(), clickable_cell(), empty_cell()],
    ]
}

/// The ids of the cells, row after row.
pub open spec fn flat_ids(g: Seq<Seq<TilePlacement>>) -> Seq<u8> {
    Seq::new(
        (grid_height(g) * grid_width(g)) as nat,
        |i: int| g[i / grid_width(g)][i % grid_width(g)].tile,
    )
}

/// The rotations of the cells, row after row.
pub open spec fn flat_rotations(g: Seq<Seq<TilePlacement>>) -> Seq<u8> {
    Seq::new(
        (grid_height(g) * grid_width(g)) as nat,
        |i: int| g[i / grid_width(g)][i % grid_width(g)].rotation,
    )
}

/// Rows added above the grid by a placement in row `row`.
pub open spec fn top_growth(row: int) -> int {
    if row == 0 {
        1
    } else {
        0
    }
}

/// Rows added below the grid by a placement in row `row`.
pub open spec fn bottom_growth(g: Seq<Seq<TilePlacement>>, row: int) -> int {
    if row == grid_height(g) - 1 {
        1
    } else {
        0
    }
}

/// Columns added left of the grid by a placement in column `col`.
pub open spec fn left_growth(col: int) -> int {
    if col == 0 {
        1
    } else {
        0
    }
}

/// Columns added right of the grid by a placement in column `col`.
pub open spec fn right_growth(g: Seq<Seq<TilePlacement>>, col: int) -> int {
    if col == grid_width(g) - 1 {
        1
    } else {
        0
    }
}

/// The cell `(r, c)` of the grid, or a free cell where the grid has none.
pub open spec fn cell_or_empty(g: Seq<Seq<TilePlacement>>, r: int, c: int) -> TilePlacement {
    if in_grid(g, r, c) {
        g[r][c]
    } else {
        empty_cell()
    }
}

/// The grid made ready for a placement at `(row, col)`: a row of free cells
/// is added above if `row` is the first row, below if it is the last, and a
/// column of free cells left or right in the same way. The old cell
/// `(r, c)` is then found at `(r + top_growth(row), c + left_growth(col))`.
pub open spec fn grown(g: Seq<Seq<TilePlacement>>, row: int, col: int) -> Seq<Seq<TilePlacement>> {
    Seq::new(
        (grid_height(g) + top_growth(row) + bottom_growth(g, row)) as nat,
        |r: int|
            Seq::new(
                (grid_width(g) + left_growth(col) + right_growth(g, col)) as nat,
                |c: int| cell_or_empty(g, r - top_growth(row), c - left_growth(col)),
            ),
    )
}

/// The grid with the cell `(r, c)` overwritten.
pub open spec fn with_cell(g: Seq<Seq<TilePlacement>>, r: int, c: int, p: TilePlacement) -> Seq<
    Seq<TilePlacement>,
> {
    g.update(r, g[r].update(c, p))
}

/// Whether a tile of kind `tile` can be placed at `(row, col)`: the kind is
/// one of the catalog, the cell exists and is free, and the grid, grown for
/// this placement, stays within the largest extent.
pub open spec fn can_place(g: Seq<Seq<TilePlacement>>, tile: u8, row: int, col: int) -> bool {
    &&& tile < TILE_KINDS
    &&& in_grid(g, row, col)
    &&& !g[row][col].is_placed()
    &&& grid_height(g) + top_growth(row) + bottom_growth(g, row) <= MAX_EXTENT
    &&& grid_width(g) + left_growth(col) + right_growth(g, col) <= MAX_EXTENT
}

/// The grid after a tile of kind `tile` is placed at `(row, col)` with
/// rotation `rotation`: grown for the placement, the tile written to the
/// shifted cell, the targets marked anew.
pub open spec fn place_result(
    g: Seq<Seq<TilePlacement>>,
    tile: u8,
    row: int,
    col: int,
    rotation: u8,
) -> Seq<Seq<TilePlacement>> {
    marked(
        with_cell(
            grown(g, row, col),
            row + top_growth(row),
            col + left_growth(col),
            TilePlacement { tile, rotation },
        ),
    )
}

/// In a grid of `w` columns, the cell `(r, c)` is the cell number
/// `r * w + c`, counted row after row.
pub proof fn lemma_row_major(r: int, c: int, w: int)
    requires
        0 <= r,
        0 <= c < w,
    ensures
        (r * w + c) / w == r,
        (r * w + c) % w == c,
        (r + 1) * w == r * w + w,
        0 <= r * w,
{
    lemma_fundamental_div_mod_converse(r * w + c, w, r, c);
    assert((r + 1) * w == r * w + w) by (nonlinear_arith);
    assert(0 <= r * w) by (nonlinear_arith)
        requires
            0 <= r,
            0 <= w,
    ;
}

/// The board of a new game is a valid board.
pub proof fn lemma_start_grid_valid()
    ensures
        valid_grid(start_grid()),
        grid_height(start_grid()) == 3,
        grid_width(start_grid()) == 3,
{
    let g = start_grid();
    assert(g.len() == 3);
    assert(g[0].len() == 3 && g[1].len() == 3 && g[2].len() == 3);
    assert(g[1][1].is_placed());
    assert(placed_at(g, 1, 1));
    assert forall|r: int, c: int| in_grid(g, r, c) implies #[trigger] g[r][c] == marked_cell(
        g,
        r,
        c,
    ) by {
        assert(0 <= r < 3 && 0 <= c < 3);
        assert(forall|i: int, j: int| placed_at(g, i, j) ==> i == 1 && j == 1);
    }
}

/// Marking the targets keeps the shape of the grid and its tiles, and
/// leaves every free cell a target exactly if a tile is next to it.
pub proof fn lemma_marked(g: Seq<Seq<TilePlacement>>)
    requires
        rectangular(g),
        grid_height(g) >= 1,
    ensures
        rectangular(marked(g)),
        grid_height(marked(g)) == grid_height(g),
        grid_width(marked(g)) == grid_width(g),
        forall|r: int, c: int| #[trigger] placed_at(marked(g), r, c) == placed_at(g, r, c),
        forall|r: int, c: int|
            in_grid(g, r, c) && g[r][c].is_placed() ==> (#[trigger] marked(g)[r][c]) == g[r][c],
        targets_marked(marked(g)),
{
    let m = marked(g);
    assert(m[0].len() == grid_width(g));
    assert forall|r: int, c: int| #[trigger] placed_at(m, r, c) == placed_at(g, r, c) by {
        if in_grid(g, r, c) {
            assert(m[r][c] == marked_cell(g, r, c));
        }
    }
    assert forall|r: int, c: int| in_grid(m, r, c) implies #[trigger] m[r][c] == marked_cell(
        m,
        r,
        c,
    ) by {
        assert(m[r][c] == marked_cell(g, r, c));
        assert(placed_at(m, r, c) == placed_at(g, r, c));
        assert(placed_at(m, r - 1, c) == placed_at(g, r - 1, c));
        assert(placed_at(m, r + 1, c) == placed_at(g, r + 1, c));
        assert(placed_at(m, r, c - 1) == placed_at(g, r, c - 1));
        assert(placed_at(m, r, c + 1) == placed_at(g, r, c + 1));
    }
}

/// A placement that can be made leaves a valid board. The grid grows by
/// exactly one row if the target lies in the first or the last row, by one
/// column if it lies in the first or the last column, and not otherwise;
/// the new tile is found at the shifted target, strictly inside the new
/// grid; every tile that lay on the board before is found at its shifted
/// place; and the free cells are targets exactly where a tile is next to
/// them.
pub proof fn lemma_place_valid(
    g: Seq<Seq<TilePlacement>>,
    tile: u8,
    row: int,
    col: int,
    rotation: u8,
)
    requires
        valid_grid(g),
        can_place(g, tile, row, col),
    ensures
        valid_grid(place_result(g, tile, row, col, rotation)),
        grid_height(place_result(g, tile, row, col, rotation)) == grid_height(g) + if row == 0
            || row == grid_height(g) - 1 {
            1int
        } else {
            0int
        },
        grid_width(place_result(g, tile, row, col, rotation)) == grid_width(g) + if col == 0 || col
            == grid_width(g) - 1 {
            1int
        } else {
            0int
        },
        place_result(g, tile, row, col, rotation)[row + top_growth(row)][col + left_growth(col)]
            == (TilePlacement { tile, rotation }),
        in_grid(
            place_result(g, tile, row, col, rotation),
            row + top_growth(row),
            col + left_growth(col),
        ),
        !on_border(
            place_result(g, tile, row, col, rotation),
            row + top_growth(row),
            col + left_growth(col),
        ),
        forall|r: int, c: int| #[trigger]
            placed_at(g, r, c) ==> place_result(g, tile, row, col, rotation)[r + top_growth(
                row,
            )][c + left_growth(col)] == g[r][c],
        forall|r: int, c: int|
            #[trigger] placed_at(place_result(g, tile, row, col, rotation), r, c) <==> (r == row
                + top_growth(row) && c == col + left_growth(col)) || placed_at(
                g,
                r - top_growth(row),
                c - left_growth(col),
            ),
{
    let t = top_growth(row);
    let l = left_growth(col);
    let p = TilePlacement { tile, rotation };
    let g1 = grown(g, row, col);
    let g2 = with_cell(g1, row + t, col + l, p);
    let g3 = marked(g2);
    assert(g[0].len() == grid_width(g));
    assert(grid_width(g1) == grid_width(g) + l + right_growth(g, col)) by {
        assert(g1[0].len() == grid_width(g) + l + right_growth(g, col));
    }
    assert(grid_width(g2) == grid_width(g1)) by {
        assert(g2[0].len() == g1[0].len());
    }
    assert(rectangular(g2)) by {
        assert forall|r: int| 0 <= r < g2.len() implies (#[trigger] g2[r]).len() == grid_width(
            g2,
        ) by {
            assert(g1[r].len() == grid_width(g1));
        }
    }
    assert forall|r: int, c: int| in_grid(g2, r, c) implies #[trigger] g2[r][c] == if r == row
        + t && c == col + l {
        p
    } else {
        cell_or_empty(g, r - t, c - l)
    } by {
        assert(g1[r][c] == cell_or_empty(g, r - t, c - l));
    }
    assert forall|r: int, c: int| #[trigger]
        placed_at(g2, r, c) <==> (r == row + t && c == col + l) || placed_at(
            g,
            r - t,
            c - l,
        ) by {
        if in_grid(g2, r, c) {
            assert(g2[r][c] == if r == row + t && c == col + l {
                p
            } else {
                cell_or_empty(g, r - t, c - l)
            });
        }
        if placed_at(g, r - t, c - l) {
            assert(in_grid(g2, r, c));
            assert(!on_border(g, r - t, c - l)) by {
                assert(g[r - t][c - l].is_placed());
            }
        }
    }
    lemma_marked(g2);
    assert forall|r: int, c: int| #[trigger]
        placed_at(g3, r, c) <==> (r == row + t && c == col + l) || placed_at(
            g,
            r - t,
            c - l,
        ) by {
        assert(placed_at(g3, r, c) == placed_at(g2, r, c));
    }
    assert(g3[row + t][col + l] == p) by {
        assert(g2[row + t][col + l] == p);
        assert(placed_at(g2, row + t, col + l));
    }
    assert forall|r: int, c: int| #[trigger] placed_at(g, r, c) implies g3[r + t][c + l]
        == g[r][c] by {
        assert(!on_border(g, r, c)) by {
            assert(g[r][c].is_placed());
        }
        assert(in_grid(g2, r + t, c + l));
        assert(g2[r + t][c + l] == g[r][c]);
        assert(g3[r + t][c + l] == g2[r + t][c + l]);
    }
    assert(ring_free(g3)) by {
        assert forall|r: int, c: int| on_border(g3, r, c) implies !(#[trigger] g3[r][c]).is_placed(
        ) by {
            if g3[r][c].is_placed() {
                assert(placed_at(g3, r, c));
                if placed_at(g, r - t, c - l) {
                    assert(!on_border(g, r - t, c - l)) by {
                        assert(g[r - t][c - l].is_placed());
                    }
                }
            }
        }
    }
    assert(tiles_known(g3)) by {
        assert forall|r: int, c: int| in_grid(g3, r, c) && (#[trigger] g3[r][c]).is_placed()
            implies g3[r][c].tile < TILE_KINDS by {
            assert(placed_at(g3, r, c));
            assert(g3[r][c] == g2[r][c]);
            if !(r == row + t && c == col + l) {
                assert(placed_at(g, r - t, c - l));
                assert(g[r - t][c - l].is_placed());
            }
        }
    }
    assert(ring_tight(g3)) by {
        let h = grid_height(g);
        let w = grid_width(g);
        let c1 = choose|c: int| #[trigger] placed_at(g, 1, c);
        let c2 = choose|c: int| #[trigger] placed_at(g, h - 2, c);
        let r1 = choose|r: int| #[trigger] placed_at(g, r, 1);
        let r2 = choose|r: int| #[trigger] placed_at(g, r, w - 2);
        assert(placed_at(g, 1, c1) && placed_at(g, h - 2, c2));
        assert(placed_at(g, r1, 1) && placed_at(g, r2, w - 2));
        if row == 0 {
            assert(placed_at(g3, 1, col + l));
        } else {
            assert(placed_at(g3, 1, c1 + l));
        }
        if row == h - 1 {
            assert(placed_at(g3, grid_height(g3) - 2, col + l));
        } else {
            assert(placed_at(g3, grid_height(g3) - 2, c2 + l));
        }
        if col == 0 {
            assert(placed_at(g3, row + t, 1));
        } else {
            assert(placed_at(g3, r1 + t, 1));
        }
        if col == w - 1 {
            assert(placed_at(g3, row + t, grid_width(g3) - 2));
        } else {
            assert(placed_at(g3, r2 + t, grid_width(g3) - 2));
        }
    }
}

/// On a valid board a cell is a target exactly if it is free and a tile
/// lies next to it, above, below, left or right of it and on the board;
/// every other free cell is a plain free cell.
pub proof fn lemma_targets(g: Seq<Seq<TilePlacement>>, r: int, c: int)
    requires
        valid_grid(g),
        in_grid(g, r, c),
    ensures
        g[r][c].tile == CLICKABLE <==> !g[r][c].is_placed() && has_placed_neighbour(g, r, c),
        g[r][c].tile == EMPTY <==> !g[r][c].is_placed() && !has_placed_neighbour(g, r, c),
        !g[r][c].is_placed() ==> g[r][c].rotation == 0,
{
    assert(g[r][c] == marked_cell(g, r, c));
}

/// `index_mut` of std's `VecDeque`, the call behind `deque[i]` on the left
/// of an assignment: a mutable reference to the entry at `i`. The entry is
/// the one the deque held there, and once the reference is given up the
/// deque differs from the old one in that entry alone. std panics where `i`
/// is out of bounds, so that is left out.
#[verifier::external_body]
fn deque_index_mut<T>(deque: &mut VecDeque<T>, i: usize) -> (element: &mut T)
    requires
        i < old(deque)@.len(),
    ensures
        *element == old(deque)@[i as int],
        final(deque)@ == old(deque)@.update(i as int, *final(element)),
{
    &mut deque[i]
}

/// The board of a game.
pub struct Board {
    cells: VecDeque<VecDeque<TilePlacement>>,
}

impl View for Board {
    type V = Seq<Seq<TilePlacement>>;

    /// The rows of the board, first row first.
    closed spec fn view(&self) -> Seq<Seq<TilePlacement>> {
        Seq::new(self.cells@.len(), |r: int| self.cells@[r]@)
    }
}

impl Board {
    /// Whether the board is a valid one.
    pub open spec fn wf(&self) -> bool {
        valid_grid(self@)
    }

    /// The row `r` of the view is the row `r` of the cells, and as long as
    /// the board is wide.
    proof fn lemma_row(&self, r: int)
        requires
            rectangular(self@),
            0 <= r < grid_height(self@),
        ensures
            self.cells@.len() == grid_height(self@),
            self.cells@[r]@ == self@[r],
            self.cells@[r]@.len() == grid_width(self@),
    {
    }

    /// The board of a new game.
    pub fn start() -> (b: Board)
        ensures
            b@ == start_grid(),
            b.wf(),
    {
        let mut first: VecDeque<TilePlacement> = VecDeque::new();
        first.push_back(TilePlacement::from(EMPTY));
        first.push_back(TilePlacement::from(CLICKABLE));
        first.push_back(TilePlacement::from(EMPTY));
        let mut second: VecDeque<TilePlacement> = VecDeque::new();
        second.push_back(TilePlacement::from(CLICKABLE));
        second.push_back(TilePlacement::new(START_TILE, 0));
        second.push_back(TilePlacement::from(CLICKABLE));
        let mut third: VecDeque<TilePlacement> = VecDeque::new();
        third.push_back(TilePlacement::from(EMPTY));
        third.push_back(TilePlacement::from(CLICKABLE));
        third.push_back(TilePlacement::from(EMPTY));
        let mut cells: VecDeque<VecDeque<TilePlacement>> = VecDeque::new();
        cells.push_back(first);
        cells.push_back(second);
        cells.push_back(third);
        let b = Board { cells };
        proof {
            assert(b@ =~~= start_grid());
            lemma_start_grid_valid();
        }
        b
    }

    /// The number of columns.
    pub fn width(&self) -> (w: u8)
        requires
            self.wf(),
        ensures
            w == grid_width(self@),
    {
        self.cells[0].len() as u8
    }

    /// The number of rows.
    pub fn height(&self) -> (h: u8)
        requires
            self.wf(),
        ensures
            h == grid_height(self@),
    {
        self.cells.len() as u8
    }

    /// What the cell `(row, col)` holds, if the board has such a cell.
    pub fn cell(&self, row: u8, col: u8) -> (p: Option<TilePlacement>)
        requires
            self.wf(),
        ensures
            p == if in_grid(self@, row as int, col as int) {
                Some(self@[row as int][col as int])
            } else {
                None
            },
    {
        if row < self.height() && col < self.width() {
            proof {
                self.lemma_row(row as int);
            }
            Some(self.cells[row as usize][col as usize])
        } else {
            None
        }
    }

    /// The ids of the cells, row after row: the id of a tile kind, 255 for
    /// a free cell, 254 for a free cell that is a target.
    pub fn tiles(&self) -> (ids: Vec<u8>)
        requires
            self.wf(),
        ensures
            ids@ == flat_ids(self@),
    {
        let h: usize = self.cells.len();
        let w: usize = self.cells[0].len();
        let mut ids: Vec<u8> = Vec::new();
        let mut r: usize = 0;
        while r < h
            invariant
                self.wf(),
                h == grid_height(self@),
                w == grid_width(self@),
                r <= h,
                ids@.len() == r * w,
                forall|k: int|
                    0 <= k < ids@.len() ==> ids@[k] == (#[trigger] self@[k / (w as int)])[k % (
                    w as int)].tile,
            decreases h - r,
        {
            let mut c: usize = 0;
            while c < w
                invariant
                    self.wf(),
                    h == grid_height(self@),
                    w == grid_width(self@),
                    r < h,
                    c <= w,
                    ids@.len() == r * w + c,
                    forall|k: int|
                        0 <= k < ids@.len() ==> ids@[k] == (#[trigger] self@[k / (w as int)])[k
                            % (w as int)].tile,
                decreases w - c,
            {
                proof {
                    lemma_row_major(r as int, c as int, w as int);
                    self.lemma_row(r as int);
                }
                ids.push(self.cells[r][c].tile);
                c += 1;
            }
            proof {
                lemma_row_major(r as int, 0, w as int);
            }
            r += 1;
        }
        assert(ids@ =~= flat_ids(self@));
        ids
    }

    /// The rotations of the cells, row after row, in step with `tiles`.
    pub fn tiles_rotation(&self) -> (rotations: Vec<u8>)
        requires
            self.wf(),
        ensures
            rotations@ == flat_rotations(self@),
    {
        let h: usize = self.cells.len();
        let w: usize = self.cells[0].len();
        let mut rotations: Vec<u8> = Vec::new();
        let mut r: usize = 0;
        while r < h
            invariant
                self.wf(),
                h == grid_height(self@),
                w == grid_width(self@),
                r <= h,
                rotations@.len() == r * w,
                forall|k: int|
                    0 <= k < rotations@.len() ==> rotations@[k] == (#[trigger] self@[k / (
                    w as int)])[k % (w as int)].rotation,
            decreases h - r,
        {
            let mut c: usize = 0;
            while c < w
                invariant
                    self.wf(),
                    h == grid_height(self@),
                    w == grid_width(self@),
                    r < h,
                    c <= w,
                    rotations@.len() == r * w + c,
                    forall|k: int|
                        0 <= k < rotations@.len() ==> rotations@[k] == (#[trigger] self@[k / (
                        w as int)])[k % (w as int)].rotation,
                decreases w - c,
            {
                proof {
                    lemma_row_major(r as int, c as int, w as int);
                    self.lemma_row(r as int);
                }
                rotations.push(self.cells[r][c].rotation);
                c += 1;
            }
            proof {
                lemma_row_major(r as int, 0, w as int);
            }
            r += 1;
        }
        assert(rotations@ =~= flat_rotations(self@));
        rotations
    }

    /// Overwrites the cell `(r, c)`.
    fn set_cell(&mut self, r: usize, c: usize, p: TilePlacement)
        requires
            rectangular(old(self)@),
            in_grid(old(self)@, r as int, c as int),
        ensures
            final(self)@ == with_cell(old(self)@, r as int, c as int, p),
    {
        proof {
            self.lemma_row(r as int);
        }
        let row = deque_index_mut(&mut self.cells, r);
        let cell = deque_index_mut(row, c);
        *cell = p;
        assert(self@ =~~= with_cell(old(self)@, r as int, c as int, p));
    }

    /// A row of `w` free cells.
    fn empty_row(w: usize) -> (row: VecDeque<TilePlacement>)
        ensures
            row@ == Seq::new(w as nat, |c: int| empty_cell()),
    {
        let mut row: VecDeque<TilePlacement> = VecDeque::new();
        let mut c: usize = 0;
        while c < w
            invariant
                c <= w,
                row@ == Seq::new(c as nat, |j: int| empty_cell()),
            decreases w - c,
        {
            row.push_back(TilePlacement::from(EMPTY));
            c += 1;
            assert(row@ =~= Seq::new(c as nat, |j: int| empty_cell()));
        }
        row
    }

    /// Adds a row of free cells, above the first row or below the last.
    fn add_row(&mut self, above: bool)
        requires
            rectangular(old(self)@),
            1 <= grid_height(old(self)@) < MAX_EXTENT,
        ensures
            final(self)@ == if above {
                seq![Seq::new(grid_width(old(self)@) as nat, |c: int| empty_cell())] + old(self)@
            } else {
                old(self)@.push(Seq::new(grid_width(old(self)@) as nat, |c: int| empty_cell()))
            },
    {
        proof {
            self.lemma_row(0);
        }
        let w: usize = self.cells[0].len();
        let row = Self::empty_row(w);
        if above {
            self.cells.push_front(row);
            assert(self@ =~~= seq![Seq::new(grid_width(old(self)@) as nat, |c: int| empty_cell())]
                + old(self)@);
        } else {
            self.cells.push_back(row);
            assert(self@ =~~= old(self)@.push(
                Seq::new(grid_width(old(self)@) as nat, |c: int| empty_cell()),
            ));
        }
    }

    /// Adds a free cell to every row, before its first cell or after its
    /// last.
    fn add_column(&mut self, before: bool)
        requires
            rectangular(old(self)@),
            1 <= grid_height(old(self)@),
            grid_width(old(self)@) < MAX_EXTENT,
        ensures
            final(self)@ == Seq::new(
                old(self)@.len(),
                |r: int|
                    if before {
                        seq![empty_cell()] + old(self)@[r]
                    } else {
                        old(self)@[r].push(empty_cell())
                    },
            ),
    {
        let ghost g = self@;
        let h: usize = self.cells.len();
        let mut r: usize = 0;
        while r < h
            invariant
                r <= h,
                h == g.len(),
                self@.len() == h,
                rectangular(g),
                grid_width(g) < MAX_EXTENT,
                forall|i: int|
                    0 <= i < r ==> #[trigger] self@[i] == if before {
                        seq![empty_cell()] + g[i]
                    } else {
                        g[i].push(empty_cell())
                    },
                forall|i: int| r <= i < h ==> #[trigger] self@[i] == g[i],
            decreases h - r,
        {
            let ghost before_step = self@;
            assert(self@[r as int] == g[r as int]);
            if before {
                deque_index_mut(&mut self.cells, r).push_front(TilePlacement::from(EMPTY));
                assert(self@[r as int] =~= seq![empty_cell()] + g[r as int]);
            } else {
                deque_index_mut(&mut self.cells, r).push_back(TilePlacement::from(EMPTY));
                assert(self@[r as int] =~= g[r as int].push(empty_cell()));
            }
            assert forall|i: int| 0 <= i < r + 1 implies #[trigger] self@[i] == if before {
                seq![empty_cell()] + g[i]
            } else {
                g[i].push(empty_cell())
            } by {
                if i != r {
                    assert(self@[i] == before_step[i]);
                }
            }
            assert forall|i: int| r + 1 <= i < h implies #[trigger] self@[i] == g[i] by {
                assert(self@[i] == before_step[i]);
            }
            r += 1;
        }
        assert(self@ =~~= Seq::new(
            g.len(),
            |r: int|
                if before {
                    seq![empty_cell()] + g[r]
                } else {
                    g[r].push(empty_cell())
                },
        ));
    }

    /// Makes the board ready for a placement at `(row, col)` and returns
    /// where that cell is found afterwards.
    fn grow(&mut self, row: u8, col: u8) -> (target: (u8, u8))
        requires
            old(self).wf(),
            in_grid(old(self)@, row as int, col as int),
            grid_height(old(self)@) + top_growth(row as int) + bottom_growth(
                old(self)@,
                row as int,
            ) <= MAX_EXTENT,
            grid_width(old(self)@) + left_growth(col as int) + right_growth(
                old(self)@,
                col as int,
            ) <= MAX_EXTENT,
        ensures
            final(self)@ == grown(old(self)@, row as int, col as int),
            target.0 == row + top_growth(row as int),
            target.1 == col + left_growth(col as int),
    {
        let ghost g = self@;
        let ghost at = (row as int, col as int);
        let mut row: u8 = row;
        let mut col: u8 = col;
        if row == 0 {
            self.add_row(true);
            row += 1;
        }
        proof {
            self.lemma_row(0);
        }
        if row as usize == self.cells.len() - 1 {
            self.add_row(false);
        }
        let ghost tall = self@;
        assert(rectangular(tall));
        proof {
            self.lemma_row(0);
        }
        if col == 0 {
            self.add_column(true);
            col += 1;
        }
        proof {
            self.lemma_row(0);
        }
        if col as usize == self.cells[0].len() - 1 {
            self.add_column(false);
        }
        assert(self@ =~~= grown(g, at.0, at.1));
        (row, col)
    }

    /// Whether a tile lies next to the cell `(r, c)`.
    fn near_tile(&self, r: usize, c: usize) -> (near: bool)
        requires
            rectangular(self@),
            in_grid(self@, r as int, c as int),
        ensures
            near == has_placed_neighbour(self@, r as int, c as int),
    {
        proof {
            self.lemma_row(0);
            self.lemma_row(r as int);
            if r > 0 {
                self.lemma_row(r - 1);
            }
            if r + 1 < grid_height(self@) {
                self.lemma_row(r + 1);
            }
        }
        let h: usize = self.cells.len();
        let w: usize = self.cells[0].len();
        (r > 0 && self.cells[r - 1][c].placed()) || (r + 1 < h && self.cells[r + 1][c].placed())
            || (c > 0 && self.cells[r][c - 1].placed()) || (c + 1 < w && self.cells[r][c
            + 1].placed())
    }

    /// Marks the targets anew: every free cell becomes a target if a tile
    /// is next to it, and a plain free cell if none is.
    fn mark_targets(&mut self)
        requires
            rectangular(old(self)@),
            grid_height(old(self)@) >= 1,
        ensures
            final(self)@ == marked(old(self)@),
    {
        let ghost g = self@;
        proof {
            self.lemma_row(0);
        }
        let h: usize = self.cells.len();
        let w: usize = self.cells[0].len();
        let mut r: usize = 0;
        while r < h
            invariant
                r <= h,
                h == grid_height(g),
                w == grid_width(g),
                rectangular(g),
                rectangular(self@),
                grid_height(self@) == h,
                grid_width(self@) == w,
                forall|i: int, j: int|
                    in_grid(g, i, j) ==> (#[trigger] self@[i][j]).is_placed()
                        == g[i][j].is_placed(),
                forall|i: int| 0 <= i < r ==> #[trigger] self@[i] == marked(g)[i],
                forall|i: int| r <= i < h ==> #[trigger] self@[i] == g[i],
            decreases h - r,
        {
            let mut c: usize = 0;
            while c < w
                invariant
                    r < h,
                    c <= w,
                    h == grid_height(g),
                    w == grid_width(g),
                    rectangular(g),
                    rectangular(self@),
                    grid_height(self@) == h,
                    grid_width(self@) == w,
                    forall|i: int, j: int|
                        in_grid(g, i, j) ==> (#[trigger] self@[i][j]).is_placed()
                            == g[i][j].is_placed(),
                    forall|i: int| 0 <= i < r ==> #[trigger] self@[i] == marked(g)[i],
                    forall|i: int| r < i < h ==> #[trigger] self@[i] == g[i],
                    forall|j: int|
                        0 <= j < c ==> #[trigger] self@[r as int][j] == marked_cell(
                            g,
                            r as int,
                            j,
                        ),
                    forall|j: int| c <= j < w ==> #[trigger] self@[r as int][j] == g[r as int][j],
                decreases w - c,
            {
                let ghost before = self@;
                proof {
                    self.lemma_row(r as int);
                }
                let near = self.near_tile(r, c);
                assert(near == has_placed_neighbour(g, r as int, c as int)) by {
                    assert(placed_at(before, r - 1, c as int) == placed_at(g, r - 1, c as int));
                    assert(placed_at(before, r + 1, c as int) == placed_at(g, r + 1, c as int));
                    assert(placed_at(before, r as int, c - 1) == placed_at(g, r as int, c - 1));
                    assert(placed_at(before, r as int, c + 1) == placed_at(g, r as int, c + 1));
                }
                if !self.cells[r][c].placed() {
                    if near {
                        self.set_cell(r, c, TilePlacement::from(CLICKABLE));
                    } else {
                        self.set_cell(r, c, TilePlacement::from(EMPTY));
                    }
                }
                assert(self@[r as int] =~= before[r as int].update(
                    c as int,
                    marked_cell(g, r as int, c as int),
                ));
                assert forall|i: int| 0 <= i < h && i != r implies #[trigger] self@[i]
                    == before[i] by {}
                assert(rectangular(self@)) by {
                    assert forall|i: int| 0 <= i < self@.len() implies (#[trigger] self@[i]).len()
                        == grid_width(self@) by {
                        assert(before[i].len() == w);
                        assert(before[0].len() == w);
                    }
                }
                assert forall|i: int, j: int| in_grid(g, i, j) implies (#[trigger] self@[i][j])
                    .is_placed() == g[i][j].is_placed() by {
                    assert(before[i][j].is_placed() == g[i][j].is_placed());
                }
                c += 1;
            }
            assert(self@[r as int] =~= marked(g)[r as int]);
            r += 1;
        }
        assert(self@ =~~= marked(g));
    }

    /// Places a tile of kind `tile_id` at `(row, col)` with rotation
    /// `rotation`, and says whether it did. It does so exactly if the kind
    /// is one of the catalog, the cell exists and is free, and the board
    /// has room to grow where the cell lies on its ring. The board then
    /// grows as `grown` says, holds the tile at the shifted cell, and has
    /// its targets marked anew. A placement that cannot be made leaves the
    /// board as it was.
    pub fn place_tile(&mut self, tile_id: u8, row: u8, col: u8, rotation: u8) -> (ok: bool)
        requires
            old(self).wf(),
        ensures
            final(self).wf(),
            ok == can_place(old(self)@, tile_id, row as int, col as int),
            ok ==> final(self)@ == place_result(
                old(self)@,
                tile_id,
                row as int,
                col as int,
                rotation,
            ),
            !ok ==> final(self)@ == old(self)@,
    {
        let h: u8 = self.height();
        let w: u8 = self.width();
        if tile_id as usize >= TILE_KINDS || row >= h || col >= w {
            return false;
        }
        proof {
            self.lemma_row(row as int);
        }
        if self.cells[row as usize][col as usize].placed() {
            return false;
        }
        if ((row == 0 || row == h - 1) && h as usize == MAX_EXTENT) || ((col == 0 || col == w - 1)
            && w as usize == MAX_EXTENT) {
            return false;
        }
        let ghost g = self@;
        let target = self.grow(row, col);
        proof {
            lemma_place_valid(g, tile_id, row as int, col as int, rotation);
        }
        self.set_cell(target.0 as usize, target.1 as usize, TilePlacement::new(tile_id, rotation));
        self.mark_targets();
        true
    }
}

} // verus!
