//! A game: the board, the draw pile and the table of tiles left per kind,
//! and the placement of the next tile.

use crate::board::flat_ids;
use crate::board::flat_rotations;
use crate::board::grid_height;
use crate::board::grid_width;
use crate::board::has_placed_neighbour;
use crate::board::in_grid;
use crate::board::left_growth;
use crate::board::lemma_place_valid;
use crate::board::lemma_start_grid_valid;
use crate::board::lemma_targets;
use crate::board::place_result;
use crate::board::start_grid;
use crate::board::targets_marked;
use crate::board::top_growth;
use crate::board::valid_grid;
use crate::board::Board;
use crate::board::TilePlacement;
use crate::board::CLICKABLE;
use crate::board::EMPTY;
use crate::board::MAX_EXTENT;
use crate::pile::countable;
use crate::pile::counts_sum;
use crate::pile::expanded;
use crate::pile::lemma_occurrences_positive;
use crate::pile::lemma_standard_sum;
use crate::pile::lemma_sum_decrement;
use crate::pile::occurrences;
use crate::pile::standard_counts;
use crate::pile::tallies;
use crate::pile::DrawPile;
use crate::pile::STANDARD_PILE;
use crate::tile::TILE_KINDS;
use vstd::arithmetic::div_mod::lemma_fundamental_div_mod;
use vstd::prelude::*;

verus! {

/// The row that the cell number `index` lies in, counted row after row.
pub open spec fn target_row(g: Seq<Seq<TilePlacement>>, index: int) -> int {
    index / grid_width(g)
}

/// The column that the cell number `index` lies in, counted row after row.
pub open spec fn target_col(g: Seq<Seq<TilePlacement>>, index: int) -> int {
    index % grid_width(g)
}

/// A cell number names a cell of the grid exactly if it is less than the
/// number of cells.
pub proof fn lemma_index_in_grid(g: Seq<Seq<TilePlacement>>, index: int)
    requires
        grid_width(g) > 0,
        0 <= index,
    ensures
        in_grid(g, target_row(g, index), target_col(g, index)) <==> index < grid_height(g)
            * grid_width(g),
{
    let w = grid_width(g);
    let h = grid_height(g);
    lemma_fundamental_div_mod(index, w);
    let q = index / w;
    let m = index % w;
    assert(0 <= m < w);
    assert(0 <= q) by (nonlinear_arith)
        requires
            index == w * q + m,
            0 <= m < w,
            0 <= index,
    ;
    if q < h {
        assert(w * q + m < h * w) by (nonlinear_arith)
            requires
                0 <= q < h,
                0 <= m < w,
        ;
    } else {
        assert(w * q + m >= h * w) by (nonlinear_arith)
            requires
                q >= h,
                0 <= m < w,
        ;
    }
}

/// A game in progress.
pub struct Game {
    tiles_remaining: [u8; 24],
    pile: DrawPile,
    board: Board,
}

impl Game {
    /// How many tiles of each kind are left to be placed.
    pub closed spec fn remaining(&self) -> Seq<u8> {
        self.tiles_remaining@
    }

    /// The kinds of the tiles in the pile; the last is drawn next.
    pub closed spec fn pile(&self) -> Seq<u8> {
        self.pile@
    }

    /// The rows of the board.
    pub closed spec fn grid(&self) -> Seq<Seq<TilePlacement>> {
        self.board@
    }

    /// What holds of every game: the board is valid, the table of tiles
    /// left describes the pile, and the board can still grow once for
    /// every tile in the pile.
    pub open spec fn wf(&self) -> bool {
        &&& valid_grid(self.grid())
        &&& tallies(self.remaining(), self.pile())
        &&& grid_height(self.grid()) + self.pile().len() <= MAX_EXTENT
        &&& grid_width(self.grid()) + self.pile().len() <= MAX_EXTENT
    }

    /// Whether the next tile can be placed at the cell number
    /// `position_idx`: a tile is left, the number names a cell of the
    /// board, and that cell is marked as a target. A cell that holds a
    /// tile is none, and neither is a free cell that no tile touches.
    pub open spec fn can_place_next(&self, position_idx: u8) -> bool {
        let g = self.grid();
        &&& self.pile().len() > 0
        &&& in_grid(g, target_row(g, position_idx as int), target_col(g, position_idx as int))
        &&& g[target_row(g, position_idx as int)][target_col(g, position_idx as int)].tile
            == CLICKABLE
    }

    /// Draws the next tile and places it, with rotation `rotation`, at the
    /// cell whose number, counted row after row over the board as it is
    /// before the call, is `position_idx`. Says whether it did: it does so
    /// exactly if a tile is left and the cell is a target. A call that did
    /// not leaves the game as it was.
    pub fn place_next(&mut self, position_idx: u8, rotation: u8) -> (ok: bool)
        requires
            old(self).wf(),
        ensures
            final(self).wf(),
            ok == old(self).can_place_next(position_idx),
            ok ==> final(self).grid() == place_result(
                old(self).grid(),
                old(self).pile().last(),
                target_row(old(self).grid(), position_idx as int),
                target_col(old(self).grid(), position_idx as int),
                rotation,
            ),
            ok ==> grid_height(final(self).grid()) == grid_height(old(self).grid()) + if target_row(
                old(self).grid(),
                position_idx as int,
            ) == 0 || target_row(old(self).grid(), position_idx as int) == grid_height(
                old(self).grid(),
            ) - 1 {
                1int
            } else {
                0int
            },
            ok ==> grid_width(final(self).grid()) == grid_width(old(self).grid()) + if target_col(
                old(self).grid(),
                position_idx as int,
            ) == 0 || target_col(old(self).grid(), position_idx as int) == grid_width(
                old(self).grid(),
            ) - 1 {
                1int
            } else {
                0int
            },
            ok ==> final(self).grid()[target_row(old(self).grid(), position_idx as int)
                + top_growth(target_row(old(self).grid(), position_idx as int))][target_col(
                old(self).grid(),
                position_idx as int,
            ) + left_growth(target_col(old(self).grid(), position_idx as int))] == (TilePlacement {
                tile: old(self).pile().last(),
                rotation,
            }),
            targets_marked(final(self).grid()),
            ok ==> final(self).pile() == old(self).pile().drop_last(),
            ok ==> final(self).remaining() == old(self).remaining().update(
                old(self).pile().last() as int,
                (old(self).remaining()[old(self).pile().last() as int] - 1) as u8,
            ),
            ok ==> counts_sum(final(self).remaining()) == counts_sum(old(self).remaining()) - 1,
            !ok ==> *final(self) == *old(self),
    {
        let tile: u8 = match self.pile.peek_next() {
            Some(t) => t,
            None => {
                return false;
            },
        };
        let width: u8 = self.width();
        let row: u8 = position_idx / width;
        let col: u8 = position_idx % width;
        match self.board.cell(row, col) {
            Some(p) => {
                if p.tile != CLICKABLE {
                    return false;
                }
            },
            None => {
                return false;
            },
        }
        self.pile.draw();
        proof {
            assert(self.pile().push(tile) =~= old(self).pile());
            lemma_place_valid(self.grid(), tile, row as int, col as int, rotation);
        }
        self.place_tile(tile, row, col, rotation)
    }

    /// Places a tile that was drawn from the pile: writes it to the board
    /// and lowers the count of its kind by one.
    fn place_tile(&mut self, tile_id: u8, row: u8, col: u8, rotation: u8) -> (ok: bool)
        requires
            valid_grid(old(self).grid()),
            tallies(old(self).remaining(), old(self).pile().push(tile_id)),
            grid_height(old(self).grid()) + old(self).pile().len() < MAX_EXTENT,
            grid_width(old(self).grid()) + old(self).pile().len() < MAX_EXTENT,
            in_grid(old(self).grid(), row as int, col as int),
            !old(self).grid()[row as int][col as int].is_placed(),
        ensures
            ok,
            final(self).wf(),
            final(self).grid() == place_result(
                old(self).grid(),
                tile_id,
                row as int,
                col as int,
                rotation,
            ),
            final(self).pile() == old(self).pile(),
            final(self).remaining() == old(self).remaining().update(
                tile_id as int,
                (old(self).remaining()[tile_id as int] - 1) as u8,
            ),
            counts_sum(final(self).remaining()) == counts_sum(old(self).remaining()) - 1,
    {
        let ghost before = self.pile().push(tile_id);
        let ghost counts = self.remaining();
        proof {
            assert(before.last() == tile_id);
            assert(before[before.len() - 1] < TILE_KINDS);
            assert(before.drop_last() =~= self.pile());
            lemma_occurrences_positive(before, before.len() - 1);
            assert(counts[tile_id as int] == occurrences(before, tile_id));
            lemma_place_valid(self.grid(), tile_id, row as int, col as int, rotation);
            lemma_sum_decrement(counts, tile_id as int, counts.len());
        }
        let ok = self.board.place_tile(tile_id, row, col, rotation);
        let left: u8 = self.tiles_remaining[tile_id as usize];
        self.tiles_remaining[tile_id as usize] = left - 1;
        proof {
            let after = self.remaining();
            assert(after =~= counts.update(tile_id as int, (counts[tile_id as int] - 1) as u8));
            assert forall|t: u8| t < TILE_KINDS implies after[t as int] == #[trigger] occurrences(
                self.pile(),
                t,
            ) by {
                assert(counts[t as int] == occurrences(before, t));
            }
            assert forall|i: int| 0 <= i < self.pile().len() implies #[trigger] self.pile()[i]
                < TILE_KINDS by {
                assert(before[i] < TILE_KINDS);
            }
        }
        ok
    }

    /// A new standard game: the start tile in the middle of a board of
    /// three rows and three columns, the standard table of tiles left, and
    /// a pile that holds the tiles of that table in a random order.
    pub fn standard() -> (game: Game)
        ensures
            game.wf(),
            game.grid() == start_grid(),
            game.remaining() == standard_counts(),
            game.pile().to_multiset() == expanded(standard_counts()).to_multiset(),
            game.pile().len() == STANDARD_PILE,
            counts_sum(game.remaining()) == STANDARD_PILE,
    {
        let tiles_remaining: [u8; 24] = [
            2,
            4,
            1,
            3,
            5,
            2,
            1,
            3,
            2,
            3,
            3,
            3,
            2,
            3,
            2,
            3,
            1,
            3,
            2,
            1,
            8,
            9,
            4,
            1,
        ];
        proof {
            assert(tiles_remaining@ =~= standard_counts());
            lemma_standard_sum();
        }
        let pile = DrawPile::initialize(&tiles_remaining);
        let board = Board::start();
        Game { tiles_remaining, pile, board }
    }

    /// A new game over a pile of one's own, drawn from its end: the start
    /// tile in the middle of a board of three rows and three columns, and
    /// the table of tiles left counted from the pile. There is such a game
    /// exactly if the pile holds kinds of the catalog only and at most 252
    /// tiles, so that the board can grow once for each of them.
    pub fn with_pile(pile: DrawPile) -> (game: Option<Game>)
        ensures
            game is Some <==> countable(pile@) && pile@.len() + 3 <= MAX_EXTENT,
            game is Some ==> {
                &&& game->Some_0.wf()
                &&& game->Some_0.grid() == start_grid()
                &&& game->Some_0.pile() == pile@
                &&& tallies(game->Some_0.remaining(), pile@)
            },
    {
        if pile.len() > MAX_EXTENT - 3 {
            return None;
        }
        match pile.tally() {
            Some(tiles_remaining) => {
                let board = Board::start();
                proof {
                    lemma_start_grid_valid();
                }
                Some(Game { tiles_remaining, pile, board })
            },
            None => None,
        }
    }

    /// How many tiles of each kind are left, by kind.
    pub fn get_remaining(&self) -> (remaining: Vec<u8>)
        ensures
            remaining@ == self.remaining(),
    {
        let mut remaining: Vec<u8> = Vec::new();
        let mut i: usize = 0;
        while i < TILE_KINDS
            invariant
                i <= TILE_KINDS,
                remaining@ == self.tiles_remaining@.take(i as int),
            decreases TILE_KINDS - i,
        {
            remaining.push(self.tiles_remaining[i]);
            i += 1;
            assert(remaining@ =~= self.tiles_remaining@.take(i as int));
        }
        assert(remaining@ =~= self.tiles_remaining@);
        remaining
    }

    /// The number of columns of the board.
    pub fn width(&self) -> (w: u8)
        requires
            self.wf(),
        ensures
            w == grid_width(self.grid()),
    {
        self.board.width()
    }

    /// The number of rows of the board.
    pub fn height(&self) -> (h: u8)
        requires
            self.wf(),
        ensures
            h == grid_height(self.grid()),
    {
        self.board.height()
    }

    /// The ids of the cells of the board, row after row: the id of a tile
    /// kind, 255 for a free cell, 254 for a free cell that is a target.
    pub fn tiles(&self) -> (ids: Vec<u8>)
        requires
            self.wf(),
        ensures
            ids@ == flat_ids(self.grid()),
    {
        self.board.tiles()
    }

    /// The kind of the tile that is drawn next, or 255 if none is left.
    pub fn next_tile(&self) -> (t: u8)
        ensures
            t == if self.pile().len() > 0 {
                self.pile().last()
            } else {
                EMPTY
            },
    {
        match self.pile.peek_next() {
            Some(t) => t,
            None => EMPTY,
        }
    }

    /// The rotations of the cells of the board, row after row, in step with
    /// `tiles`.
    pub fn tiles_rotation(&self) -> (rotations: Vec<u8>)
        requires
            self.wf(),
        ensures
            rotations@ == flat_rotations(self.grid()),
    {
        self.board.tiles_rotation()
    }
}

/// The next tile can be placed exactly on the cells that a tile reaches:
/// while a tile is left, on every cell of the board that is free and has a
/// tile above, below, left or right of it, and on no other.
pub proof fn lemma_targets_are_reachable(game: Game, position_idx: u8)
    requires
        game.wf(),
    ensures
        game.can_place_next(position_idx) <==> {
            let g = game.grid();
            let row = target_row(g, position_idx as int);
            let col = target_col(g, position_idx as int);
            &&& game.pile().len() > 0
            &&& in_grid(g, row, col)
            &&& !g[row][col].is_placed()
            &&& has_placed_neighbour(g, row, col)
        },
{
    let g = game.grid();
    let row = target_row(g, position_idx as int);
    let col = target_col(g, position_idx as int);
    if in_grid(g, row, col) {
        lemma_targets(g, row, col);
    }
}

/// A game whose pile is used up takes no placement, whatever the cell.
pub proof fn lemma_empty_pile_rejects(game: Game, position_idx: u8)
    requires
        game.wf(),
        game.pile().len() == 0,
    ensures
        !game.can_place_next(position_idx),
{
}

/// In every game the counts of the tiles left add up to the number of
/// tiles in the pile, and each kind is left as often as the pile holds it.
pub proof fn lemma_counts_match_pile(game: Game)
    requires
        game.wf(),
    ensures
        counts_sum(game.remaining()) == game.pile().len(),
        game.remaining().len() == TILE_KINDS,
        forall|t: u8|
            t < TILE_KINDS ==> game.remaining()[t as int] == #[trigger] occurrences(
                game.pile(),
                t,
            ),
{
}

/// What `tiles`, `tiles_rotation` and `get_remaining` return is fixed by
/// the game: read twice from the same game, they return the same.
pub proof fn lemma_reads_repeat(
    game: Game,
    first: (Seq<u8>, Seq<u8>, Seq<u8>),
    second: (Seq<u8>, Seq<u8>, Seq<u8>),
)
    requires
        first.0 == flat_ids(game.grid()),
        first.1 == flat_rotations(game.grid()),
        first.2 == game.remaining(),
        second.0 == flat_ids(game.grid()),
        second.1 == flat_rotations(game.grid()),
        second.2 == game.remaining(),
    ensures
        first == second,
{
}

} // verus!
