//! A point-in-time picture of the world: which tiles the robot has discovered.

use crate::bounds::Position;
use crate::cost::DISCOVER_TILE_COST;
use vstd::prelude::*;

verus! {

/// Whether `cells` is a non-empty square matrix whose side is small enough that the
/// price of discovering every tile of it fits in `usize`.
pub open spec fn is_grid(cells: Seq<Seq<bool>>) -> bool {
    &&& cells.len() > 0
    &&& forall|r: int| 0 <= r < cells.len() ==> (#[trigger] cells[r]).len() == cells.len()
    &&& DISCOVER_TILE_COST * cells.len() * cells.len() <= usize::MAX
}

/// Whether `p` names a tile of `cells`.
pub open spec fn inside(cells: Seq<Seq<bool>>, p: Position) -> bool {
    p.0 < cells.len() && p.1 < cells.len()
}

/// Whether `p` names a tile of `cells` that is not discovered yet.
pub open spec fn hidden(cells: Seq<Seq<bool>>, p: Position) -> bool {
    inside(cells, p) && !cells[p.0 as int][p.1 as int]
}

/// The predicate that holds of the hidden tiles of `cells`.
pub open spec fn is_hidden_in(cells: Seq<Seq<bool>>) -> spec_fn(Position) -> bool {
    |p: Position| hidden(cells, p)
}

/// The map after the tile at `p` has been discovered. Discovering a tile that is
/// discovered already, or one outside the map, changes nothing.
pub open spec fn discover(cells: Seq<Seq<bool>>, p: Position) -> Seq<Seq<bool>> {
    if inside(cells, p) {
        cells.update(p.0 as int, cells[p.0 as int].update(p.1 as int, true))
    } else {
        cells
    }
}

/// The map after the listed tiles have been discovered one after the other.
pub open spec fn discover_all(cells: Seq<Seq<bool>>, tiles: Seq<Position>) -> Seq<Seq<bool>>
    decreases tiles.len(),
{
    if tiles.len() == 0 {
        cells
    } else {
        discover(discover_all(cells, tiles.drop_last()), tiles.last())
    }
}

/// Discovering a tile that is discovered already changes nothing.
pub proof fn lemma_discover_again(cells: Seq<Seq<bool>>, p: Position)
    requires
        is_grid(cells),
        !hidden(cells, p),
    ensures
        discover(cells, p) == cells,
{
    if inside(cells, p) {
        assert(cells[p.0 as int].update(p.1 as int, true) =~= cells[p.0 as int]);
        assert(discover(cells, p) =~= cells);
    }
}

/// Discovering tiles keeps a grid a grid, and leaves hidden exactly the tiles that were
/// hidden before and are not among the discovered ones.
pub proof fn lemma_discover_all(cells: Seq<Seq<bool>>, tiles: Seq<Position>)
    requires
        is_grid(cells),
    ensures
        is_grid(discover_all(cells, tiles)),
        discover_all(cells, tiles).len() == cells.len(),
        forall|p: Position|
            hidden(discover_all(cells, tiles), p) <==> (hidden(cells, p) && !tiles.contains(p)),
    decreases tiles.len(),
{
    if tiles.len() > 0 {
        let rest = tiles.drop_last();
        let last = tiles.last();
        lemma_discover_all(cells, rest);
        let before = discover_all(cells, rest);
        let after = discover(before, last);
        assert(is_grid(after));
        assert forall|p: Position| hidden(after, p) <==> (hidden(cells, p) && !tiles.contains(
            p,
        )) by {
            assert(hidden(after, p) <==> (hidden(before, p) && p != last));
            if rest.contains(p) {
                let i = choose|i: int| 0 <= i < rest.len() && rest[i] == p;
                assert(tiles[i] == p);
            }
            if tiles.contains(p) && p != last {
                let i = choose|i: int| 0 <= i < tiles.len() && tiles[i] == p;
                assert(rest[i] == p);
            }
            if p == last {
                assert(tiles[tiles.len() - 1] == p);
            }
        }
    }
}

/// The side of a grid fits in `usize`, and so does the square of the side.
pub proof fn lemma_side_fits(cells: Seq<Seq<bool>>)
    requires
        is_grid(cells),
    ensures
        0 < cells.len() <= usize::MAX,
        cells.len() * cells.len() <= usize::MAX,
{
    let side = cells.len();
    assert(side <= side * side && side * side <= DISCOVER_TILE_COST * side * side)
        by (nonlinear_arith)
        requires
            side > 0,
            DISCOVER_TILE_COST == 3,
    ;
}

/// A square map of the world. Each entry tells whether that tile is discovered.
#[derive(Debug)]
pub struct Grid {
    cells: Vec<Vec<bool>>,
}

impl View for Grid {
    type V = Seq<Seq<bool>>;

    closed spec fn view(&self) -> Seq<Seq<bool>> {
        self.cells.deep_view()
    }
}

impl Grid {
    /// Every map is a grid.
    #[verifier::type_invariant]
    pub open spec fn well_formed(&self) -> bool {
        is_grid(self@)
    }

    /// Takes a matrix of discovered flags, row by row. Refuses one that is empty, not
    /// square, or too large for its discovery price to fit in `usize`.
    pub fn new(cells: Vec<Vec<bool>>) -> (grid: Option<Grid>)
        ensures
            grid is Some <==> is_grid(cells.deep_view()),
            grid matches Some(g) ==> g@ == cells.deep_view(),
    {
        let size: usize = cells.len();
        if size == 0 {
            return None;
        }
        match size.checked_mul(size) {
            None => {
                assert(DISCOVER_TILE_COST * size * size > usize::MAX) by (nonlinear_arith)
                    requires
                        size * size > usize::MAX,
                        DISCOVER_TILE_COST == 3,
                ;
                return None;
            },
            Some(area) => {
                assert(DISCOVER_TILE_COST * size * size == DISCOVER_TILE_COST * area)
                    by (nonlinear_arith)
                    requires
                        area == size * size,
                ;
                if DISCOVER_TILE_COST.checked_mul(area).is_none() {
                    return None;
                }
            },
        }
        let mut row: usize = 0;
        while row < size
            invariant
                size == cells.len(),
                row <= size,
                forall|r: int| 0 <= r < row ==> (#[trigger] cells.deep_view()[r]).len() == size,
            decreases size - row,
        {
            if cells[row].len() != size {
                assert(cells.deep_view()[row as int].len() != size);
                return None;
            }
            row += 1;
        }
        Some(Grid { cells })
    }

    /// The number of rows, which is also the number of columns.
    pub fn size(&self) -> (size: usize)
        ensures
            size == self@.len(),
            is_grid(self@),
    {
        proof {
            use_type_invariant(self);
        }
        self.cells.len()
    }

    /// Tells whether `(row, col)` names a tile of this map that is not discovered yet.
    pub fn is_hidden(&self, row: usize, col: usize) -> (answer: bool)
        ensures
            answer == hidden(self@, (row, col)),
            is_grid(self@),
    {
        proof {
            use_type_invariant(self);
        }
        let size: usize = self.cells.len();
        if row < size && col < size {
            assert(self@[row as int].len() == size);
            !self.cells[row][col]
        } else {
            false
        }
    }
}

} // verus!
