use crate::grid::Tile;
use vstd::arithmetic::div_mod::{
    lemma_div_pos_is_pos, lemma_fundamental_div_mod, lemma_mod_pos_bound, lemma_multiply_divide_lt,
};
use vstd::prelude::*;

verus! {

/// Index of cell `(x, y)` in a row-major board of the given width.
pub open spec fn cell(width: nat, x: int, y: int) -> int {
    y * width + x
}

pub proof fn lemma_cell_in_range(width: nat, height: nat, x: int, y: int)
    requires
        0 <= x < width,
        0 <= y < height,
    ensures
        0 <= cell(width, x, y) < width * height,
{
    assert(0 <= y * width + x < width * height) by (nonlinear_arith)
        requires
            0 <= x < width,
            0 <= y < height,
    ;
}

/// Two cells of the board share an index only if they are the same cell.
pub proof fn lemma_cell_injective(width: nat, x1: int, y1: int, x2: int, y2: int)
    requires
        0 <= x1 < width,
        0 <= x2 < width,
        0 <= y1,
        0 <= y2,
        cell(width, x1, y1) == cell(width, x2, y2),
    ensures
        x1 == x2,
        y1 == y2,
{
    if y1 < y2 {
        assert(y1 * width + width <= y2 * width) by (nonlinear_arith)
            requires
                y1 < y2,
        ;
    } else if y2 < y1 {
        assert(y2 * width + width <= y1 * width) by (nonlinear_arith)
            requires
                y2 < y1,
        ;
    }
}

/// The board before any species is placed: a wall where the map says so, else empty.
pub open spec fn base_tiles(walls: Seq<bool>) -> Seq<Tile> {
    Seq::new(walls.len(), |i: int| if walls[i] { Tile::Wall } else { Tile::Empty })
}

/// The board after species `s` was placed at `roots[s]` at full age, for every `s`.
pub open spec fn placed(base: Seq<Tile>, roots: Seq<(usize, usize)>, width: nat, max_age: u8) -> Seq<Tile>
    decreases roots.len(),
{
    if roots.len() == 0 {
        base
    } else {
        let r = roots.last();
        placed(base, roots.drop_last(), width, max_age).update(
            cell(width, r.0 as int, r.1 as int),
            Tile::Bug((roots.len() - 1) as u8, max_age),
        )
    }
}

/// Starting cells that lie on the board, on no wall, one cell per species.
pub open spec fn roots_ok(walls: Seq<bool>, roots: Seq<(usize, usize)>, width: nat, height: nat) -> bool {
    &&& forall|s: int| 0 <= s < roots.len() ==> (#[trigger] roots[s]).0 < width && roots[s].1 < height
    &&& forall|s: int| 0 <= s < roots.len() ==> !walls[cell(width, (#[trigger] roots[s]).0 as int, roots[s].1 as int)]
    &&& forall|s: int, t: int| 0 <= t < s < roots.len() ==> #[trigger] roots[t] != #[trigger] roots[s]
}

/// Number of open (non-wall) cells in a wall map.
pub open spec fn count_open(walls: Seq<bool>) -> nat
    decreases walls.len(),
{
    if walls.len() == 0 {
        0
    } else {
        count_open(walls.drop_last()) + if walls.last() { 0nat } else { 1nat }
    }
}

/// Number of empty cells on a board.
pub open spec fn count_empty(tiles: Seq<Tile>) -> nat
    decreases tiles.len(),
{
    if tiles.len() == 0 {
        0
    } else {
        count_empty(tiles.drop_last()) + if tiles.last() == Tile::Empty { 1nat } else { 0nat }
    }
}

pub proof fn lemma_count_empty_base(walls: Seq<bool>)
    ensures
        count_empty(base_tiles(walls)) == count_open(walls),
    decreases walls.len(),
{
    if walls.len() > 0 {
        assert(base_tiles(walls).drop_last() =~= base_tiles(walls.drop_last()));
        lemma_count_empty_base(walls.drop_last());
    }
}

/// Filling one empty cell leaves one empty cell fewer.
pub proof fn lemma_count_empty_fill(tiles: Seq<Tile>, i: int, t: Tile)
    requires
        0 <= i < tiles.len(),
        tiles[i] == Tile::Empty,
        t != Tile::Empty,
    ensures
        count_empty(tiles.update(i, t)) + 1 == count_empty(tiles),
    decreases tiles.len(),
{
    if i == tiles.len() - 1 {
        assert(tiles.update(i, t).drop_last() =~= tiles.drop_last());
    } else {
        assert(tiles.update(i, t).drop_last() =~= tiles.drop_last().update(i, t));
        lemma_count_empty_fill(tiles.drop_last(), i, t);
    }
}

/// A board without empty cells counts none.
pub proof fn lemma_count_empty_none(tiles: Seq<Tile>)
    requires
        forall|i: int| 0 <= i < tiles.len() ==> tiles[i] != Tile::Empty,
    ensures
        count_empty(tiles) == 0,
    decreases tiles.len(),
{
    if tiles.len() > 0 {
        lemma_count_empty_none(tiles.drop_last());
    }
}

/// The first empty cell of a board that has one, as coordinates.
pub fn first_empty(tiles: &Vec<Tile>, width: usize, height: usize) -> (r: (usize, usize))
    requires
        width > 0,
        tiles@.len() == width * height,
        count_empty(tiles@) > 0,
    ensures
        r.0 < width,
        r.1 < height,
        tiles@[cell(width as nat, r.0 as int, r.1 as int)] == Tile::Empty,
        forall|j: int| 0 <= j < cell(width as nat, r.0 as int, r.1 as int) ==> tiles@[j] != Tile::Empty,
{
    let n = tiles.len();
    let mut i: usize = 0;
    while i < n
        invariant
            i <= n,
            n == tiles@.len(),
            width > 0,
            tiles@.len() == width * height,
            count_empty(tiles@) > 0,
            forall|j: int| 0 <= j < i ==> tiles@[j] != Tile::Empty,
        decreases n - i,
    {
        if tiles[i] == Tile::Empty {
            proof {
                lemma_fundamental_div_mod(i as int, width as int);
                lemma_mod_pos_bound(i as int, width as int);
                lemma_div_pos_is_pos(i as int, width as int);
                lemma_multiply_divide_lt(i as int, width as int, height as int);
                assert(cell(width as nat, (i % width) as int, (i / width) as int) == i) by (nonlinear_arith)
                    requires
                        i as int == width * (i as int / width as int) + (i as int % width as int),
                ;
            }
            return (i % width, i / width);
        }
        i += 1;
    }
    proof {
        lemma_count_empty_none(tiles@);
    }
    (0, 0)
}

} // verus!
