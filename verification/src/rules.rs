//! The cellular-automaton rule: the birth/survival decision and the count of
//! live neighbors over the eight surrounding coordinates, hard edges excluded.

use vstd::prelude::*;
use crate::grid::{cell_at, in_map_spec, in_map, get_grid, lemma_index_in_range};

verus! {

/// The standard rule: a live cell with two or three live neighbors survives;
/// a dead cell with exactly three live neighbors is born; every other cell is
/// dead in the next generation.
pub open spec fn alive_rule(alive: bool, neighbors: nat) -> bool {
    (alive && 2 <= neighbors <= 3) || (!alive && neighbors == 3)
}

/// Decides the next state of one cell from its current state and its live
/// neighbor count.
pub fn dead_or_alive(alive: bool, neighbors: u8) -> (r: bool)
    ensures
        r == alive_rule(alive, neighbors as nat),
{
    (alive && neighbors >= 2 && neighbors <= 3) || (!alive && neighbors == 3)
}

/// The eight coordinate offsets of a cell's neighborhood, in a fixed order.
pub open spec fn offsets() -> Seq<(int, int)> {
    seq![(-1, -1), (0, -1), (1, -1), (-1, 0), (1, 0), (-1, 1), (0, 1), (1, 1)]
}

/// Whether (aj, ai) lies in the 3x3 square centered on (bj, bi) — that is,
/// the two coordinate pairs are equal or touch.
pub open spec fn near(aj: int, ai: int, bj: int, bi: int) -> bool {
    -1 <= aj - bj <= 1 && -1 <= ai - bi <= 1
}

/// Number of live in-bounds neighbors of (j, i) among the first `n` offsets.
pub open spec fn live_neighbors_upto(
    g: Seq<bool>,
    width: int,
    height: int,
    j: int,
    i: int,
    n: int,
) -> nat
    decreases n,
{
    if n <= 0 {
        0
    } else {
        let oj = offsets()[n - 1].0;
        let oi = offsets()[n - 1].1;
        live_neighbors_upto(g, width, height, j, i, n - 1) + (if in_map_spec(
            width,
            height,
            j + oj,
            i + oi,
        ) && cell_at(g, width, j + oj, i + oi) {
            1nat
        } else {
            0nat
        })
    }
}

/// Number of live neighbors of (j, i): only the in-bounds subset of its eight
/// surrounding coordinates is counted; coordinates beyond a grid edge do not
/// exist and contribute nothing.
pub open spec fn live_neighbors(g: Seq<bool>, width: int, height: int, j: int, i: int) -> nat {
    live_neighbors_upto(g, width, height, j, i, 8)
}

/// Next-generation value of the cell at (j, i).
pub open spec fn next_cell(g: Seq<bool>, width: int, height: int, j: int, i: int) -> bool {
    alive_rule(cell_at(g, width, j, i), live_neighbors(g, width, height, j, i))
}

/// Each of the eight offsets shifts each coordinate by at most one.
pub proof fn lemma_offsets_small(m: int)
    requires
        0 <= m < 8,
    ensures
        -1 <= offsets()[m].0 <= 1,
        -1 <= offsets()[m].1 <= 1,
        !(offsets()[m].0 == 0 && offsets()[m].1 == 0),
{
    assert(offsets()[0] == (-1int, -1int));
    assert(offsets()[1] == (0int, -1int));
    assert(offsets()[2] == (1int, -1int));
    assert(offsets()[3] == (-1int, 0int));
    assert(offsets()[4] == (1int, 0int));
    assert(offsets()[5] == (-1int, 1int));
    assert(offsets()[6] == (0int, 1int));
    assert(offsets()[7] == (1int, 1int));
}

/// Position of a nonzero unit offset in the `offsets` order.
pub open spec fn offset_index(oj: int, oi: int) -> int {
    if oj == -1 && oi == -1 {
        0
    } else if oj == 0 && oi == -1 {
        1
    } else if oj == 1 && oi == -1 {
        2
    } else if oj == -1 && oi == 0 {
        3
    } else if oj == 1 && oi == 0 {
        4
    } else if oj == -1 && oi == 1 {
        5
    } else if oj == 0 && oi == 1 {
        6
    } else {
        7
    }
}

/// Every coordinate shift by at most one step in each direction, other than
/// staying in place, is one of the eight offsets, at position `offset_index`.
pub proof fn lemma_offset_index_complete(oj: int, oi: int)
    requires
        -1 <= oj <= 1,
        -1 <= oi <= 1,
        !(oj == 0 && oi == 0),
    ensures
        0 <= offset_index(oj, oi) < 8,
        offsets()[offset_index(oj, oi)] == (oj, oi),
{
    assert(offsets()[0] == (-1int, -1int));
    assert(offsets()[1] == (0int, -1int));
    assert(offsets()[2] == (1int, -1int));
    assert(offsets()[3] == (-1int, 0int));
    assert(offsets()[4] == (1int, 0int));
    assert(offsets()[5] == (-1int, 1int));
    assert(offsets()[6] == (0int, 1int));
    assert(offsets()[7] == (1int, 1int));
}

/// `offset_index` inverts the `offsets` order.
pub proof fn lemma_offset_index_inverse(m: int)
    requires
        0 <= m < 8,
    ensures
        offset_index(offsets()[m].0, offsets()[m].1) == m,
{
    assert(offsets()[0] == (-1int, -1int));
    assert(offsets()[1] == (0int, -1int));
    assert(offsets()[2] == (1int, -1int));
    assert(offsets()[3] == (-1int, 0int));
    assert(offsets()[4] == (1int, 0int));
    assert(offsets()[5] == (-1int, 1int));
    assert(offsets()[6] == (0int, 1int));
    assert(offsets()[7] == (1int, 1int));
}

/// Two grids that agree on the whole 3x3 neighborhood of (j, i) give that
/// cell the same live neighbor count.
pub proof fn lemma_live_neighbors_local(
    g1: Seq<bool>,
    g2: Seq<bool>,
    width: int,
    height: int,
    j: int,
    i: int,
    n: int,
)
    requires
        0 <= n <= 8,
        forall|cj: int, ci: int|
            in_map_spec(width, height, cj, ci) && near(cj, ci, j, i) ==> cell_at(g2, width, cj, ci)
                == cell_at(g1, width, cj, ci),
    ensures
        live_neighbors_upto(g2, width, height, j, i, n) == live_neighbors_upto(
            g1,
            width,
            height,
            j,
            i,
            n,
        ),
    decreases n,
{
    if n > 0 {
        lemma_live_neighbors_local(g1, g2, width, height, j, i, n - 1);
        lemma_offsets_small(n - 1);
        let oj = offsets()[n - 1].0;
        let oi = offsets()[n - 1].1;
        if in_map_spec(width, height, j + oj, i + oi) {
            assert(near(j + oj, i + oi, j, i));
            assert(cell_at(g2, width, j + oj, i + oi) == cell_at(g1, width, j + oj, i + oi));
        }
    }
}

/// Returns the `n`-th neighbor offset.
pub fn offset_at(n: usize) -> (r: (i8, i8))
    requires
        n < 8,
    ensures
        r.0 as int == offsets()[n as int].0,
        r.1 as int == offsets()[n as int].1,
{
    match n {
        0 => (-1, -1),
        1 => (0, -1),
        2 => (1, -1),
        3 => (-1, 0),
        4 => (1, 0),
        5 => (-1, 1),
        6 => (0, 1),
        _ => (1, 1),
    }
}

/// Counts the live neighbors of the cell in column `j` of row `i`, examining
/// the eight surrounding coordinates and skipping those beyond a grid edge.
pub fn count_neighbors(width: usize, height: usize, grid: &Vec<bool>, j: usize, i: usize) -> (cnt:
    u8)
    requires
        j < width,
        i < height,
        grid@.len() == width as int * height as int,
    ensures
        cnt as nat == live_neighbors(grid@, width as int, height as int, j as int, i as int),
{
    let ghost w = width as int;
    let ghost h = height as int;
    let mut cnt: u8 = 0;
    let mut n: usize = 0;
    while n < 8
        invariant
            n <= 8,
            cnt as int <= n as int,
            j < width,
            i < height,
            grid@.len() == w * h,
            w == width as int,
            h == height as int,
            cnt as nat == live_neighbors_upto(grid@, w, h, j as int, i as int, n as int),
        decreases 8 - n,
    {
        let (oj, oi) = offset_at(n);
        let dj: i128 = j as i128 + oj as i128;
        let di: i128 = i as i128 + oi as i128;
        if in_map(width, height, dj, di) {
            proof {
                lemma_index_in_range(w, h, dj as int, di as int);
            }
            if get_grid(grid, width, dj as usize, di as usize) {
                cnt = cnt + 1;
            }
        }
        n = n + 1;
    }
    cnt
}

} // verus!
