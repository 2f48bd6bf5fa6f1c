//! Flat, row-major grid addressing: index arithmetic, bounds tests, and the
//! elementary accessors that the stepper builds on.

use vstd::prelude::*;
use vstd::arithmetic::div_mod::{
    lemma_fundamental_div_mod, lemma_fundamental_div_mod_converse, lemma_mod_bound,
};

verus! {

/// Row-major flat index of the cell in column `j` of row `i`.
pub open spec fn index_of(width: int, j: int, i: int) -> int {
    i * width + j
}

/// Whether column `j`, row `i` lies inside a `width` by `height` grid.
pub open spec fn in_map_spec(width: int, height: int, j: int, i: int) -> bool {
    0 <= j < width && 0 <= i < height
}

/// The value of the cell in column `j` of row `i` of a row-major grid.
pub open spec fn cell_at(g: Seq<bool>, width: int, j: int, i: int) -> bool {
    g[index_of(width, j, i)]
}

/// An in-bounds coordinate pair maps to a flat index below `width * height`.
pub proof fn lemma_index_in_range(width: int, height: int, j: int, i: int)
    requires
        in_map_spec(width, height, j, i),
    ensures
        0 <= index_of(width, j, i) < width * height,
{
    assert(0 <= i * width + j < width * height) by (nonlinear_arith)
        requires
            0 <= j < width,
            0 <= i < height,
    ;
}

/// Decoding the flat index of an in-bounds coordinate pair gives the pair back.
pub proof fn lemma_index_coords(width: int, height: int, j: int, i: int)
    requires
        in_map_spec(width, height, j, i),
    ensures
        index_of(width, j, i) % width == j,
        index_of(width, j, i) / width == i,
{
    lemma_fundamental_div_mod_converse(i * width + j, width, i, j);
}

/// Every flat index below `width * height` decodes to an in-bounds coordinate
/// pair that encodes back to the same index.
pub proof fn lemma_coords_in_range(width: int, height: int, k: int)
    requires
        0 < width,
        0 <= k < width * height,
    ensures
        in_map_spec(width, height, k % width, k / width),
        index_of(width, k % width, k / width) == k,
{
    lemma_fundamental_div_mod(k, width);
    lemma_mod_bound(k, width);
    assert(0 <= k / width < height) by (nonlinear_arith)
        requires
            0 < width,
            0 <= k < width * height,
            k == width * (k / width) + k % width,
            0 <= k % width < width,
    ;
    assert((k / width) * width == width * (k / width)) by (nonlinear_arith);
}

/// Maps a (column, row) coordinate pair to its flat row-major index.
pub fn coord_to_index(width: usize, j: usize, i: usize) -> (idx: usize)
    requires
        i * width + j <= usize::MAX,
    ensures
        idx == index_of(width as int, j as int, i as int),
{
    i * width + j
}

/// Maps a flat row-major index back to its (column, row) coordinate pair.
pub fn index_to_coord(width: usize, index: usize) -> (r: (usize, usize))
    requires
        0 < width,
    ensures
        r.0 == index as int % width as int,
        r.1 == index as int / width as int,
{
    (index % width, index / width)
}

/// Whether the (possibly shifted, hence signed) coordinates lie on the grid.
pub fn in_map(width: usize, height: usize, j: i128, i: i128) -> (r: bool)
    ensures
        r == in_map_spec(width as int, height as int, j as int, i as int),
{
    j >= 0 && j < width as i128 && i >= 0 && i < height as i128
}

/// Builds a `height * width` row-major buffer, populating the cell in column
/// `j` of row `i` with `f(j, i)`. A grid has positive dimensions, so a zero
/// dimension is excluded here as it is rejected at construction.
pub fn fill_grid<T: Copy, F: Fn(usize, usize) -> T>(height: usize, width: usize, f: F) -> (res:
    Vec<T>)
    requires
        0 < width,
        0 < height,
        height as int * width as int <= usize::MAX as int,
        forall|j: usize, i: usize| j < width && i < height ==> call_requires(f, (j, i)),
    ensures
        res@.len() == height as int * width as int,
        forall|j: usize, i: usize|
            j < width && i < height ==> call_ensures(
                f,
                (j, i),
                #[trigger] res@[i as int * width as int + j as int],
            ),
{
    let total = height * width;
    let mut res: Vec<T> = Vec::new();
    let mut idx: usize = 0;
    while idx < total
        invariant
            idx <= total,
            0 < width,
            0 < height,
            total as int == height as int * width as int,
            res@.len() == idx as int,
            forall|j: usize, i: usize| j < width && i < height ==> call_requires(f, (j, i)),
            forall|k: int|
                0 <= k < idx as int ==> call_ensures(
                    f,
                    ((k % width as int) as usize, (k / width as int) as usize),
                    #[trigger] res@[k],
                ),
        decreases total - idx,
    {
        proof {
            assert(total as int == width as int * height as int) by (nonlinear_arith)
                requires
                    total as int == height as int * width as int,
            ;
            lemma_coords_in_range(width as int, height as int, idx as int);
        }
        let (j, i) = index_to_coord(width, idx);
        let v = f(j, i);
        res.push(v);
        idx = idx + 1;
    }
    proof {
        assert forall|j: usize, i: usize| j < width && i < height implies call_ensures(
            f,
            (j, i),
            #[trigger] res@[i as int * width as int + j as int],
        ) by {
            lemma_index_in_range(width as int, height as int, j as int, i as int);
            lemma_index_coords(width as int, height as int, j as int, i as int);
            let k = i as int * width as int + j as int;
            assert(total as int == width as int * height as int) by (nonlinear_arith)
                requires
                    total as int == height as int * width as int,
            ;
            assert((k % width as int) as usize == j && (k / width as int) as usize == i);
        }
    }
    res
}

/// Reads the cell in column `j` of row `i`. Out-of-extent coordinates are
/// excluded outright: a flat index computed from a column beyond the grid's
/// width would silently alias a cell of the next row.
pub fn get_grid(g: &Vec<bool>, width: usize, j: usize, i: usize) -> (v: bool)
    requires
        j < width,
        i * width + j < g@.len(),
    ensures
        v == cell_at(g@, width as int, j as int, i as int),
{
    let n = g.len();
    assert(i * width + j < n);
    g[coord_to_index(width, j, i)]
}

/// Writes `v` to the cell in column `j` of row `i`. Out-of-extent coordinates
/// are excluded outright, as in `get_grid`.
pub fn set_grid(g: &mut Vec<bool>, width: usize, j: usize, i: usize, v: bool)
    requires
        j < width,
        i * width + j < old(g)@.len(),
    ensures
        final(g)@ == old(g)@.update(index_of(width as int, j as int, i as int), v),
{
    let n = g.len();
    assert(i * width + j < n);
    let idx = coord_to_index(width, j, i);
    g[idx] = v;
}

} // verus!
