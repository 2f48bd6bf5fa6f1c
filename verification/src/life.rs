//! The simulation state bundle: the grid, its dirty mask and its scratch
//! buffer, created together with one set of dimensions and advanced one
//! generation at a time.

use vstd::prelude::*;
use crate::grid::{cell_at, fill_grid, in_map_spec, index_of, lemma_index_in_range, get_grid};
use crate::step::{
    clean_cells_stable, count_true, dirty_after, one_step, step_n, step_spec,
};
use crate::laws::lemma_dirty_after_sound;

verus! {

/// Why a construction or a query was rejected.
#[derive(Clone, Copy, Debug, PartialEq, Eq, Structural)]
pub enum GridError {
    /// A dimension of zero was asked for at construction.
    ZeroDimension,
    /// The requested grid would have more cells than the machine can address.
    TooLarge,
    /// The seed buffer does not hold exactly `width * height` cells.
    DimensionMismatch,
    /// A queried coordinate lies outside the grid.
    OutOfBounds,
}

/// A running simulation: the current grid, the scratch buffer for the next
/// generation, and the dirty mask of cells the next advance must re-evaluate.
/// All three share the dimensions fixed at construction.
pub struct Life {
    grid: Vec<bool>,
    buffer: Vec<bool>,
    dirty: Vec<bool>,
    width: usize,
    height: usize,
    seed: Ghost<Seq<bool>>,
    generation: Ghost<nat>,
}

impl Life {
    /// The current cell values, row-major.
    pub closed spec fn cells(self) -> Seq<bool> {
        self.grid@
    }

    /// The current dirty mask, row-major.
    pub closed spec fn dirty_mask(self) -> Seq<bool> {
        self.dirty@
    }

    /// Grid width in cells.
    pub closed spec fn spec_width(self) -> int {
        self.width as int
    }

    /// Grid height in cells.
    pub closed spec fn spec_height(self) -> int {
        self.height as int
    }

    /// The cell values the simulation started from.
    pub closed spec fn seed_cells(self) -> Seq<bool> {
        self.seed@
    }

    /// How many generations have been advanced since construction.
    pub closed spec fn generations(self) -> nat {
        self.generation@
    }

    /// Well-formedness: positive dimensions, matching buffer shapes, a sound
    /// dirty mask (every unmarked cell is settled and mirrored in the scratch
    /// buffer), and a grid that is exactly `generations` full steps from the
    /// seed — the incremental engine never drifts from brute-force stepping.
    pub closed spec fn wf(self) -> bool {
        &&& 0 < self.width
        &&& 0 < self.height
        &&& self.grid@.len() == self.spec_width() * self.spec_height()
        &&& self.buffer@.len() == self.grid@.len()
        &&& self.dirty@.len() == self.grid@.len()
        &&& clean_cells_stable(
            self.grid@,
            self.buffer@,
            self.dirty@,
            self.spec_width(),
            self.spec_height(),
        )
        &&& self.seed@.len() == self.grid@.len()
        &&& self.grid@ == step_n(self.seed@, self.spec_width(), self.spec_height(), self.generation@)
    }

    /// Builds a simulation from explicit seed cells, row-major. Rejects a
    /// zero dimension and a seed whose length is not `width * height`; on
    /// success the whole grid is marked dirty, so the first advance evaluates
    /// every cell.
    pub fn new(width: usize, height: usize, cells: Vec<bool>) -> (r: Result<Life, GridError>)
        ensures
            r is Ok <==> (0 < width && 0 < height && cells@.len() == width as int * height as int),
            match r {
                Ok(life) => {
                    &&& life.wf()
                    &&& life.cells() == cells@
                    &&& life.seed_cells() == cells@
                    &&& life.spec_width() == width as int
                    &&& life.spec_height() == height as int
                    &&& life.generations() == 0
                    &&& life.dirty_mask().len() == cells@.len()
                    &&& forall|k: int| 0 <= k < life.dirty_mask().len() ==> life.dirty_mask()[k]
                },
                Err(GridError::ZeroDimension) => width == 0 || height == 0,
                Err(GridError::DimensionMismatch) => 0 < width && 0 < height && cells@.len()
                    != width as int * height as int,
                Err(_) => false,
            },
    {
        if width == 0 || height == 0 {
            return Err(GridError::ZeroDimension);
        }
        let n = cells.len();
        match width.checked_mul(height) {
            Some(total) => {
                if n != total {
                    return Err(GridError::DimensionMismatch);
                }
            },
            None => {
                // more cells than a buffer can hold, so the seed cannot match
                return Err(GridError::DimensionMismatch);
            },
        }
        let buffer = filled(n, false);
        let dirty = filled(n, true);
        let life = Life {
            grid: cells,
            buffer,
            dirty,
            width,
            height,
            seed: Ghost(cells@),
            generation: Ghost(0),
        };
        proof {
            assert forall|j: int, i: int|
                in_map_spec(width as int, height as int, j, i) implies life.dirty@[#[trigger] index_of(
                width as int,
                j,
                i,
            )] by {
                lemma_index_in_range(width as int, height as int, j, i);
            }
            assert(clean_cells_stable(
                life.grid@,
                life.buffer@,
                life.dirty@,
                width as int,
                height as int,
            ));
        }
        assert(life.grid@ == step_n(life.seed@, width as int, height as int, 0));
        Ok(life)
    }

    /// Builds a simulation of the given dimensions, populating the cell in
    /// column `j` of row `i` with `seed_fn(j, i)`. Rejects a zero dimension,
    /// and dimensions whose product no buffer can hold.
    pub fn create<F: Fn(usize, usize) -> bool>(width: usize, height: usize, seed_fn: F) -> (r:
        Result<Life, GridError>)
        requires
            forall|j: usize, i: usize| j < width && i < height ==> call_requires(seed_fn, (j, i)),
        ensures
            r is Ok <==> (0 < width && 0 < height && width as int * height as int
                <= usize::MAX as int),
            match r {
                Ok(life) => {
                    &&& life.wf()
                    &&& life.spec_width() == width as int
                    &&& life.spec_height() == height as int
                    &&& life.generations() == 0
                    &&& life.cells().len() == width as int * height as int
                    &&& life.seed_cells() == life.cells()
                    &&& forall|j: usize, i: usize|
                        j < width && i < height ==> call_ensures(
                            seed_fn,
                            (j, i),
                            #[trigger] life.cells()[i as int * width as int + j as int],
                        )
                    &&& life.dirty_mask().len() == life.cells().len()
                    &&& forall|k: int| 0 <= k < life.dirty_mask().len() ==> life.dirty_mask()[k]
                },
                Err(GridError::ZeroDimension) => width == 0 || height == 0,
                Err(GridError::TooLarge) => 0 < width && 0 < height && width as int * height as int
                    > usize::MAX as int,
                Err(_) => false,
            },
    {
        if width == 0 || height == 0 {
            return Err(GridError::ZeroDimension);
        }
        match width.checked_mul(height) {
            Some(_) => {},
            None => {
                return Err(GridError::TooLarge);
            },
        }
        proof {
            assert(height as int * width as int == width as int * height as int)
                by (nonlinear_arith);
        }
        let cells = fill_grid(height, width, seed_fn);
        match Life::new(width, height, cells) {
            Ok(life) => Ok(life),
            Err(e) => Err(e),
        }
    }

    /// The incremental engine never drifts from brute-force stepping: the
    /// grid of a well-formed simulation is exactly `generations` full
    /// re-evaluations away from its seed.
    pub proof fn lemma_matches_naive_stepping(self)
        requires
            self.wf(),
        ensures
            self.cells() == step_n(
                self.seed_cells(),
                self.spec_width(),
                self.spec_height(),
                self.generations(),
            ),
    {
    }

    /// Advances the simulation one generation in place. The grid moves to
    /// exactly its full next generation, and the dirty mask afterwards marks
    /// exactly the neighborhoods of the cells that changed.
    pub fn advance(&mut self)
        requires
            old(self).wf(),
        ensures
            final(self).wf(),
            final(self).spec_width() == old(self).spec_width(),
            final(self).spec_height() == old(self).spec_height(),
            final(self).cells() == step_spec(
                old(self).cells(),
                old(self).spec_width(),
                old(self).spec_height(),
            ),
            final(self).dirty_mask() == dirty_after(
                old(self).cells(),
                old(self).spec_width(),
                old(self).spec_height(),
            ),
            final(self).seed_cells() == old(self).seed_cells(),
            final(self).generations() == old(self).generations() + 1,
    {
        let ghost g_before = self.grid@;
        one_step(&mut self.grid, &mut self.buffer, self.width, self.height, &mut self.dirty);
        proof {
            self.generation@ = self.generation@ + 1;
            lemma_dirty_after_sound(g_before, self.width as int, self.height as int);
            assert(self.grid@ == step_n(
                self.seed@,
                self.width as int,
                self.height as int,
                self.generation@,
            ));
        }
    }

    /// Reads the liveness of the cell in column `col` of row `row`, rejecting
    /// out-of-bounds coordinates instead of clamping them.
    pub fn get(&self, col: usize, row: usize) -> (r: Result<bool, GridError>)
        requires
            self.wf(),
        ensures
            r is Ok <==> in_map_spec(self.spec_width(), self.spec_height(), col as int, row as int),
            match r {
                Ok(v) => v == cell_at(self.cells(), self.spec_width(), col as int, row as int),
                Err(e) => e == GridError::OutOfBounds,
            },
    {
        if col >= self.width || row >= self.height {
            return Err(GridError::OutOfBounds);
        }
        proof {
            lemma_index_in_range(self.width as int, self.height as int, col as int, row as int);
        }
        Ok(get_grid(&self.grid, self.width, col, row))
    }

    /// Grid width in cells.
    pub fn width(&self) -> (r: usize)
        ensures
            r as int == self.spec_width(),
    {
        self.width
    }

    /// Grid height in cells.
    pub fn height(&self) -> (r: usize)
        ensures
            r as int == self.spec_height(),
    {
        self.height
    }

    /// Diagnostic: how many cells the next advance will re-evaluate.
    pub fn dirty_count(&self) -> (r: usize)
        requires
            self.wf(),
        ensures
            r as nat == count_true(self.dirty_mask()),
    {
        count_trues(&self.dirty)
    }
}

/// Returns a buffer of `n` copies of `v`.
fn filled(n: usize, v: bool) -> (r: Vec<bool>)
    ensures
        r@.len() == n as int,
        forall|k: int| 0 <= k < n as int ==> r@[k] == v,
{
    let mut r: Vec<bool> = Vec::new();
    let mut idx: usize = 0;
    while idx < n
        invariant
            idx <= n,
            r@.len() == idx as int,
            forall|k: int| 0 <= k < idx as int ==> r@[k] == v,
        decreases n - idx,
    {
        r.push(v);
        idx = idx + 1;
    }
    r
}

/// Counts the true entries of a buffer.
fn count_trues(s: &Vec<bool>) -> (r: usize)
    ensures
        r as nat == count_true(s@),
{
    let len = s.len();
    let mut r: usize = 0;
    let mut idx: usize = 0;
    while idx < len
        invariant
            idx <= len,
            len == s@.len(),
            r as int <= idx as int,
            r as nat == count_true(s@.take(idx as int)),
        decreases len - idx,
    {
        proof {
            assert(s@.take(idx as int + 1).drop_last() =~= s@.take(idx as int));
            assert(s@.take(idx as int + 1).last() == s@[idx as int]);
        }
        if s[idx] {
            r = r + 1;
        }
        idx = idx + 1;
    }
    proof {
        assert(s@.take(len as int) =~= s@);
    }
    r
}

} // verus!
