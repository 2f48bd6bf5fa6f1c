//! The stepper: the mathematical model of one generation, the dirty-mask
//! bookkeeping that lets a step skip settled cells, and the two executable
//! steppers — the incremental `one_step` and the brute-force `step_naive`.

use vstd::prelude::*;
use crate::grid::{
    cell_at, in_map_spec, index_of, index_to_coord, lemma_coords_in_range, lemma_index_coords,
    lemma_index_in_range, in_map, set_grid,
};
use crate::rules::{
    count_neighbors, dead_or_alive, lemma_offset_index_complete, lemma_offset_index_inverse,
    lemma_offsets_small, near, next_cell, offset_at, offset_index, offsets,
};

verus! {

/// The full next generation of a grid: every cell re-evaluated.
pub open spec fn step_spec(g: Seq<bool>, width: int, height: int) -> Seq<bool> {
    Seq::new((width * height) as nat, |k: int| next_cell(g, width, height, k % width, k / width))
}

/// `n` full generations from `g`.
pub open spec fn step_n(g: Seq<bool>, width: int, height: int, n: nat) -> Seq<bool>
    decreases n,
{
    if n == 0 {
        g
    } else {
        step_spec(step_n(g, width, height, (n - 1) as nat), width, height)
    }
}

/// Whether the cell at (j, i) changes value in the next generation.
pub open spec fn flips(g: Seq<bool>, width: int, height: int, j: int, i: int) -> bool {
    next_cell(g, width, height, j, i) != cell_at(g, width, j, i)
}

/// Whether some in-bounds cell in the 3x3 square centered on (kj, ki) —
/// the cell itself included — flips in the next generation.
pub open spec fn near_flip(g: Seq<bool>, width: int, height: int, kj: int, ki: int) -> bool {
    exists|cj: int, ci: int|
        in_map_spec(width, height, cj, ci) && near(cj, ci, kj, ki) && #[trigger] flips(
            g,
            width,
            height,
            cj,
            ci,
        )
}

/// `near_flip` restricted to the cells a partially completed pass has already
/// examined: those with flat index below `bound`.
spec fn near_flip_upto(
    g: Seq<bool>,
    width: int,
    height: int,
    kj: int,
    ki: int,
    bound: int,
) -> bool {
    exists|cj: int, ci: int|
        in_map_spec(width, height, cj, ci) && index_of(width, cj, ci) < bound && near(
            cj,
            ci,
            kj,
            ki,
        ) && #[trigger] flips(g, width, height, cj, ci)
}

/// Before any cell is examined, no flip has been seen.
proof fn lemma_near_flip_upto_zero(g: Seq<bool>, width: int, height: int, kj: int, ki: int)
    requires
        0 < width,
        0 < height,
    ensures
        !near_flip_upto(g, width, height, kj, ki, 0),
{
    if near_flip_upto(g, width, height, kj, ki, 0) {
        let (cj, ci) = choose|cj: int, ci: int|
            in_map_spec(width, height, cj, ci) && index_of(width, cj, ci) < 0 && near(
                cj,
                ci,
                kj,
                ki,
            ) && #[trigger] flips(g, width, height, cj, ci);
        lemma_index_in_range(width, height, cj, ci);
    }
}

/// Examining one more cell extends the seen-flip predicate by exactly that
/// cell's contribution.
proof fn lemma_near_flip_upto_step(
    g: Seq<bool>,
    width: int,
    height: int,
    kj: int,
    ki: int,
    bound: int,
)
    requires
        0 < width,
        0 < height,
        0 <= bound < width * height,
    ensures
        near_flip_upto(g, width, height, kj, ki, bound + 1) == (near_flip_upto(
            g,
            width,
            height,
            kj,
            ki,
            bound,
        ) || (near(bound % width, bound / width, kj, ki) && flips(
            g,
            width,
            height,
            bound % width,
            bound / width,
        ))),
{
    let bj = bound % width;
    let bi = bound / width;
    lemma_coords_in_range(width, height, bound);
    if near_flip_upto(g, width, height, kj, ki, bound) {
        let (cj, ci) = choose|cj: int, ci: int|
            in_map_spec(width, height, cj, ci) && index_of(width, cj, ci) < bound && near(
                cj,
                ci,
                kj,
                ki,
            ) && #[trigger] flips(g, width, height, cj, ci);
        assert(index_of(width, cj, ci) < bound + 1);
        assert(near_flip_upto(g, width, height, kj, ki, bound + 1));
    }
    if near(bj, bi, kj, ki) && flips(g, width, height, bj, bi) {
        assert(in_map_spec(width, height, bj, bi) && index_of(width, bj, bi) == bound);
        assert(near_flip_upto(g, width, height, kj, ki, bound + 1));
    }
    if near_flip_upto(g, width, height, kj, ki, bound + 1) {
        let (cj, ci) = choose|cj: int, ci: int|
            in_map_spec(width, height, cj, ci) && index_of(width, cj, ci) < bound + 1 && near(
                cj,
                ci,
                kj,
                ki,
            ) && #[trigger] flips(g, width, height, cj, ci);
        if index_of(width, cj, ci) == bound {
            lemma_index_coords(width, height, cj, ci);
            assert(cj == bj && ci == bi);
        } else {
            assert(index_of(width, cj, ci) < bound);
            assert(near_flip_upto(g, width, height, kj, ki, bound));
        }
    }
}

/// Once every cell has been examined, the seen-flip predicate is `near_flip`.
proof fn lemma_near_flip_upto_full(g: Seq<bool>, width: int, height: int, kj: int, ki: int)
    requires
        0 < width,
        0 < height,
    ensures
        near_flip_upto(g, width, height, kj, ki, width * height) == near_flip(
            g,
            width,
            height,
            kj,
            ki,
        ),
{
    if near_flip_upto(g, width, height, kj, ki, width * height) {
        let (cj, ci) = choose|cj: int, ci: int|
            in_map_spec(width, height, cj, ci) && index_of(width, cj, ci) < width * height && near(
                cj,
                ci,
                kj,
                ki,
            ) && #[trigger] flips(g, width, height, cj, ci);
        assert(near_flip(g, width, height, kj, ki));
    }
    if near_flip(g, width, height, kj, ki) {
        let (cj, ci) = choose|cj: int, ci: int|
            in_map_spec(width, height, cj, ci) && near(cj, ci, kj, ki) && #[trigger] flips(
                g,
                width,
                height,
                cj,
                ci,
            );
        lemma_index_in_range(width, height, cj, ci);
        assert(near_flip_upto(g, width, height, kj, ki, width * height));
    }
}

/// The dirty mask one step leaves behind: true exactly at the cells in the
/// neighborhood (themselves included) of some cell whose value changed during
/// that step — the set the next step must re-evaluate.
pub open spec fn dirty_after(g: Seq<bool>, width: int, height: int) -> Seq<bool> {
    Seq::new((width * height) as nat, |k: int| near_flip(g, width, height, k % width, k / width))
}

/// The soundness invariant tying a grid, its scratch buffer and its dirty
/// mask between steps: every cell the mask skips is already settled — its
/// scratch entry mirrors the grid and re-evaluating it would change nothing.
/// An all-true mask satisfies this trivially, which is why the first step
/// after construction may start from any scratch buffer.
pub open spec fn clean_cells_stable(
    g: Seq<bool>,
    buf: Seq<bool>,
    mask: Seq<bool>,
    width: int,
    height: int,
) -> bool {
    forall|j: int, i: int|
        in_map_spec(width, height, j, i) && !mask[#[trigger] index_of(width, j, i)] ==> buf[index_of(
            width,
            j,
            i,
        )] == cell_at(g, width, j, i) && !flips(g, width, height, j, i)
}

/// Whether slot `k` must be marked after the marking loop has handled the
/// first `upto` offsets around the flipped cell (j0, i0): either it was
/// already marked in `snap`, or it is an in-square, non-center slot whose
/// offset has been handled.
spec fn marked_slot(snap: Seq<bool>, width: int, j0: int, i0: int, upto: int, k: int) -> bool {
    snap[k] || (near(j0, i0, k % width, k / width) && !(k % width == j0 && k / width == i0)
        && offset_index(k % width - j0, k / width - i0) < upto)
}

/// Number of true entries of a boolean sequence.
pub open spec fn count_true(s: Seq<bool>) -> nat
    decreases s.len(),
{
    if s.len() == 0 {
        0
    } else {
        count_true(s.drop_last()) + (if s.last() {
            1nat
        } else {
            0nat
        })
    }
}

/// Advances the grid by one generation in place, re-evaluating only the
/// cells marked true in `neighbor_of_changed_cell` (the dirty mask). Pass 1
/// writes the next value of every dirty cell into `buffer` and consumes its
/// mark; pass 2 marks the in-bounds neighborhood of every cell whose value
/// actually changed — a flipped cell can change its neighbors' counts, so
/// they all must be revisited — and commits `buffer` into `grid`. The grid
/// ends up exactly at the full next generation, and the mask left behind is
/// true exactly at the cells the next call must re-evaluate.
///
/// The buffers must share one set of dimensions, and the mask must be sound:
/// every unmarked cell is settled (see `clean_cells_stable`; an all-true
/// mask, as on the first call after construction, is trivially sound).
pub fn one_step(
    grid: &mut Vec<bool>,
    buffer: &mut Vec<bool>,
    width: usize,
    height: usize,
    neighbor_of_changed_cell: &mut Vec<bool>,
)
    requires
        0 < width,
        0 < height,
        old(grid)@.len() == width as int * height as int,
        old(buffer)@.len() == old(grid)@.len(),
        old(neighbor_of_changed_cell)@.len() == old(grid)@.len(),
        clean_cells_stable(
            old(grid)@,
            old(buffer)@,
            old(neighbor_of_changed_cell)@,
            width as int,
            height as int,
        ),
    ensures
        final(grid)@ == step_spec(old(grid)@, width as int, height as int),
        final(buffer)@ == final(grid)@,
        final(neighbor_of_changed_cell)@ == dirty_after(old(grid)@, width as int, height as int),
{
    let ghost w = width as int;
    let ghost h = height as int;
    let ghost g0 = grid@;
    let ghost b0 = buffer@;
    let ghost m0 = neighbor_of_changed_cell@;
    let len = grid.len();

    // Pass 1 — selective evaluation: recompute every marked cell into the
    // scratch buffer and consume its mark.
    let mut idx: usize = 0;
    while idx < len
        invariant
            idx <= len,
            0 < width,
            0 < height,
            w == width as int,
            h == height as int,
            len == g0.len(),
            g0.len() == w * h,
            grid@ == g0,
            buffer@.len() == len,
            neighbor_of_changed_cell@.len() == len,
            m0.len() == len,
            b0.len() == len,
            forall|k: int|
                0 <= k < idx as int ==> buffer@[k] == (if m0[k] {
                    next_cell(g0, w, h, k % w, k / w)
                } else {
                    b0[k]
                }),
            forall|k: int| idx as int <= k < len ==> buffer@[k] == b0[k],
            forall|k: int| 0 <= k < idx as int ==> !neighbor_of_changed_cell@[k],
            forall|k: int| idx as int <= k < len ==> neighbor_of_changed_cell@[k] == m0[k],
        decreases len - idx,
    {
        if neighbor_of_changed_cell[idx] {
            proof {
                lemma_coords_in_range(w, h, idx as int);
            }
            let (j, i) = index_to_coord(width, idx);
            let neighbors = count_neighbors(width, height, grid, j, i);
            let here = grid[idx];
            assert(here == cell_at(g0, w, j as int, i as int));
            let v = dead_or_alive(here, neighbors);
            buffer[idx] = v;
            neighbor_of_changed_cell[idx] = false;
        }
        idx = idx + 1;
    }

    let ghost b1 = buffer@;
    proof {
        crate::laws::lemma_selective_update_is_full_step(g0, b0, m0, w, h);
        assert(b1 =~= Seq::new(
            g0.len(),
            |k: int|
                if m0[k] {
                    next_cell(g0, w, h, k % w, k / w)
                } else {
                    b0[k]
                },
        ));
        assert(b1 == step_spec(g0, w, h));
        assert forall|k: int| 0 <= k < len implies (neighbor_of_changed_cell@[k]
            <==> near_flip_upto(g0, w, h, k % w, k / w, 0)) by {
            lemma_near_flip_upto_zero(g0, w, h, k % w, k / w);
        }
    }

    // Pass 2 — change propagation and commit: where the recomputed value
    // differs from the current one, mark the cell and its in-bounds
    // neighbors for the next call; then write the recomputed value through.
    let mut idx: usize = 0;
    while idx < len
        invariant
            idx <= len,
            0 < width,
            0 < height,
            w == width as int,
            h == height as int,
            len == g0.len(),
            g0.len() == w * h,
            buffer@ == b1,
            b1.len() == len,
            b1 == step_spec(g0, w, h),
            grid@.len() == len,
            neighbor_of_changed_cell@.len() == len,
            m0.len() == len,
            b0.len() == len,
            clean_cells_stable(g0, b0, m0, w, h),
            forall|k: int|
                0 <= k < len ==> b1[k] == (if m0[k] {
                    next_cell(g0, w, h, k % w, k / w)
                } else {
                    b0[k]
                }),
            forall|k: int| 0 <= k < idx as int ==> grid@[k] == b1[k],
            forall|k: int| idx as int <= k < len ==> grid@[k] == g0[k],
            forall|k: int|
                0 <= k < len ==> (neighbor_of_changed_cell@[k] <==> near_flip_upto(
                    g0,
                    w,
                    h,
                    k % w,
                    k / w,
                    idx as int,
                )),
        decreases len - idx,
    {
        proof {
            lemma_coords_in_range(w, h, idx as int);
        }
        let ghost j_ = idx as int % w;
        let ghost i_ = idx as int / w;
        let here = grid[idx];
        let next_v = buffer[idx];
        proof {
            assert(index_of(w, j_, i_) == idx as int);
            assert(here == g0[idx as int]);
            if !m0[idx as int] {
                assert(b0[index_of(w, j_, i_)] == cell_at(g0, w, j_, i_) && !flips(
                    g0,
                    w,
                    h,
                    j_,
                    i_,
                ));
            }
            assert((next_v != here) == flips(g0, w, h, j_, i_));
        }
        if next_v != here {
            let (j, i) = index_to_coord(width, idx);
            let ghost snap = neighbor_of_changed_cell@;
            let mut n: usize = 0;
            while n < 8
                invariant
                    n <= 8,
                    0 < width,
                    0 < height,
                    w == width as int,
                    h == height as int,
                    len == w * h,
                    j as int == j_,
                    i as int == i_,
                    in_map_spec(w, h, j_, i_),
                    idx as int == index_of(w, j_, i_),
                    idx < len,
                    neighbor_of_changed_cell@.len() == len,
                    snap.len() == len,
                    forall|k: int|
                        0 <= k < len ==> (neighbor_of_changed_cell@[k] <==> #[trigger] marked_slot(
                            snap,
                            w,
                            j_,
                            i_,
                            n as int,
                            k,
                        )),
                decreases 8 - n,
            {
                let ghost mask_before = neighbor_of_changed_cell@;
                let (oj, oi) = offset_at(n);
                let dj: i128 = j as i128 + oj as i128;
                let di: i128 = i as i128 + oi as i128;
                if in_map(width, height, dj, di) {
                    proof {
                        lemma_index_in_range(w, h, dj as int, di as int);
                    }
                    set_grid(neighbor_of_changed_cell, width, dj as usize, di as usize, true);
                }
                proof {
                    let nn = n as int;
                    let oj_ = offsets()[nn].0;
                    let oi_ = offsets()[nn].1;
                    assert(oj_ == oj as int && oi_ == oi as int);
                    assert(dj as int == j_ + oj_ && di as int == i_ + oi_);
                    lemma_offsets_small(nn);
                    assert forall|k: int| 0 <= k < len implies (neighbor_of_changed_cell@[k]
                        <==> #[trigger] marked_slot(snap, w, j_, i_, nn + 1, k)) by {
                        lemma_coords_in_range(w, h, k);
                        let kj = k % w;
                        let ki = k / w;
                        assert(mask_before[k] <==> marked_slot(snap, w, j_, i_, nn, k));
                        let newhit = in_map_spec(w, h, j_ + oj_, i_ + oi_) && k == index_of(
                            w,
                            j_ + oj_,
                            i_ + oi_,
                        );
                        if newhit {
                            assert(neighbor_of_changed_cell@[k]);
                            lemma_index_coords(w, h, j_ + oj_, i_ + oi_);
                            assert(kj == j_ + oj_ && ki == i_ + oi_);
                            assert(near(j_, i_, kj, ki));
                            assert(!(kj == j_ && ki == i_));
                            lemma_offset_index_inverse(nn);
                            assert(offset_index(kj - j_, ki - i_) == nn);
                            assert(marked_slot(snap, w, j_, i_, nn + 1, k));
                        } else {
                            assert(neighbor_of_changed_cell@[k] == mask_before[k]);
                            if near(j_, i_, kj, ki) && !(kj == j_ && ki == i_) && offset_index(
                                kj - j_,
                                ki - i_,
                            ) == nn {
                                lemma_offset_index_complete(kj - j_, ki - i_);
                                assert(offsets()[nn] == (kj - j_, ki - i_));
                                assert(kj == j_ + oj_ && ki == i_ + oi_);
                                assert(in_map_spec(w, h, kj, ki));
                                assert(k == index_of(w, kj, ki));
                                assert(false);
                            }
                            assert(marked_slot(snap, w, j_, i_, nn + 1, k) == marked_slot(
                                snap,
                                w,
                                j_,
                                i_,
                                nn,
                                k,
                            ));
                        }
                    }
                }
                n = n + 1;
            }
            neighbor_of_changed_cell[idx] = true;
            proof {
                let marked = neighbor_of_changed_cell@;
                assert(flips(g0, w, h, j_, i_));
                assert forall|k: int| 0 <= k < len implies (marked[k] <==> #[trigger] near_flip_upto(
                    g0,
                    w,
                    h,
                    k % w,
                    k / w,
                    idx as int + 1,
                )) by {
                    lemma_coords_in_range(w, h, k);
                    let kj = k % w;
                    let ki = k / w;
                    assert(snap[k] <==> near_flip_upto(g0, w, h, kj, ki, idx as int));
                    lemma_near_flip_upto_step(g0, w, h, kj, ki, idx as int);
                    // after the marking loop and the self-mark, a slot is
                    // marked exactly when it was, or when it lies in the 3x3
                    // square centered on the flipped cell
                    if k == idx as int {
                        assert(marked[k]);
                        assert(kj == j_ && ki == i_);
                        assert(near(j_, i_, kj, ki));
                    } else {
                        assert(marked[k] <==> marked_slot(snap, w, j_, i_, 8, k));
                        if near(j_, i_, kj, ki) && !(kj == j_ && ki == i_) {
                            lemma_offset_index_complete(kj - j_, ki - i_);
                            assert(offset_index(kj - j_, ki - i_) < 8);
                        }
                        if kj == j_ && ki == i_ {
                            assert(k == index_of(w, kj, ki));
                            assert(false);
                        }
                    }
                }
            }
        } else {
            proof {
                assert(!flips(g0, w, h, j_, i_));
                assert forall|k: int| 0 <= k < len implies (neighbor_of_changed_cell@[k]
                    <==> near_flip_upto(g0, w, h, k % w, k / w, idx as int + 1)) by {
                    lemma_near_flip_upto_step(g0, w, h, k % w, k / w, idx as int);
                }
            }
        }
        let commit = buffer[idx];
        grid[idx] = commit;
        idx = idx + 1;
    }

    proof {
        assert(grid@ =~= b1);
        assert forall|k: int| 0 <= k < len implies (neighbor_of_changed_cell@[k] == dirty_after(
            g0,
            w,
            h,
        )[k]) by {
            lemma_coords_in_range(w, h, k);
            lemma_near_flip_upto_full(g0, w, h, k % w, k / w);
        }
        assert(neighbor_of_changed_cell@ =~= dirty_after(g0, w, h));
    }
}

/// Recomputes every cell of the grid and returns the full next generation.
pub fn step_naive(grid: &Vec<bool>, width: usize, height: usize) -> (next: Vec<bool>)
    requires
        0 < width,
        0 < height,
        grid@.len() == width as int * height as int,
    ensures
        next@ == step_spec(grid@, width as int, height as int),
{
    let ghost w = width as int;
    let ghost h = height as int;
    let len = grid.len();
    let mut next: Vec<bool> = Vec::new();
    let mut idx: usize = 0;
    while idx < len
        invariant
            idx <= len,
            0 < width,
            0 < height,
            w == width as int,
            h == height as int,
            grid@.len() == w * h,
            len == grid@.len(),
            next@.len() == idx as int,
            forall|k: int|
                0 <= k < idx as int ==> next@[k] == next_cell(grid@, w, h, k % w, k / w),
        decreases len - idx,
    {
        let (j, i) = index_to_coord(width, idx);
        proof {
            lemma_coords_in_range(w, h, idx as int);
        }
        let neighbors = count_neighbors(width, height, grid, j, i);
        let here = grid[idx];
        assert(here == cell_at(grid@, w, j as int, i as int));
        next.push(dead_or_alive(here, neighbors));
        idx = idx + 1;
    }
    proof {
        assert(next@ =~= step_spec(grid@, w, h));
    }
    next
}

} // verus!
