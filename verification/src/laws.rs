//! The engine's laws, as proved statements: selective re-evaluation equals
//! full re-evaluation, the dirty mask a step leaves behind is sound for the
//! next step, a stable grid leaves no dirty cells, an all-dead grid stays
//! all-dead, and a corner cell counts only its in-bounds neighbors.

use vstd::prelude::*;
use crate::grid::{
    cell_at, in_map_spec, index_of, lemma_coords_in_range, lemma_index_coords,
    lemma_index_in_range,
};
use crate::rules::{
    lemma_live_neighbors_local, lemma_offsets_small, live_neighbors,
    live_neighbors_upto, near, next_cell, offsets,
};
use crate::step::{
    clean_cells_stable, count_true, dirty_after, flips, near_flip, step_n, step_spec,
};

verus! {

/// Evaluating only the masked cells and keeping the scratch entries of the
/// rest yields exactly the full next generation, provided every skipped cell
/// was settled. This is why the incremental stepper agrees bit for bit with
/// the brute-force one.
pub proof fn lemma_selective_update_is_full_step(
    g: Seq<bool>,
    buf: Seq<bool>,
    mask: Seq<bool>,
    width: int,
    height: int,
)
    requires
        0 < width,
        0 < height,
        g.len() == width * height,
        buf.len() == g.len(),
        mask.len() == g.len(),
        clean_cells_stable(g, buf, mask, width, height),
    ensures
        Seq::new(
            g.len(),
            |k: int|
                if mask[k] {
                    next_cell(g, width, height, k % width, k / width)
                } else {
                    buf[k]
                },
        ) == step_spec(g, width, height),
{
    let s = Seq::new(
        g.len(),
        |k: int|
            if mask[k] {
                next_cell(g, width, height, k % width, k / width)
            } else {
                buf[k]
            },
    );
    assert forall|k: int| 0 <= k < g.len() implies s[k] == step_spec(g, width, height)[k] by {
        lemma_coords_in_range(width, height, k);
        let j = k % width;
        let i = k / width;
        if !mask[k] {
            assert(!mask[index_of(width, j, i)]);
            assert(buf[k] == cell_at(g, width, j, i));
            assert(!flips(g, width, height, j, i));
        }
    }
    assert(s =~= step_spec(g, width, height));
}

/// The mask a step leaves behind is sound for the next step: taking the new
/// grid as its own scratch buffer, every cell the new mask skips is settled.
/// A cell none of whose neighbors changed keeps its neighbor count, so a cell
/// outside every changed neighborhood cannot flip next generation.
pub proof fn lemma_dirty_after_sound(g: Seq<bool>, width: int, height: int)
    requires
        0 < width,
        0 < height,
        g.len() == width * height,
    ensures
        clean_cells_stable(
            step_spec(g, width, height),
            step_spec(g, width, height),
            dirty_after(g, width, height),
            width,
            height,
        ),
{
    let g2 = step_spec(g, width, height);
    let mask = dirty_after(g, width, height);
    assert forall|j: int, i: int|
        in_map_spec(width, height, j, i) && !mask[#[trigger] index_of(width, j, i)] implies g2[index_of(
        width,
        j,
        i,
    )] == cell_at(g2, width, j, i) && !flips(g2, width, height, j, i) by {
        lemma_index_in_range(width, height, j, i);
        lemma_index_coords(width, height, j, i);
        let k = index_of(width, j, i);
        assert(mask[k] == near_flip(g, width, height, j, i));
        // No in-bounds cell near (j, i) flipped, so all of them kept their value.
        assert forall|cj: int, ci: int|
            in_map_spec(width, height, cj, ci) && near(cj, ci, j, i) implies cell_at(
            g2,
            width,
            cj,
            ci,
        ) == cell_at(g, width, cj, ci) by {
            assert(!flips(g, width, height, cj, ci));
            lemma_index_in_range(width, height, cj, ci);
            lemma_index_coords(width, height, cj, ci);
            let c = index_of(width, cj, ci);
            assert(g2[c] == next_cell(g, width, height, cj, ci));
        }
        lemma_live_neighbors_local(g, g2, width, height, j, i, 8);
        assert(near(j, i, j, i));
        assert(!flips(g, width, height, j, i));
        assert(cell_at(g2, width, j, i) == cell_at(g, width, j, i));
        assert(live_neighbors(g2, width, height, j, i) == live_neighbors(g, width, height, j, i));
        assert(next_cell(g2, width, height, j, i) == next_cell(g, width, height, j, i));
    }
}

/// A sequence without a true entry counts zero true entries.
pub proof fn lemma_count_true_zero(s: Seq<bool>)
    requires
        forall|k: int| 0 <= k < s.len() ==> !s[k],
    ensures
        count_true(s) == 0,
    decreases s.len(),
{
    if s.len() > 0 {
        assert(forall|k: int| 0 <= k < s.drop_last().len() ==> !s.drop_last()[k]);
        lemma_count_true_zero(s.drop_last());
    }
}

/// A grid on which a full step changes nothing leaves an all-false dirty
/// mask: once the simulation is stable, the dirty-cell count is zero and
/// stays zero.
pub proof fn lemma_stable_grid_leaves_no_dirty(g: Seq<bool>, width: int, height: int)
    requires
        0 < width,
        0 < height,
        g.len() == width * height,
        step_spec(g, width, height) == g,
    ensures
        forall|k: int| 0 <= k < width * height ==> !dirty_after(g, width, height)[k],
        count_true(dirty_after(g, width, height)) == 0,
{
    assert forall|cj: int, ci: int| in_map_spec(width, height, cj, ci) implies !flips(
        g,
        width,
        height,
        cj,
        ci,
    ) by {
        lemma_index_in_range(width, height, cj, ci);
        lemma_index_coords(width, height, cj, ci);
        let c = index_of(width, cj, ci);
        assert(step_spec(g, width, height)[c] == next_cell(g, width, height, cj, ci));
        assert(g[c] == cell_at(g, width, cj, ci));
    }
    let mask = dirty_after(g, width, height);
    assert forall|k: int| 0 <= k < width * height implies !mask[k] by {
        lemma_coords_in_range(width, height, k);
        if near_flip(g, width, height, k % width, k / width) {
            let (cj, ci) = choose|cj: int, ci: int|
                in_map_spec(width, height, cj, ci) && near(cj, ci, k % width, k / width)
                    && #[trigger] flips(g, width, height, cj, ci);
            assert(false);
        }
    }
    lemma_count_true_zero(mask);
}

/// A grid on which a full step changes nothing never changes again: every
/// later generation is the same grid.
pub proof fn lemma_stable_grid_stays_forever(g: Seq<bool>, width: int, height: int, n: nat)
    requires
        0 < width,
        0 < height,
        g.len() == width * height,
        step_spec(g, width, height) == g,
    ensures
        step_n(g, width, height, n) == g,
    decreases n,
{
    if n > 0 {
        lemma_stable_grid_stays_forever(g, width, height, (n - 1) as nat);
    }
}

/// An all-dead grid gives every cell zero live neighbors.
proof fn lemma_live_neighbors_upto_all_dead(
    g: Seq<bool>,
    width: int,
    height: int,
    j: int,
    i: int,
    n: int,
)
    requires
        g.len() == width * height,
        forall|k: int| 0 <= k < g.len() ==> !g[k],
        0 <= n <= 8,
    ensures
        live_neighbors_upto(g, width, height, j, i, n) == 0,
    decreases n,
{
    if n > 0 {
        lemma_live_neighbors_upto_all_dead(g, width, height, j, i, n - 1);
        lemma_offsets_small(n - 1);
        let oj = offsets()[n - 1].0;
        let oi = offsets()[n - 1].1;
        if in_map_spec(width, height, j + oj, i + oi) {
            lemma_index_in_range(width, height, j + oj, i + oi);
            assert(!g[index_of(width, j + oj, i + oi)]);
        }
    }
}

/// One step of an all-dead grid is the same all-dead grid: with no live
/// neighbors anywhere, no cell is born.
pub proof fn lemma_all_dead_stable(g: Seq<bool>, width: int, height: int)
    requires
        0 < width,
        0 < height,
        g.len() == width * height,
        forall|k: int| 0 <= k < g.len() ==> !g[k],
    ensures
        step_spec(g, width, height) == g,
{
    assert forall|k: int| 0 <= k < g.len() implies step_spec(g, width, height)[k] == g[k] by {
        lemma_coords_in_range(width, height, k);
        lemma_live_neighbors_upto_all_dead(g, width, height, k % width, k / width, 8);
        assert(!g[index_of(width, k % width, k / width)]);
        assert(!cell_at(g, width, k % width, k / width));
    }
    assert(step_spec(g, width, height) =~= g);
}

/// An all-dead grid remains all-dead after any number of generations.
pub proof fn lemma_all_dead_forever(g: Seq<bool>, width: int, height: int, n: nat)
    requires
        0 < width,
        0 < height,
        g.len() == width * height,
        forall|k: int| 0 <= k < g.len() ==> !g[k],
    ensures
        step_n(g, width, height, n) == g,
{
    lemma_all_dead_stable(g, width, height);
    lemma_stable_grid_stays_forever(g, width, height, n);
}

/// At the top-left corner only three of the eight surrounding coordinates
/// are on the grid, and the neighbor count is exactly the number of live
/// cells among those three.
pub proof fn lemma_corner_neighbor_count(g: Seq<bool>, width: int, height: int)
    requires
        2 <= width,
        2 <= height,
        g.len() == width * height,
    ensures
        live_neighbors(g, width, height, 0, 0) == (if cell_at(g, width, 1, 0) {
            1nat
        } else {
            0nat
        }) + (if cell_at(g, width, 0, 1) {
            1nat
        } else {
            0nat
        }) + (if cell_at(g, width, 1, 1) {
            1nat
        } else {
            0nat
        }),
{
    assert(offsets()[0] == (-1int, -1int));
    assert(offsets()[1] == (0int, -1int));
    assert(offsets()[2] == (1int, -1int));
    assert(offsets()[3] == (-1int, 0int));
    assert(offsets()[4] == (1int, 0int));
    assert(offsets()[5] == (-1int, 1int));
    assert(offsets()[6] == (0int, 1int));
    assert(offsets()[7] == (1int, 1int));
    assert(live_neighbors_upto(g, width, height, 0, 0, 0) == 0);
    assert(live_neighbors_upto(g, width, height, 0, 0, 1) == 0);
    assert(live_neighbors_upto(g, width, height, 0, 0, 2) == 0);
    assert(live_neighbors_upto(g, width, height, 0, 0, 3) == 0);
    assert(live_neighbors_upto(g, width, height, 0, 0, 4) == 0);
    assert(live_neighbors_upto(g, width, height, 0, 0, 5) == live_neighbors_upto(
        g,
        width,
        height,
        0,
        0,
        4,
    ) + (if cell_at(g, width, 1, 0) {
        1nat
    } else {
        0nat
    }));
    assert(live_neighbors_upto(g, width, height, 0, 0, 6) == live_neighbors_upto(
        g,
        width,
        height,
        0,
        0,
        5,
    ));
    assert(live_neighbors_upto(g, width, height, 0, 0, 7) == live_neighbors_upto(
        g,
        width,
        height,
        0,
        0,
        6,
    ) + (if cell_at(g, width, 0, 1) {
        1nat
    } else {
        0nat
    }));
    assert(live_neighbors_upto(g, width, height, 0, 0, 8) == live_neighbors_upto(
        g,
        width,
        height,
        0,
        0,
        7,
    ) + (if cell_at(g, width, 1, 1) {
        1nat
    } else {
        0nat
    }));
}

} // verus!
