//! Properties of the archive that relate several operations or hold across
//! sequences of them.
use vstd::prelude::*;
use crate::binary64::{is_nan, order_key};
use crate::elites_map::{
    candidates_from, fitnesses_are_numbers, is_top, neighbor_candidates, placed, placed_all,
};
use crate::individual::IndividualView;
use crate::elites_map::{sorted_by_fitness, ElitesMap};

verus! {

/// No fitness among `xs` is NaN.
pub open spec fn all_numbers(xs: Seq<IndividualView>) -> bool {
    forall|i: int| 0 <= i < xs.len() ==> !is_nan(#[trigger] xs[i].fitness)
}

/// The greatest fitness (as an order key) among the individuals of `xs`
/// offered to `cell`, or `None` if none was.
pub open spec fn best_offered(cells: Seq<Seq<usize>>, xs: Seq<IndividualView>, cell: Seq<usize>) -> Option<int>
    decreases xs.len(),
{
    if xs.len() == 0 || cells.len() != xs.len() {
        None
    } else {
        let before = best_offered(cells.drop_last(), xs.drop_last(), cell);
        if cells.last() != cell {
            before
        } else {
            match before {
                None => Some(order_key(xs.last().fitness)),
                Some(b) => Some(if b >= order_key(xs.last().fitness) { b } else { order_key(xs.last().fitness) }),
            }
        }
    }
}

/// Placing never lowers the fitness held in a cell, and never empties one.
proof fn lemma_placed_dominates(m: Map<Seq<usize>, IndividualView>, cell: Seq<usize>, x: IndividualView)
    requires
        fitnesses_are_numbers(m),
        !is_nan(x.fitness),
    ensures
        fitnesses_are_numbers(placed(m, cell, x)),
        placed(m, cell, x).contains_key(cell),
        order_key(placed(m, cell, x)[cell].fitness) >= order_key(x.fitness),
        forall|c: Seq<usize>| #[trigger] m.contains_key(c) ==> placed(m, cell, x).contains_key(c)
            && order_key(placed(m, cell, x)[c].fitness) >= order_key(m[c].fitness),
{
}

proof fn lemma_placed_all_dominates(m: Map<Seq<usize>, IndividualView>, cells: Seq<Seq<usize>>, xs: Seq<IndividualView>)
    requires
        fitnesses_are_numbers(m),
        all_numbers(xs),
    ensures
        fitnesses_are_numbers(placed_all(m, cells, xs)),
        forall|c: Seq<usize>| #[trigger] m.contains_key(c) ==> placed_all(m, cells, xs).contains_key(c)
            && order_key(placed_all(m, cells, xs)[c].fitness) >= order_key(m[c].fitness),
    decreases xs.len(),
{
    if xs.len() > 0 && cells.len() == xs.len() {
        lemma_placed_all_dominates(m, cells.drop_last(), xs.drop_last());
        lemma_placed_dominates(placed_all(m, cells.drop_last(), xs.drop_last()), cells.last(), xs.last());
    }
}

/// After `x` is placed, the top individual is at least as fit as `x`.
pub proof fn lemma_top_after_insertion(
    m: Map<Seq<usize>, IndividualView>,
    cell: Seq<usize>,
    x: IndividualView,
    top: IndividualView,
)
    requires
        fitnesses_are_numbers(m),
        !is_nan(x.fitness),
        is_top(placed(m, cell, x), top),
    ensures
        order_key(top.fitness) >= order_key(x.fitness),
{
    lemma_placed_dominates(m, cell, x);
    assert(placed(m, cell, x).contains_key(cell));
}

/// Whatever individuals are offered, in whatever order, each cell ends up
/// holding the greatest fitness offered to it (or keeps what it held, where
/// that is greater); a cell offered nothing stays as it was.
pub proof fn lemma_cell_keeps_maximum(cells: Seq<Seq<usize>>, xs: Seq<IndividualView>, cell: Seq<usize>)
    requires
        cells.len() == xs.len(),
        all_numbers(xs),
    ensures
        best_offered(cells, xs, cell) is None ==> !placed_all(Map::empty(), cells, xs).contains_key(cell),
        best_offered(cells, xs, cell) is Some ==> placed_all(Map::empty(), cells, xs).contains_key(cell)
            && order_key(placed_all(Map::empty(), cells, xs)[cell].fitness) == best_offered(cells, xs, cell).unwrap(),
    decreases xs.len(),
{
    if xs.len() > 0 {
        assert(all_numbers(xs.drop_last())) by {
            assert forall|i: int| 0 <= i < xs.drop_last().len() implies !is_nan(#[trigger] xs.drop_last()[i].fitness) by {
                assert(xs.drop_last()[i] == xs[i]);
            }
        }
        lemma_cell_keeps_maximum(cells.drop_last(), xs.drop_last(), cell);
        lemma_placed_all_dominates(Map::empty(), cells.drop_last(), xs.drop_last());
        assert(!is_nan(xs.last().fitness));
    }
}

/// Re-binning loses no individual unless a fitter one took its new cell:
/// each individual offered ends up in, or beaten at, its cell, and every
/// stored individual is one of those offered, in the cell it was offered to.
pub proof fn lemma_rebinning_keeps_individuals(cells: Seq<Seq<usize>>, xs: Seq<IndividualView>)
    requires
        cells.len() == xs.len(),
        all_numbers(xs),
    ensures
        forall|i: int| 0 <= i < xs.len() ==> placed_all(Map::empty(), cells, xs).contains_key(#[trigger] cells[i])
            && order_key(placed_all(Map::empty(), cells, xs)[cells[i]].fitness) >= order_key(xs[i].fitness),
        forall|c: Seq<usize>| #[trigger] placed_all(Map::empty(), cells, xs).contains_key(c)
            ==> exists|i: int| 0 <= i < xs.len() && cells[i] == c && placed_all(Map::empty(), cells, xs)[c] == xs[i],
    decreases xs.len(),
{
    if xs.len() > 0 {
        let cs = cells.drop_last();
        let ys = xs.drop_last();
        assert(all_numbers(ys)) by {
            assert forall|i: int| 0 <= i < ys.len() implies !is_nan(#[trigger] ys[i].fitness) by {
                assert(ys[i] == xs[i]);
            }
        }
        lemma_rebinning_keeps_individuals(cs, ys);
        let before = placed_all(Map::empty(), cs, ys);
        assert(fitnesses_are_numbers(before)) by {
            assert forall|c: Seq<usize>| #[trigger] before.contains_key(c) implies !is_nan(before[c].fitness) by {
                let i = choose|i: int| 0 <= i < ys.len() && cs[i] == c && before[c] == ys[i];
            }
        }
        assert(!is_nan(xs.last().fitness));
        lemma_placed_dominates(before, cells.last(), xs.last());
        let after = placed_all(Map::empty(), cells, xs);
        assert forall|i: int| 0 <= i < xs.len() implies after.contains_key(#[trigger] cells[i])
            && order_key(after[cells[i]].fitness) >= order_key(xs[i].fitness) by {
            if i < xs.len() - 1 {
                assert(cs[i] == cells[i] && ys[i] == xs[i]);
                assert(before.contains_key(cs[i]));
            }
        }
        assert forall|c: Seq<usize>| #[trigger] after.contains_key(c)
            implies exists|i: int| 0 <= i < xs.len() && cells[i] == c && after[c] == xs[i] by {
            if c == cells.last() && after[c] == xs.last() {
                assert(cells[xs.len() - 1] == c);
            } else {
                assert(before.contains_key(c));
                let i = choose|i: int| 0 <= i < ys.len() && cs[i] == c && before[c] == ys[i];
                assert(cells[i] == c && xs[i] == ys[i]);
            }
        }
    }
}

/// A generation never lowers the best fitness in the archive.
pub proof fn lemma_generation_keeps_best(
    m: Map<Seq<usize>, IndividualView>,
    cells: Seq<Seq<usize>>,
    xs: Seq<IndividualView>,
    top_before: IndividualView,
    top_after: IndividualView,
)
    requires
        fitnesses_are_numbers(m),
        all_numbers(xs),
        is_top(m, top_before),
        is_top(placed_all(m, cells, xs), top_after),
    ensures
        order_key(top_after.fitness) >= order_key(top_before.fitness),
{
    lemma_placed_all_dominates(m, cells, xs);
    let c = choose|c: Seq<usize>| #[trigger] m.contains_key(c) && m[c] == top_before;
    assert(placed_all(m, cells, xs).contains_key(c));
}

/// Offering the same individual to the same cell a second time changes
/// nothing.
pub proof fn lemma_reinsertion_is_noop(m: Map<Seq<usize>, IndividualView>, cell: Seq<usize>, x: IndividualView)
    ensures
        placed(placed(m, cell, x), cell, x) == placed(m, cell, x),
{
}

/// A cell in a corner of the grid, every coordinate at the lowest or the
/// highest bin, has exactly one neighbour position per dimension.
pub proof fn lemma_corner_candidates(pos: Seq<usize>, resolution: usize)
    requires
        resolution > 0,
        forall|i: int| 0 <= i < pos.len() ==> #[trigger] pos[i] == 0 || pos[i] == resolution - 1,
    ensures
        neighbor_candidates(pos, resolution).len() == pos.len(),
{
    lemma_corner_candidates_from(pos, resolution, 0);
}

proof fn lemma_corner_candidates_from(pos: Seq<usize>, resolution: usize, i: int)
    requires
        0 <= i <= pos.len(),
        resolution > 0,
        forall|j: int| 0 <= j < pos.len() ==> #[trigger] pos[j] == 0 || pos[j] == resolution - 1,
    ensures
        candidates_from(pos, resolution, i).len() == pos.len() - i,
    decreases pos.len() - i,
{
    if i < pos.len() {
        lemma_corner_candidates_from(pos, resolution, i + 1);
        assert(pos[i] == 0 || pos[i] == resolution - 1);
    }
}

/// Weighted selection from an archive with one occupied cell can only return
/// the individual stored there.
pub proof fn lemma_single_cell_selection(m: Map<Seq<usize>, IndividualView>, cell: Seq<usize>, r: IndividualView)
    requires
        m.dom() == set![cell],
        exists|c: Seq<usize>| #[trigger] m.contains_key(c) && m[c] == r,
    ensures
        r == m[cell],
{
    let c = choose|c: Seq<usize>| #[trigger] m.contains_key(c) && m[c] == r;
    assert(m.dom().contains(c));
}

proof fn lemma_distinct_cells_all_stored(cells: Seq<Seq<usize>>, xs: Seq<IndividualView>)
    requires
        cells.len() == xs.len(),
        forall|i: int, j: int| 0 <= i < j < cells.len() ==> cells[i] != cells[j],
    ensures
        forall|c: Seq<usize>| #[trigger] placed_all(Map::empty(), cells, xs).contains_key(c)
            <==> exists|i: int| 0 <= i < cells.len() && cells[i] == c,
        forall|i: int| 0 <= i < cells.len() ==> #[trigger] placed_all(Map::empty(), cells, xs)[cells[i]] == xs[i],
    decreases xs.len(),
{
    if xs.len() > 0 {
        let cs = cells.drop_last();
        let ys = xs.drop_last();
        lemma_distinct_cells_all_stored(cs, ys);
        let before = placed_all(Map::empty(), cs, ys);
        let n = cells.len() - 1;
        assert(cells.last() == cells[n]);
        assert(!before.contains_key(cells[n])) by {
            if before.contains_key(cells[n]) {
                let i = choose|i: int| 0 <= i < cs.len() && cs[i] == cells[n];
                assert(cells[i] == cells[n]);
            }
        }
        let after = placed_all(Map::empty(), cells, xs);
        assert(after == before.insert(cells[n], xs[n]));
        assert forall|c: Seq<usize>| #[trigger] after.contains_key(c)
            implies exists|i: int| 0 <= i < cells.len() && cells[i] == c by {
            if c != cells[n] {
                let i = choose|i: int| 0 <= i < cs.len() && cs[i] == c;
                assert(cells[i] == c);
            }
        }
        assert forall|c: Seq<usize>| (exists|i: int| 0 <= i < cells.len() && cells[i] == c)
            implies #[trigger] after.contains_key(c) by {
            let i = choose|i: int| 0 <= i < cells.len() && cells[i] == c;
            if i < n {
                assert(cs[i] == c);
            }
        }
        assert forall|i: int| 0 <= i < cells.len() implies #[trigger] after[cells[i]] == xs[i] by {
            if i < n {
                assert(cs[i] == cells[i] && ys[i] == xs[i]);
                assert(cells[i] != cells[n]);
            }
        }
    }
}

/// Re-binning every stored individual into the cell it already occupies
/// rebuilds the archive as it was.
pub proof fn lemma_rebinning_in_place(m: &ElitesMap)
    requires
        m.wf(),
    ensures
        placed_all(Map::empty(), m.cell_seq(), m.elite_seq()) == m@,
{
    m.lemma_wf();
    lemma_distinct_cells_all_stored(m.cell_seq(), m.elite_seq());
    let r = placed_all(Map::empty(), m.cell_seq(), m.elite_seq());
    assert forall|c: Seq<usize>| #[trigger] r.contains_key(c) <==> m@.contains_key(c) by {
        if r.contains_key(c) {
            let i = choose|i: int| 0 <= i < m.cell_seq().len() && m.cell_seq()[i] == c;
            assert(m@.contains_key(m.cell_seq()[i]));
        }
        if m@.contains_key(c) {
            let i = choose|i: int| 0 <= i < m.cell_seq().len() && m.cell_seq()[i] == c;
            assert(r.contains_key(m.cell_seq()[i]));
        }
    }
    assert forall|c: Seq<usize>| #[trigger] r.contains_key(c) implies r[c] == m@[c] by {
        let i = choose|i: int| 0 <= i < m.cell_seq().len() && m.cell_seq()[i] == c;
        assert(r[m.cell_seq()[i]] == m.elite_seq()[i]);
    }
    assert(r =~= m@);
}

/// Re-binning keeps the best fitness: after the stored individuals are
/// offered to their new cells, the top is at least as fit as before.
pub proof fn lemma_rebinning_keeps_best(
    m: &ElitesMap,
    cells: Seq<Seq<usize>>,
    top_before: IndividualView,
    top_after: IndividualView,
)
    requires
        m.wf(),
        cells.len() == m.elite_seq().len(),
        is_top(m@, top_before),
        is_top(placed_all(Map::empty(), cells, m.elite_seq()), top_after),
    ensures
        order_key(top_after.fitness) >= order_key(top_before.fitness),
{
    m.lemma_wf();
    let xs = m.elite_seq();
    assert(all_numbers(xs)) by {
        assert forall|i: int| 0 <= i < xs.len() implies !is_nan(#[trigger] xs[i].fitness) by {
            assert(m@.contains_key(m.cell_seq()[i]));
        }
    }
    lemma_rebinning_keeps_individuals(cells, xs);
    let c = choose|c: Seq<usize>| #[trigger] m@.contains_key(c) && m@[c] == top_before;
    let i = choose|i: int| 0 <= i < m.cell_seq().len() && m.cell_seq()[i] == c;
    assert(xs[i] == top_before);
    assert(placed_all(Map::empty(), cells, xs).contains_key(cells[i]));
}

/// A sorted copy holds every stored individual, as many as there are
/// occupied cells, and starts with a fittest one.
pub proof fn lemma_sorted_starts_with_best(m: &ElitesMap, s: Seq<IndividualView>)
    requires
        m.wf(),
        s.to_multiset() == m.elite_seq().to_multiset(),
        sorted_by_fitness(s),
    ensures
        s.len() == m@.len(),
        forall|c: Seq<usize>| #[trigger] m@.contains_key(c) ==> s.contains(m@[c]),
        s.len() > 0 ==> forall|c: Seq<usize>| #[trigger] m@.contains_key(c)
            ==> order_key(m@[c].fitness) <= order_key(s[0].fitness),
{
    m.lemma_wf();
    vstd::seq_lib::to_multiset_len(s);
    vstd::seq_lib::to_multiset_len(m.elite_seq());
    assert forall|c: Seq<usize>| #[trigger] m@.contains_key(c) implies s.contains(m@[c]) by {
        let i = choose|i: int| 0 <= i < m.cell_seq().len() && m.cell_seq()[i] == c;
        assert(m.elite_seq()[i] == m@[c]);
        assert(m.elite_seq().contains(m@[c]));
        vstd::seq_lib::to_multiset_contains(m.elite_seq(), m@[c]);
        vstd::seq_lib::to_multiset_contains(s, m@[c]);
    }
    if s.len() > 0 {
        assert forall|c: Seq<usize>| #[trigger] m@.contains_key(c)
            implies order_key(m@[c].fitness) <= order_key(s[0].fitness) by {
            assert(s.contains(m@[c]));
            let j = choose|j: int| 0 <= j < s.len() && s[j] == m@[c];
            if j > 0 {
                assert(order_key(s[0].fitness) >= order_key(s[j].fitness));
            }
        }
    }
}

/// One more placement extends a sequence of placements: a run of
/// `place_individual` calls, each offering one individual, yields `placed_all`
/// of the cells and individuals offered, so the laws about `placed_all` hold
/// of it.
pub proof fn lemma_placement_extends(
    m: Map<Seq<usize>, IndividualView>,
    cells: Seq<Seq<usize>>,
    xs: Seq<IndividualView>,
    cell: Seq<usize>,
    x: IndividualView,
)
    requires
        cells.len() == xs.len(),
    ensures
        placed_all(m, cells.push(cell), xs.push(x)) == placed(placed_all(m, cells, xs), cell, x),
{
    assert(cells.push(cell).drop_last() =~= cells);
    assert(xs.push(x).drop_last() =~= xs);
}

} // verus!
