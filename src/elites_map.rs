//! The archive: a grid over behaviour space holding the fittest individual
//! seen in each cell.
use vstd::prelude::*;
use crate::binary64::{greater, greater_or_equal, is_nan, less, order_key, real_ge, real_gt, real_lt};
use crate::individual::{Individual, IndividualView};
use vstd::arithmetic::power::{lemma_pow_increases, pow};
use crate::genome::{fits_context, mutation_safe, pick_weighted, template_of};
use set_genome::Genome;
use set_genome::GenomeContext;

verus! {

/// A cell of the grid: one bin index per behaviour dimension.
pub open spec fn valid_cell(cell: Seq<usize>, resolution: usize, dims: nat) -> bool {
    &&& cell.len() == dims
    &&& forall|j: int| 0 <= j < cell.len() ==> cell[j] < resolution
}

/// Every range is a proper interval `min < max`.
pub open spec fn valid_ranges(ranges: Seq<(u64, u64)>) -> bool {
    forall|i: int| 0 <= i < ranges.len() ==> real_lt(ranges[i].0, ranges[i].1)
}

/// The archive after `x` is offered to `cell`: it moves in where the cell is
/// empty or where it is strictly fitter than the elite there.
pub open spec fn placed(
    m: Map<Seq<usize>, IndividualView>,
    cell: Seq<usize>,
    x: IndividualView,
) -> Map<Seq<usize>, IndividualView> {
    if m.contains_key(cell) && !real_gt(x.fitness, m[cell].fitness) {
        m
    } else {
        m.insert(cell, x)
    }
}

/// The archive after the individuals `xs` are offered, in order, to `cells`.
pub open spec fn placed_all(
    m: Map<Seq<usize>, IndividualView>,
    cells: Seq<Seq<usize>>,
    xs: Seq<IndividualView>,
) -> Map<Seq<usize>, IndividualView>
    decreases xs.len(),
{
    if xs.len() == 0 || cells.len() != xs.len() {
        m
    } else {
        placed(placed_all(m, cells.drop_last(), xs.drop_last()), cells.last(), xs.last())
    }
}

/// No stored fitness is NaN.
pub open spec fn fitnesses_are_numbers(m: Map<Seq<usize>, IndividualView>) -> bool {
    forall|c: Seq<usize>| #[trigger] m.contains_key(c) ==> !is_nan(m[c].fitness)
}

/// `t` is stored in `m` and no stored fitness exceeds its fitness.
pub open spec fn is_top(m: Map<Seq<usize>, IndividualView>, t: IndividualView) -> bool {
    &&& exists|c: Seq<usize>| #[trigger] m.contains_key(c) && m[c] == t
    &&& forall|c: Seq<usize>| #[trigger] m.contains_key(c) ==> order_key(m[c].fitness) <= order_key(t.fitness)
}

/// The orthogonal neighbour positions of `pos` along dimension `i`: one step
/// up from the lowest bin, one step down from the highest, both otherwise.
pub open spec fn candidates_along(pos: Seq<usize>, resolution: usize, i: int) -> Seq<Seq<usize>> {
    if pos[i] == 0 {
        seq![pos.update(i, 1)]
    } else if pos[i] == resolution - 1 {
        seq![pos.update(i, (pos[i] - 1) as usize)]
    } else {
        seq![pos.update(i, (pos[i] + 1) as usize), pos.update(i, (pos[i] - 1) as usize)]
    }
}

/// The neighbour positions of `pos` along dimensions `i..`, dimension by
/// dimension.
pub open spec fn candidates_from(pos: Seq<usize>, resolution: usize, i: int) -> Seq<Seq<usize>>
    decreases pos.len() - i,
{
    if i < 0 || i >= pos.len() {
        seq![]
    } else {
        candidates_along(pos, resolution, i) + candidates_from(pos, resolution, i + 1)
    }
}

/// The neighbour positions of `pos`, before any is checked for occupancy.
pub open spec fn neighbor_candidates(pos: Seq<usize>, resolution: usize) -> Seq<Seq<usize>> {
    candidates_from(pos, resolution, 0)
}

/// The individuals stored at those of `cands` that are occupied, in order.
pub open spec fn occupants(m: Map<Seq<usize>, IndividualView>, cands: Seq<Seq<usize>>) -> Seq<IndividualView>
    decreases cands.len(),
{
    if cands.len() == 0 {
        seq![]
    } else {
        (if m.contains_key(cands[0]) { seq![m[cands[0]]] } else { seq![] }) + occupants(m, cands.drop_first())
    }
}

/// The occupied orthogonal neighbours of `pos`.
pub open spec fn neighbors_of(m: Map<Seq<usize>, IndividualView>, pos: Seq<usize>, resolution: usize) -> Seq<IndividualView> {
    occupants(m, neighbor_candidates(pos, resolution))
}

/// How many of `ns` have a fitness strictly below `fitness`.
pub open spec fn dominated_count(fitness: u64, ns: Seq<IndividualView>) -> nat
    decreases ns.len(),
{
    if ns.len() == 0 {
        0
    } else {
        (if real_gt(fitness, ns[0].fitness) { 1nat } else { 0nat }) + dominated_count(fitness, ns.drop_first())
    }
}

proof fn lemma_candidates_len(pos: Seq<usize>, resolution: usize, i: int)
    requires
        0 <= i <= pos.len(),
    ensures
        candidates_from(pos, resolution, i).len() <= 2 * (pos.len() - i),
    decreases pos.len() - i,
{
    if i < pos.len() {
        lemma_candidates_len(pos, resolution, i + 1);
    }
}

proof fn lemma_occupants_len(m: Map<Seq<usize>, IndividualView>, cands: Seq<Seq<usize>>)
    ensures
        occupants(m, cands).len() <= cands.len(),
    decreases cands.len(),
{
    if cands.len() > 0 {
        lemma_occupants_len(m, cands.drop_first());
    }
}

proof fn lemma_occupants_append(m: Map<Seq<usize>, IndividualView>, a: Seq<Seq<usize>>, c: Seq<usize>)
    ensures
        occupants(m, a.push(c)) == occupants(m, a) + (if m.contains_key(c) { seq![m[c]] } else { seq![] }),
    decreases a.len(),
{
    if a.len() == 0 {
        assert(a.push(c).drop_first() =~= Seq::<Seq<usize>>::empty());
        assert(occupants(m, a.push(c).drop_first()) == Seq::<IndividualView>::empty());
        assert(occupants(m, a.push(c)) =~= occupants(m, a) + (if m.contains_key(c) { seq![m[c]] } else { seq![] }));
    } else {
        assert(a.push(c).drop_first() =~= a.drop_first().push(c));
        lemma_occupants_append(m, a.drop_first(), c);
        assert(occupants(m, a.push(c)) =~= occupants(m, a) + (if m.contains_key(c) { seq![m[c]] } else { seq![] }));
    }
}

proof fn lemma_dominated_count_append(f: u64, ns: Seq<IndividualView>, n: IndividualView)
    ensures
        dominated_count(f, ns.push(n)) == dominated_count(f, ns) + (if real_gt(f, n.fitness) { 1nat } else { 0nat }),
    decreases ns.len(),
{
    if ns.len() == 0 {
        assert(ns.push(n).drop_first() =~= Seq::<IndividualView>::empty());
        assert(dominated_count(f, ns.push(n).drop_first()) == 0);
        assert(ns.push(n)[0] == n);
    } else {
        assert(ns.push(n).drop_first() =~= ns.drop_first().push(n));
        assert(ns.push(n)[0] == ns[0]);
        lemma_dominated_count_append(f, ns.drop_first(), n);
    }
}

proof fn lemma_dominated_count_le(f: u64, ns: Seq<IndividualView>)
    ensures
        dominated_count(f, ns) <= ns.len(),
    decreases ns.len(),
{
    if ns.len() > 0 {
        lemma_dominated_count_le(f, ns.drop_first());
    }
}

/// The views of a sequence of individuals.
pub open spec fn views(s: Seq<Individual>) -> Seq<IndividualView> {
    s.map_values(|x: Individual| x@)
}

/// Descending by fitness.
pub open spec fn sorted_by_fitness(s: Seq<IndividualView>) -> bool {
    forall|i: int, j: int| 0 <= i < j < s.len() ==> order_key(s[i].fitness) >= order_key(s[j].fitness)
}

/// The most behaviour dimensions for which weighted selection is offered:
/// a denominator of a selection weight is at most `2D+1 = 43`, and every one
/// of them divides `SELECTION_SCALE`.
pub const MAX_SELECTION_DIMENSIONS: usize = 21;

/// The least common multiple of `1..=43`, below `2^64`: selection weights are
/// scaled by it to integers.
pub const SELECTION_SCALE: u64 = 9419588158802421600;

/// The selection weight of `x`, stored at `cell`, as a fraction
/// `(numerator, denominator)`: one more than the number of its neighbours it
/// is strictly fitter than, over one more than the number of its neighbours.
pub open spec fn selection_weight(
    m: Map<Seq<usize>, IndividualView>,
    resolution: usize,
    cell: Seq<usize>,
    x: IndividualView,
) -> (nat, nat) {
    (
        dominated_count(x.fitness, neighbors_of(m, cell, resolution)) + 1,
        neighbors_of(m, cell, resolution).len() + 1,
    )
}

proof fn lemma_scale_divisible(d: u64)
    requires
        1 <= d <= 43,
    ensures
        SELECTION_SCALE % d == 0,
{
    if d == 1 {
        assert(SELECTION_SCALE % 1 == 0);
    } else if d == 2 {
        assert(SELECTION_SCALE % 2 == 0);
    } else if d == 3 {
        assert(SELECTION_SCALE % 3 == 0);
    } else if d == 4 {
        assert(SELECTION_SCALE % 4 == 0);
    } else if d == 5 {
        assert(SELECTION_SCALE % 5 == 0);
    } else if d == 6 {
        assert(SELECTION_SCALE % 6 == 0);
    } else if d == 7 {
        assert(SELECTION_SCALE % 7 == 0);
    } else if d == 8 {
        assert(SELECTION_SCALE % 8 == 0);
    } else if d == 9 {
        assert(SELECTION_SCALE % 9 == 0);
    } else if d == 10 {
        assert(SELECTION_SCALE % 10 == 0);
    } else if d == 11 {
        assert(SELECTION_SCALE % 11 == 0);
    } else if d == 12 {
        assert(SELECTION_SCALE % 12 == 0);
    } else if d == 13 {
        assert(SELECTION_SCALE % 13 == 0);
    } else if d == 14 {
        assert(SELECTION_SCALE % 14 == 0);
    } else if d == 15 {
        assert(SELECTION_SCALE % 15 == 0);
    } else if d == 16 {
        assert(SELECTION_SCALE % 16 == 0);
    } else if d == 17 {
        assert(SELECTION_SCALE % 17 == 0);
    } else if d == 18 {
        assert(SELECTION_SCALE % 18 == 0);
    } else if d == 19 {
        assert(SELECTION_SCALE % 19 == 0);
    } else if d == 20 {
        assert(SELECTION_SCALE % 20 == 0);
    } else if d == 21 {
        assert(SELECTION_SCALE % 21 == 0);
    } else if d == 22 {
        assert(SELECTION_SCALE % 22 == 0);
    } else if d == 23 {
        assert(SELECTION_SCALE % 23 == 0);
    } else if d == 24 {
        assert(SELECTION_SCALE % 24 == 0);
    } else if d == 25 {
        assert(SELECTION_SCALE % 25 == 0);
    } else if d == 26 {
        assert(SELECTION_SCALE % 26 == 0);
    } else if d == 27 {
        assert(SELECTION_SCALE % 27 == 0);
    } else if d == 28 {
        assert(SELECTION_SCALE % 28 == 0);
    } else if d == 29 {
        assert(SELECTION_SCALE % 29 == 0);
    } else if d == 30 {
        assert(SELECTION_SCALE % 30 == 0);
    } else if d == 31 {
        assert(SELECTION_SCALE % 31 == 0);
    } else if d == 32 {
        assert(SELECTION_SCALE % 32 == 0);
    } else if d == 33 {
        assert(SELECTION_SCALE % 33 == 0);
    } else if d == 34 {
        assert(SELECTION_SCALE % 34 == 0);
    } else if d == 35 {
        assert(SELECTION_SCALE % 35 == 0);
    } else if d == 36 {
        assert(SELECTION_SCALE % 36 == 0);
    } else if d == 37 {
        assert(SELECTION_SCALE % 37 == 0);
    } else if d == 38 {
        assert(SELECTION_SCALE % 38 == 0);
    } else if d == 39 {
        assert(SELECTION_SCALE % 39 == 0);
    } else if d == 40 {
        assert(SELECTION_SCALE % 40 == 0);
    } else if d == 41 {
        assert(SELECTION_SCALE % 41 == 0);
    } else if d == 42 {
        assert(SELECTION_SCALE % 42 == 0);
    } else if d == 43 {
        assert(SELECTION_SCALE % 43 == 0);
    }
}

/// Integer weights proportional to the fractions `(numerator, denominator)`:
/// each fraction scaled by `SELECTION_SCALE`, a multiple of every denominator.
pub fn sampling_weights(fractions: &Vec<(usize, usize)>, dims: usize) -> (r: Vec<u128>)
    requires
        dims <= MAX_SELECTION_DIMENSIONS,
        forall|k: int| 0 <= k < fractions.len() ==> 1 <= (#[trigger] fractions[k]).0 <= fractions[k].1 <= 2 * dims + 1,
    ensures
        r.len() == fractions.len(),
        forall|k: int| 0 <= k < r.len() ==> 0 < #[trigger] r[k] <= u64::MAX,
        forall|k: int| 0 <= k < r.len() ==> #[trigger] r[k] * fractions[k].1 == fractions[k].0 * SELECTION_SCALE,
{
    let mut weights: Vec<u128> = Vec::new();
    let mut k: usize = 0;
    while k < fractions.len()
        invariant
            k <= fractions.len(),
            weights.len() == k,
            dims <= MAX_SELECTION_DIMENSIONS,
            forall|q: int| 0 <= q < fractions.len() ==> 1 <= (#[trigger] fractions[q]).0 <= fractions[q].1 <= 2 * dims + 1,
            forall|q: int| 0 <= q < k ==> 0 < #[trigger] weights[q] <= u64::MAX,
            forall|q: int| 0 <= q < k ==> #[trigger] weights[q] * fractions[q].1 == fractions[q].0 * SELECTION_SCALE,
        decreases fractions.len() - k,
    {
        let (numerator, denominator) = fractions[k];
        proof {
            lemma_scale_divisible(denominator as u64);
            let s = SELECTION_SCALE as int;
            let d = denominator as int;
            let n = numerator as int;
            assert(n * (s / d) <= s && n * (s / d) > 0 && n * (s / d) * d == n * s) by (nonlinear_arith)
                requires
                    1 <= n <= d,
                    s >= 1,
                    s % d == 0,
            ;
        }
        let w: u128 = numerator as u128 * (SELECTION_SCALE / denominator as u64) as u128;
        weights.push(w);
        k += 1;
    }
    weights
}

/// Position `i` holds a greatest fitness of `s`, and every earlier position a
/// strictly smaller one: the first of the fittest.
pub open spec fn is_first_top(s: Seq<IndividualView>, i: int) -> bool {
    &&& 0 <= i < s.len()
    &&& forall|j: int| 0 <= j < s.len() ==> order_key(#[trigger] s[j].fitness) <= order_key(s[i].fitness)
    &&& forall|j: int| 0 <= j < i ==> order_key(#[trigger] s[j].fitness) < order_key(s[i].fitness)
}

/// Where a feature value was moved to stay inside its range.
#[derive(Debug, Clone, Copy, PartialEq, Eq, Structural)]
pub enum Clamp {
    Inside,
    ToMax,
    ToMin,
}

/// The feature value clamped into `[min, max]`: a value at or above `max` is
/// moved to `max`, one below `min` to `min`. The second component says which
/// happened, so that the caller can warn.
pub fn clamp_feature(value: u64, min: u64, max: u64) -> (r: (u64, Clamp))
    ensures
        real_ge(value, max) ==> r.0 == max && r.1 == Clamp::ToMax,
        !real_ge(value, max) && real_lt(value, min) ==> r.0 == min && r.1 == Clamp::ToMin,
        !real_ge(value, max) && !real_lt(value, min) ==> r.0 == value && r.1 == Clamp::Inside,
{
    if greater_or_equal(value, max) {
        (max, Clamp::ToMax)
    } else if less(value, min) {
        (min, Clamp::ToMin)
    } else {
        (value, Clamp::Inside)
    }
}

/// Whether two cells are the same.
fn same_cell(a: &Vec<usize>, b: &Vec<usize>) -> (r: bool)
    ensures
        r == (a@ == b@),
{
    if a.len() != b.len() {
        return false;
    }
    let mut j: usize = 0;
    while j < a.len()
        invariant
            a.len() == b.len(),
            j <= a.len(),
            forall|k: int| 0 <= k < j ==> a@[k] == b@[k],
        decreases a.len() - j,
    {
        if a[j] != b[j] {
            return false;
        }
        j += 1;
    }
    assert(a@ =~= b@);
    true
}

/// A grid of `resolution^D` cells over `D` behaviour dimensions, each holding
/// at most one individual.
pub struct ElitesMap {
    cells: Vec<Vec<usize>>,
    elites: Vec<Individual>,
    resolution: usize,
    feature_ranges: Vec<(u64, u64)>,
    contents: Ghost<Map<Seq<usize>, IndividualView>>,
}

impl View for ElitesMap {
    type V = Map<Seq<usize>, IndividualView>;

    closed spec fn view(&self) -> Map<Seq<usize>, IndividualView> {
        self.contents@
    }
}

impl ElitesMap {
    /// Bins per dimension.
    pub closed spec fn resolution_spec(&self) -> usize {
        self.resolution
    }

    /// The `(min, max)` range of each dimension.
    pub closed spec fn ranges(&self) -> Seq<(u64, u64)> {
        self.feature_ranges@
    }

    /// The number of behaviour dimensions.
    pub open spec fn dims(&self) -> nat {
        self.ranges().len()
    }

    /// The occupied cells, in the order in which they were first filled.
    pub closed spec fn cell_seq(&self) -> Seq<Seq<usize>> {
        self.cells@.map_values(|c: Vec<usize>| c@)
    }

    /// The stored individuals, in the order of `cell_seq`.
    pub closed spec fn elite_seq(&self) -> Seq<IndividualView> {
        self.elites@.map_values(|x: Individual| x@)
    }

    /// The archive's invariant: a positive resolution and proper ranges; the
    /// occupied cells distinct and on the grid; every stored individual with
    /// one feature per dimension and a fitness that is a number; and the
    /// cells and individuals in step with the map that `view` returns.
    pub closed spec fn wf(&self) -> bool {
        &&& self.resolution > 0
        &&& valid_ranges(self.feature_ranges@)
        &&& self.cells.len() == self.elites.len()
        &&& forall|i: int| 0 <= i < self.cells.len()
            ==> valid_cell(#[trigger] self.cells[i]@, self.resolution, self.feature_ranges.len() as nat)
        &&& forall|i: int, j: int| 0 <= i < j < self.cells.len() ==> self.cells[i]@ != self.cells[j]@
        &&& forall|i: int| 0 <= i < self.elites.len()
            ==> (#[trigger] self.elites[i]).behavior.len() == self.feature_ranges.len()
                && !is_nan(self.elites[i].fitness)
        &&& forall|i: int| 0 <= i < self.cells.len()
            ==> self.contents@.contains_key(#[trigger] self.cells[i]@)
                && self.contents@[self.cells[i]@] == self.elites[i]@
        &&& forall|c: Seq<usize>| #[trigger] self.contents@.contains_key(c)
            ==> exists|i: int| 0 <= i < self.cells.len() && self.cells[i]@ == c
        &&& self.contents@.dom().finite()
        &&& self.contents@.dom().len() == self.cells.len()
    }

    /// What every well-formed archive satisfies, for callers.
    pub proof fn lemma_wf(&self)
        requires
            self.wf(),
        ensures
            self.resolution_spec() > 0,
            valid_ranges(self.ranges()),
            self@.dom().finite(),
            self@.dom().len() == self.cell_seq().len(),
            self.cell_seq().len() == self.elite_seq().len(),
            fitnesses_are_numbers(self@),
            forall|c: Seq<usize>| #[trigger] self@.contains_key(c)
                ==> valid_cell(c, self.resolution_spec(), self.dims())
                && self@[c].behavior.len() == self.dims(),
            forall|i: int| 0 <= i < self.cell_seq().len()
                ==> self@.contains_key(#[trigger] self.cell_seq()[i])
                && self@[self.cell_seq()[i]] == self.elite_seq()[i],
            forall|c: Seq<usize>| #[trigger] self@.contains_key(c)
                ==> exists|i: int| 0 <= i < self.cell_seq().len() && self.cell_seq()[i] == c,
            forall|i: int, j: int| 0 <= i < j < self.cell_seq().len() ==> self.cell_seq()[i] != self.cell_seq()[j],
    {
        assert forall|c: Seq<usize>| #[trigger] self@.contains_key(c)
            implies exists|i: int| 0 <= i < self.cell_seq().len() && self.cell_seq()[i] == c by {
            let i = choose|i: int| 0 <= i < self.cells.len() && self.cells[i]@ == c;
            assert(self.cell_seq()[i] == c);
        }
        assert forall|c: Seq<usize>| #[trigger] self@.contains_key(c) implies
            !is_nan(self@[c].fitness) && valid_cell(c, self.resolution, self.dims())
            && self@[c].behavior.len() == self.dims() by {
            let i = choose|i: int| 0 <= i < self.cells.len() && self.cells[i]@ == c;
            assert(self.cells[i]@ == c);
        }
    }

    /// An empty archive with `resolution` bins in each of the given ranges.
    pub fn new(resolution: usize, feature_ranges: Vec<(u64, u64)>) -> (r: ElitesMap)
        requires
            resolution > 0,
            valid_ranges(feature_ranges@),
        ensures
            r.wf(),
            r@ == Map::<Seq<usize>, IndividualView>::empty(),
            r.resolution_spec() == resolution,
            r.ranges() == feature_ranges@,
            r.elite_seq().len() == 0,
    {
        let r = ElitesMap {
            cells: Vec::new(),
            elites: Vec::new(),
            resolution,
            feature_ranges,
            contents: Ghost(Map::empty()),
        };
        assert(r.elite_seq() =~= Seq::<IndividualView>::empty());
        r
    }

    /// Bins per dimension.
    pub fn resolution(&self) -> (r: usize)
        ensures
            r == self.resolution_spec(),
    {
        self.resolution
    }

    /// The `(min, max)` range of each behaviour dimension.
    pub fn feature_ranges(&self) -> (r: &Vec<(u64, u64)>)
        ensures
            r@ == self.ranges(),
    {
        &self.feature_ranges
    }

    /// The number of occupied cells.
    pub fn len(&self) -> (r: usize)
        requires
            self.wf(),
        ensures
            r == self@.len(),
    {
        self.cells.len()
    }

    /// The position of `cell` among the occupied cells, if it is occupied.
    fn find(&self, cell: &Vec<usize>) -> (r: Option<usize>)
        requires
            self.wf(),
        ensures
            r.is_some() ==> r.unwrap() < self.cells.len() && self.cells[r.unwrap() as int]@ == cell@,
            r.is_none() <==> !self@.contains_key(cell@),
    {
        let mut i: usize = 0;
        while i < self.cells.len()
            invariant
                self.wf(),
                i <= self.cells.len(),
                forall|k: int| 0 <= k < i ==> self.cells[k]@ != cell@,
            decreases self.cells.len() - i,
        {
            if same_cell(&self.cells[i], cell) {
                return Some(i);
            }
            i += 1;
        }
        proof {
            if self@.contains_key(cell@) {
                let k = choose|k: int| 0 <= k < self.cells.len() && self.cells[k]@ == cell@;
                assert(self.cells[k]@ == cell@);
            }
        }
        None
    }

    /// A copy of the individual stored at `cell`, if it is occupied.
    pub fn get(&self, cell: &Vec<usize>) -> (r: Option<Individual>)
        requires
            self.wf(),
        ensures
            r.is_none() <==> !self@.contains_key(cell@),
            r.is_some() ==> r.unwrap()@ == self@[cell@],
    {
        match self.find(cell) {
            Some(i) => Some(self.elites[i].clone()),
            None => None,
        }
    }

    /// Offers `individual` to `cell`: it is stored where the cell is empty or
    /// where its fitness is strictly greater than the stored elite's; a tie
    /// keeps the elite. `cell` is where the individual's behaviour falls on the
    /// grid.
    pub fn place_individual(&mut self, cell: Vec<usize>, individual: Individual)
        requires
            old(self).wf(),
            individual.behavior.len() == old(self).dims(),
            valid_cell(cell@, old(self).resolution_spec(), old(self).dims()),
            !is_nan(individual.fitness),
        ensures
            final(self).wf(),
            final(self)@ == placed(old(self)@, cell@, individual@),
            final(self).resolution_spec() == old(self).resolution_spec(),
            final(self).ranges() == old(self).ranges(),
    {
        match self.find(&cell) {
            Some(i) => {
                if greater(individual.fitness, self.elites[i].fitness) {
                    let ghost x = individual@;
                    self.elites.set(i, individual);
                    self.contents = Ghost(self.contents@.insert(cell@, x));
                    assert(self.contents@.dom() =~= old(self).contents@.dom());
                    assert forall|c: Seq<usize>| #[trigger] self.contents@.contains_key(c)
                        implies exists|k: int| 0 <= k < self.cells.len() && self.cells[k]@ == c by {
                        assert(old(self).contents@.contains_key(c));
                        let k = choose|k: int| 0 <= k < old(self).cells.len() && old(self).cells[k]@ == c;
                        assert(self.cells[k]@ == c);
                    }
                }
            },
            None => {
                let ghost c = cell@;
                let ghost x = individual@;
                self.cells.push(cell);
                self.elites.push(individual);
                self.contents = Ghost(self.contents@.insert(c, x));
                let ghost n = self.cells.len() - 1;
                assert(self.cells[n as int]@ == c);
                assert forall|k: int| 0 <= k < self.cells.len()
                    implies self.contents@.contains_key(#[trigger] self.cells[k]@)
                        && self.contents@[self.cells[k]@] == self.elites[k]@ by {
                    if k < n {
                        assert(old(self).cells[k] == self.cells[k]);
                    }
                }
                assert forall|c2: Seq<usize>| #[trigger] self.contents@.contains_key(c2)
                    implies exists|k: int| 0 <= k < self.cells.len() && self.cells[k]@ == c2 by {
                    if c2 != c {
                        assert(old(self).contents@.contains_key(c2));
                        let k = choose|k: int| 0 <= k < old(self).cells.len() && old(self).cells[k]@ == c2;
                        assert(self.cells[k] == old(self).cells[k]);
                    }
                }
            },
        }
    }

    /// The neighbour positions of `position`, before any is checked for
    /// occupancy.
    pub fn neighbor_candidates(&self, position: &Vec<usize>) -> (r: Vec<Vec<usize>>)
        requires
            valid_cell(position@, self.resolution_spec(), self.dims()),
        ensures
            r.len() == neighbor_candidates(position@, self.resolution_spec()).len(),
            forall|k: int| 0 <= k < r.len() ==> #[trigger] r[k]@ == neighbor_candidates(position@, self.resolution_spec())[k],
    {
        let ghost all = neighbor_candidates(position@, self.resolution);
        let mut r: Vec<Vec<usize>> = Vec::new();
        let mut i: usize = 0;
        while i < position.len()
            invariant
                i <= position.len(),
                valid_cell(position@, self.resolution, self.feature_ranges.len() as nat),
                r@.map_values(|c: Vec<usize>| c@) + candidates_from(position@, self.resolution, i as int) == all,
            decreases position.len() - i,
        {
            let ghost before = r@.map_values(|c: Vec<usize>| c@);
            let ghost step = candidates_along(position@, self.resolution, i as int);
            assert(candidates_from(position@, self.resolution, i as int)
                == step + candidates_from(position@, self.resolution, i + 1));
            let maximum = self.resolution - 1;
            if position[i] == 0 {
                let mut up = position.clone();
                up.set(i, 1);
                r.push(up);
            } else if position[i] == maximum {
                let mut down = position.clone();
                down.set(i, position[i] - 1);
                r.push(down);
            } else {
                let mut up = position.clone();
                let mut down = position.clone();
                up.set(i, position[i] + 1);
                down.set(i, position[i] - 1);
                r.push(up);
                r.push(down);
            }
            assert(r@.map_values(|c: Vec<usize>| c@) =~= before + step);
            i += 1;
        }
        assert(candidates_from(position@, self.resolution, i as int) =~= Seq::<Seq<usize>>::empty());
        assert(r@.map_values(|c: Vec<usize>| c@) =~= all);
        assert forall|k: int| 0 <= k < r.len() implies #[trigger] r[k]@ == all[k] by {
            assert(r@.map_values(|c: Vec<usize>| c@)[k] == r[k]@);
        }
        r
    }

    /// The individuals at the occupied orthogonal neighbours of `position`,
    /// dimension by dimension, the upper neighbour before the lower.
    pub fn neighbors(&self, position: &Vec<usize>) -> (r: Vec<Individual>)
        requires
            self.wf(),
            valid_cell(position@, self.resolution_spec(), self.dims()),
        ensures
            r@.map_values(|x: Individual| x@) == neighbors_of(self@, position@, self.resolution_spec()),
    {
        let cands = self.neighbor_candidates(position);
        let ghost cs = neighbor_candidates(position@, self.resolution);
        let mut r: Vec<Individual> = Vec::new();
        let mut k: usize = 0;
        while k < cands.len()
            invariant
                self.wf(),
                k <= cands.len(),
                cands.len() == cs.len(),
                forall|q: int| 0 <= q < cands.len() ==> #[trigger] cands[q]@ == cs[q],
                r@.map_values(|x: Individual| x@) == occupants(self@, cs.take(k as int)),
            decreases cands.len() - k,
        {
            proof {
                assert(cs.take(k + 1) =~= cs.take(k as int).push(cs[k as int]));
                lemma_occupants_append(self@, cs.take(k as int), cs[k as int]);
            }
            let ghost before = r@.map_values(|x: Individual| x@);
            match self.find(&cands[k]) {
                Some(i) => {
                    r.push(self.elites[i].clone());
                    assert(r@.map_values(|x: Individual| x@) =~= before.push(self@[cs[k as int]]));
                },
                None => {},
            }
            k += 1;
        }
        assert(cs.take(k as int) =~= cs);
        r
    }

    /// The number of cells of the grid, `resolution^D`.
    pub fn capacity(&self) -> (r: usize)
        requires
            self.wf(),
            pow(self.resolution_spec() as int, self.dims()) <= usize::MAX,
        ensures
            r == pow(self.resolution_spec() as int, self.dims()),
    {
        let mut r: usize = 1;
        let mut i: usize = 0;
        proof {
            reveal(pow);
        }
        while i < self.feature_ranges.len()
            invariant
                i <= self.feature_ranges.len(),
                r == pow(self.resolution as int, i as nat),
                self.resolution > 0,
                pow(self.resolution as int, self.feature_ranges.len() as nat) <= usize::MAX,
            decreases self.feature_ranges.len() - i,
        {
            proof {
                reveal(pow);
                assert(pow(self.resolution as int, (i + 1) as nat) == self.resolution * pow(self.resolution as int, i as nat));
                lemma_pow_increases(self.resolution as nat, (i + 1) as nat, self.feature_ranges.len() as nat);
                assert(r * self.resolution == pow(self.resolution as int, (i + 1) as nat)) by (nonlinear_arith)
                    requires
                        r == pow(self.resolution as int, i as nat),
                        pow(self.resolution as int, (i + 1) as nat) == self.resolution * pow(self.resolution as int, i as nat);
            }
            r = r * self.resolution;
            i += 1;
        }
        r
    }

    /// The stored individual of greatest fitness; among equals, the one whose
    /// cell was filled first.
    pub fn top_individual(&self) -> (r: Individual)
        requires
            self.wf(),
            self@.len() > 0,
        ensures
            is_top(self@, r@),
            exists|i: int| 0 <= i < self.elite_seq().len() && is_first_top(self.elite_seq(), i) && r@ == self.elite_seq()[i],
    {
        let mut best: usize = 0;
        let mut i: usize = 1;
        while i < self.elites.len()
            invariant
                self.wf(),
                0 < i <= self.elites.len(),
                best < i,
                forall|k: int| 0 <= k < i ==> order_key(#[trigger] self.elites[k].fitness) <= order_key(self.elites[best as int].fitness),
                forall|k: int| 0 <= k < best ==> order_key(#[trigger] self.elites[k].fitness) < order_key(self.elites[best as int].fitness),
            decreases self.elites.len() - i,
        {
            if greater(self.elites[i].fitness, self.elites[best].fitness) {
                best = i;
            }
            i += 1;
        }
        let r = self.elites[best].clone();
        assert(self@.contains_key(self.cells[best as int]@));
        assert(is_first_top(self.elite_seq(), best as int));
        assert forall|c: Seq<usize>| #[trigger] self@.contains_key(c) implies order_key(self@[c].fitness) <= order_key(r@.fitness) by {
            let k = choose|k: int| 0 <= k < self.cells.len() && self.cells[k]@ == c;
            assert(self.elites[k].fitness == self@[c].fitness);
        }
        r
    }

    /// Copies of the stored individuals, fittest first.
    pub fn sorted_individuals(&self) -> (r: Vec<Individual>)
        requires
            self.wf(),
        ensures
            views(r@).to_multiset() == self.elite_seq().to_multiset(),
            sorted_by_fitness(views(r@)),
    {
        let mut r: Vec<Individual> = Vec::new();
        let mut i: usize = 0;
        assert(views(r@) =~= self.elite_seq().take(0));
        while i < self.elites.len()
            invariant
                self.wf(),
                i <= self.elites.len(),
                views(r@).to_multiset() == self.elite_seq().take(i as int).to_multiset(),
                sorted_by_fitness(views(r@)),
                forall|k: int| 0 <= k < r.len() ==> !is_nan(#[trigger] r[k].fitness),
            decreases self.elites.len() - i,
        {
            let x = self.elites[i].clone();
            let mut j: usize = 0;
            while j < r.len() && !greater(x.fitness, r[j].fitness)
                invariant
                    j <= r.len(),
                    !is_nan(x.fitness),
                    forall|k: int| 0 <= k < r.len() ==> !is_nan(#[trigger] r[k].fitness),
                    forall|k: int| 0 <= k < j ==> order_key(#[trigger] r[k].fitness) >= order_key(x.fitness),
                decreases r.len() - j,
            {
                j += 1;
            }
            let ghost before = views(r@);
            let ghost xv = x@;
            assert(j < r.len() ==> order_key(x.fitness) > order_key(r[j as int].fitness));
            r.insert(j, x);
            proof {
                assert(views(r@) =~= before.insert(j as int, x@));
                vstd::seq_lib::to_multiset_insert(before, j as int, x@);
                assert(self.elite_seq().take(i + 1) =~= self.elite_seq().take(i as int).push(self.elite_seq()[i as int]));
                vstd::seq_lib::to_multiset_build(self.elite_seq().take(i as int), self.elite_seq()[i as int]);
                let now = views(r@);
                assert forall|a: int, b: int| 0 <= a < b < now.len()
                    implies order_key(now[a].fitness) >= order_key(now[b].fitness) by {
                    if b < j {
                        assert(now[a] == before[a] && now[b] == before[b]);
                    } else if b == j {
                        assert(now[a] == before[a] && now[b] == xv);
                    } else if a < j {
                        assert(now[a] == before[a] && now[b] == before[b - 1]);
                    } else if a == j {
                        assert(now[a] == xv && now[b] == before[b - 1]);
                        assert(order_key(xv.fitness) > order_key(before[j as int].fitness));
                    } else {
                        assert(now[a] == before[a - 1] && now[b] == before[b - 1]);
                    }
                }
            }
            i += 1;
        }
        assert(self.elite_seq().take(i as int) =~= self.elite_seq());
        r
    }

    /// The occupied cells, in the order of `cell_seq`.
    pub fn cells(&self) -> (r: Vec<Vec<usize>>)
        ensures
            r@.map_values(|c: Vec<usize>| c@) == self.cell_seq(),
    {
        let mut r: Vec<Vec<usize>> = Vec::new();
        let mut i: usize = 0;
        while i < self.cells.len()
            invariant
                i <= self.cells.len(),
                r@.map_values(|c: Vec<usize>| c@) == self.cell_seq().take(i as int),
            decreases self.cells.len() - i,
        {
            r.push(self.cells[i].clone());
            assert(self.cell_seq().take(i + 1) =~= self.cell_seq().take(i as int).push(self.cell_seq()[i as int]));
            assert(r@.map_values(|c: Vec<usize>| c@) =~= self.cell_seq().take(i + 1));
            i += 1;
        }
        assert(self.cell_seq().take(i as int) =~= self.cell_seq());
        r
    }

    /// Copies of the stored individuals, in the order of `elite_seq`.
    pub fn individuals(&self) -> (r: Vec<Individual>)
        requires
            self.wf(),
        ensures
            views(r@) == self.elite_seq(),
    {
        let mut r: Vec<Individual> = Vec::new();
        let mut i: usize = 0;
        while i < self.elites.len()
            invariant
                i <= self.elites.len(),
                views(r@) == self.elite_seq().take(i as int),
            decreases self.elites.len() - i,
        {
            r.push(self.elites[i].clone());
            assert(self.elite_seq().take(i + 1) =~= self.elite_seq().take(i as int).push(self.elite_seq()[i as int]));
            assert(views(r@) =~= self.elite_seq().take(i + 1));
            i += 1;
        }
        assert(self.elite_seq().take(i as int) =~= self.elite_seq());
        r
    }

    /// Offers each of `individuals`, in order, to the cell beside it.
    pub fn place_individuals(&mut self, cells: Vec<Vec<usize>>, individuals: Vec<Individual>)
        requires
            old(self).wf(),
            cells.len() == individuals.len(),
            forall|k: int| 0 <= k < cells.len()
                ==> valid_cell(#[trigger] cells[k]@, old(self).resolution_spec(), old(self).dims()),
            forall|k: int| 0 <= k < individuals.len()
                ==> (#[trigger] individuals[k]).behavior.len() == old(self).dims() && !is_nan(individuals[k].fitness),
        ensures
            final(self).wf(),
            final(self)@ == placed_all(old(self)@, cells@.map_values(|c: Vec<usize>| c@), views(individuals@)),
            final(self).resolution_spec() == old(self).resolution_spec(),
            final(self).ranges() == old(self).ranges(),
    {
        let ghost cs = cells@.map_values(|c: Vec<usize>| c@);
        let ghost xs = views(individuals@);
        let mut k: usize = 0;
        assert(cs.take(0) =~= Seq::<Seq<usize>>::empty());
        assert(xs.take(0) =~= Seq::<IndividualView>::empty());
        while k < cells.len()
            invariant
                self.wf(),
                k <= cells.len(),
                cells.len() == individuals.len(),
                cs == cells@.map_values(|c: Vec<usize>| c@),
                xs == views(individuals@),
                forall|q: int| 0 <= q < cells.len()
                    ==> valid_cell(#[trigger] cells[q]@, self.resolution_spec(), self.dims()),
                forall|q: int| 0 <= q < individuals.len()
                    ==> (#[trigger] individuals[q]).behavior.len() == self.dims() && !is_nan(individuals[q].fitness),
                self@ == placed_all(old(self)@, cs.take(k as int), xs.take(k as int)),
                self.resolution_spec() == old(self).resolution_spec(),
                self.ranges() == old(self).ranges(),
            decreases cells.len() - k,
        {
            proof {
                assert(cs.take(k + 1).drop_last() =~= cs.take(k as int));
                assert(xs.take(k + 1).drop_last() =~= xs.take(k as int));
                assert(cs.take(k + 1).last() == cells[k as int]@);
                assert(xs.take(k + 1).last() == individuals[k as int]@);
            }
            self.place_individual(cells[k].clone(), individuals[k].clone());
            k += 1;
        }
        assert(cs.take(k as int) =~= cs);
        assert(xs.take(k as int) =~= xs);
    }

    /// Re-bins the archive to `resolution` bins per dimension: empties it and
    /// offers every stored individual again, the `k`-th of `elite_seq` to
    /// `cells[k]`, where its behaviour falls on the new grid.
    pub fn update_resolution(&mut self, resolution: usize, cells: Vec<Vec<usize>>)
        requires
            old(self).wf(),
            resolution > 0,
            cells.len() == old(self).elite_seq().len(),
            forall|k: int| 0 <= k < cells.len()
                ==> valid_cell(#[trigger] cells[k]@, resolution, old(self).dims()),
        ensures
            final(self).wf(),
            final(self)@ == placed_all(
                Map::empty(),
                cells@.map_values(|c: Vec<usize>| c@),
                old(self).elite_seq(),
            ),
            final(self).resolution_spec() == resolution,
            final(self).ranges() == old(self).ranges(),
    {
        let individuals = self.individuals();
        proof {
            assert forall|q: int| 0 <= q < individuals.len()
                implies (#[trigger] individuals[q]).behavior.len() == self.dims() && !is_nan(individuals[q].fitness) by {
                assert(views(individuals@)[q] == individuals[q]@);
                assert(self.elite_seq()[q] == self.elites[q]@);
            }
        }
        self.cells = Vec::new();
        self.elites = Vec::new();
        self.contents = Ghost(Map::empty());
        self.resolution = resolution;
        self.place_individuals(cells, individuals);
    }

    /// The selection weight of every stored individual, in the order of
    /// `elite_seq`, as fractions `(numerator, denominator)`.
    pub fn selection_weights(&self) -> (r: Vec<(usize, usize)>)
        requires
            self.wf(),
            2 * self.dims() + 1 <= usize::MAX,
        ensures
            r.len() == self.elite_seq().len(),
            forall|k: int| 0 <= k < r.len() ==> {
                &&& (#[trigger] r[k]).0 == selection_weight(self@, self.resolution_spec(), self.cell_seq()[k], self.elite_seq()[k]).0
                &&& r[k].1 == selection_weight(self@, self.resolution_spec(), self.cell_seq()[k], self.elite_seq()[k]).1
                &&& 1 <= r[k].0 <= r[k].1 <= 2 * self.dims() + 1
            },
    {
        let mut r: Vec<(usize, usize)> = Vec::new();
        let mut k: usize = 0;
        while k < self.cells.len()
            invariant
                self.wf(),
                2 * self.dims() + 1 <= usize::MAX,
                k <= self.cells.len(),
                r.len() == k,
                forall|q: int| 0 <= q < k ==> {
                    &&& (#[trigger] r[q]).0 == selection_weight(self@, self.resolution, self.cell_seq()[q], self.elite_seq()[q]).0
                    &&& r[q].1 == selection_weight(self@, self.resolution, self.cell_seq()[q], self.elite_seq()[q]).1
                    &&& 1 <= r[q].0 <= r[q].1 <= 2 * self.dims() + 1
                },
            decreases self.cells.len() - k,
        {
            let ghost cell = self.cells[k as int]@;
            let ghost x = self.elites[k as int]@;
            assert(self.cell_seq()[k as int] == cell);
            assert(self.elite_seq()[k as int] == x);
            let ns = self.neighbors(&self.cells[k]);
            let ghost nv = neighbors_of(self@, cell, self.resolution);
            proof {
                lemma_candidates_len(cell, self.resolution, 0);
                lemma_occupants_len(self@, neighbor_candidates(cell, self.resolution));
            }
            let fitness = self.elites[k].fitness;
            let mut dominated: usize = 0;
            let mut q: usize = 0;
            while q < ns.len()
                invariant
                    q <= ns.len(),
                    views(ns@) == nv,
                    nv.len() <= 2 * self.dims(),
                    2 * self.dims() + 1 <= usize::MAX,
                    dominated == dominated_count(fitness, nv.take(q as int)),
                    dominated <= q,
                decreases ns.len() - q,
            {
                proof {
                    assert(nv.take(q + 1) =~= nv.take(q as int).push(nv[q as int]));
                    lemma_dominated_count_append(fitness, nv.take(q as int), nv[q as int]);
                    assert(nv[q as int] == ns[q as int]@);
                }
                if greater(fitness, ns[q].fitness) {
                    dominated += 1;
                }
                q += 1;
            }
            proof {
                assert(nv.take(q as int) =~= nv);
                lemma_dominated_count_le(fitness, nv);
            }
            r.push((dominated + 1, ns.len() + 1));
            k += 1;
        }
        r
    }

    /// A copy of a stored individual, drawn with the context's generator with
    /// probability proportional to its selection weight.
    pub fn get_random_individual(&self, context: &mut GenomeContext) -> (r: Individual)
        requires
            self.wf(),
            self@.len() > 0,
            self.dims() <= MAX_SELECTION_DIMENSIONS,
        ensures
            exists|c: Seq<usize>| #[trigger] self@.contains_key(c) && self@[c] == r@,
            mutation_safe(*final(context)) == mutation_safe(*old(context)),
            template_of(*final(context)) == template_of(*old(context)),
            forall|x: Genome| fits_context(x, *old(context)) ==> #[trigger] fits_context(x, *final(context)),
    {
        let fractions = self.selection_weights();
        let weights = sampling_weights(&fractions, self.feature_ranges.len());
        let index = pick_weighted(&weights, context);
        let r = self.elites[index].clone();
        assert(self@.contains_key(self.cells[index as int]@));
        r
    }
}

impl Clone for ElitesMap {
    /// A snapshot: the same cells, individuals, resolution and ranges.
    fn clone(&self) -> (r: Self)
        ensures
            self.wf() ==> r.wf(),
            r@ == self@,
            r.resolution_spec() == self.resolution_spec(),
            r.ranges() == self.ranges(),
            r.elite_seq() == self.elite_seq(),
    {
        let mut cells: Vec<Vec<usize>> = Vec::new();
        let mut i: usize = 0;
        while i < self.cells.len()
            invariant
                i <= self.cells.len(),
                cells.len() == i,
                forall|k: int| 0 <= k < i ==> #[trigger] cells[k]@ == self.cells[k]@,
            decreases self.cells.len() - i,
        {
            cells.push(self.cells[i].clone());
            i += 1;
        }
        let mut elites: Vec<Individual> = Vec::new();
        let mut i: usize = 0;
        while i < self.elites.len()
            invariant
                i <= self.elites.len(),
                elites.len() == i,
                forall|k: int| 0 <= k < i ==> #[trigger] elites[k]@ == self.elites[k]@,
            decreases self.elites.len() - i,
        {
            elites.push(self.elites[i].clone());
            i += 1;
        }
        let mut feature_ranges: Vec<(u64, u64)> = Vec::new();
        let mut i: usize = 0;
        while i < self.feature_ranges.len()
            invariant
                i <= self.feature_ranges.len(),
                feature_ranges@ == self.feature_ranges@.take(i as int),
            decreases self.feature_ranges.len() - i,
        {
            feature_ranges.push(self.feature_ranges[i]);
            assert(self.feature_ranges@.take(i + 1) =~= self.feature_ranges@.take(i as int).push(self.feature_ranges@[i as int]));
            i += 1;
        }
        assert(self.feature_ranges@.take(i as int) =~= self.feature_ranges@);
        let r = ElitesMap {
            cells,
            elites,
            resolution: self.resolution,
            feature_ranges,
            contents: Ghost(self.contents@),
        };
        assert(r.elite_seq() =~= self.elite_seq());
        proof {
            if self.wf() {
                assert forall|i: int| 0 <= i < r.cells.len()
                    implies valid_cell(#[trigger] r.cells[i]@, r.resolution, r.feature_ranges.len() as nat) by {
                    assert(valid_cell(self.cells[i]@, self.resolution, self.feature_ranges.len() as nat));
                }
                assert forall|i: int| 0 <= i < r.elites.len()
                    implies (#[trigger] r.elites[i]).behavior.len() == r.feature_ranges.len()
                        && !is_nan(r.elites[i].fitness) by {
                    assert(self.elites[i].behavior.len() == self.feature_ranges.len());
                    assert(r.elites[i]@.behavior == self.elites[i]@.behavior);
                }
                assert forall|i: int| 0 <= i < r.cells.len()
                    implies r.contents@.contains_key(#[trigger] r.cells[i]@)
                        && r.contents@[r.cells[i]@] == r.elites[i]@ by {
                    assert(self.contents@.contains_key(self.cells[i]@));
                }
                assert forall|c: Seq<usize>| #[trigger] r.contents@.contains_key(c)
                    implies exists|i: int| 0 <= i < r.cells.len() && r.cells[i]@ == c by {
                    let i = choose|i: int| 0 <= i < self.cells.len() && self.cells[i]@ == c;
                    assert(r.cells[i]@ == c);
                }
            }
        }
        assert(r.cells@.map_values(|c: Vec<usize>| c@) =~= self.cells@.map_values(|c: Vec<usize>| c@));
        r
    }
}

} // verus!
