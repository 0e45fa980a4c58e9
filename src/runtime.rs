//! The state of the evolutionary loop between generations, and the steps of a
//! generation that decide what happens to it.
use vstd::prelude::*;
use set_genome::{GenomeContext, Parameters};
use crate::binary64::is_nan;
use crate::genome::{allows_mutation, fits_context, mutation_safe, parameters_allow_mutation, template_of};
use crate::elites_map::{placed, placed_all, valid_ranges, valid_cell, views, ElitesMap, MAX_SELECTION_DIMENSIONS};
use crate::individual::{Individual, IndividualView};

verus! {

/// `x` carries the evaluation of an individual stored in `m`.
pub open spec fn evaluated_as_stored(m: Map<Seq<usize>, IndividualView>, x: Individual) -> bool {
    exists|c: Seq<usize>| #[trigger] m.contains_key(c) && m[c].behavior == x.behavior@ && m[c].fitness == x.fitness
}

/// The live archive, the genome context whose generator drives selection and
/// mutation, and the number of offspring per generation.
pub struct RuntimeIterator {
    elites_map: ElitesMap,
    genome_context: GenomeContext,
    batch_size: usize,
}

/// Every genome stored after a sequence of placements was stored before or
/// offered.
proof fn lemma_placed_all_keeps(
    m: Map<Seq<usize>, IndividualView>,
    cells: Seq<Seq<usize>>,
    xs: Seq<IndividualView>,
    ctx: GenomeContext,
)
    requires
        forall|c: Seq<usize>| #[trigger] m.contains_key(c) ==> fits_context(m[c].genome, ctx),
        forall|q: int| 0 <= q < xs.len() ==> fits_context(#[trigger] xs[q].genome, ctx),
    ensures
        forall|c: Seq<usize>| #[trigger] placed_all(m, cells, xs).contains_key(c)
            ==> fits_context(placed_all(m, cells, xs)[c].genome, ctx),
    decreases xs.len(),
{
    if xs.len() > 0 && cells.len() == xs.len() {
        let ys = xs.drop_last();
        assert forall|q: int| 0 <= q < ys.len() implies fits_context(#[trigger] ys[q].genome, ctx) by {
            assert(ys[q] == xs[q]);
        }
        lemma_placed_all_keeps(m, cells.drop_last(), ys, ctx);
        let before = placed_all(m, cells.drop_last(), ys);
        let x = xs[xs.len() - 1];
        assert(xs.last() == x);
        assert(fits_context(x.genome, ctx));
        let after = placed(before, cells.last(), x);
        assert(placed_all(m, cells, xs) == after);
        assert forall|c: Seq<usize>| #[trigger] after.contains_key(c) implies fits_context(after[c].genome, ctx) by {
            if c != cells.last() {
                assert(before.contains_key(c));
            } else if before.contains_key(c) && after[c] == before[c] {
            } else {
                assert(after[c] == x);
            }
        }
    }
}

impl RuntimeIterator {
    /// The live archive.
    pub closed spec fn archive(&self) -> ElitesMap {
        self.elites_map
    }

    /// Offspring per generation.
    pub closed spec fn batch(&self) -> usize {
        self.batch_size
    }

    /// The genome context.
    pub closed spec fn context(&self) -> GenomeContext {
        self.genome_context
    }

    /// Mutation can go on: the context lets it return, and every stored genome
    /// fits the context.
    pub open spec fn inv(&self) -> bool {
        &&& mutation_safe(self.context())
        &&& forall|c: Seq<usize>| #[trigger] self.archive()@.contains_key(c)
            ==> fits_context(self.archive()@[c].genome, self.context())
    }

    /// The state of a run with an empty archive of `resolution` bins over
    /// `feature_ranges`, a genome context built from `parameters`, and
    /// `batch_size` offspring per generation; `None` where the parameters do
    /// not let mutation return.
    pub fn new(
        resolution: usize,
        feature_ranges: Vec<(u64, u64)>,
        parameters: Parameters,
        batch_size: usize,
    ) -> (r: Option<RuntimeIterator>)
        requires
            resolution > 0,
            valid_ranges(feature_ranges@),
        ensures
            r.is_some() == parameters_allow_mutation(parameters),
            r.is_some() ==> {
                &&& r.unwrap().inv()
                &&& r.unwrap().archive().wf()
                &&& r.unwrap().archive()@ == Map::<Seq<usize>, IndividualView>::empty()
                &&& r.unwrap().archive().resolution_spec() == resolution
                &&& r.unwrap().archive().ranges() == feature_ranges@
                &&& r.unwrap().batch() == batch_size
            },
    {
        if !allows_mutation(&parameters) {
            return None;
        }
        let genome_context = GenomeContext::new(parameters);
        let elites_map = ElitesMap::new(resolution, feature_ranges);
        Some(RuntimeIterator { elites_map, genome_context, batch_size })
    }

    /// The live archive.
    pub fn elites_map(&self) -> (r: &ElitesMap)
        ensures
            *r == self.archive(),
    {
        &self.elites_map
    }

    /// `count` fresh individuals, not yet evaluated: each is the context's
    /// template genome, initialised and then mutated with the context.
    pub fn seed_individuals(&mut self, count: usize) -> (r: Vec<Individual>)
        requires
            old(self).inv(),
        ensures
            final(self).inv(),
            forall|k: int| 0 <= k < r.len() ==> fits_context((#[trigger] r[k]).genome, final(self).context()),
            r.len() == count,
            forall|k: int| 0 <= k < r.len() ==> (#[trigger] r[k]).behavior@.len() == 0 && r[k].fitness == 0,
            final(self).archive() == old(self).archive(),
            final(self).batch() == old(self).batch(),
    {
        let template = Individual::from_genome(self.genome_context.uninitialized_genome());
        let mut r: Vec<Individual> = Vec::new();
        let mut k: usize = 0;
        while k < count
            invariant
                k <= count,
                r.len() == k,
                template.behavior@.len() == 0,
                template.fitness == 0,
                template.genome == template_of(self.context()),
                forall|q: int| 0 <= q < r.len() ==> (#[trigger] r[q]).behavior@.len() == 0 && r[q].fitness == 0,
                self.archive() == old(self).archive(),
                self.batch() == old(self).batch(),
                self.inv(),
                forall|q: int| 0 <= q < r.len() ==> fits_context((#[trigger] r[q]).genome, self.context()),
            decreases count - k,
        {
            let mut individual = template.clone();
            individual.genome.init_with_context(&mut self.genome_context);
            individual.genome.mutate_with_context(&mut self.genome_context);
            r.push(individual);
            k += 1;
        }
        r
    }

    /// The offspring of one generation: `batch_size` individuals drawn from
    /// the archive by weighted selection, each with its genome mutated. They
    /// keep their parent's evaluation until they are evaluated anew.
    pub fn select_batch(&mut self) -> (r: Vec<Individual>)
        requires
            old(self).inv(),
            old(self).archive().wf(),
            old(self).archive()@.len() > 0,
            old(self).archive().dims() <= MAX_SELECTION_DIMENSIONS,
        ensures
            final(self).inv(),
            forall|k: int| 0 <= k < r.len() ==> fits_context((#[trigger] r[k]).genome, final(self).context()),
            r.len() == old(self).batch(),
            forall|k: int| 0 <= k < r.len() ==> evaluated_as_stored(old(self).archive()@, #[trigger] r[k]),
            final(self).archive() == old(self).archive(),
            final(self).batch() == old(self).batch(),
    {
        let mut r: Vec<Individual> = Vec::new();
        let mut k: usize = 0;
        while k < self.batch_size
            invariant
                k <= self.batch_size,
                r.len() == k,
                self.archive() == old(self).archive(),
                self.batch() == old(self).batch(),
                self.elites_map.wf(),
                self.elites_map@.len() > 0,
                self.elites_map.dims() <= MAX_SELECTION_DIMENSIONS,
                self.inv(),
                forall|q: int| 0 <= q < r.len() ==> fits_context((#[trigger] r[q]).genome, self.context()),
                forall|q: int| 0 <= q < r.len() ==> evaluated_as_stored(self.elites_map@, #[trigger] r[q]),
            decreases self.batch_size - k,
        {
            let mut individual = self.elites_map.get_random_individual(&mut self.genome_context);
            let ghost parent = individual@;
            proof {
                let c = choose|c: Seq<usize>| #[trigger] self.elites_map@.contains_key(c) && self.elites_map@[c] == parent;
                assert(fits_context(self.elites_map@[c].genome, self.genome_context));
            }
            individual.genome.mutate_with_context(&mut self.genome_context);
            assert(individual.behavior@ == parent.behavior && individual.fitness == parent.fitness);
            let ghost old_r = r@;
            r.push(individual);
            proof {
                let c = choose|c: Seq<usize>| #[trigger] self.elites_map@.contains_key(c) && self.elites_map@[c] == parent;
                assert(self.elites_map@.contains_key(c));
                assert(evaluated_as_stored(self.elites_map@, r[k as int]));
                assert forall|q: int| 0 <= q < r.len() implies evaluated_as_stored(self.elites_map@, #[trigger] r[q]) by {
                    if q < k {
                        assert(r[q] == old_r[q]);
                    }
                }
            }
            k += 1;
        }
        r
    }

    /// Offers the evaluated offspring of a generation to the archive, each to
    /// the cell beside it.
    pub fn place_batch(&mut self, cells: Vec<Vec<usize>>, individuals: Vec<Individual>)
        requires
            old(self).inv(),
            forall|k: int| 0 <= k < individuals.len()
                ==> fits_context((#[trigger] individuals[k]).genome, old(self).context()),
            old(self).archive().wf(),
            cells.len() == individuals.len(),
            forall|k: int| 0 <= k < cells.len()
                ==> valid_cell(#[trigger] cells[k]@, old(self).archive().resolution_spec(), old(self).archive().dims()),
            forall|k: int| 0 <= k < individuals.len()
                ==> (#[trigger] individuals[k]).behavior.len() == old(self).archive().dims()
                    && !is_nan(individuals[k].fitness),
        ensures
            final(self).inv(),
            final(self).archive().wf(),
            final(self).archive()@ == placed_all(
                old(self).archive()@,
                cells@.map_values(|c: Vec<usize>| c@),
                views(individuals@),
            ),
            final(self).archive().resolution_spec() == old(self).archive().resolution_spec(),
            final(self).archive().ranges() == old(self).archive().ranges(),
            final(self).batch() == old(self).batch(),
    {
        let ghost xs = views(individuals@);
        let ghost cs = cells@.map_values(|c: Vec<usize>| c@);
        self.elites_map.place_individuals(cells, individuals);
        proof {
            assert forall|q: int| 0 <= q < xs.len() implies fits_context(#[trigger] xs[q].genome, self.genome_context) by {
                assert(xs[q] == individuals[q]@);
            }
            lemma_placed_all_keeps(old(self).elites_map@, cs, xs, self.genome_context);
        }
    }

    /// A copy of the live archive, which later generations leave untouched.
    pub fn snapshot(&self) -> (r: ElitesMap)
        requires
            self.archive().wf(),
        ensures
            r.wf(),
            r@ == self.archive()@,
            r.resolution_spec() == self.archive().resolution_spec(),
            r.ranges() == self.archive().ranges(),
    {
        self.elites_map.clone()
    }
}

} // verus!
