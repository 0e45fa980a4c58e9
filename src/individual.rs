//! A genome together with its evaluation.
use vstd::prelude::*;
use set_genome::{Genome, GenomeRng};
use crate::binary64::{greater, real_gt};
use crate::genome::{cross_in, genome_len};

verus! {

/// A candidate solution: a genome, the behaviour features it showed and the
/// fitness it reached. Features and fitness are binary64 bit patterns.
#[derive(Debug)]
pub struct Individual {
    pub genome: Genome,
    pub behavior: Vec<u64>,
    pub fitness: u64,
}

/// What an individual is, as the contracts speak of it.
pub struct IndividualView {
    pub genome: Genome,
    pub behavior: Seq<u64>,
    pub fitness: u64,
}

impl View for Individual {
    type V = IndividualView;

    open spec fn view(&self) -> IndividualView {
        IndividualView { genome: self.genome, behavior: self.behavior@, fitness: self.fitness }
    }
}

impl Individual {
    /// An individual that has not been evaluated: no behaviour, fitness `0.0`.
    pub fn from_genome(genome: Genome) -> (r: Individual)
        ensures
            r.genome == genome,
            r.behavior@.len() == 0,
            r.fitness == 0,
    {
        Individual { genome, behavior: Vec::new(), fitness: 0 }
    }
}

impl Individual {
    /// Fitter than `other`: a strictly greater fitness or, where the two
    /// fitnesses lie within machine epsilon of each other (`within_epsilon`,
    /// which the caller computes on the numbers), fewer connection genes.
    pub fn is_fitter_than(&self, other: &Individual, within_epsilon: bool) -> (r: bool)
        ensures
            r == self.is_fitter_than_spec(other, within_epsilon),
    {
        greater(self.fitness, other.fitness) || (within_epsilon && self.genome.len() < other.genome.len())
    }

    /// A child, not yet evaluated, whose genome is the fitter parent's crossed
    /// with the weaker one's. `within_epsilon` is as for `is_fitter_than`.
    pub fn crossover(&self, other: &Individual, within_epsilon: bool, rng: &mut GenomeRng) -> (r: Individual)
        ensures
            r.behavior@.len() == 0,
            r.fitness == 0,
            genome_len(r.genome) == if self.is_fitter_than_spec(other, within_epsilon) {
                genome_len(self.genome)
            } else {
                genome_len(other.genome)
            },
    {
        let (fitter, weaker) = if self.is_fitter_than(other, within_epsilon) {
            (&self.genome, &other.genome)
        } else {
            (&other.genome, &self.genome)
        };
        Individual::from_genome(cross_in(fitter, weaker, rng))
    }

    /// What `is_fitter_than` returns.
    pub open spec fn is_fitter_than_spec(&self, other: &Individual, within_epsilon: bool) -> bool {
        real_gt(self.fitness, other.fitness)
            || (within_epsilon && genome_len(self.genome) < genome_len(other.genome))
    }
}

impl Clone for Individual {
    fn clone(&self) -> (r: Self)
        ensures
            r@ == self@,
    {
        Individual {
            genome: self.genome.clone(),
            behavior: self.behavior.clone(),
            fitness: self.fitness,
        }
    }
}

} // verus!
