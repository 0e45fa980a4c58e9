use map_elites::elites_map::{clamp_feature, sampling_weights, SELECTION_SCALE};
use map_elites::genome::allows_mutation;
use map_elites::runtime::RuntimeIterator;
use map_elites::{Clamp, ElitesMap, Individual};
use set_genome::{Genome, GenomeContext};

fn bits(ranges: &[(f64, f64)]) -> Vec<(u64, u64)> {
    ranges.iter().map(|&(min, max)| (min.to_bits(), max.to_bits())).collect()
}

fn individual(behavior: &[f64], fitness: f64) -> Individual {
    Individual {
        genome: Genome::default(),
        behavior: behavior.iter().map(|b| b.to_bits()).collect(),
        fitness: fitness.to_bits(),
    }
}

fn cell_with(ranges: &[(u64, u64)], resolution: usize, behavior: &[u64]) -> Vec<usize> {
    behavior
        .iter()
        .zip(ranges.iter())
        .map(|(&value, &(min, max))| {
            let (value, _) = clamp_feature(value, min, max);
            let (value, min, max) = (f64::from_bits(value), f64::from_bits(min), f64::from_bits(max));
            ((value - min) / (max - min + 1E-15) * resolution as f64).floor() as usize
        })
        .collect()
}

fn place(map: &mut ElitesMap, individual: Individual) {
    let cell = cell_with(map.feature_ranges(), map.resolution(), &individual.behavior);
    map.place_individual(cell, individual);
}

fn fitness_at(map: &ElitesMap, cell: Vec<usize>) -> Option<f64> {
    map.get(&cell).map(|individual| f64::from_bits(individual.fitness))
}

#[test]
fn top_is_at_least_any_inserted() {
    let mut map = ElitesMap::new(4, bits(&[(-5.0, 5.0)]));
    for (b, f) in [(3.0, 1.5), (-3.0, 0.5), (0.0, 2.5), (3.1, -1.0)] {
        place(&mut map, individual(&[b], f));
        assert!(f64::from_bits(map.top_individual().fitness) >= f);
    }
    assert_eq!(f64::from_bits(map.top_individual().fitness), 2.5);
}

#[test]
fn cell_keeps_maximum_of_offers() {
    let mut map = ElitesMap::new(4, bits(&[(-5.0, 5.0)]));
    for f in [0.3, 1.7, -2.0, 1.2, 1.7] {
        place(&mut map, individual(&[4.0], f));
    }
    assert_eq!(fitness_at(&map, vec![3]), Some(1.7));
    assert_eq!(map.len(), 1);
}

#[test]
fn tie_keeps_the_elite() {
    let mut map = ElitesMap::new(4, bits(&[(-5.0, 5.0)]));
    place(&mut map, individual(&[3.0], 1.0));
    place(&mut map, individual(&[3.5], 1.0));
    let stored = map.get(&vec![3]).unwrap();
    assert_eq!(f64::from_bits(stored.behavior[0]), 3.0);
}

#[test]
fn reinsertion_changes_nothing() {
    let mut map = ElitesMap::new(4, bits(&[(-5.0, 5.0), (0.0, 1.0)]));
    let x = individual(&[1.0, 0.5], 0.7);
    place(&mut map, x.clone());
    let before = map.sorted_individuals();
    place(&mut map, x);
    let after = map.sorted_individuals();
    assert_eq!(map.len(), 1);
    assert_eq!(before[0].behavior, after[0].behavior);
    assert_eq!(before[0].fitness, after[0].fitness);
}

#[test]
fn clamp_at_bounds() {
    let (min, max) = ((-5.0f64).to_bits(), (5.0f64).to_bits());
    let (v, c) = clamp_feature(5.0f64.to_bits(), min, max);
    assert_eq!(v, max);
    assert!(matches!(c, Clamp::ToMax));
    let (v, c) = clamp_feature((-9.0f64).to_bits(), min, max);
    assert_eq!(v, min);
    assert!(matches!(c, Clamp::ToMin));
    let (v, c) = clamp_feature((-5.0f64).to_bits(), min, max);
    assert_eq!(v, min);
    assert!(matches!(c, Clamp::Inside));
    let (v, c) = clamp_feature((-0.0f64).to_bits(), (0.0f64).to_bits(), max);
    assert_eq!(v, (-0.0f64).to_bits());
    assert!(matches!(c, Clamp::Inside));
}

#[test]
fn bounds_bin_to_first_and_last_cell() {
    let ranges = bits(&[(-5.0, 5.0)]);
    assert_eq!(cell_with(&ranges, 4, &[5.0f64.to_bits()]), vec![3]);
    assert_eq!(cell_with(&ranges, 4, &[(-5.0f64).to_bits()]), vec![0]);
    assert_eq!(cell_with(&ranges, 4, &[4.99f64.to_bits()]), vec![3]);
}

#[test]
fn selection_weights_are_fractions_in_unit_interval() {
    let mut map = ElitesMap::new(3, bits(&[(0.0, 3.0)]));
    place(&mut map, individual(&[0.5], 1.0));
    place(&mut map, individual(&[1.5], 2.0));
    place(&mut map, individual(&[2.5], 3.0));
    let weights = map.selection_weights();
    assert_eq!(weights, vec![(1, 2), (2, 3), (2, 2)]);
    for (n, d) in weights {
        assert!(n >= 1 && n <= d);
    }
}

#[test]
fn isolated_cell_has_weight_one() {
    let mut map = ElitesMap::new(5, bits(&[(0.0, 5.0)]));
    place(&mut map, individual(&[0.5], 1.0));
    place(&mut map, individual(&[4.5], -1.0));
    assert_eq!(map.selection_weights(), vec![(1, 1), (1, 1)]);
}

#[test]
fn single_cell_is_always_drawn() {
    let mut map = ElitesMap::new(4, bits(&[(-5.0, 5.0), (-5.0, 5.0)]));
    place(&mut map, individual(&[1.0, 2.0], 0.25));
    let mut context = GenomeContext::default();
    for _ in 0..20 {
        let drawn = map.get_random_individual(&mut context);
        assert_eq!(drawn.fitness, 0.25f64.to_bits());
        assert_eq!(drawn.behavior, vec![1.0f64.to_bits(), 2.0f64.to_bits()]);
    }
}

#[test]
fn drawn_individual_is_stored() {
    let mut map = ElitesMap::new(4, bits(&[(-5.0, 5.0)]));
    place(&mut map, individual(&[-4.0], 1.0));
    place(&mut map, individual(&[4.0], 2.0));
    let mut context = GenomeContext::default();
    for _ in 0..20 {
        let drawn = map.get_random_individual(&mut context);
        assert!(drawn.fitness == 1.0f64.to_bits() || drawn.fitness == 2.0f64.to_bits());
    }
}

#[test]
fn corner_cell_has_one_candidate_per_dimension() {
    let map = ElitesMap::new(4, bits(&[(0.0, 1.0), (0.0, 1.0), (0.0, 1.0)]));
    let candidates = map.neighbor_candidates(&vec![0, 3, 0]);
    assert_eq!(candidates, vec![vec![1, 3, 0], vec![0, 2, 0], vec![0, 3, 1]]);
    let middle = map.neighbor_candidates(&vec![1, 2, 0]);
    assert_eq!(middle.len(), 5);
}

#[test]
fn rebinning_keeps_individuals() {
    let mut map = ElitesMap::new(4, bits(&[(0.0, 4.0)]));
    place(&mut map, individual(&[0.5], 1.0));
    place(&mut map, individual(&[1.5], 2.0));
    place(&mut map, individual(&[3.5], 3.0));
    let cells: Vec<Vec<usize>> = map
        .individuals()
        .iter()
        .map(|i| cell_with(map.feature_ranges(), 2, &i.behavior))
        .collect();
    map.update_resolution(2, cells);
    assert_eq!(map.len(), 2);
    assert_eq!(fitness_at(&map, vec![0]), Some(2.0));
    assert_eq!(fitness_at(&map, vec![1]), Some(3.0));
    assert_eq!(map.capacity(), 2);
}

#[test]
fn generations_never_lower_the_best() {
    let mut state =
        RuntimeIterator::new(4, bits(&[(-5.0, 5.0)]), set_genome::Parameters::default(), 3).unwrap();
    let mut seeds = state.seed_individuals(1);
    seeds[0].fitness = 1.0f64.to_bits();
    seeds[0].behavior = vec![1.0f64.to_bits()];
    state.place_batch(vec![vec![2]], seeds);
    let mut best = f64::from_bits(state.snapshot().top_individual().fitness);
    assert_eq!(best, 1.0);
    for generation in 0..5 {
        let batch = state.select_batch();
        assert_eq!(batch.len(), 3);
        let cells: Vec<Vec<usize>> = batch.iter().map(|_| vec![generation % 4]).collect();
        let evaluated: Vec<Individual> = batch
            .into_iter()
            .enumerate()
            .map(|(k, mut x)| {
                x.fitness = (generation as f64 - k as f64).to_bits();
                x.behavior = vec![0.0f64.to_bits()];
                x
            })
            .collect();
        state.place_batch(cells, evaluated);
        let now = f64::from_bits(state.snapshot().top_individual().fitness);
        assert!(now >= best);
        best = now;
    }
    assert_eq!(best, 4.0);
}

#[test]
fn seeds_are_not_evaluated() {
    let mut state =
        RuntimeIterator::new(4, bits(&[(-5.0, 5.0)]), set_genome::Parameters::default(), 2).unwrap();
    let seeds = state.seed_individuals(4);
    assert_eq!(seeds.len(), 4);
    assert!(seeds.iter().all(|s| s.behavior.is_empty() && s.fitness == 0));
    assert_eq!(state.elites_map().len(), 0);
}

#[test]
fn unevaluated_individual_from_genome() {
    let x = Individual::from_genome(Genome::default());
    assert!(x.behavior.is_empty());
    assert_eq!(f64::from_bits(x.fitness), 0.0);
}

#[test]
fn sampling_weights_share_one_denominator() {
    let scale = SELECTION_SCALE as u128;
    assert_eq!(
        sampling_weights(&vec![(1, 2), (2, 3), (2, 2)], 1),
        vec![scale / 2, 2 * scale / 3, scale]
    );
    let fractions = vec![(1, 5), (3, 4), (1, 1), (20, 43)];
    let weights = sampling_weights(&fractions, 21);
    for ((n, d), w) in fractions.iter().zip(weights.iter()) {
        assert_eq!(w * *d as u128, *n as u128 * scale);
    }
    assert_eq!(weights[0], 1883917631760484320);
}

#[test]
fn selection_in_many_dimensions() {
    let ranges: Vec<(f64, f64)> = (0..12).map(|_| (0.0, 1.0)).collect();
    let mut map = ElitesMap::new(3, bits(&ranges));
    place(&mut map, individual(&[0.1; 12], 1.0));
    let mut second = [0.1; 12];
    second[0] = 0.5;
    place(&mut map, individual(&second, 2.0));
    assert_eq!(map.selection_weights(), vec![(1, 2), (2, 2)]);
    let mut context = GenomeContext::default();
    for _ in 0..10 {
        let drawn = map.get_random_individual(&mut context);
        assert!(drawn.fitness == 1.0f64.to_bits() || drawn.fitness == 2.0f64.to_bits());
    }
}

#[test]
fn fitter_by_fitness_or_by_fewer_genes() {
    let context = GenomeContext::default();
    let small = Individual { genome: Genome::default(), behavior: vec![], fitness: 1.0f64.to_bits() };
    let large = Individual { genome: context.initialized_genome(), behavior: vec![], fitness: 1.0f64.to_bits() };
    assert!(large.genome.len() > 0);
    assert!(small.is_fitter_than(&large, true));
    assert!(!large.is_fitter_than(&small, true));
    assert!(!small.is_fitter_than(&large, false));
    let better = Individual { genome: context.initialized_genome(), behavior: vec![], fitness: 2.0f64.to_bits() };
    assert!(better.is_fitter_than(&small, false));
    assert!(!small.is_fitter_than(&better, false));
}

#[test]
fn crossover_child_follows_fitter_parent() {
    let context = GenomeContext::default();
    let mut rng = set_genome::GenomeRng::new(7, 0.1, 1.0);
    let bare = Individual { genome: Genome::default(), behavior: vec![0], fitness: 1.0f64.to_bits() };
    let grown = Individual { genome: context.initialized_genome(), behavior: vec![0], fitness: 3.0f64.to_bits() };
    let child = bare.crossover(&grown, false, &mut rng);
    assert!(child.behavior.is_empty());
    assert_eq!(child.fitness, 0);
    assert_eq!(child.genome.len(), grown.genome.len());
    let child = bare.crossover(&grown, true, &mut rng);
    assert_eq!(child.genome.len(), 0);
}

#[test]
fn genome_parameters_that_stall_mutation_are_refused() {
    assert!(allows_mutation(&set_genome::Parameters::default()));
    let mut low_cap = set_genome::Parameters::default();
    low_cap.structure.weight_cap = 0.5;
    assert!(!allows_mutation(&low_cap));
    assert!(RuntimeIterator::new(4, bits(&[(0.0, 1.0)]), low_cap, 1).is_none());
    let mut wide = set_genome::Parameters::default();
    wide.structure.weight_std_dev = 1e305;
    assert!(!allows_mutation(&wide));
    let mut unconnected = set_genome::Parameters::default();
    unconnected.structure.inputs_connected_percent = 0.0;
    assert!(!allows_mutation(&unconnected));
    unconnected.mutations.retain(|m| !matches!(m, set_genome::Mutations::AddNode { .. }));
    assert!(allows_mutation(&unconnected));
}
