use map_elites::elites_map::clamp_feature;
use map_elites::{Clamp, ElitesMap, Individual};
use set_genome::Genome;

fn bits(ranges: &[(f64, f64)]) -> Vec<(u64, u64)> {
    ranges.iter().map(|&(min, max)| (min.to_bits(), max.to_bits())).collect()
}

fn individual(behavior: &[f64], fitness: f64) -> Individual {
    Individual {
        genome: Genome::default(),
        behavior: behavior.iter().map(|b| b.to_bits()).collect(),
        fitness: fitness.to_bits(),
    }
}

fn cell_with(ranges: &[(u64, u64)], resolution: usize, behavior: &[u64]) -> Vec<usize> {
    behavior
        .iter()
        .zip(ranges.iter())
        .map(|(&value, &(min, max))| {
            let (value, _) = clamp_feature(value, min, max);
            let (value, min, max) = (f64::from_bits(value), f64::from_bits(min), f64::from_bits(max));
            ((value - min) / (max - min + 1E-15) * resolution as f64).floor() as usize
        })
        .collect()
}

fn place(map: &mut ElitesMap, individual: Individual) {
    let cell = cell_with(map.feature_ranges(), map.resolution(), &individual.behavior);
    map.place_individual(cell, individual);
}

fn fitness_at(map: &ElitesMap, cell: Vec<usize>) -> Option<f64> {
    map.get(&cell).map(|individual| f64::from_bits(individual.fitness))
}

fn behavior_of(individual: &Individual) -> Vec<f64> {
    individual.behavior.iter().map(|&b| f64::from_bits(b)).collect()
}

#[test]
fn place_and_retrieve() {
    let mut elites_map = ElitesMap::new(4, bits(&[(-5.0, 5.0)]));
    place(&mut elites_map, individual(&[3.0], 4.2));
    assert_eq!(fitness_at(&elites_map, vec![3]), Some(4.2));
    assert_eq!(f64::from_bits(elites_map.top_individual().fitness), 4.2);
}

#[test]
fn get_random() {
    let mut elites_map = ElitesMap::new(4, bits(&[(-5.0, 5.0)]));
    place(&mut elites_map, individual(&[3.0], 4.2));
    let mut context = set_genome::GenomeContext::default();
    let drawn = elites_map.get_random_individual(&mut context);
    assert!((f64::from_bits(drawn.fitness) - 4.2).abs() < f64::EPSILON);
}

#[test]
fn multiple_features() {
    let mut elites_map = ElitesMap::new(4, bits(&[(-5.0, 5.0), (-5.0, 5.0)]));
    place(&mut elites_map, individual(&[3.0, -3.0], 4.2));
    assert_eq!(fitness_at(&elites_map, vec![3, 0]), Some(4.2));
}

#[test]
fn handle_out_of_feature_range() {
    let mut elites_map = ElitesMap::new(4, bits(&[(-5.0, -1.0), (1.0, 5.0)]));
    place(&mut elites_map, individual(&[-9.0, 9.0], 3.9));
    assert_eq!(fitness_at(&elites_map, vec![0, 3]), Some(3.9));
}

#[test]
fn update_when_fitter() {
    let mut elites_map = ElitesMap::new(4, bits(&[(-5.0, 5.0)]));
    place(&mut elites_map, individual(&[3.0], 1.0));
    assert_eq!(fitness_at(&elites_map, vec![3]), Some(1.0));
    place(&mut elites_map, individual(&[3.0], 0.0));
    assert_eq!(fitness_at(&elites_map, vec![3]), Some(1.0));
    place(&mut elites_map, individual(&[3.0], 2.0));
    assert_eq!(fitness_at(&elites_map, vec![3]), Some(2.0));
}

#[test]
fn update_resolution() {
    let mut elites_map = ElitesMap::new(2, bits(&[(1.0, 2.0)]));
    place(&mut elites_map, individual(&[1.5], 3.9));
    assert_eq!(fitness_at(&elites_map, vec![0]), Some(3.9));
    let cells: Vec<Vec<usize>> = elites_map
        .individuals()
        .iter()
        .map(|i| cell_with(elites_map.feature_ranges(), 3, &i.behavior))
        .collect();
    elites_map.update_resolution(3, cells);
    assert_eq!(fitness_at(&elites_map, vec![1]), Some(3.9));
    assert_eq!(elites_map.resolution(), 3);
}

#[test]
fn get_top_individual() {
    let mut elites_map = ElitesMap::new(4, bits(&[(-5.0, 5.0)]));
    place(&mut elites_map, individual(&[3.0], 0.0));
    place(&mut elites_map, individual(&[-3.0], 2.0));
    assert!((f64::from_bits(elites_map.top_individual().fitness) - 2.0).abs() < f64::EPSILON);
}

#[test]
fn get_capacity() {
    let elites_map = ElitesMap::new(4, bits(&[(-5.0, 5.0), (-5.0, 5.0)]));
    assert_eq!(elites_map.capacity(), 16);
}

#[test]
fn get_sorted_individuals() {
    let mut elites_map = ElitesMap::new(4, bits(&[(-5.0, 5.0)]));
    place(&mut elites_map, individual(&[3.0], 1.0));
    place(&mut elites_map, individual(&[-3.0], 2.0));
    let sorted_individuals = elites_map.sorted_individuals();
    assert!((f64::from_bits(sorted_individuals[0].fitness) - 2.0).abs() < f64::EPSILON);
    assert!((f64::from_bits(sorted_individuals[1].fitness) - 1.0).abs() < f64::EPSILON);
}

#[test]
fn get_neighbors() {
    let mut elites_map = ElitesMap::new(3, bits(&[(0.0, 3.0)]));
    place(&mut elites_map, individual(&[3.0], 0.0));
    place(&mut elites_map, individual(&[2.0], 0.0));
    place(&mut elites_map, individual(&[1.0], 0.0));
    let neighbors = elites_map.neighbors(&vec![1usize]);
    assert_eq!(neighbors.len(), 2);
    assert_eq!(behavior_of(&neighbors[0]), vec![3.0]);
    assert_eq!(behavior_of(&neighbors[1]), vec![1.0]);
}
