// Variation and selection operator behavior: dominance, ranking,
// crossover, mutation and the selection strategies.

use segmentation_ga::config::{Config, FunctionConfig};
use segmentation_ga::crossover::{
    crossover, n_point_crossover, n_point_crossover_at, one_point_crossover,
    one_point_crossover_at, uniform_crossover, uniform_crossover_with,
};
use segmentation_ga::distance::Pixel;
use segmentation_ga::fifo::{fifo_add, fifo_new, fifo_remove, fifo_size};
use segmentation_ga::genome::Connection;
use segmentation_ga::global_data::{
    calculate_euclidean_distance_map_for_neighbors, generate_pixel_edge_weights, GlobalData,
};
use segmentation_ga::individual::Individual;
use segmentation_ga::mst::get_mst_genome;
use segmentation_ga::mutation::{
    destroy_small_segments, eat_similar, flip_one_bit, flip_one_bit_at, flip_to_biggest_segment,
    flip_to_smallest_deviation, flip_to_smallest_segment, mutate,
};
use segmentation_ga::population::{initialize_population, non_dominated_sort};
use segmentation_ga::rng::{rand_index, rand_u64_below};
use segmentation_ga::selection::{
    nsga_2_selection, parent_selection, roulette_wheel_weighted, survivor_selection,
    take_top_by_crowding, tournament_selection, tournament_weighted,
};

fn uniform_pixels(n: usize, red: u8, green: u8, blue: u8) -> Vec<Pixel> {
    let mut v = Vec::new();
    for _ in 0..n {
        v.push(Pixel { red, green, blue });
    }
    v
}

fn build_global_data(width: usize, height: usize, pixels: Vec<Pixel>) -> GlobalData {
    let distance_map = calculate_euclidean_distance_map_for_neighbors(&pixels, width, height);
    let edge_map = vec![1u8; width * height];
    let pixel_weights = generate_pixel_edge_weights(&edge_map);
    GlobalData { width, height, pixels, distance_map, pixel_weights }
}

fn function_config(name: &str) -> FunctionConfig {
    FunctionConfig {
        name: name.to_owned(),
        probability: None,
        tournament_size: None,
        combine_parents_and_offspring: None,
        number_of_slices: None,
        max_depth_percent_of_picture: None,
        radius: None,
        minimum_coverage_percentage: None,
    }
}

fn basic_config() -> Config {
    let mut parent = function_config("tournament");
    parent.tournament_size = Some(2);
    parent.probability = Some(800);
    let mut survivor = function_config("tournament");
    survivor.tournament_size = Some(2);
    survivor.probability = Some(800);
    Config {
        problem_instance: "unit".to_owned(),
        population_size: 4,
        number_of_generations: 1,
        initialization_method: "random".to_owned(),
        parent_selection: parent,
        crossovers: Vec::new(),
        mutations: Vec::new(),
        survivor_selection: survivor,
        preserve_skyline: false,
        edge_value_multiplier: 1,
        connectivity_multiplier: 1,
        overall_deviation_multiplier: 1,
    }
}

fn candidate(edge: u64, conn: u64, dev: u64) -> Individual {
    Individual::new_evaluated(vec![Connection::Nowhere], edge, conn, dev, 0)
}

fn candidate_with_fitness(fitness: i128) -> Individual {
    Individual::new_evaluated(vec![Connection::Nowhere], 0, 0, 0, fitness)
}

fn genome_diff_count(a: &Vec<Connection>, b: &Vec<Connection>) -> usize {
    assert_eq!(a.len(), b.len());
    let mut count = 0;
    for i in 0..a.len() {
        if a[i] != b[i] {
            count += 1;
        }
    }
    count
}

#[test]
fn dominance_is_asymmetric() {
    let a = candidate(10, 5, 5);
    let c = candidate(20, 1, 1);
    assert!(c.dominates(&a));
    assert!(!a.dominates(&c));
    // equal candidates dominate in neither direction
    let b = candidate(10, 5, 5);
    assert!(!a.dominates(&b));
    assert!(!b.dominates(&a));
}

#[test]
fn dominance_needs_strict_improvement() {
    let a = candidate(10, 5, 5);
    let better_edge = candidate(11, 5, 5);
    assert!(better_edge.dominates(&a));
    let mixed = candidate(11, 6, 5);
    assert!(!mixed.dominates(&a));
    assert!(!a.dominates(&mixed));
}

#[test]
fn non_dominated_sort_partitions_into_fronts() {
    // objectives (edge, connectivity, deviation): A and B are equal
    // non-dominated duplicates, C trades a worse deviation for a better
    // edge value, D is dominated by all three
    let population = vec![
        candidate(10, 5, 5),
        candidate(10, 5, 5),
        candidate(20, 1, 6),
        candidate(5, 9, 9),
    ];
    let fronts = non_dominated_sort(&population);
    assert_eq!(fronts.len(), 2);
    assert_eq!(fronts[0].len(), 3);
    assert_eq!(fronts[1].len(), 1);
    assert_eq!(fronts[1][0].get_objectives(), (5, 9, 9));
    let mut edges: Vec<u64> = fronts[0].iter().map(|i| i.get_objectives().0).collect();
    edges.sort();
    assert_eq!(edges, vec![10, 10, 20]);
    // every candidate lands in exactly one front
    let total: usize = fronts.iter().map(|f| f.len()).sum();
    assert_eq!(total, population.len());
    // front 0 contains no pairwise dominance
    for x in fronts[0].iter() {
        for y in fronts[0].iter() {
            assert!(!x.dominates(y));
        }
    }
}

#[test]
fn sort_of_empty_population_is_empty() {
    let fronts = non_dominated_sort(&Vec::new());
    assert_eq!(fronts.len(), 0);
}

#[test]
fn one_point_crossover_swaps_tails() {
    let g1 = vec![Connection::Up; 5];
    let g2 = vec![Connection::Down; 5];
    let (c1, c2) = one_point_crossover_at(&g1, &g2, 2);
    assert_eq!(
        c1,
        vec![
            Connection::Up,
            Connection::Up,
            Connection::Down,
            Connection::Down,
            Connection::Down,
        ]
    );
    assert_eq!(
        c2,
        vec![
            Connection::Down,
            Connection::Down,
            Connection::Up,
            Connection::Up,
            Connection::Up,
        ]
    );
}

#[test]
fn n_point_crossover_alternates_at_cuts() {
    let g1 = vec![Connection::Up; 6];
    let g2 = vec![Connection::Down; 6];
    let (c1, c2) = n_point_crossover_at(&g1, &g2, &vec![1, 3]);
    assert_eq!(
        c1,
        vec![
            Connection::Up,
            Connection::Up,
            Connection::Down,
            Connection::Down,
            Connection::Up,
            Connection::Up,
        ]
    );
    assert_eq!(
        c2,
        vec![
            Connection::Down,
            Connection::Down,
            Connection::Up,
            Connection::Up,
            Connection::Down,
            Connection::Down,
        ]
    );
}

#[test]
fn uniform_crossover_swaps_marked_positions() {
    let g1 = vec![Connection::Up; 4];
    let g2 = vec![Connection::Down; 4];
    let (c1, c2) = uniform_crossover_with(&g1, &g2, &vec![true, false, true, false]);
    assert_eq!(
        c1,
        vec![Connection::Down, Connection::Up, Connection::Down, Connection::Up]
    );
    assert_eq!(
        c2,
        vec![Connection::Up, Connection::Down, Connection::Up, Connection::Down]
    );
}

#[test]
fn random_crossovers_preserve_length_and_genes() {
    let g1 = vec![Connection::Up; 8];
    let g2 = vec![Connection::Down; 8];
    for _ in 0..20 {
        let (c1, c2) = one_point_crossover(&g1, &g2);
        let (d1, d2) = n_point_crossover(&g1, &g2, 3);
        let (e1, e2) = uniform_crossover(&g1, &g2);
        for children in [(c1, c2), (d1, d2), (e1, e2)] {
            assert_eq!(children.0.len(), 8);
            assert_eq!(children.1.len(), 8);
            for i in 0..8 {
                // each position carries the two parents' genes, one way
                // or the other
                let straight =
                    children.0[i] == g1[i] && children.1[i] == g2[i];
                let swapped = children.0[i] == g2[i] && children.1[i] == g1[i];
                assert!(straight || swapped);
            }
        }
    }
}

#[test]
fn crossover_driver_preserves_population() {
    let gd = build_global_data(2, 2, uniform_pixels(4, 0, 0, 0));
    let mut config = basic_config();
    let mut entry = function_config("one_point");
    entry.probability = Some(1000);
    config.crossovers = vec![entry];
    let mut population = Vec::new();
    for _ in 0..4 {
        population.push(Individual::new_with_genome(&vec![Connection::Nowhere; 4]));
    }
    crossover(&mut population, &config, &gd);
    assert_eq!(population.len(), 4);
    for ind in population.iter() {
        assert_eq!(ind.genome.len(), 4);
    }
}

#[test]
fn flip_one_bit_changes_exactly_one_position() {
    let gd = build_global_data(3, 3, uniform_pixels(9, 0, 0, 0));
    for _ in 0..20 {
        let mut child = Individual::new_with_genome(&vec![Connection::Nowhere; 9]);
        let before = child.genome.clone();
        flip_one_bit(&mut child, &gd);
        assert_eq!(child.genome.len(), 9);
        assert!(genome_diff_count(&before, &child.genome) <= 1);
        assert!(child.needs_update());
    }
    // with a fixed index and value, exactly that position is written
    let mut child = Individual::new_with_genome(&vec![Connection::Nowhere; 9]);
    flip_one_bit_at(&mut child, 4, Connection::Left);
    assert_eq!(child.genome[4], Connection::Left);
    for i in 0..9 {
        if i != 4 {
            assert_eq!(child.genome[i], Connection::Nowhere);
        }
    }
}

#[test]
fn segment_flips_preserve_genome_length() {
    let gd = build_global_data(3, 3, uniform_pixels(9, 7, 7, 7));
    for _ in 0..10 {
        let mut child = Individual::new_with_genome(&vec![Connection::Nowhere; 9]);
        flip_to_biggest_segment(&mut child, &gd);
        assert_eq!(child.genome.len(), 9);
        let mut child2 = Individual::new_with_genome(&vec![Connection::Nowhere; 9]);
        flip_to_smallest_segment(&mut child2, &gd);
        assert_eq!(child2.genome.len(), 9);
        let mut child3 = Individual::new_with_genome(&vec![Connection::Nowhere; 9]);
        flip_to_smallest_deviation(&mut child3, &gd, 2);
        assert_eq!(child3.genome.len(), 9);
    }
}

#[test]
fn eat_similar_grows_uniform_region() {
    // uniform image: every neighbor passes the variance band, so the
    // flood fill rewires genes toward the start pixel
    let gd = build_global_data(3, 3, uniform_pixels(9, 100, 100, 100));
    let mut child = Individual::new_with_genome(&vec![Connection::Nowhere; 9]);
    eat_similar(&mut child, 1000, &gd);
    assert_eq!(child.genome.len(), 9);
    // something was rewired: the genome no longer consists of terminals
    // only (the start pixel keeps its gene, its neighbors point back)
    let changed = child
        .genome
        .iter()
        .filter(|c| **c != Connection::Nowhere)
        .count();
    assert!(changed > 0);
}

#[test]
fn destroy_small_segments_preserves_length() {
    let gd = build_global_data(3, 3, uniform_pixels(9, 5, 5, 5));
    let mut child = Individual::new_with_genome(&vec![Connection::Nowhere; 9]);
    destroy_small_segments(&mut child, &gd, 1000);
    assert_eq!(child.genome.len(), 9);
    assert!(child.needs_update());
}

#[test]
fn mutate_driver_preserves_population() {
    let gd = build_global_data(2, 2, uniform_pixels(4, 0, 0, 0));
    let mut config = basic_config();
    let mut entry = function_config("flip_one_bit");
    entry.probability = Some(1000);
    config.mutations = vec![entry];
    let mut population = Vec::new();
    for _ in 0..4 {
        population.push(Individual::new_with_genome(&vec![Connection::Nowhere; 4]));
    }
    mutate(&mut population, &config, &gd);
    assert_eq!(population.len(), 4);
    for ind in population.iter() {
        assert_eq!(ind.genome.len(), 4);
        assert!(ind.needs_update());
    }
}

#[test]
fn roulette_returns_population_unchanged_on_equal_fitness() {
    let population = vec![
        candidate_with_fitness(42),
        candidate_with_fitness(42),
        candidate_with_fitness(42),
    ];
    let out = roulette_wheel_weighted(&population, 7);
    assert_eq!(out.len(), 3);
    for (a, b) in population.iter().zip(out.iter()) {
        assert_eq!(a.get_fitness(), b.get_fitness());
        assert_eq!(a.genome, b.genome);
    }
}

#[test]
fn roulette_samples_requested_size() {
    let population = vec![
        candidate_with_fitness(1),
        candidate_with_fitness(10),
        candidate_with_fitness(100),
    ];
    let out = roulette_wheel_weighted(&population, 5);
    assert_eq!(out.len(), 5);
    for ind in out.iter() {
        let f = ind.get_fitness();
        assert!(f == 1 || f == 10 || f == 100);
    }
}

#[test]
fn tournament_selection_draws_members() {
    let population = vec![candidate(1, 1, 1), candidate(2, 2, 2), candidate(3, 3, 3)];
    let out = tournament_selection(&population, 6, 2, 700);
    assert_eq!(out.len(), 6);
    for ind in out.iter() {
        let e = ind.get_objectives().0;
        assert!(e == 1 || e == 2 || e == 3);
    }
}

#[test]
fn tournament_weighted_draws_members() {
    let population = vec![candidate_with_fitness(5), candidate_with_fitness(9)];
    let out = tournament_weighted(&population, 4, 2, 900);
    assert_eq!(out.len(), 4);
    for ind in out.iter() {
        let f = ind.get_fitness();
        assert!(f == 5 || f == 9);
    }
}

#[test]
fn crowding_truncation_keeps_extremes() {
    // eight mutually distinct candidates; the per-objective extremes sit
    // at known objective values
    let front = vec![
        candidate(5, 2, 4),
        candidate(1, 7, 2),  // min edge
        candidate(9, 1, 8),  // max edge, min connectivity
        candidate(4, 9, 1),  // max connectivity, min deviation
        candidate(6, 5, 9),  // max deviation
        candidate(2, 8, 6),
        candidate(8, 3, 3),
        candidate(3, 6, 7),
    ];
    let kept = take_top_by_crowding(&front, 6);
    assert_eq!(kept.len(), 6);
    let objs: Vec<(u64, u64, u64)> = kept.iter().map(|i| i.get_objectives()).collect();
    // min and max of every objective survive the truncation
    assert!(objs.contains(&(1, 7, 2)));
    assert!(objs.contains(&(9, 1, 8)));
    assert!(objs.contains(&(4, 9, 1)));
    assert!(objs.contains(&(6, 5, 9)));
}

#[test]
fn nsga2_admits_whole_fronts_first() {
    let population = vec![
        candidate(10, 5, 5),
        candidate(20, 1, 1),
        candidate(5, 9, 9),
        candidate(4, 10, 10),
    ];
    // front 0 = {first, second}, then {third}, then {fourth}
    let out = nsga_2_selection(&population, 3);
    assert_eq!(out.len(), 3);
    let objs: Vec<(u64, u64, u64)> = out.iter().map(|i| i.get_objectives()).collect();
    assert!(objs.contains(&(10, 5, 5)));
    assert!(objs.contains(&(20, 1, 1)));
    assert!(objs.contains(&(5, 9, 9)));
}

#[test]
fn parent_selection_none_passes_population_through() {
    let mut config = basic_config();
    config.parent_selection = function_config("none");
    let population = vec![candidate(1, 2, 3), candidate(4, 5, 6)];
    let sorted = non_dominated_sort(&population);
    let out = parent_selection(&population, &sorted, &config);
    assert_eq!(out.len(), 2);
    for (a, b) in population.iter().zip(out.iter()) {
        assert_eq!(a.get_objectives(), b.get_objectives());
    }
}

#[test]
fn parent_selection_preserves_skyline() {
    let mut config = basic_config();
    config.preserve_skyline = true;
    let population = vec![candidate(10, 5, 5), candidate(20, 1, 1), candidate(5, 9, 9)];
    let sorted = non_dominated_sort(&population);
    let skyline_len = sorted[0].len();
    let out = parent_selection(&population, &sorted, &config);
    for a in 0..skyline_len {
        assert_eq!(out[a].get_objectives(), sorted[0][a].get_objectives());
    }
}

#[test]
fn survivor_selection_fills_population() {
    let mut config = basic_config();
    config.population_size = 3;
    let parents = vec![candidate(1, 1, 1), candidate(2, 2, 2), candidate(3, 3, 3)];
    let children = vec![candidate(4, 4, 4), candidate(5, 5, 5), candidate(6, 6, 6)];
    let out = survivor_selection(&parents, &children, &config);
    assert_eq!(out.len(), 3);
}

#[test]
fn full_replacement_returns_children() {
    let mut config = basic_config();
    config.population_size = 2;
    config.survivor_selection = function_config("fullReplacement");
    let parents = vec![candidate(1, 1, 1), candidate(2, 2, 2)];
    let children = vec![candidate(7, 7, 7), candidate(8, 8, 8)];
    let out = survivor_selection(&parents, &children, &config);
    assert_eq!(out.len(), 2);
    assert_eq!(out[0].get_objectives(), (7, 7, 7));
    assert_eq!(out[1].get_objectives(), (8, 8, 8));
}

#[test]
fn nsga2_survivor_selection_combines() {
    let mut config = basic_config();
    config.population_size = 2;
    config.survivor_selection = function_config("NSGA-2");
    config.survivor_selection.combine_parents_and_offspring = Some(true);
    let parents = vec![candidate(10, 5, 5), candidate(20, 1, 1)];
    let children = vec![candidate(5, 9, 9), candidate(4, 10, 10)];
    let out = survivor_selection(&parents, &children, &config);
    assert_eq!(out.len(), 2);
    let objs: Vec<(u64, u64, u64)> = out.iter().map(|i| i.get_objectives()).collect();
    assert!(objs.contains(&(10, 5, 5)));
    assert!(objs.contains(&(20, 1, 1)));
}

#[test]
fn initialize_population_evaluates_everyone() {
    let gd = build_global_data(2, 2, uniform_pixels(4, 3, 3, 3));
    let config = basic_config();
    let population = initialize_population(&config, &gd);
    assert_eq!(population.len(), 4);
    for ind in population.iter() {
        assert!(!ind.needs_update());
        assert_eq!(ind.genome.len(), 4);
    }
}

#[test]
fn mst_initialization_spans_the_image() {
    let gd = build_global_data(3, 3, uniform_pixels(9, 1, 1, 1));
    let genome = get_mst_genome(&gd);
    assert_eq!(genome.len(), 9);
    // the random seed is the single tree root
    let roots = genome.iter().filter(|c| **c == Connection::Nowhere).count();
    assert_eq!(roots, 1);
    let mut config = basic_config();
    config.initialization_method = "mst".to_owned();
    config.population_size = 2;
    let population = initialize_population(&config, &gd);
    assert_eq!(population.len(), 2);
    for ind in population.iter() {
        // a spanning tree decodes into one connected region
        let map = ind.get_cluster_map(3, 3);
        let first = map[0][0];
        for row in map.iter() {
            for cell in row.iter() {
                assert_eq!(*cell, first);
            }
        }
    }
}

#[test]
fn random_draws_stay_below_bound() {
    for _ in 0..50 {
        assert!(rand_index(5) < 5);
        assert!(rand_u64_below(7) < 7);
    }
    assert_eq!(rand_index(1), 0);
}

#[test]
fn fifo_hands_back_oldest_first() {
    let mut q = fifo_new();
    assert_eq!(fifo_size(&q), 0);
    fifo_add(&mut q, 11);
    fifo_add(&mut q, 22);
    fifo_add(&mut q, 33);
    assert_eq!(fifo_size(&q), 3);
    assert_eq!(fifo_remove(&mut q), 11);
    assert_eq!(fifo_remove(&mut q), 22);
    assert_eq!(fifo_remove(&mut q), 33);
    assert_eq!(fifo_size(&q), 0);
}

#[test]
fn flip_to_biggest_targets_the_larger_region() {
    // 3x1 image: the left two pixels form one region, the right pixel its
    // own; whichever pixel is drawn, the written direction points at the
    // two-pixel region
    let gd = build_global_data(3, 1, uniform_pixels(3, 0, 0, 0));
    for _ in 0..20 {
        let genome = vec![Connection::Nowhere, Connection::Left, Connection::Nowhere];
        let mut child = Individual::new_with_genome(&genome);
        flip_to_biggest_segment(&mut child, &gd);
        assert!(child.genome[0] == Connection::Nowhere || child.genome[0] == Connection::Right);
        assert_eq!(child.genome[1], Connection::Left);
        assert!(child.genome[2] == Connection::Nowhere || child.genome[2] == Connection::Left);
    }
}

#[test]
fn flip_to_smallest_targets_the_smaller_region() {
    let gd = build_global_data(3, 1, uniform_pixels(3, 0, 0, 0));
    for _ in 0..20 {
        let genome = vec![Connection::Nowhere, Connection::Left, Connection::Nowhere];
        let mut child = Individual::new_with_genome(&genome);
        flip_to_smallest_segment(&mut child, &gd);
        // the middle pixel's smaller neighbor region is the singleton on
        // the right; the outer pixels have only one neighbor each
        assert!(child.genome[0] == Connection::Nowhere || child.genome[0] == Connection::Right);
        assert!(child.genome[1] == Connection::Left || child.genome[1] == Connection::Right);
        assert!(child.genome[2] == Connection::Nowhere || child.genome[2] == Connection::Left);
    }
}

#[test]
fn destroy_small_segments_rewires_undersized_regions() {
    let gd = build_global_data(2, 1, uniform_pixels(2, 0, 0, 0));
    // both singletons cover 50% of the image, below a 60% minimum: both
    // are re-pointed in a fresh random direction
    let mut child = Individual::new_with_genome(&vec![Connection::Nowhere; 2]);
    destroy_small_segments(&mut child, &gd, 600);
    assert_ne!(child.genome[0], Connection::Nowhere);
    assert_ne!(child.genome[1], Connection::Nowhere);
    // with no minimum coverage, nothing is undersized and nothing changes
    let mut untouched = Individual::new_with_genome(&vec![Connection::Nowhere; 2]);
    destroy_small_segments(&mut untouched, &gd, 0);
    assert_eq!(untouched.genome, vec![Connection::Nowhere; 2]);
}

#[test]
fn nsga2_survivor_keeps_nondominated_parents() {
    // the parents dominate both children, so the NSGA-II survivor
    // selection of the combined pool must return exactly the parents
    let mut config = basic_config();
    config.population_size = 2;
    config.survivor_selection = function_config("NSGA-2");
    config.survivor_selection.combine_parents_and_offspring = Some(true);
    let parents = vec![candidate(50, 1, 1), candidate(60, 2, 2)];
    let children = vec![candidate(5, 9, 9), candidate(4, 10, 10)];
    let out = survivor_selection(&parents, &children, &config);
    assert_eq!(out.len(), 2);
    let objs: Vec<(u64, u64, u64)> = out.iter().map(|i| i.get_objectives()).collect();
    assert!(objs.contains(&(50, 1, 1)));
    assert!(objs.contains(&(60, 2, 2)));
}

#[test]
fn crossover_driver_marks_a_pairing_dirty() {
    let gd = build_global_data(2, 2, uniform_pixels(4, 0, 0, 0));
    let mut config = basic_config();
    let mut entry = function_config("uniform");
    entry.probability = Some(1000);
    config.crossovers = vec![entry];
    let mut population = Vec::new();
    for _ in 0..4 {
        population.push(Individual::new_evaluated(vec![Connection::Nowhere; 4], 1, 1, 1, 0));
    }
    crossover(&mut population, &config, &gd);
    // at least the last pairing's two distinct members are dirty
    let dirty = population.iter().filter(|i| i.needs_update()).count();
    assert!(dirty >= 2);
}

#[test]
fn one_point_keeps_a_single_cut() {
    // verify the exists-cut structure behaviorally: the child switches
    // source parent at most once
    let g1 = vec![Connection::Up; 10];
    let g2 = vec![Connection::Down; 10];
    for _ in 0..20 {
        let (c1, _) = one_point_crossover(&g1, &g2);
        let mut switches = 0;
        for i in 1..10 {
            if c1[i] != c1[i - 1] {
                switches += 1;
            }
        }
        assert!(switches <= 1);
        // and the head always comes from the first parent
        if c1[0] == Connection::Down {
            // cut at 0: the whole child is the second parent
            assert!(c1.iter().all(|c| *c == Connection::Down));
        }
    }
}
