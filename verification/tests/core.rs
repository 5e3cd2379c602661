// Decoder, distance, evaluator and configuration behavior.

use segmentation_ga::config::{
    validate_config, Config, ConfigError, FunctionConfig,
};
use segmentation_ga::decoder::decode_genome;
use segmentation_ga::distance::{
    euclidean_distance, get_nearest_neighbor_value, isqrt, isqrt_wide, Pixel,
};
use segmentation_ga::genome::Connection;
use segmentation_ga::global_data::{
    calculate_euclidean_distance_map_for_neighbors, generate_pixel_edge_weights,
    get_edge_weighted_random_pixel_index, GlobalData,
};
use segmentation_ga::individual::{is_border_pixel, Individual};
use segmentation_ga::decoder::get_connected_pixels_for_pixel;

fn uniform_pixels(n: usize, red: u8, green: u8, blue: u8) -> Vec<Pixel> {
    let mut v = Vec::new();
    for _ in 0..n {
        v.push(Pixel { red, green, blue });
    }
    v
}

fn build_global_data(width: usize, height: usize, pixels: Vec<Pixel>) -> GlobalData {
    let distance_map = calculate_euclidean_distance_map_for_neighbors(&pixels, width, height);
    let edge_map = vec![1u8; width * height];
    let pixel_weights = generate_pixel_edge_weights(&edge_map);
    GlobalData { width, height, pixels, distance_map, pixel_weights }
}

fn function_config(name: &str) -> FunctionConfig {
    FunctionConfig {
        name: name.to_owned(),
        probability: None,
        tournament_size: None,
        combine_parents_and_offspring: None,
        number_of_slices: None,
        max_depth_percent_of_picture: None,
        radius: None,
        minimum_coverage_percentage: None,
    }
}

fn basic_config() -> Config {
    let mut parent = function_config("tournament");
    parent.tournament_size = Some(2);
    parent.probability = Some(800);
    let mut survivor = function_config("tournament");
    survivor.tournament_size = Some(2);
    survivor.probability = Some(800);
    Config {
        problem_instance: "unit".to_owned(),
        population_size: 4,
        number_of_generations: 1,
        initialization_method: "random".to_owned(),
        parent_selection: parent,
        crossovers: Vec::new(),
        mutations: Vec::new(),
        survivor_selection: survivor,
        preserve_skyline: false,
        edge_value_multiplier: 1,
        connectivity_multiplier: 1,
        overall_deviation_multiplier: 1,
    }
}

#[test]
fn isqrt_exact_values() {
    assert_eq!(isqrt(0), 0);
    assert_eq!(isqrt(15), 3);
    assert_eq!(isqrt(16), 4);
    assert_eq!(isqrt(1000000), 1000);
    assert_eq!(isqrt_wide(16), 4);
    assert_eq!(isqrt_wide(3u128 * 255 * 255 * 1000000), 441672);
}

#[test]
fn euclidean_distance_exact_values() {
    let black = Pixel { red: 0, green: 0, blue: 0 };
    let white = Pixel { red: 255, green: 255, blue: 255 };
    // floor(1000 * sqrt(3 * 255^2))
    assert_eq!(euclidean_distance(&black, &white), 441672);
    // a 3-4-0 gap: distance 5, in thousandths
    let p = Pixel { red: 3, green: 4, blue: 0 };
    assert_eq!(euclidean_distance(&black, &p), 5000);
    assert_eq!(euclidean_distance(&black, &black), 0);
}

#[test]
fn neighbor_weight_table_is_direction_specific() {
    assert_eq!(get_nearest_neighbor_value(-1, -1), 7);
    assert_eq!(get_nearest_neighbor_value(0, -1), 3);
    assert_eq!(get_nearest_neighbor_value(1, -1), 5);
    assert_eq!(get_nearest_neighbor_value(-1, 0), 2);
    assert_eq!(get_nearest_neighbor_value(0, 0), 0);
    assert_eq!(get_nearest_neighbor_value(1, 0), 1);
    assert_eq!(get_nearest_neighbor_value(-1, 1), 8);
    assert_eq!(get_nearest_neighbor_value(0, 1), 4);
    assert_eq!(get_nearest_neighbor_value(1, 1), 6);
}

#[test]
fn distance_map_holds_neighbor_distances() {
    // 2 by 1 image, colors 3-4-0 apart: distance 5000 between the pixels
    let pixels = vec![
        Pixel { red: 0, green: 0, blue: 0 },
        Pixel { red: 3, green: 4, blue: 0 },
    ];
    let dmap = calculate_euclidean_distance_map_for_neighbors(&pixels, 2, 1);
    assert_eq!(dmap.len(), 2 * 49);
    // pixel 0, offset (dx, dy) = (1, 0): index (0+3)*7 + (1+3)
    assert_eq!(dmap[3 * 7 + 4], 5000);
    // pixel 1, offset (-1, 0)
    assert_eq!(dmap[49 + 3 * 7 + 2], 5000);
    // out-of-bounds neighbor: pixel 0, offset (-1, 0)
    assert_eq!(dmap[3 * 7 + 2], 0);
    // the pixel itself
    assert_eq!(dmap[3 * 7 + 3], 0);
}

#[test]
fn decode_all_terminal_gives_singletons() {
    // a 2x2 image whose genes are all terminal decodes to 4 distinct
    // labels, fresh ids in scan order
    let genome = vec![Connection::Nowhere; 4];
    let (cmap, nclusters) = decode_genome(&genome, 2, 2);
    assert_eq!(nclusters, 4);
    assert_eq!(cmap, vec![1, 2, 3, 4]);
}

#[test]
fn decode_is_idempotent_up_to_relabeling() {
    let genome = vec![
        Connection::Right,
        Connection::Down,
        Connection::Nowhere,
        Connection::Left,
        Connection::Up,
        Connection::Up,
    ];
    let (c1, n1) = decode_genome(&genome, 3, 2);
    let (c2, n2) = decode_genome(&genome, 3, 2);
    assert_eq!(n1, n2);
    // same partition: pairwise equality of labels agrees
    for i in 0..c1.len() {
        for j in 0..c1.len() {
            assert_eq!(c1[i] == c1[j], c2[i] == c2[j]);
        }
    }
}

#[test]
fn decode_follows_chains() {
    // 2x1: second pixel points left at the first: one region
    let genome = vec![Connection::Nowhere, Connection::Left];
    let (cmap, nclusters) = decode_genome(&genome, 2, 1);
    assert_eq!(nclusters, 1);
    assert_eq!(cmap, vec![1, 1]);
}

#[test]
fn decode_guards_cycles() {
    // 2x1: the two pixels point at each other: the cycle collapses into
    // one region
    let genome = vec![Connection::Right, Connection::Left];
    let (cmap, nclusters) = decode_genome(&genome, 2, 1);
    assert_eq!(nclusters, 1);
    assert_eq!(cmap, vec![1, 1]);
}

#[test]
fn out_of_bounds_directions_are_terminals() {
    // both pixels point up and out of the 2x1 image: two regions
    let genome = vec![Connection::Up, Connection::Up];
    let (cmap, nclusters) = decode_genome(&genome, 2, 1);
    assert_eq!(nclusters, 2);
    assert_eq!(cmap, vec![1, 2]);
}

#[test]
fn update_objectives_exact_uniform_color() {
    // 2x2 uniform image, all genes terminal: 4 singleton regions, zero
    // color gaps, so edge value 0 and deviation 0; connectivity counts
    // every crossing neighbor pair with its direction weight
    let gd = build_global_data(2, 2, uniform_pixels(4, 9, 9, 9));
    let config = basic_config();
    let mut ind = Individual::new_with_genome(&vec![Connection::Nowhere; 4]);
    assert!(ind.needs_update());
    ind.update_objectives(&config, &gd);
    assert!(!ind.needs_update());
    let (edge, conn, dev) = ind.get_objectives();
    assert_eq!(edge, 0);
    // per-pixel reciprocal weights, scaled by 840:
    // (0,0): 840 + 210 + 140; (1,0): 420 + 210 + 105;
    // (0,1): 840 + 280 + 168; (1,1): 420 + 280 + 120
    assert_eq!(conn, 4033);
    assert_eq!(dev, 0);
    assert_eq!(ind.get_fitness(), 0i128 - 4033);
}

#[test]
fn update_objectives_exact_two_colors() {
    // 1x2 image, colors 3-4-0 apart, two singleton regions
    let pixels = vec![
        Pixel { red: 0, green: 0, blue: 0 },
        Pixel { red: 3, green: 4, blue: 0 },
    ];
    let gd = build_global_data(2, 1, pixels);
    let config = basic_config();
    let mut ind = Individual::new_with_genome(&vec![Connection::Nowhere; 2]);
    ind.update_objectives(&config, &gd);
    let (edge, conn, dev) = ind.get_objectives();
    // both directions of the crossing pair: 5000 each
    assert_eq!(edge, 10000);
    // right neighbor weight 1, left neighbor weight 2
    assert_eq!(conn, 840 + 420);
    assert_eq!(dev, 0);
    assert_eq!(ind.get_fitness(), 10000 - 1260);
}

#[test]
fn single_region_has_no_edges() {
    let gd = build_global_data(2, 1, uniform_pixels(2, 50, 60, 70));
    let config = basic_config();
    let mut ind = Individual::new_with_genome(&vec![Connection::Nowhere, Connection::Left]);
    ind.update_objectives(&config, &gd);
    let (edge, conn, dev) = ind.get_objectives();
    assert_eq!(edge, 0);
    assert_eq!(conn, 0);
    assert_eq!(dev, 0);
}

#[test]
fn dirty_flag_guards_objectives() {
    let ind = Individual::new_with_genome(&vec![Connection::Nowhere; 4]);
    assert!(ind.needs_update());
    let gd = build_global_data(2, 2, uniform_pixels(4, 0, 0, 0));
    let config = basic_config();
    let mut evaluated = Individual::new_with_genome(&vec![Connection::Nowhere; 4]);
    evaluated.update_objectives(&config, &gd);
    assert!(!evaluated.needs_update());
    evaluated.set_needs_update();
    assert!(evaluated.needs_update());
}

#[test]
fn cluster_map_matches_decode() {
    let genome = vec![Connection::Nowhere, Connection::Left, Connection::Up, Connection::Up];
    let ind = Individual::new_with_genome(&genome);
    let map = ind.get_cluster_map(2, 2);
    assert_eq!(map.len(), 2);
    assert_eq!(map[0].len(), 2);
    // pixel (0,1) points left into (0,0); column pixels point up
    assert_eq!(map[0][0], map[0][1]);
    assert_eq!(map[0][0], map[1][0]);
    assert_eq!(map[0][1], map[1][1]);
}

#[test]
fn border_map_marks_frame_and_borders() {
    // 2x2, all singleton regions: every pixel is on the frame
    let gd = build_global_data(2, 2, uniform_pixels(4, 0, 0, 0));
    let ind = Individual::new_with_genome(&vec![Connection::Nowhere; 4]);
    let border = ind.get_border_map(&gd);
    assert_eq!(border, vec![vec![0, 0], vec![0, 0]]);
}

#[test]
fn interior_pixel_of_single_region_is_white() {
    // 3x3 single region: the center pixel is neither frame nor border
    let gd = build_global_data(3, 3, uniform_pixels(9, 0, 0, 0));
    let mut genome = vec![Connection::Left; 9];
    genome[0] = Connection::Nowhere;
    for row in 1..3 {
        genome[row * 3] = Connection::Up;
    }
    let ind = Individual::new_with_genome(&genome);
    let border = ind.get_border_map(&gd);
    assert_eq!(border[1][1], 255);
    assert_eq!(border[0][0], 0);
}

#[test]
fn segment_images_paint_regions() {
    let gd = build_global_data(2, 2, uniform_pixels(4, 1, 2, 3));
    let ind = Individual::new_with_genome(&vec![Connection::Nowhere; 4]);
    let img = ind.get_segments_image(&gd);
    assert_eq!(img.len(), 4);
    // labels 1..=4 pick palette entries 1..=4
    assert_eq!(img[0], Pixel { red: 25, green: 200, blue: 56 });
    assert_eq!(img[1], Pixel { red: 138, green: 42, blue: 226 });
    assert_eq!(img[2], Pixel { red: 158, green: 72, blue: 0 });
    assert_eq!(img[3], Pixel { red: 241, green: 76, blue: 192 });
    let bw = ind.get_segment_border_image(&gd);
    assert_eq!(bw.len(), 4);
    assert_eq!(bw[0], Pixel { red: 0, green: 0, blue: 0 });
    let inline = ind.get_segment_border_image_inline(&gd);
    assert_eq!(inline[0], Pixel { red: 0, green: 255, blue: 0 });
}

#[test]
fn weighted_pixel_draw_stays_in_range() {
    let gd = build_global_data(3, 2, uniform_pixels(6, 0, 0, 0));
    for _ in 0..50 {
        assert!(get_edge_weighted_random_pixel_index(&gd) < 6);
    }
}

#[test]
fn pixel_weights_equal_luminance() {
    let weights = generate_pixel_edge_weights(&vec![0, 10, 255]);
    assert_eq!(weights, vec![0, 10, 255]);
}

#[test]
fn valid_config_passes() {
    let config = basic_config();
    assert!(validate_config(&config).is_ok());
}

#[test]
fn unknown_operator_is_rejected() {
    let mut config = basic_config();
    config.parent_selection = function_config("simulated_annealing");
    match validate_config(&config) {
        Err(ConfigError::UnsupportedOperator(key)) => {
            assert_eq!(key, "simulated_annealing");
        }
        other => panic!("expected an unsupported-operator error, got {:?}", other),
    }
}

#[test]
fn missing_tournament_size_is_rejected() {
    let mut config = basic_config();
    config.survivor_selection = function_config("tournament");
    config.survivor_selection.probability = Some(500);
    match validate_config(&config) {
        Err(ConfigError::MissingParameter(key)) => {
            assert_eq!(key, "tournament");
        }
        other => panic!("expected a missing-parameter error, got {:?}", other),
    }
}

#[test]
fn skyline_with_none_is_rejected() {
    let mut config = basic_config();
    config.parent_selection = function_config("none");
    config.preserve_skyline = true;
    match validate_config(&config) {
        Err(ConfigError::IncompatibleOptions(key)) => {
            assert_eq!(key, "none");
        }
        other => panic!("expected an incompatible-options error, got {:?}", other),
    }
}

#[test]
fn nsga2_requires_combining() {
    let mut config = basic_config();
    config.survivor_selection = function_config("NSGA-2");
    match validate_config(&config) {
        Err(ConfigError::IncompatibleOptions(key)) => {
            assert_eq!(key, "NSGA-2");
        }
        other => panic!("expected an incompatible-options error, got {:?}", other),
    }
    config.survivor_selection.combine_parents_and_offspring = Some(true);
    assert!(validate_config(&config).is_ok());
}

#[test]
fn unknown_crossover_and_mutation_are_rejected() {
    let mut config = basic_config();
    let mut bad = function_config("three_point");
    bad.probability = Some(500);
    config.crossovers = vec![bad];
    assert!(validate_config(&config).is_err());

    let mut config2 = basic_config();
    let mut badm = function_config("swap_all");
    badm.probability = Some(500);
    config2.mutations = vec![badm];
    assert!(validate_config(&config2).is_err());
}

#[test]
fn connected_pixels_follow_the_chain() {
    let genome = vec![Connection::Nowhere, Connection::Left];
    let cluster_map = vec![vec![0usize, 0usize]];
    let mut seen: Vec<i64> = Vec::new();
    let chain = get_connected_pixels_for_pixel(&genome, 1, 2, &mut seen, &cluster_map);
    assert_eq!(chain, vec![1, 0]);
    assert_eq!(seen, vec![1, 0]);
    // a start pixel that was already seen yields an empty chain
    let chain2 = get_connected_pixels_for_pixel(&genome, 1, 2, &mut seen, &cluster_map);
    assert!(chain2.is_empty());
}

#[test]
fn border_pixel_looks_at_orthogonal_neighbors() {
    let map = vec![vec![1usize, 1usize], vec![1usize, 2usize]];
    assert!(!is_border_pixel(&map, 0, 0, 2, 2, 1));
    assert!(is_border_pixel(&map, 1, 1, 2, 2, 2));
    assert!(is_border_pixel(&map, 0, 1, 2, 2, 1));
}

#[test]
fn update_objectives_exact_deviation() {
    // one region of two pixels whose colors sit 10 apart: each pixel is 5
    // from the centroid, in thousandths
    let pixels = vec![
        Pixel { red: 0, green: 0, blue: 0 },
        Pixel { red: 6, green: 8, blue: 0 },
    ];
    let gd = build_global_data(2, 1, pixels);
    let config = basic_config();
    let mut ind = Individual::new_with_genome(&vec![Connection::Nowhere, Connection::Left]);
    ind.update_objectives(&config, &gd);
    let (edge, conn, dev) = ind.get_objectives();
    assert_eq!(edge, 0);
    assert_eq!(conn, 0);
    assert_eq!(dev, 10000);
    assert_eq!(ind.get_fitness(), -10000);
}

#[test]
fn rates_above_one_are_rejected() {
    let mut config = basic_config();
    let mut entry = function_config("one_point");
    entry.probability = Some(1001);
    config.crossovers = vec![entry];
    assert!(validate_config(&config).is_err());

    let mut config2 = basic_config();
    let mut entry2 = function_config("eat_similar");
    entry2.probability = Some(500);
    entry2.max_depth_percent_of_picture = Some(2000);
    config2.mutations = vec![entry2];
    assert!(validate_config(&config2).is_err());
    config2.mutations[0].max_depth_percent_of_picture = Some(800);
    assert!(validate_config(&config2).is_ok());
}
