//! Run configuration: operator descriptors and their load-time validation.
//!
//! Operators are picked by string key.  Unknown keys, missing operator
//! parameters and incompatible option combinations are configuration
//! mistakes; [`validate_config`] rejects them up front, so every operator
//! entry point can rely on a valid configuration.
//!
//! Rates and coverage fractions are carried in thousandths; the three
//! fitness multipliers are plain integers.

use vstd::prelude::*;

verus! {

/// One operator descriptor: a name and its optional parameters.
/// Rates (`probability`, `max_depth_percent_of_picture`,
/// `minimum_coverage_percentage`) are in thousandths.
#[derive(Debug, Clone)]
pub struct FunctionConfig {
    pub name: String,
    pub probability: Option<u32>,
    pub tournament_size: Option<usize>,
    pub combine_parents_and_offspring: Option<bool>,
    pub number_of_slices: Option<usize>,
    pub max_depth_percent_of_picture: Option<u32>,
    pub radius: Option<usize>,
    pub minimum_coverage_percentage: Option<u32>,
}

/// The whole run configuration.
#[derive(Debug, Clone)]
pub struct Config {
    pub problem_instance: String,
    pub population_size: usize,
    pub number_of_generations: usize,
    pub initialization_method: String,
    pub parent_selection: FunctionConfig,
    pub crossovers: Vec<FunctionConfig>,
    pub mutations: Vec<FunctionConfig>,
    pub survivor_selection: FunctionConfig,
    pub preserve_skyline: bool,
    pub edge_value_multiplier: u64,
    pub connectivity_multiplier: u64,
    pub overall_deviation_multiplier: u64,
}

/// A configuration mistake, carrying the offending key.
#[derive(Debug, Clone)]
pub enum ConfigError {
    /// An operator name outside the supported set.
    UnsupportedOperator(String),
    /// An operator that lacks a parameter it needs.
    MissingParameter(String),
    /// Two options that cannot be combined.
    IncompatibleOptions(String),
}

impl ConfigError {
    /// The configuration key this error names.
    pub fn offending_key(&self) -> (r: &String)
        ensures
            r == match self {
                ConfigError::UnsupportedOperator(k) => k,
                ConfigError::MissingParameter(k) => k,
                ConfigError::IncompatibleOptions(k) => k,
            },
    {
        match self {
            ConfigError::UnsupportedOperator(k) => k,
            ConfigError::MissingParameter(k) => k,
            ConfigError::IncompatibleOptions(k) => k,
        }
    }
}

/// The parent-selection descriptor is one of the supported strategies with
/// the parameters it needs, and compatible with skyline preservation.
pub open spec fn parent_selection_valid(c: &Config) -> bool {
    let fc = &c.parent_selection;
    ||| (fc.name@ == "tournament"@ && (fc.tournament_size matches Some(t) && t >= 1)
        && fc.probability.is_some())
    ||| (fc.name@ == "none"@ && !c.preserve_skyline)
    ||| fc.name@ == "roulette_wheel_weighted"@
    ||| (fc.name@ == "tournament_weighted"@ && (fc.tournament_size matches Some(t) && t
        >= 1) && fc.probability.is_some())
}

/// The survivor-selection descriptor is one of the supported strategies
/// with the parameters it needs, and compatible with skyline preservation
/// and the combine flag.
pub open spec fn survivor_selection_valid(c: &Config) -> bool {
    let fc = &c.survivor_selection;
    ||| (fc.name@ == "fullReplacement"@ && !c.preserve_skyline)
    ||| (fc.name@ == "tournament"@ && (fc.tournament_size matches Some(t) && t >= 1)
        && fc.probability.is_some())
    ||| (fc.name@ == "NSGA-2"@ && !c.preserve_skyline && fc.combine_parents_and_offspring
        == Some(true))
    ||| fc.name@ == "roulette_wheel_weighted"@
    ||| (fc.name@ == "tournament_weighted"@ && (fc.tournament_size matches Some(t) && t
        >= 1) && fc.probability.is_some())
}

/// One crossover descriptor is supported and fully parameterized.
pub open spec fn crossover_valid(fc: FunctionConfig) -> bool {
    &&& (fc.probability matches Some(p) && p <= 1000)
    &&& {
        ||| fc.name@ == "one_point"@
        ||| (fc.name@ == "n_point"@ && fc.number_of_slices.is_some())
        ||| fc.name@ == "uniform"@
    }
}

/// One mutation descriptor is supported and fully parameterized.
pub open spec fn mutation_valid(fc: FunctionConfig) -> bool {
    &&& (fc.probability matches Some(p) && p <= 1000)
    &&& {
        ||| fc.name@ == "flip_one_bit"@
        ||| fc.name@ == "flip_to_smallest_segment"@
        ||| fc.name@ == "flip_to_biggest_segment"@
        ||| (fc.name@ == "eat_similar"@ && (fc.max_depth_percent_of_picture matches Some(d) && d
            <= 1000))
        ||| (fc.name@ == "flip_to_smallest_deviation"@ && fc.radius != Some(0usize))
        ||| (fc.name@ == "destroy_small_segments"@ && (fc.minimum_coverage_percentage matches Some(
            c,
        ) && c <= 1000))
    }
}

/// The whole configuration is valid: a positive population size, known
/// initialization method, and valid, compatible operator descriptors.
pub open spec fn config_valid(c: &Config) -> bool {
    &&& c.population_size >= 1
    &&& (c.initialization_method@ == "random"@ || c.initialization_method@ == "mst"@)
    &&& parent_selection_valid(c)
    &&& survivor_selection_valid(c)
    &&& forall|k: int| 0 <= k < c.crossovers@.len() ==> crossover_valid(#[trigger] c.crossovers@[k])
    &&& forall|k: int| 0 <= k < c.mutations@.len() ==> mutation_valid(#[trigger] c.mutations@[k])
}

/// Whether a name equals a literal key.
fn name_is(name: &String, key: &str) -> (r: bool)
    ensures
        r == (name@ == key@),
{
    let owned: String = key.to_owned();
    *name == owned
}

/// Check the parent-selection descriptor.
fn validate_parent_selection(c: &Config) -> (r: Result<(), ConfigError>)
    ensures
        r.is_ok() <==> parent_selection_valid(c),
{
    proof {
        reveal_strlit("tournament");
        reveal_strlit("tournament_weighted");
        reveal_strlit("none");
        reveal_strlit("roulette_wheel_weighted");
        assert("tournament"@.len() == 10);
        assert("tournament_weighted"@.len() == 19);
        assert("none"@.len() == 4);
        assert("roulette_wheel_weighted"@.len() == 23);
    }
    let fc = &c.parent_selection;
    if name_is(&fc.name, "tournament") || name_is(&fc.name, "tournament_weighted") {
        match fc.tournament_size {
            Some(t) => {
                if t < 1 {
                    return Result::Err(ConfigError::MissingParameter(fc.name.clone()));
                }
            },
            None => {
                return Result::Err(ConfigError::MissingParameter(fc.name.clone()));
            },
        }
        if fc.probability.is_none() {
            return Result::Err(ConfigError::MissingParameter(fc.name.clone()));
        }
        Result::Ok(())
    } else if name_is(&fc.name, "none") {
        if c.preserve_skyline {
            return Result::Err(ConfigError::IncompatibleOptions(fc.name.clone()));
        }
        Result::Ok(())
    } else if name_is(&fc.name, "roulette_wheel_weighted") {
        Result::Ok(())
    } else {
        Result::Err(ConfigError::UnsupportedOperator(fc.name.clone()))
    }
}

/// Check the survivor-selection descriptor.
fn validate_survivor_selection(c: &Config) -> (r: Result<(), ConfigError>)
    ensures
        r.is_ok() <==> survivor_selection_valid(c),
{
    proof {
        reveal_strlit("tournament");
        reveal_strlit("tournament_weighted");
        reveal_strlit("fullReplacement");
        reveal_strlit("NSGA-2");
        reveal_strlit("roulette_wheel_weighted");
        assert("tournament"@.len() == 10);
        assert("tournament_weighted"@.len() == 19);
        assert("fullReplacement"@.len() == 15);
        assert("NSGA-2"@.len() == 6);
        assert("roulette_wheel_weighted"@.len() == 23);
    }
    let fc = &c.survivor_selection;
    if name_is(&fc.name, "tournament") || name_is(&fc.name, "tournament_weighted") {
        match fc.tournament_size {
            Some(t) => {
                if t < 1 {
                    return Result::Err(ConfigError::MissingParameter(fc.name.clone()));
                }
            },
            None => {
                return Result::Err(ConfigError::MissingParameter(fc.name.clone()));
            },
        }
        if fc.probability.is_none() {
            return Result::Err(ConfigError::MissingParameter(fc.name.clone()));
        }
        Result::Ok(())
    } else if name_is(&fc.name, "fullReplacement") {
        if c.preserve_skyline {
            return Result::Err(ConfigError::IncompatibleOptions(fc.name.clone()));
        }
        Result::Ok(())
    } else if name_is(&fc.name, "NSGA-2") {
        if c.preserve_skyline {
            return Result::Err(ConfigError::IncompatibleOptions(fc.name.clone()));
        }
        match fc.combine_parents_and_offspring {
            Some(true) => Result::Ok(()),
            _ => Result::Err(ConfigError::IncompatibleOptions(fc.name.clone())),
        }
    } else if name_is(&fc.name, "roulette_wheel_weighted") {
        Result::Ok(())
    } else {
        Result::Err(ConfigError::UnsupportedOperator(fc.name.clone()))
    }
}

/// Check one crossover descriptor.
fn validate_crossover(fc: &FunctionConfig) -> (r: Result<(), ConfigError>)
    ensures
        r.is_ok() <==> crossover_valid(*fc),
{
    proof {
        reveal_strlit("one_point");
        reveal_strlit("uniform");
        reveal_strlit("n_point");
        assert("one_point"@.len() == 9);
        assert("uniform"@.len() == 7);
        assert("n_point"@.len() == 7);
        assert("uniform"@[0] == 'u' && "n_point"@[0] == 'n');
    }
    match fc.probability {
        Some(p) => {
            if p > 1000 {
                return Result::Err(ConfigError::MissingParameter(fc.name.clone()));
            }
        },
        None => {
            return Result::Err(ConfigError::MissingParameter(fc.name.clone()));
        },
    }
    if name_is(&fc.name, "one_point") || name_is(&fc.name, "uniform") {
        Result::Ok(())
    } else if name_is(&fc.name, "n_point") {
        if fc.number_of_slices.is_none() {
            return Result::Err(ConfigError::MissingParameter(fc.name.clone()));
        }
        Result::Ok(())
    } else {
        Result::Err(ConfigError::UnsupportedOperator(fc.name.clone()))
    }
}

/// Check one mutation descriptor.
fn validate_mutation(fc: &FunctionConfig) -> (r: Result<(), ConfigError>)
    ensures
        r.is_ok() <==> mutation_valid(*fc),
{
    proof {
        reveal_strlit("flip_one_bit");
        reveal_strlit("flip_to_smallest_segment");
        reveal_strlit("flip_to_biggest_segment");
        reveal_strlit("eat_similar");
        reveal_strlit("flip_to_smallest_deviation");
        reveal_strlit("destroy_small_segments");
        assert("flip_one_bit"@.len() == 12);
        assert("flip_to_smallest_segment"@.len() == 24);
        assert("flip_to_biggest_segment"@.len() == 23);
        assert("eat_similar"@.len() == 11);
        assert("flip_to_smallest_deviation"@.len() == 26);
        assert("destroy_small_segments"@.len() == 22);
    }
    match fc.probability {
        Some(p) => {
            if p > 1000 {
                return Result::Err(ConfigError::MissingParameter(fc.name.clone()));
            }
        },
        None => {
            return Result::Err(ConfigError::MissingParameter(fc.name.clone()));
        },
    }
    if name_is(&fc.name, "flip_one_bit") || name_is(&fc.name, "flip_to_smallest_segment")
        || name_is(&fc.name, "flip_to_biggest_segment") {
        Result::Ok(())
    } else if name_is(&fc.name, "eat_similar") {
        match fc.max_depth_percent_of_picture {
            Some(d) => {
                if d > 1000 {
                    return Result::Err(ConfigError::MissingParameter(fc.name.clone()));
                }
            },
            None => {
                return Result::Err(ConfigError::MissingParameter(fc.name.clone()));
            },
        }
        Result::Ok(())
    } else if name_is(&fc.name, "flip_to_smallest_deviation") {
        match fc.radius {
            Some(radius) => {
                if radius == 0 {
                    return Result::Err(ConfigError::MissingParameter(fc.name.clone()));
                }
            },
            None => {},
        }
        Result::Ok(())
    } else if name_is(&fc.name, "destroy_small_segments") {
        match fc.minimum_coverage_percentage {
            Some(c) => {
                if c > 1000 {
                    return Result::Err(ConfigError::MissingParameter(fc.name.clone()));
                }
            },
            None => {
                return Result::Err(ConfigError::MissingParameter(fc.name.clone()));
            },
        }
        Result::Ok(())
    } else {
        Result::Err(ConfigError::UnsupportedOperator(fc.name.clone()))
    }
}

/// Validate a configuration once, at load time.
///
/// Succeeds exactly on valid configurations; the error names the offending
/// key: an unsupported operator name, an operator missing a parameter it
/// needs, or an incompatible option combination such as skyline
/// preservation together with `none`, `fullReplacement` or `NSGA-2`.
pub fn validate_config(c: &Config) -> (r: Result<(), ConfigError>)
    ensures
        r.is_ok() <==> config_valid(c),
{
    proof {
        reveal_strlit("random");
        reveal_strlit("mst");
        assert("random"@.len() == 6);
        assert("mst"@.len() == 3);
    }
    if c.population_size < 1 {
        return Result::Err(ConfigError::MissingParameter(c.initialization_method.clone()));
    }
    if !(name_is(&c.initialization_method, "random") || name_is(&c.initialization_method, "mst")) {
        return Result::Err(ConfigError::UnsupportedOperator(c.initialization_method.clone()));
    }
    match validate_parent_selection(c) {
        Result::Ok(()) => {},
        Result::Err(e) => {
            return Result::Err(e);
        },
    }
    match validate_survivor_selection(c) {
        Result::Ok(()) => {},
        Result::Err(e) => {
            return Result::Err(e);
        },
    }
    let mut k: usize = 0;
    while k < c.crossovers.len()
        invariant
            k <= c.crossovers@.len(),
            forall|m: int| 0 <= m < k ==> crossover_valid(#[trigger] c.crossovers@[m]),
        decreases c.crossovers@.len() - k,
    {
        match validate_crossover(&c.crossovers[k]) {
            Result::Ok(()) => {},
            Result::Err(e) => {
                return Result::Err(e);
            },
        }
        k += 1;
    }
    let mut k2: usize = 0;
    while k2 < c.mutations.len()
        invariant
            k2 <= c.mutations@.len(),
            forall|m: int| 0 <= m < k2 ==> mutation_valid(#[trigger] c.mutations@[m]),
        decreases c.mutations@.len() - k2,
    {
        match validate_mutation(&c.mutations[k2]) {
            Result::Ok(()) => {},
            Result::Err(e) => {
                return Result::Err(e);
            },
        }
        k2 += 1;
    }
    Result::Ok(())
}

/// The mutation operator keys are pairwise distinct literals.
pub proof fn lemma_mutation_names_distinct()
    ensures
        "flip_one_bit"@.len() == 12,
        "flip_to_smallest_segment"@.len() == 24,
        "flip_to_biggest_segment"@.len() == 23,
        "eat_similar"@.len() == 11,
        "flip_to_smallest_deviation"@.len() == 26,
        "destroy_small_segments"@.len() == 22,
{
    reveal_strlit("flip_one_bit");
    reveal_strlit("flip_to_smallest_segment");
    reveal_strlit("flip_to_biggest_segment");
    reveal_strlit("eat_similar");
    reveal_strlit("flip_to_smallest_deviation");
    reveal_strlit("destroy_small_segments");
}

} // verus!

