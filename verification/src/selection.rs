//! Parent and survivor selection strategies: tournaments over Pareto
//! ranks or scalar fitness, fitness-proportional roulette sampling, and
//! NSGA-II style truncation by crowding distance.

use vstd::prelude::*;
use crate::config::{Config, config_valid};
use crate::individual::{CandView, Individual};
use crate::population::{
    Population, cand_views, fronts_views, clone_population, non_dominated_sort,
};
use crate::rng::{rand_index, rand_u128_below};

verus! {

broadcast use vstd::seq_lib::group_to_multiset_ensures;

/// Every member of a candidate sequence is evaluated.
pub open spec fn all_evaluated(s: Seq<Individual>) -> bool {
    forall|i: int| 0 <= i < s.len() ==> (#[trigger] s[i]@).evaluated
}

/// Every member's view occurs in the source population's views.
pub open spec fn members_of(r: Seq<Individual>, src: Seq<Individual>) -> bool {
    forall|i: int| 0 <= i < r.len() ==> cand_views(src).contains(#[trigger] r[i]@)
}

/// All candidates share one scalar fitness.
pub open spec fn all_fitness_equal(s: Seq<Individual>) -> bool {
    forall|i: int, j: int|
        0 <= i < s.len() && 0 <= j < s.len() ==> (#[trigger] s[i]@).fitness == (
        #[trigger] s[j]@).fitness
}

/// A front member's view occurs in the concatenated front views.
proof fn lemma_fronts_views_contains(fs: Seq<Vec<Individual>>, f: int, a: int)
    requires
        0 <= f < fs.len(),
        0 <= a < fs[f]@.len(),
    ensures
        fronts_views(fs).contains(fs[f]@[a]@),
    decreases fs.len(),
{
    if f == fs.len() - 1 {
        let prefix = fronts_views(fs.drop_last());
        let lastv = cand_views(fs.last()@);
        assert(lastv[a] == fs[f]@[a]@);
        assert((prefix + lastv)[prefix.len() + a] == lastv[a]);
        assert(fronts_views(fs).contains(fs[f]@[a]@));
    } else {
        lemma_fronts_views_contains(fs.drop_last(), f, a);
        assert(fs.drop_last()[f]@ == fs[f]@);
        let prefix = fronts_views(fs.drop_last());
        let v = fs[f]@[a]@;
        let pidx = choose|p: int| 0 <= p < prefix.len() && prefix[p] == v;
        assert((prefix + cand_views(fs.last()@))[pidx] == v);
        assert(fronts_views(fs).contains(v));
    }
}

/// Each view of a front of a sorted population occurs among the views of
/// the population the sort was given.
proof fn lemma_front_member_in_population(
    fronts: Seq<Vec<Individual>>,
    population: Seq<Individual>,
    f: int,
    a: int,
)
    requires
        fronts_views(fronts).to_multiset() == cand_views(population).to_multiset(),
        0 <= f < fronts.len(),
        0 <= a < fronts[f]@.len(),
    ensures
        cand_views(population).contains(fronts[f]@[a]@),
{
    let v = fronts[f]@[a]@;
    lemma_fronts_views_contains(fronts, f, a);
    assert(fronts_views(fronts).to_multiset().count(v) > 0);
    assert(cand_views(population).to_multiset().count(v) > 0);
    assert(cand_views(population).contains(v));
}

/// Tournament parent selection: repeatedly draw `tournament_size` random
/// members, Pareto-rank the sample, and pick from the first front with the
/// given probability (in thousandths), otherwise from a random later
/// front.
pub fn tournament_selection(
    population: &Population,
    population_size: usize,
    tournament_size: usize,
    tournament_probability: u32,
) -> (r: Population)
    requires
        population@.len() >= 1,
        tournament_size >= 1,
        all_evaluated(population@),
    ensures
        r@.len() == population_size,
        all_evaluated(r@),
        members_of(r@, population@),
{
    let mut new_population: Population = Vec::new();
    let mut s: usize = 0;
    while s < population_size
        invariant
            population@.len() >= 1,
            tournament_size >= 1,
            all_evaluated(population@),
            s <= population_size,
            new_population@.len() == s,
            all_evaluated(new_population@),
            members_of(new_population@, population@),
        decreases population_size - s,
    {
        let mut tournament: Vec<Individual> = Vec::new();
        let mut t: usize = 0;
        while t < tournament_size
            invariant
                population@.len() >= 1,
                all_evaluated(population@),
                t <= tournament_size,
                tournament@.len() == t,
                all_evaluated(tournament@),
                members_of(tournament@, population@),
            decreases tournament_size - t,
        {
            let index = rand_index(population.len());
            let item = population[index].clone();
            proof {
                assert(cand_views(population@)[index as int] == item@);
            }
            tournament.push(item);
            t += 1;
        }
        let sorted_tournament = non_dominated_sort(&tournament);
        let pick_front: usize = if rand_index(1000) < tournament_probability as usize {
            0
        } else if sorted_tournament.len() > 1 {
            1 + rand_index(sorted_tournament.len() - 1)
        } else {
            0
        };
        let member = rand_index(sorted_tournament[pick_front].len());
        let selected = sorted_tournament[pick_front][member].clone();
        proof {
            lemma_front_member_in_population(sorted_tournament@, tournament@, pick_front as int,
                member as int);
            let v = selected@;
            assert(cand_views(tournament@).contains(v));
            let m = choose|m: int| 0 <= m < cand_views(tournament@).len() && cand_views(
                tournament@,
            )[m] == v;
            assert(tournament@[m]@ == v);
            assert(cand_views(population@).contains(v));
        }
        new_population.push(selected);
        s += 1;
    }
    new_population
}

/// The saturating sum of the fitness gaps above `minimum` over the first
/// `k` candidates.
pub open spec fn sat_gap_sum(s: Seq<Individual>, minimum: i128, k: int) -> int
    decreases k,
{
    if k <= 0 {
        0
    } else {
        let prev = sat_gap_sum(s, minimum, k - 1);
        let gap = s[k - 1]@.fitness - minimum;
        if prev + gap > 340282366920938463463374607431768211455 {
            340282366920938463463374607431768211455
        } else {
            prev + gap
        }
    }
}

/// Saturating gap sums stay within 128 bits.
proof fn lemma_sat_gap_sum_bounds(s: Seq<Individual>, minimum: i128, k: int)
    requires
        forall|i: int| 0 <= i < s.len() ==> minimum <= (#[trigger] s[i]@).fitness,
        0 <= k <= s.len(),
    ensures
        0 <= sat_gap_sum(s, minimum, k) <= 340282366920938463463374607431768211455,
        forall|k2: int| 0 <= k2 <= k ==> sat_gap_sum(s, minimum, k2) <= #[trigger] sat_gap_sum(
            s,
            minimum,
            k,
        ),
    decreases k,
{
    if k > 0 {
        lemma_sat_gap_sum_bounds(s, minimum, k - 1);
    }
}

/// Some candidate's fitness value is a lower bound of the whole
/// population's.
pub open spec fn is_minimum_fitness(s: Seq<Individual>, value: i128) -> bool {
    forall|k: int| 0 <= k < s.len() ==> value <= (#[trigger] s[k]@).fitness
}

/// The difference of two scalar fitness values, exact in 128 bits.
fn fitness_gap(a: i128, b: i128) -> (r: u128)
    requires
        a >= b,
    ensures
        r == a - b,
{
    if b >= 0 {
        (a - b) as u128
    } else if a >= 0 {
        let nb: u128 = ((-(b + 1)) as u128) + 1;
        a as u128 + nb
    } else {
        (a - b) as u128
    }
}

/// Roulette-wheel selection, sampling proportional to the scalar fitness
/// normalized above the population minimum.  A population where every
/// candidate has the same fitness is returned unchanged.
pub fn roulette_wheel_weighted(population: &Population, population_size: usize) -> (r: Population)
    requires
        population@.len() >= 1,
        all_evaluated(population@),
    ensures
        all_evaluated(r@),
        members_of(r@, population@),
        all_fitness_equal(population@) ==> cand_views(r@) == cand_views(population@),
        !all_fitness_equal(population@) ==> r@.len() == population_size,
        !all_fitness_equal(population@) ==> forall|i: int|
            0 <= i < r@.len() ==> !is_minimum_fitness(population@, (#[trigger] r@[i]@).fitness),
{
    let n = population.len();
    let mut minimum: i128 = population[0].get_fitness();
    let mut maximum: i128 = minimum;
    let mut k: usize = 1;
    while k < n
        invariant
            n == population@.len() >= 1,
            all_evaluated(population@),
            1 <= k <= n,
            minimum <= maximum,
            forall|i: int| 0 <= i < k ==> minimum <= (#[trigger] population@[i]@).fitness,
            forall|i: int| 0 <= i < k ==> (#[trigger] population@[i]@).fitness <= maximum,
            exists|i: int| 0 <= i < k && (#[trigger] population@[i]@).fitness == minimum,
            exists|i: int| 0 <= i < k && (#[trigger] population@[i]@).fitness == maximum,
        decreases n - k,
    {
        let fitness = population[k].get_fitness();
        if fitness < minimum {
            minimum = fitness;
        }
        if fitness > maximum {
            maximum = fitness;
        }
        k += 1;
    }
    if minimum == maximum {
        proof {
            assert(all_fitness_equal(population@));
        }
        let copy = clone_population(population);
        proof {
            assert forall|i: int| 0 <= i < copy@.len() implies cand_views(population@).contains(
                #[trigger] copy@[i]@,
            ) by {
                assert(cand_views(population@)[i] == population@[i]@);
            }
        }
        return copy;
    }
    proof {
        let iw = choose|i: int|
            0 <= i < n && (#[trigger] population@[i]@).fitness == minimum;
        let jw = choose|i: int|
            0 <= i < n && (#[trigger] population@[i]@).fitness == maximum;
        assert(population@[iw]@.fitness != population@[jw]@.fitness);
        assert(!all_fitness_equal(population@));
    }
    // Total normalized weight, saturated; it is positive because the
    // maximum-fitness candidate contributes a positive gap.
    let mut total: u128 = 0;
    let mut k2: usize = 0;
    while k2 < n
        invariant
            n == population@.len() >= 1,
            all_evaluated(population@),
            minimum < maximum,
            forall|i: int| 0 <= i < n ==> minimum <= (#[trigger] population@[i]@).fitness,
            exists|i: int| 0 <= i < n && (#[trigger] population@[i]@).fitness == maximum,
            k2 <= n,
            total as int == sat_gap_sum(population@, minimum, k2 as int),
            (exists|i: int|
                0 <= i < k2 && (#[trigger] population@[i]@).fitness == maximum) ==> total > 0,
        decreases n - k2,
    {
        proof {
            lemma_sat_gap_sum_bounds(population@, minimum, k2 + 1);
        }
        let w = fitness_gap(population[k2].get_fitness(), minimum);
        if total <= 340282366920938463463374607431768211455 - w {
            total = total + w;
        } else {
            total = 340282366920938463463374607431768211455;
        }
        k2 += 1;
    }
    proof {
        assert(total > 0);
    }
    let mut new_population: Population = Vec::new();
    let mut s: usize = 0;
    while s < population_size
        invariant
            n == population@.len() >= 1,
            all_evaluated(population@),
            forall|i: int| 0 <= i < n ==> minimum <= (#[trigger] population@[i]@).fitness,
            s <= population_size,
            new_population@.len() == s,
            all_evaluated(new_population@),
            members_of(new_population@, population@),
            minimum < maximum,
            total as int == sat_gap_sum(population@, minimum, n as int),
            total > 0,
            forall|i: int| 0 <= i < n ==> minimum <= (#[trigger] population@[i]@).fitness,
            forall|i: int|
                0 <= i < new_population@.len() ==> (#[trigger] new_population@[i]@).fitness
                    > minimum,
        decreases population_size - s,
    {
        let draw = rand_u128_below(total);
        let mut index: usize = 0;
        let mut picked = false;
        let mut cum: u128 = 0;
        let mut j: usize = 0;
        while j < n
            invariant_except_break
                picked == false,
                cum <= draw,
                cum as int == sat_gap_sum(population@, minimum, j as int),
            invariant
                n == population@.len() >= 1,
                all_evaluated(population@),
                forall|i: int| 0 <= i < n ==> minimum <= (#[trigger] population@[i]@).fitness,
                (draw as int) < sat_gap_sum(population@, minimum, n as int),
                j <= n,
                index < n,
            ensures
                picked,
                index < n,
                population@[index as int]@.fitness > minimum,
            decreases n - j,
        {
            proof {
                lemma_sat_gap_sum_bounds(population@, minimum, n as int);
                lemma_sat_gap_sum_bounds(population@, minimum, j + 1);
            }
            let w = fitness_gap(population[j].get_fitness(), minimum);
            let ghost cum0 = cum;
            if cum <= 340282366920938463463374607431768211455 - w {
                cum = cum + w;
            } else {
                cum = 340282366920938463463374607431768211455;
            }
            if cum > draw {
                index = j;
                picked = true;
                proof {
                    // the scan only stops after adding a positive gap
                    assert(w > 0);
                    assert(population@[j as int]@.fitness > minimum);
                }
                break;
            }
            proof {
                if j + 1 == n {
                    assert(cum as int == sat_gap_sum(population@, minimum, n as int));
                    assert(false);
                }
            }
            j += 1;
        }
        let item = population[index].clone();
        proof {
            assert(cand_views(population@)[index as int] == item@);
        }
        new_population.push(item);
        s += 1;
    }
    proof {
        assert forall|i: int| 0 <= i < new_population@.len() implies !is_minimum_fitness(
            population@,
            (#[trigger] new_population@[i]@).fitness,
        ) by {
            let jm = choose|j: int| 0 <= j < n && (#[trigger] population@[j]@).fitness == minimum;
            assert(new_population@[i]@.fitness > minimum);
            assert(!(new_population@[i]@.fitness <= population@[jm]@.fitness));
        }
    }
    new_population
}

/// Weighted tournament selection: draw `tournament_size` members and pick
/// the best by scalar fitness with the given probability (in thousandths),
/// otherwise a uniformly chosen other member.
pub fn tournament_weighted(
    population: &Population,
    population_size: usize,
    tournament_size: usize,
    tournament_probability: u32,
) -> (r: Population)
    requires
        population@.len() >= 1,
        tournament_size >= 1,
        all_evaluated(population@),
    ensures
        r@.len() == population_size,
        all_evaluated(r@),
        members_of(r@, population@),
{
    let mut new_population: Population = Vec::new();
    let mut s: usize = 0;
    while s < population_size
        invariant
            population@.len() >= 1,
            tournament_size >= 1,
            all_evaluated(population@),
            s <= population_size,
            new_population@.len() == s,
            all_evaluated(new_population@),
            members_of(new_population@, population@),
        decreases population_size - s,
    {
        let mut tournament: Vec<Individual> = Vec::new();
        let mut t: usize = 0;
        while t < tournament_size
            invariant
                population@.len() >= 1,
                all_evaluated(population@),
                t <= tournament_size,
                tournament@.len() == t,
                all_evaluated(tournament@),
                members_of(tournament@, population@),
            decreases tournament_size - t,
        {
            let index = rand_index(population.len());
            let item = population[index].clone();
            proof {
                assert(cand_views(population@)[index as int] == item@);
            }
            tournament.push(item);
            t += 1;
        }
        // the member with the best scalar fitness
        let mut best: usize = 0;
        let mut b: usize = 1;
        while b < tournament.len()
            invariant
                tournament@.len() >= 1,
                all_evaluated(tournament@),
                best < tournament@.len(),
                b <= tournament@.len(),
            decreases tournament@.len() - b,
        {
            if tournament[b].get_fitness() > tournament[best].get_fitness() {
                best = b;
            }
            b += 1;
        }
        let pick: usize = if rand_index(1000) < tournament_probability as usize {
            best
        } else if tournament.len() > 1 {
            let other = rand_index(tournament.len() - 1);
            if other >= best {
                other + 1
            } else {
                other
            }
        } else {
            0
        };
        let selected = tournament[pick].clone();
        proof {
            assert(cand_views(tournament@)[pick as int] == tournament@[pick as int]@);
            let v = selected@;
            assert(cand_views(tournament@).contains(v));
            let m = choose|m: int| 0 <= m < cand_views(tournament@).len() && cand_views(
                tournament@,
            )[m] == v;
            assert(tournament@[m]@ == v);
        }
        new_population.push(selected);
        s += 1;
    }
    new_population
}

/// Parent selection: optionally copy the current skyline (front 0)
/// verbatim into the parent set, then fill the remainder with the
/// configured strategy.  With the `none` strategy the population passes
/// through unchanged.
pub fn parent_selection(
    population: &Population,
    sorted_population: &Vec<Vec<Individual>>,
    config: &Config,
) -> (r: Population)
    requires
        config_valid(config),
        population@.len() >= 1,
        all_evaluated(population@),
        config.preserve_skyline ==> sorted_population@.len() >= 1,
        forall|f: int, a: int|
            0 <= f < sorted_population@.len() && 0 <= a < sorted_population@[f]@.len() ==> (
            #[trigger] sorted_population@[f]@[a]@).evaluated,
    ensures
        all_evaluated(r@),
        config.parent_selection.name@ == "none"@ ==> cand_views(r@) == cand_views(population@),
        !config.preserve_skyline && (config.parent_selection.name@ == "tournament"@
            || config.parent_selection.name@ == "tournament_weighted"@) ==> r@.len()
            == config.population_size,
        forall|i: int|
            0 <= i < r@.len() ==> cand_views(population@).contains(#[trigger] r@[i]@) || (
            config.preserve_skyline && sorted_population@.len() >= 1 && cand_views(
                sorted_population@[0]@,
            ).contains(r@[i]@)),
        config.preserve_skyline ==> r@.len() >= sorted_population@[0]@.len() && (forall|a: int|
            0 <= a < sorted_population@[0]@.len() ==> #[trigger] r@[a]@
                == sorted_population@[0]@[a]@),
        config.preserve_skyline && (config.parent_selection.name@ == "tournament"@
            || config.parent_selection.name@ == "tournament_weighted"@) ==> r@.len() == (
        if config.population_size > sorted_population@[0]@.len() {
            config.population_size as int
        } else {
            sorted_population@[0]@.len() as int
        }),
{
    proof {
        reveal_strlit("tournament");
        reveal_strlit("tournament_weighted");
        reveal_strlit("none");
        reveal_strlit("roulette_wheel_weighted");
        assert("tournament"@.len() == 10);
        assert("tournament_weighted"@.len() == 19);
        assert("none"@.len() == 4);
        assert("roulette_wheel_weighted"@.len() == 23);
    }
    let mut new_population: Population = Vec::new();
    if config.preserve_skyline {
        let skyline = &sorted_population[0];
        let mut a: usize = 0;
        while a < skyline.len()
            invariant
                sorted_population@.len() >= 1,
                skyline == &sorted_population@[0],
                forall|f: int, aa: int|
                    0 <= f < sorted_population@.len() && 0 <= aa < sorted_population@[f]@.len()
                        ==> (#[trigger] sorted_population@[f]@[aa]@).evaluated,
                a <= skyline@.len(),
                new_population@.len() == a,
                all_evaluated(new_population@),
                forall|m: int| 0 <= m < a ==> #[trigger] new_population@[m]@ == skyline@[m]@,
            decreases skyline@.len() - a,
        {
            new_population.push(skyline[a].clone());
            a += 1;
        }
    }
    let fc = &config.parent_selection;
    let remaining: usize = if config.population_size > new_population.len() {
        config.population_size - new_population.len()
    } else {
        0
    };
    if selection_name_is(&fc.name, "none") {
        proof {
            assert(!config.preserve_skyline);
        }
        let copy = clone_population(population);
        proof {
            assert forall|i: int| 0 <= i < copy@.len() implies cand_views(population@).contains(
                #[trigger] copy@[i]@,
            ) by {
                assert(cand_views(population@)[i] == population@[i]@);
            }
        }
        return copy;
    }
    let selected: Population = if selection_name_is(&fc.name, "tournament") {
        let size = match fc.tournament_size {
            Some(t) => t,
            None => 1,
        };
        let prob = match fc.probability {
            Some(p) => p,
            None => 0,
        };
        tournament_selection(population, remaining, size, prob)
    } else if selection_name_is(&fc.name, "tournament_weighted") {
        let size = match fc.tournament_size {
            Some(t) => t,
            None => 1,
        };
        let prob = match fc.probability {
            Some(p) => p,
            None => 0,
        };
        tournament_weighted(population, remaining, size, prob)
    } else {
        roulette_wheel_weighted(population, remaining)
    };
    let mut out = new_population;
    let ghost base = out@;
    let ghost base_len = out@.len();
    let mut m: usize = 0;
    while m < selected.len()
        invariant
            m <= selected@.len(),
            all_evaluated(selected@),
            all_evaluated(out@),
            members_of(selected@, population@),
            out@.len() == base_len + m,
            base.len() == base_len,
            forall|a: int| 0 <= a < base_len ==> #[trigger] out@[a]@ == base[a]@,
            forall|a: int|
                base_len <= a < out@.len() ==> cand_views(population@).contains(
                    #[trigger] out@[a]@,
                ),
        decreases selected@.len() - m,
    {
        let item = selected[m].clone();
        proof {
            assert(cand_views(selected@)[m as int] == selected@[m as int]@);
        }
        out.push(item);
        m += 1;
    }
    proof {
        assert forall|i: int| 0 <= i < out@.len() implies cand_views(population@).contains(
            #[trigger] out@[i]@,
        ) || (config.preserve_skyline && sorted_population@.len() >= 1 && cand_views(
            sorted_population@[0]@,
        ).contains(out@[i]@)) by {
            if i < base_len {
                assert(out@[i]@ == base[i]@);
                assert(base[i]@ == sorted_population@[0]@[i]@);
                assert(cand_views(sorted_population@[0]@)[i] == sorted_population@[0]@[i]@);
            }
        }
    }
    out
}


/// The value of one objective of a candidate: 0 picks edge value, 1
/// connectivity, anything else overall deviation.
pub open spec fn obj_val(v: CandView, obj: u8) -> u64 {
    if obj == 0 {
        v.edge
    } else if obj == 1 {
        v.conn
    } else {
        v.dev
    }
}

/// Candidate `i` attains the minimum of the given objective.
pub open spec fn min_at(vs: Seq<CandView>, i: int, obj: u8) -> bool {
    &&& 0 <= i < vs.len()
    &&& forall|j: int| 0 <= j < vs.len() ==> obj_val(vs[i], obj) <= #[trigger] obj_val(vs[j], obj)
}

/// Candidate `i` attains the maximum of the given objective.
pub open spec fn max_at(vs: Seq<CandView>, i: int, obj: u8) -> bool {
    &&& 0 <= i < vs.len()
    &&& forall|j: int| 0 <= j < vs.len() ==> obj_val(vs[i], obj) >= #[trigger] obj_val(vs[j], obj)
}

/// Picking values of a sequence at pairwise distinct indices yields a
/// sub-multiset of it.
proof fn lemma_distinct_picks_submultiset(vs: Seq<CandView>, picks: Seq<usize>, out: Seq<CandView>)
    requires
        picks.no_duplicates(),
        forall|p: int| 0 <= p < picks.len() ==> (#[trigger] picks[p]) < vs.len(),
        out.len() == picks.len(),
        forall|p: int| 0 <= p < out.len() ==> #[trigger] out[p] == vs[picks[p] as int],
    ensures
        out.to_multiset().subset_of(vs.to_multiset()),
    decreases picks.len(),
{
    broadcast use vstd::seq_lib::group_to_multiset_ensures;

    if picks.len() == 0 {
        assert(out =~= Seq::<CandView>::empty());
        assert(forall|v: CandView| out.to_multiset().count(v) == 0);
    } else {
        let n = picks.len() as int;
        let pl = picks[n - 1] as int;
        let vs2 = vs.remove(pl);
        // re-aim the remaining picks at the shortened sequence
        let picks2 = Seq::new((n - 1) as nat, |p: int| if picks[p] as int > pl {
            (picks[p] - 1) as usize
        } else {
            picks[p]
        });
        let out2 = out.drop_last();
        assert(picks2.no_duplicates()) by {
            assert forall|a: int, b: int| 0 <= a < b < picks2.len() implies picks2[a]
                != picks2[b] by {
                assert(picks[a] != picks[b]);
                assert(picks[a] as int != pl && picks[b] as int != pl);
            }
        }
        assert(forall|p: int| 0 <= p < picks2.len() ==> (#[trigger] picks2[p]) < vs2.len()) by {
            assert(forall|p: int|
                0 <= p < picks2.len() ==> (#[trigger] picks[p]) as int != pl);
        }
        assert(forall|p: int| 0 <= p < out2.len() ==> #[trigger] out2[p] == vs2[picks2[p] as int])
            by {
            assert(forall|p: int|
                0 <= p < out2.len() ==> (#[trigger] picks[p]) as int != pl && out2[p]
                    == vs[picks[p] as int]);
            assert(forall|q: int| 0 <= q < pl ==> #[trigger] vs2[q] == vs[q]);
            assert(forall|q: int|
                pl <= q < vs2.len() ==> #[trigger] vs2[q] == vs[q + 1]);
        }
        lemma_distinct_picks_submultiset(vs2, picks2, out2);
        assert(out =~= out2.push(out[n - 1]));
        assert(out.to_multiset() =~= out2.to_multiset().insert(out[n - 1]));
        assert(vs2.to_multiset() == vs.to_multiset().remove(vs[pl]));
        assert(vs.to_multiset().contains(vs[pl])) by {
            assert(vs.contains(vs[pl]));
        }
        assert forall|v: CandView| out.to_multiset().count(v) <= #[trigger] vs.to_multiset()
            .count(v) by {
            assert(out2.to_multiset().count(v) <= vs2.to_multiset().count(v));
        }
    }
}

/// The concatenated members of a sequence of view-level fronts.
pub open spec fn vfronts_flat(fs: Seq<Seq<CandView>>) -> Seq<CandView>
    decreases fs.len(),
{
    if fs.len() == 0 {
        Seq::empty()
    } else {
        vfronts_flat(fs.drop_last()) + fs.last()
    }
}

/// Some member of a view-level front dominates the candidate.
pub open spec fn vdominated_from(front: Seq<CandView>, v: CandView) -> bool {
    exists|b: int| 0 <= b < front.len() && (#[trigger] front[b]).dominates(v)
}

/// `fronts` is the non-dominated decomposition of the pool: the fronts
/// partition the pool's members, are nonempty, no member is dominated
/// from its own or a later front, and every member of a later front is
/// dominated from the previous one.
pub open spec fn vfronts_wf(pool: Seq<CandView>, fronts: Seq<Seq<CandView>>) -> bool {
    &&& vfronts_flat(fronts).to_multiset() == pool.to_multiset()
    &&& forall|f: int| 0 <= f < fronts.len() ==> (#[trigger] fronts[f]).len() >= 1
    &&& forall|f: int, f2: int, a: int, b: int|
        0 <= f <= f2 < fronts.len() && 0 <= a < fronts[f].len() && 0 <= b < fronts[f2].len()
            ==> !(#[trigger] fronts[f2][b]).dominates(#[trigger] fronts[f][a])
    &&& forall|f: int, a: int|
        1 <= f < fronts.len() && 0 <= a < fronts[f].len() ==> vdominated_from(
            fronts[f - 1],
            #[trigger] fronts[f][a],
        )
}

/// The fill keeps a member attaining the objective's minimum over the
/// front.
pub open spec fn vkeeps_min(fill: Seq<CandView>, front: Seq<CandView>, obj: u8) -> bool {
    exists|i: int| #![auto] min_at(front, i, obj) && fill.contains(front[i])
}

/// The fill keeps a member attaining the objective's maximum over the
/// front.
pub open spec fn vkeeps_max(fill: Seq<CandView>, front: Seq<CandView>, obj: u8) -> bool {
    exists|i: int| #![auto] max_at(front, i, obj) && fill.contains(front[i])
}

/// The result is an NSGA-II selection of the pool, witnessed by a front
/// decomposition, the number `j` of wholly admitted fronts, and the fill
/// taken from the first front that does not fit whole.
pub open spec fn nsga2_selected_by(
    pool: Seq<CandView>,
    result: Seq<CandView>,
    population_size: int,
    fronts: Seq<Seq<CandView>>,
    j: int,
    fill: Seq<CandView>,
) -> bool {
    &&& vfronts_wf(pool, fronts)
    &&& 0 <= j <= fronts.len()
    &&& result == vfronts_flat(fronts.take(j)) + fill
    &&& vfronts_flat(fronts.take(j)).len() <= population_size
    &&& (j == fronts.len() ==> fill.len() == 0)
    &&& (j < fronts.len() ==> vfronts_flat(fronts.take(j)).len() + fronts[j].len()
        > population_size)
    &&& (j < fronts.len() ==> (forall|m: int|
        0 <= m < fill.len() ==> fronts[j].contains(#[trigger] fill[m])) && fill.to_multiset()
        .subset_of(fronts[j].to_multiset()))
    &&& (j < fronts.len() && fill.len() >= 6 ==> forall|obj: u8|
        obj < 3 ==> #[trigger] vkeeps_min(fill, fronts[j], obj) && vkeeps_max(
            fill,
            fronts[j],
            obj,
        ))
}

/// The result is an NSGA-II selection of the pool: whole fronts of the
/// pool's non-dominated sort admitted in rank order, the remaining slots
/// filled from the first front that does not fit, keeping per-objective
/// extreme members whenever at least six slots are filled.
pub open spec fn nsga2_selected(pool: Seq<CandView>, result: Seq<CandView>, population_size: int) -> bool {
    exists|fronts: Seq<Seq<CandView>>, j: int, fill: Seq<CandView>|
        #[trigger] nsga2_selected_by(pool, result, population_size, fronts, j, fill)
}

/// The view-level flatten of mapped fronts is the flatten of the fronts.
proof fn lemma_vfronts_flat_of_map(fs: Seq<Vec<Individual>>)
    ensures
        vfronts_flat(fs.map_values(|fv: Vec<Individual>| cand_views(fv@))) == fronts_views(fs),
    decreases fs.len(),
{
    let mapped = fs.map_values(|fv: Vec<Individual>| cand_views(fv@));
    if fs.len() == 0 {
        assert(mapped =~= Seq::<Seq<CandView>>::empty());
    } else {
        lemma_vfronts_flat_of_map(fs.drop_last());
        assert(mapped.drop_last() =~= fs.drop_last().map_values(
            |fv: Vec<Individual>| cand_views(fv@),
        ));
        assert(mapped.last() == cand_views(fs.last()@));
    }
}

/// Flattening splits at any prefix.
proof fn lemma_vfronts_flat_split(fs: Seq<Seq<CandView>>, j: int)
    requires
        0 <= j <= fs.len(),
    ensures
        vfronts_flat(fs) == vfronts_flat(fs.take(j)) + vfronts_flat(fs.skip(j)),
    decreases fs.len() - j,
{
    if j == fs.len() {
        assert(fs.take(j) =~= fs);
        assert(fs.skip(j) =~= Seq::<Seq<CandView>>::empty());
        assert(vfronts_flat(fs) =~= vfronts_flat(fs.take(j)) + vfronts_flat(fs.skip(j)));
    } else {
        lemma_vfronts_flat_split(fs, j + 1);
        assert(fs.take(j + 1).drop_last() =~= fs.take(j));
        assert(fs.take(j + 1).last() == fs[j]);
        assert(vfronts_flat(fs.take(j + 1)) == vfronts_flat(fs.take(j)) + fs[j]);
        lemma_vfronts_flat_cons(fs, j);
        assert((vfronts_flat(fs.take(j)) + fs[j]) + vfronts_flat(fs.skip(j + 1))
            =~= vfronts_flat(fs.take(j)) + (fs[j] + vfronts_flat(fs.skip(j + 1))));
    }
}

/// Flattening a suffix peels its head front.
proof fn lemma_vfronts_flat_cons(fs: Seq<Seq<CandView>>, j: int)
    requires
        0 <= j < fs.len(),
    ensures
        vfronts_flat(fs.skip(j)) == fs[j] + vfronts_flat(fs.skip(j + 1)),
    decreases fs.len(),
{
    let tailj = fs.skip(j);
    if j == fs.len() - 1 {
        assert(tailj.drop_last() =~= Seq::<Seq<CandView>>::empty());
        assert(tailj.last() == fs[j]);
        assert(fs.skip(j + 1) =~= Seq::<Seq<CandView>>::empty());
        assert(vfronts_flat(tailj) =~= fs[j] + vfronts_flat(fs.skip(j + 1)));
    } else {
        let short = fs.drop_last();
        lemma_vfronts_flat_cons(short, j);
        assert(short.skip(j) =~= fs.skip(j).drop_last());
        assert(short.skip(j + 1) =~= fs.skip(j + 1).drop_last());
        assert(vfronts_flat(fs.skip(j)) == vfronts_flat(fs.skip(j).drop_last()) + fs.skip(
            j,
        ).last());
        assert(fs.skip(j).last() == fs.last());
        assert(vfronts_flat(fs.skip(j + 1)) == vfronts_flat(fs.skip(j + 1).drop_last())
            + fs.skip(j + 1).last());
        assert(fs.skip(j + 1).last() == fs.last());
        assert(fs[j] + (vfronts_flat(short.skip(j + 1)) + fs.last()) =~= (fs[j] + vfronts_flat(
            short.skip(j + 1),
        )) + fs.last());
    }
}

/// Some member with the sentinel crowding distance attains the
/// objective's minimum.
pub open spec fn has_min_sentinel(dist: Seq<u64>, vs: Seq<CandView>, obj: u8) -> bool {
    exists|i: int|
        #![auto]
        0 <= i < dist.len() && dist[i] == 18446744073709551615u64 && min_at(vs, i, obj)
}

/// Some member with the sentinel crowding distance attains the
/// objective's maximum.
pub open spec fn has_max_sentinel(dist: Seq<u64>, vs: Seq<CandView>, obj: u8) -> bool {
    exists|i: int|
        #![auto]
        0 <= i < dist.len() && dist[i] == 18446744073709551615u64 && max_at(vs, i, obj)
}

/// The admitted members include, for the given objective, a member
/// attaining its minimum over the front and one attaining its maximum.
pub open spec fn keeps_extremes(r: Seq<Individual>, front: Seq<Individual>, obj: u8) -> bool {
    &&& exists|j: int|
        #![auto]
        min_at(cand_views(front), j, obj) && cand_views(r).contains(cand_views(front)[j])
    &&& exists|j: int|
        #![auto]
        max_at(cand_views(front), j, obj) && cand_views(r).contains(cand_views(front)[j])
}

/// Every member carrying the sentinel distance is one of six indices.
pub open spec fn sentinel_set(
    dist: Seq<u64>,
    e1: int,
    e2: int,
    e3: int,
    e4: int,
    e5: int,
    e6: int,
) -> bool {
    forall|i: int|
        0 <= i < dist.len() && #[trigger] dist[i] == 18446744073709551615u64 ==> i == e1 || i == e2
            || i == e3 || i == e4 || i == e5 || i == e6
}

/// Swapping two positions maps every index through the transposition.
proof fn lemma_swap_facts(s: Seq<usize>, i: int, j: int)
    requires
        0 <= i < s.len(),
        0 <= j < s.len(),
    ensures
        ({
            let s2 = s.update(i, s[j]).update(j, s[i]);
            &&& s2.len() == s.len()
            &&& forall|a: int|
                0 <= a < s.len() ==> #[trigger] s2[a] == s[if a == j {
                    i
                } else if a == i {
                    j
                } else {
                    a
                }]
            &&& (forall|x: usize| s.contains(x) ==> #[trigger] s2.contains(x))
            &&& (s.no_duplicates() ==> s2.no_duplicates())
        }),
{
    let s2 = s.update(i, s[j]).update(j, s[i]);
    assert forall|x: usize| s.contains(x) implies #[trigger] s2.contains(x) by {
        let p = choose|p: int| 0 <= p < s.len() && s[p] == x;
        if p == i {
            assert(s2[j] == x);
        } else if p == j {
            assert(s2[i] == x);
        } else {
            assert(s2[p] == x);
        }
    }
}

/// Sort the indices `0..keys.len()` ascending by their key.  The result
/// is a permutation: it stays within bounds, covers every index, and has
/// no duplicates.
fn sort_indices_asc(keys: &Vec<u64>) -> (perm: Vec<usize>)
    ensures
        perm@.len() == keys@.len(),
        forall|p: int| 0 <= p < perm@.len() ==> #[trigger] perm@[p] < keys@.len(),
        forall|v: usize| v < keys@.len() ==> perm@.contains(v),
        perm@.no_duplicates(),
        forall|a: int, b: int|
            0 <= a <= b < perm@.len() ==> keys@[#[trigger] perm@[a] as int] <= keys@[
                #[trigger] perm@[b] as int],
{
    let n = keys.len();
    let mut perm: Vec<usize> = Vec::new();
    let mut v: usize = 0;
    while v < n
        invariant
            v <= n,
            perm@.len() == v,
            forall|p: int| 0 <= p < v ==> #[trigger] perm@[p] == p,
        decreases n - v,
    {
        perm.push(v);
        v += 1;
    }
    proof {
        assert forall|x: usize| x < n implies perm@.contains(x) by {
            assert(perm@[x as int] == x);
        }
        assert(perm@.no_duplicates());
    }
    let mut i: usize = 0;
    while i < n
        invariant
            n == keys@.len(),
            perm@.len() == n,
            i <= n,
            forall|p: int| 0 <= p < n ==> #[trigger] perm@[p] < n,
            forall|x: usize| x < n ==> perm@.contains(x),
            perm@.no_duplicates(),
            forall|a: int, b: int|
                0 <= a <= b < i ==> keys@[#[trigger] perm@[a] as int] <= keys@[
                    #[trigger] perm@[b] as int],
            forall|a: int, b: int|
                0 <= a < i <= b < n ==> keys@[#[trigger] perm@[a] as int] <= keys@[
                    #[trigger] perm@[b] as int],
        decreases n - i,
    {
        let mut best: usize = i;
        let mut j: usize = i + 1;
        while j < n
            invariant
                n == keys@.len(),
                perm@.len() == n,
                i < n,
                i <= best < n,
                i < j <= n,
                forall|p: int| 0 <= p < n ==> #[trigger] perm@[p] < n,
                forall|m: int|
                    i <= m < j ==> keys@[perm@[best as int] as int] <= keys@[
                        #[trigger] perm@[m] as int],
                keys@[perm@[best as int] as int] <= keys@[perm@[i as int] as int],
            decreases n - j,
        {
            if keys[perm[j]] < keys[perm[best]] {
                best = j;
            }
            j += 1;
        }
        let ghost before = perm@;
        let pi = perm[i];
        let pb = perm[best];
        perm.set(i, pb);
        perm.set(best, pi);
        proof {
            lemma_swap_facts(before, i as int, best as int);
            assert(perm@ =~= before.update(i as int, before[best as int]).update(
                best as int,
                before[i as int],
            ));
        }
        i += 1;
    }
    perm
}

/// Sort the indices `0..keys.len()` descending by their key.
fn sort_indices_desc(keys: &Vec<u64>) -> (perm: Vec<usize>)
    ensures
        perm@.len() == keys@.len(),
        forall|p: int| 0 <= p < perm@.len() ==> #[trigger] perm@[p] < keys@.len(),
        forall|v: usize| v < keys@.len() ==> perm@.contains(v),
        perm@.no_duplicates(),
        forall|a: int, b: int|
            0 <= a <= b < perm@.len() ==> keys@[#[trigger] perm@[a] as int] >= keys@[
                #[trigger] perm@[b] as int],
{
    let n = keys.len();
    let mut perm: Vec<usize> = Vec::new();
    let mut v: usize = 0;
    while v < n
        invariant
            v <= n,
            perm@.len() == v,
            forall|p: int| 0 <= p < v ==> #[trigger] perm@[p] == p,
        decreases n - v,
    {
        perm.push(v);
        v += 1;
    }
    proof {
        assert forall|x: usize| x < n implies perm@.contains(x) by {
            assert(perm@[x as int] == x);
        }
        assert(perm@.no_duplicates());
    }
    let mut i: usize = 0;
    while i < n
        invariant
            n == keys@.len(),
            perm@.len() == n,
            i <= n,
            forall|p: int| 0 <= p < n ==> #[trigger] perm@[p] < n,
            forall|x: usize| x < n ==> perm@.contains(x),
            perm@.no_duplicates(),
            forall|a: int, b: int|
                0 <= a <= b < i ==> keys@[#[trigger] perm@[a] as int] >= keys@[
                    #[trigger] perm@[b] as int],
            forall|a: int, b: int|
                0 <= a < i <= b < n ==> keys@[#[trigger] perm@[a] as int] >= keys@[
                    #[trigger] perm@[b] as int],
        decreases n - i,
    {
        let mut best: usize = i;
        let mut j: usize = i + 1;
        while j < n
            invariant
                n == keys@.len(),
                perm@.len() == n,
                i < n,
                i <= best < n,
                i < j <= n,
                forall|p: int| 0 <= p < n ==> #[trigger] perm@[p] < n,
                forall|m: int|
                    i <= m < j ==> keys@[perm@[best as int] as int] >= keys@[
                        #[trigger] perm@[m] as int],
                keys@[perm@[best as int] as int] >= keys@[perm@[i as int] as int],
            decreases n - j,
        {
            if keys[perm[j]] > keys[perm[best]] {
                best = j;
            }
            j += 1;
        }
        let ghost before = perm@;
        let pi = perm[i];
        let pb = perm[best];
        perm.set(i, pb);
        perm.set(best, pi);
        proof {
            lemma_swap_facts(before, i as int, best as int);
            assert(perm@ =~= before.update(i as int, before[best as int]).update(
                best as int,
                before[i as int],
            ));
        }
        i += 1;
    }
    perm
}

/// One crowding pass for one objective: sort the front by that objective,
/// pin the two extreme members to the infinite sentinel, and add to every
/// interior member the normalized neighbor gap (in thousandths).
fn crowding_pass(front: &Vec<Individual>, dist: &mut Vec<u64>, obj: u8)
    requires
        front@.len() >= 1,
        all_evaluated(front@),
        old(dist)@.len() == front@.len(),
        forall|i: int|
            0 <= i < old(dist)@.len() ==> #[trigger] old(dist)@[i] == 18446744073709551615u64 || old(
                dist,
            )@[i] <= 2000,
    ensures
        final(dist)@.len() == front@.len(),
        forall|i: int|
            0 <= i < final(dist)@.len() ==> #[trigger] final(dist)@[i] == 18446744073709551615u64
                || final(dist)@[i] <= old(dist)@[i] + 1000,
        forall|i: int|
            0 <= i < final(dist)@.len() && old(dist)@[i] == 18446744073709551615u64
                ==> #[trigger] final(dist)@[i] == 18446744073709551615u64,
        exists|p0: int, pl: int|
            {
                &&& min_at(cand_views(front@), p0, obj)
                &&& final(dist)@[p0] == 18446744073709551615u64
                &&& max_at(cand_views(front@), pl, obj)
                &&& final(dist)@[pl] == 18446744073709551615u64
                &&& forall|i: int|
                    0 <= i < final(dist)@.len() && #[trigger] final(dist)@[i]
                        == 18446744073709551615u64 ==> old(dist)@[i] == 18446744073709551615u64 || i
                        == p0 || i == pl
            },
{
    let n = front.len();
    let ghost vs = cand_views(front@);
    // objective keys per front index
    let mut keys: Vec<u64> = Vec::new();
    let mut k: usize = 0;
    while k < n
        invariant
            n == front@.len(),
            vs == cand_views(front@),
            all_evaluated(front@),
            k <= n,
            keys@.len() == k,
            forall|m: int| 0 <= m < k ==> #[trigger] keys@[m] == obj_val(vs[m], obj),
        decreases n - k,
    {
        let (edge, conn, dev) = front[k].get_objectives();
        let key: u64 = if obj == 0 {
            edge
        } else if obj == 1 {
            conn
        } else {
            dev
        };
        keys.push(key);
        k += 1;
    }
    let perm = sort_indices_asc(&keys);
    let first = perm[0];
    let last = perm[n - 1];
    proof {
        assert forall|j: int| 0 <= j < vs.len() implies obj_val(vs[first as int], obj)
            <= #[trigger] obj_val(vs[j], obj) by {
            assert(perm@.contains(j as usize));
            let pos = choose|p: int| 0 <= p < perm@.len() && perm@[p] == j as usize;
            assert(keys@[perm@[0] as int] <= keys@[perm@[pos] as int]);
        }
        assert forall|j: int| 0 <= j < vs.len() implies obj_val(vs[last as int], obj)
            >= #[trigger] obj_val(vs[j], obj) by {
            assert(perm@.contains(j as usize));
            let pos = choose|p: int| 0 <= p < perm@.len() && perm@[p] == j as usize;
            assert(keys@[perm@[pos] as int] <= keys@[perm@[n - 1] as int]);
        }
        assert(min_at(vs, first as int, obj));
        assert(max_at(vs, last as int, obj));
    }
    let ghost dist_in = dist@;
    dist.set(first, 18446744073709551615);
    dist.set(last, 18446744073709551615);
    let ghost dist_marked = dist@;
    proof {
        assert(forall|i: int|
            0 <= i < dist@.len() && #[trigger] dist@[i] == 18446744073709551615u64 ==> dist_in[i]
                == 18446744073709551615u64 || i == first as int || i == last as int);
    }
    let range: u64 = keys[last] - keys[first];
    if range > 0 && n >= 3 {
        let mut j: usize = 1;
        while j < n - 1
            invariant
                n == front@.len() >= 3,
                vs == cand_views(front@),
                keys@.len() == n,
                perm@.len() == n,
                forall|p: int| 0 <= p < n ==> #[trigger] perm@[p] < n,
                forall|a: int, b: int|
                    0 <= a <= b < n ==> keys@[#[trigger] perm@[a] as int] <= keys@[
                        #[trigger] perm@[b] as int],
                first == perm@[0],
                last == perm@[n - 1],
                range == keys@[last as int] - keys@[first as int],
                range > 0,
                1 <= j <= n - 1,
                dist@.len() == n,
                dist_marked.len() == n,
                perm@.no_duplicates(),
                forall|i: int|
                    0 <= i < n ==> ((#[trigger] dist@[i] == 18446744073709551615u64)
                        <==> dist_marked[i] == 18446744073709551615u64),
                forall|i: int|
                    0 <= i < n && dist_marked[i] != 18446744073709551615u64
                        ==> #[trigger] dist@[i] <= dist_marked[i] + 1000,
                forall|p: int|
                    j <= p < n - 1 ==> dist@[#[trigger] perm@[p] as int] == dist_marked[perm@[p] as int],
                forall|i: int|
                    0 <= i < n ==> #[trigger] dist_marked[i] == 18446744073709551615u64
                        || dist_marked[i] <= 2000,
            decreases n - 1 - j,
        {
            let idx = perm[j];
            if dist[idx] != 18446744073709551615 {
                let above: u64 = keys[perm[j + 1]];
                let below: u64 = keys[perm[j - 1]];
                let gap: u64 = above - below;
                proof {
                    assert(keys@[perm@[j - 1] as int] >= keys@[first as int]);
                    assert(keys@[perm@[j + 1] as int] <= keys@[last as int]);
                    assert(gap <= range);
                    assert((gap as int) * 1000 <= (range as int) * 1000) by (nonlinear_arith)
                        requires
                            0 <= gap <= range,
                    ;
                    vstd::arithmetic::div_mod::lemma_div_is_ordered(
                        (gap as int) * 1000,
                        (range as int) * 1000,
                        range as int,
                    );
                    vstd::arithmetic::div_mod::lemma_div_multiples_vanish(
                        1000,
                        range as int,
                    );
                }
                let term: u64 = (((gap as u128) * 1000) / (range as u128)) as u64;
                let d0 = dist[idx];
                dist.set(idx, d0 + term);
            }
            j += 1;
        }
    }
    proof {
        assert(forall|i: int|
            0 <= i < n && dist_in[i] == 18446744073709551615u64 ==> dist_marked[i]
                == 18446744073709551615u64);
        assert(dist@[first as int] == 18446744073709551615u64);
        assert(dist@[last as int] == 18446744073709551615u64);
        assert(forall|i: int|
            0 <= i < dist@.len() && #[trigger] dist@[i] == 18446744073709551615u64 ==> dist_in[i]
                == 18446744073709551615u64 || i == first as int || i == last as int);
    }
}

/// Crowding distances over a front: per objective, the two extreme
/// members take the infinite sentinel and interior members accumulate
/// their normalized neighbor gaps.  At most six members carry the
/// sentinel, and for every objective some minimal and some maximal member
/// does.
pub fn crowding_distances(front: &Vec<Individual>) -> (dist: Vec<u64>)
    requires
        front@.len() >= 1,
        all_evaluated(front@),
    ensures
        dist@.len() == front@.len(),
        forall|obj: u8| obj < 3 ==> #[trigger] has_min_sentinel(dist@, cand_views(front@), obj),
        forall|obj: u8| obj < 3 ==> #[trigger] has_max_sentinel(dist@, cand_views(front@), obj),
        exists|e1: int, e2: int, e3: int, e4: int, e5: int, e6: int|
            #[trigger] sentinel_set(dist@, e1, e2, e3, e4, e5, e6),
{
    let n = front.len();
    let mut dist: Vec<u64> = Vec::new();
    let mut k: usize = 0;
    while k < n
        invariant
            k <= n,
            dist@.len() == k,
            forall|m: int| 0 <= m < k ==> #[trigger] dist@[m] == 0,
        decreases n - k,
    {
        dist.push(0);
        k += 1;
    }
    let ghost d0 = dist@;
    crowding_pass(front, &mut dist, 0);
    let ghost d1 = dist@;
    let ghost w1 = choose|p0: int, pl: int|
        {
            &&& min_at(cand_views(front@), p0, 0)
            &&& d1[p0] == 18446744073709551615u64
            &&& max_at(cand_views(front@), pl, 0)
            &&& d1[pl] == 18446744073709551615u64
            &&& forall|i: int|
                0 <= i < d1.len() && #[trigger] d1[i] == 18446744073709551615u64 ==> d0[i]
                    == 18446744073709551615u64 || i == p0 || i == pl
        };
    crowding_pass(front, &mut dist, 1);
    let ghost d2 = dist@;
    let ghost w2 = choose|p0: int, pl: int|
        {
            &&& min_at(cand_views(front@), p0, 1)
            &&& d2[p0] == 18446744073709551615u64
            &&& max_at(cand_views(front@), pl, 1)
            &&& d2[pl] == 18446744073709551615u64
            &&& forall|i: int|
                0 <= i < d2.len() && #[trigger] d2[i] == 18446744073709551615u64 ==> d1[i]
                    == 18446744073709551615u64 || i == p0 || i == pl
        };
    crowding_pass(front, &mut dist, 2);
    let ghost d3 = dist@;
    let ghost w3 = choose|p0: int, pl: int|
        {
            &&& min_at(cand_views(front@), p0, 2)
            &&& d3[p0] == 18446744073709551615u64
            &&& max_at(cand_views(front@), pl, 2)
            &&& d3[pl] == 18446744073709551615u64
            &&& forall|i: int|
                0 <= i < d3.len() && #[trigger] d3[i] == 18446744073709551615u64 ==> d2[i]
                    == 18446744073709551615u64 || i == p0 || i == pl
        };
    proof {
        // Sentinels survive later passes, so each per-objective witness
        // still carries the sentinel in the final distances.
        assert(forall|i: int| 0 <= i < d0.len() ==> #[trigger] d0[i] != 18446744073709551615u64);
        assert(dist@[w1.0] == 18446744073709551615u64 && dist@[w1.1]
            == 18446744073709551615u64);
        assert(dist@[w2.0] == 18446744073709551615u64 && dist@[w2.1]
            == 18446744073709551615u64);
        assert(forall|i: int|
            0 <= i < dist@.len() && #[trigger] dist@[i] == 18446744073709551615u64 ==> i == w1.0
                || i == w1.1 || i == w2.0 || i == w2.1 || i == w3.0 || i == w3.1);
        assert(sentinel_set(dist@, w1.0, w1.1, w2.0, w2.1, w3.0, w3.1));
        assert forall|obj: u8| obj < 3 implies #[trigger] has_min_sentinel(
            dist@,
            cand_views(front@),
            obj,
        ) by {
            if obj == 0 {
                assert(0 <= w1.0 < dist@.len() && dist@[w1.0] == 18446744073709551615u64 && min_at(
                    cand_views(front@),
                    w1.0,
                    obj,
                ));
            } else if obj == 1 {
                assert(0 <= w2.0 < dist@.len() && dist@[w2.0] == 18446744073709551615u64 && min_at(
                    cand_views(front@),
                    w2.0,
                    obj,
                ));
            } else {
                assert(0 <= w3.0 < dist@.len() && dist@[w3.0] == 18446744073709551615u64 && min_at(
                    cand_views(front@),
                    w3.0,
                    obj,
                ));
            }
        }
        assert forall|obj: u8| obj < 3 implies #[trigger] has_max_sentinel(
            dist@,
            cand_views(front@),
            obj,
        ) by {
            if obj == 0 {
                assert(0 <= w1.1 < dist@.len() && dist@[w1.1] == 18446744073709551615u64 && max_at(
                    cand_views(front@),
                    w1.1,
                    obj,
                ));
            } else if obj == 1 {
                assert(0 <= w2.1 < dist@.len() && dist@[w2.1] == 18446744073709551615u64 && max_at(
                    cand_views(front@),
                    w2.1,
                    obj,
                ));
            } else {
                assert(0 <= w3.1 < dist@.len() && dist@[w3.1] == 18446744073709551615u64 && max_at(
                    cand_views(front@),
                    w3.1,
                    obj,
                ));
            }
        }
    }
    dist
}

/// Admit `k` members of a partially fitting front, keeping the largest
/// crowding distances.  Whenever at least six slots remain, the admitted
/// members include, for every objective, a member attaining its minimum
/// and one attaining its maximum over the front.
pub fn take_top_by_crowding(front: &Vec<Individual>, k: usize) -> (r: Vec<Individual>)
    requires
        front@.len() >= 1,
        all_evaluated(front@),
        k <= front@.len(),
    ensures
        r@.len() == k,
        all_evaluated(r@),
        members_of(r@, front@),
        cand_views(r@).to_multiset().subset_of(cand_views(front@).to_multiset()),
        k >= 6 ==> forall|obj: u8| obj < 3 ==> #[trigger] keeps_extremes(r@, front@, obj),
{
    let n = front.len();
    let ghost vs = cand_views(front@);
    let dist = crowding_distances(front);
    let perm = sort_indices_desc(&dist);
    let mut out: Vec<Individual> = Vec::new();
    let mut a: usize = 0;
    while a < k
        invariant
            n == front@.len(),
            vs == cand_views(front@),
            all_evaluated(front@),
            k <= n,
            perm@.len() == n,
            forall|p: int| 0 <= p < n ==> #[trigger] perm@[p] < n,
            a <= k,
            out@.len() == a,
            all_evaluated(out@),
            members_of(out@, front@),
            forall|p: int| 0 <= p < a ==> #[trigger] out@[p]@ == vs[perm@[p] as int],
        decreases k - a,
    {
        let item = front[perm[a]].clone();
        proof {
            assert(cand_views(front@)[perm@[a as int] as int] == item@);
        }
        out.push(item);
        a += 1;
    }
    proof {
        let picks = perm@.take(k as int);
        assert(picks.no_duplicates()) by {
            assert(forall|x: int, y: int| 0 <= x < y < k ==> picks[x] == perm@[x] && picks[y]
                == perm@[y]);
        }
        assert(forall|p: int| 0 <= p < picks.len() ==> (#[trigger] picks[p]) < vs.len());
        assert(forall|p: int|
            0 <= p < cand_views(out@).len() ==> #[trigger] cand_views(out@)[p]
                == vs[picks[p] as int]) by {
            assert(forall|p: int|
                0 <= p < out@.len() ==> #[trigger] cand_views(out@)[p] == out@[p]@);
        }
        lemma_distinct_picks_submultiset(vs, picks, cand_views(out@));
        if k >= 6 {
            let big = 18446744073709551615u64;
            assert forall|obj: u8| obj < 3 implies #[trigger] keeps_extremes(
                out@,
                front@,
                obj,
            ) by {
                let (e1, e2, e3, e4, e5, e6) = choose|e1: int, e2: int, e3: int, e4: int, e5:
                    int, e6: int| #[trigger] sentinel_set(dist@, e1, e2, e3, e4, e5, e6);
                assert(has_min_sentinel(dist@, vs, obj));
                let jmin = choose|i: int|
                    #![auto]
                    0 <= i < dist@.len() && dist@[i] == 18446744073709551615u64 && min_at(
                        vs,
                        i,
                        obj,
                    );
                lemma_top_contains(front@, dist@, perm@, out@, k as int, jmin);
                assert(cand_views(out@).contains(vs[jmin]));
                assert(has_max_sentinel(dist@, vs, obj));
                let jmax = choose|i: int|
                    #![auto]
                    0 <= i < dist@.len() && dist@[i] == 18446744073709551615u64 && max_at(
                        vs,
                        i,
                        obj,
                    );
                lemma_top_contains(front@, dist@, perm@, out@, k as int, jmax);
                assert(cand_views(out@).contains(vs[jmax]));
            }
        }
    }
    out
}

/// Any member with the sentinel crowding distance is admitted when at
/// least six slots are taken: at most six members carry the sentinel, and
/// the admission order is sorted by distance.
proof fn lemma_top_contains(
    front: Seq<Individual>,
    dist: Seq<u64>,
    perm: Seq<usize>,
    out: Seq<Individual>,
    k: int,
    target: int,
)
    requires
        dist.len() == front.len(),
        perm.len() == front.len(),
        forall|p: int| 0 <= p < perm.len() ==> #[trigger] perm[p] < front.len(),
        forall|v: usize| v < front.len() ==> perm.contains(v),
        perm.no_duplicates(),
        forall|a: int, b: int|
            0 <= a <= b < perm.len() ==> dist[#[trigger] perm[a] as int] >= dist[
                #[trigger] perm[b] as int],
        6 <= k <= front.len(),
        out.len() == k,
        forall|p: int| 0 <= p < k ==> #[trigger] out[p]@ == cand_views(front)[perm[p] as int],
        dist.len() <= usize::MAX,
        0 <= target < dist.len(),
        dist[target] == 18446744073709551615u64,
        exists|e1: int, e2: int, e3: int, e4: int, e5: int, e6: int|
            #[trigger] sentinel_set(dist, e1, e2, e3, e4, e5, e6),
    ensures
        cand_views(out).contains(cand_views(front)[target]),
{
    assert(perm.contains(target as usize));
    let pos = choose|p: int| 0 <= p < perm.len() && perm[p] == target as usize;
    assert(perm[pos] as int == target);
    if pos < k {
        assert(out[pos]@ == cand_views(front)[perm[pos] as int]);
        assert(out[pos]@ == cand_views(front)[target]);
        assert(cand_views(out)[pos] == out[pos]@);
    } else {
        // Every admitted slot then outranks a sentinel, so the first six
        // slots and the target are seven distinct indices that all carry
        // the sentinel, which at most six can.
        let big = 18446744073709551615u64;
        assert(dist[perm[pos] as int] == big);
        assert forall|p: int| 0 <= p < 6 implies dist[#[trigger] perm[p] as int] == big by {
            assert(dist[perm[p] as int] >= dist[perm[pos] as int]);
        }
        let (e1, e2, e3, e4, e5, e6) = choose|e1: int, e2: int, e3: int, e4: int, e5: int, e6:
            int| #[trigger] sentinel_set(dist, e1, e2, e3, e4, e5, e6);
        assert(forall|a: int, b: int|
            0 <= a < b < perm.len() ==> #[trigger] perm[a] != #[trigger] perm[b]);
        assert(perm[0] as int != target && perm[1] as int != target && perm[2] as int != target
            && perm[3] as int != target && perm[4] as int != target && perm[5] as int != target);
        assert(false);
    }
}

/// NSGA-II survivor selection: admit whole Pareto fronts in rank order
/// while they fit, then fill the remaining slots from the first front
/// that does not fit whole, by descending crowding distance.  The result
/// is a sub-multiset of the pool and satisfies [`nsga2_selected`].
pub fn nsga_2_selection(population: &Population, population_size: usize) -> (r: Population)
    requires
        population@.len() >= population_size,
        all_evaluated(population@),
    ensures
        r@.len() == population_size,
        all_evaluated(r@),
        members_of(r@, population@),
        cand_views(r@).to_multiset().subset_of(cand_views(population@).to_multiset()),
        nsga2_selected(cand_views(population@), cand_views(r@), population_size as int),
{
    let fronts = non_dominated_sort(population);
    let ghost vfronts = fronts@.map_values(|fv: Vec<Individual>| cand_views(fv@));
    let mut out: Population = Vec::new();
    let mut f: usize = 0;
    while f < fronts.len() && fronts[f].len() <= population_size - out.len()
        invariant
            all_evaluated(population@),
            fronts_views(fronts@).to_multiset() == cand_views(population@).to_multiset(),
            forall|ff: int| 0 <= ff < fronts@.len() ==> #[trigger] fronts@[ff]@.len() >= 1,
            forall|ff: int, aa: int|
                0 <= ff < fronts@.len() && 0 <= aa < fronts@[ff]@.len() ==> (
                #[trigger] fronts@[ff]@[aa]@).evaluated,
            f <= fronts@.len(),
            out@.len() <= population_size,
            all_evaluated(out@),
            members_of(out@, population@),
            cand_views(out@) == fronts_views(fronts@.take(f as int)),
        decreases fronts@.len() - f,
    {
        let front = &fronts[f];
        let mut a: usize = 0;
        while a < front.len()
            invariant
                all_evaluated(population@),
                fronts_views(fronts@).to_multiset() == cand_views(population@).to_multiset(),
                f < fronts@.len(),
                front == &fronts@[f as int],
                forall|ff: int, aa: int|
                    0 <= ff < fronts@.len() && 0 <= aa < fronts@[ff]@.len() ==> (
                    #[trigger] fronts@[ff]@[aa]@).evaluated,
                a <= front@.len(),
                all_evaluated(out@),
                members_of(out@, population@),
                cand_views(out@) == fronts_views(fronts@.take(f as int)) + cand_views(
                    front@,
                ).take(a as int),
            decreases front@.len() - a,
        {
            let item = front[a].clone();
            proof {
                lemma_front_member_in_population(fronts@, population@, f as int, a as int);
            }
            let ghost before = cand_views(out@);
            out.push(item);
            proof {
                assert(cand_views(out@) =~= before.push(front@[a as int]@));
                assert(cand_views(front@).take(a + 1) =~= cand_views(front@).take(a as int).push(
                    front@[a as int]@,
                ));
                assert(cand_views(out@) =~= fronts_views(fronts@.take(f as int)) + cand_views(
                    front@,
                ).take(a + 1));
            }
            a += 1;
        }
        proof {
            assert(fronts@.take(f + 1).drop_last() =~= fronts@.take(f as int));
            assert(fronts@.take(f + 1).last() == fronts@[f as int]);
            assert(fronts_views(fronts@.take(f + 1)) == fronts_views(fronts@.take(f as int))
                + cand_views(fronts@[f as int]@));
            assert(cand_views(front@).take(front@.len() as int) =~= cand_views(front@));
        }
        f += 1;
    }
    let ghost j = f as int;
    let ghost prefix = cand_views(out@);
    if out.len() < population_size {
        proof {
            if f >= fronts@.len() {
                assert(fronts@.take(fronts@.len() as int) =~= fronts@);
                assert(out@.len() == fronts_views(fronts@).len());
                assert(fronts_views(fronts@).to_multiset().len() == fronts_views(fronts@).len());
                assert(cand_views(population@).to_multiset().len() == cand_views(
                    population@,
                ).len());
                assert(false);
            }
        }
        let need: usize = population_size - out.len();
        let filled = take_top_by_crowding(&fronts[f], need);
        let ghost fillv = cand_views(filled@);
        let mut m: usize = 0;
        while m < filled.len()
            invariant
                all_evaluated(population@),
                fronts_views(fronts@).to_multiset() == cand_views(population@).to_multiset(),
                f < fronts@.len(),
                m <= filled@.len(),
                fillv == cand_views(filled@),
                all_evaluated(filled@),
                members_of(filled@, fronts@[f as int]@),
                all_evaluated(out@),
                members_of(out@, population@),
                out@.len() + filled@.len() - m == population_size,
                cand_views(out@) == prefix + fillv.take(m as int),
            decreases filled@.len() - m,
        {
            let item = filled[m].clone();
            proof {
                let v = item@;
                assert(cand_views(fronts@[f as int]@).contains(v));
                let aa = choose|aa: int|
                    0 <= aa < cand_views(fronts@[f as int]@).len() && cand_views(
                        fronts@[f as int]@,
                    )[aa] == v;
                lemma_front_member_in_population(fronts@, population@, f as int, aa);
            }
            let ghost before = cand_views(out@);
            out.push(item);
            proof {
                assert(cand_views(out@) =~= before.push(filled@[m as int]@));
                assert(fillv.take(m + 1) =~= fillv.take(m as int).push(fillv[m as int]));
                assert(cand_views(out@) =~= prefix + fillv.take(m + 1));
            }
            m += 1;
        }
        proof {
            assert(fillv.take(fillv.len() as int) =~= fillv);
            lemma_nsga2_characterization(
                population@,
                fronts@,
                vfronts,
                out@,
                j,
                fillv,
                population_size as int,
                filled@,
                need as int,
            );
        }
    } else {
        proof {
            assert(cand_views(out@) =~= prefix + Seq::<CandView>::empty());
            lemma_nsga2_characterization_nofill(
                population@,
                fronts@,
                vfronts,
                out@,
                j,
                population_size as int,
            );
        }
    }
    out
}

/// The admitted prefix and the crowding fill witness the NSGA-II
/// characterization of the selection result.
proof fn lemma_nsga2_characterization(
    population: Seq<Individual>,
    fronts: Seq<Vec<Individual>>,
    vfronts: Seq<Seq<CandView>>,
    out: Seq<Individual>,
    j: int,
    fillv: Seq<CandView>,
    population_size: int,
    filled: Seq<Individual>,
    need: int,
)
    requires
        vfronts == fronts.map_values(|fv: Vec<Individual>| cand_views(fv@)),
        fronts_views(fronts).to_multiset() == cand_views(population).to_multiset(),
        forall|ff: int| 0 <= ff < fronts.len() ==> #[trigger] fronts[ff]@.len() >= 1,
        forall|ff: int, f2: int, a: int, b: int|
            0 <= ff <= f2 < fronts.len() && 0 <= a < fronts[ff]@.len() && 0 <= b
                < fronts[f2]@.len() ==> !(#[trigger] fronts[f2]@[b]@).dominates(
                #[trigger] fronts[ff]@[a]@,
            ),
        forall|ff: int, a: int|
            1 <= ff < fronts.len() && 0 <= a < fronts[ff]@.len() ==> crate::population::dominated_from(
                fronts[ff - 1]@,
                #[trigger] fronts[ff]@[a]@,
            ),
        0 <= j < fronts.len(),
        cand_views(out) == fronts_views(fronts.take(j)) + fillv,
        fronts_views(fronts.take(j)).len() <= population_size,
        fronts_views(fronts.take(j)).len() + fronts[j]@.len() > population_size,
        fillv == cand_views(filled),
        fillv.len() == need,
        fronts_views(fronts.take(j)).len() + need == population_size,
        members_of(filled, fronts[j]@),
        cand_views(filled).to_multiset().subset_of(cand_views(fronts[j]@).to_multiset()),
        need >= 6 ==> forall|obj: u8|
            obj < 3 ==> #[trigger] keeps_extremes(filled, fronts[j]@, obj),
    ensures
        nsga2_selected(cand_views(population), cand_views(out), population_size),
        cand_views(out).to_multiset().subset_of(cand_views(population).to_multiset()),
{
    broadcast use vstd::seq_lib::group_to_multiset_ensures;

    lemma_vfronts_wf_transfer(population, fronts, vfronts);
    assert(vfronts.take(j) =~= fronts.take(j).map_values(
        |fv: Vec<Individual>| cand_views(fv@),
    ));
    lemma_vfronts_flat_of_map(fronts.take(j));
    assert(vfronts_flat(vfronts.take(j)) == fronts_views(fronts.take(j)));
    assert(vfronts[j] == cand_views(fronts[j]@));
    // the fill clauses transfer from the truncation helper's contract
    assert(forall|m: int|
        0 <= m < fillv.len() ==> vfronts[j].contains(#[trigger] fillv[m])) by {
        assert(forall|m: int|
            0 <= m < filled.len() ==> cand_views(fronts[j]@).contains(#[trigger] filled[m]@));
        assert(forall|m: int| 0 <= m < fillv.len() ==> #[trigger] fillv[m] == filled[m]@);
    }
    if need >= 6 {
        assert forall|obj: u8| obj < 3 implies #[trigger] vkeeps_min(fillv, vfronts[j], obj)
            && vkeeps_max(fillv, vfronts[j], obj) by {
            assert(keeps_extremes(filled, fronts[j]@, obj));
        }
    }
    assert(nsga2_selected_by(
        cand_views(population),
        cand_views(out),
        population_size,
        vfronts,
        j,
        fillv,
    ));
    // sub-multiset: the prefix plus the fill sit inside the flattened
    // fronts, whose multiset is the pool's
    vstd::seq_lib::lemma_multiset_commutative(fronts_views(fronts.take(j)), fillv);
    lemma_vfronts_flat_split(vfronts, j);
    lemma_vfronts_flat_cons(vfronts, j);
    vstd::seq_lib::lemma_multiset_commutative(
        vfronts_flat(vfronts.take(j)),
        vfronts_flat(vfronts.skip(j)),
    );
    vstd::seq_lib::lemma_multiset_commutative(vfronts[j], vfronts_flat(vfronts.skip(j + 1)));
    lemma_vfronts_flat_of_map(fronts);
    assert(vfronts_flat(vfronts) == fronts_views(fronts));
    assert forall|v: CandView|
        cand_views(out).to_multiset().count(v) <= #[trigger] cand_views(population).to_multiset()
            .count(v) by {
        assert(cand_views(out).to_multiset().count(v) == fronts_views(fronts.take(j))
            .to_multiset().count(v) + fillv.to_multiset().count(v));
        assert(fillv.to_multiset().count(v) <= vfronts[j].to_multiset().count(v));
        assert(fronts_views(fronts).to_multiset().count(v) == fronts_views(fronts.take(j))
            .to_multiset().count(v) + vfronts[j].to_multiset().count(v) + vfronts_flat(
            vfronts.skip(j + 1),
        ).to_multiset().count(v));
    }
}

/// The characterization when every front fits whole: the fill is empty.
proof fn lemma_nsga2_characterization_nofill(
    population: Seq<Individual>,
    fronts: Seq<Vec<Individual>>,
    vfronts: Seq<Seq<CandView>>,
    out: Seq<Individual>,
    j: int,
    population_size: int,
)
    requires
        vfronts == fronts.map_values(|fv: Vec<Individual>| cand_views(fv@)),
        fronts_views(fronts).to_multiset() == cand_views(population).to_multiset(),
        forall|ff: int| 0 <= ff < fronts.len() ==> #[trigger] fronts[ff]@.len() >= 1,
        forall|ff: int, f2: int, a: int, b: int|
            0 <= ff <= f2 < fronts.len() && 0 <= a < fronts[ff]@.len() && 0 <= b
                < fronts[f2]@.len() ==> !(#[trigger] fronts[f2]@[b]@).dominates(
                #[trigger] fronts[ff]@[a]@,
            ),
        forall|ff: int, a: int|
            1 <= ff < fronts.len() && 0 <= a < fronts[ff]@.len() ==> crate::population::dominated_from(
                fronts[ff - 1]@,
                #[trigger] fronts[ff]@[a]@,
            ),
        0 <= j <= fronts.len(),
        cand_views(out) == fronts_views(fronts.take(j)),
        cand_views(out).len() == population_size,
        j < fronts.len() ==> fronts_views(fronts.take(j)).len() + fronts[j]@.len()
            > population_size,
    ensures
        nsga2_selected(cand_views(population), cand_views(out), population_size),
        cand_views(out).to_multiset().subset_of(cand_views(population).to_multiset()),
{
    broadcast use vstd::seq_lib::group_to_multiset_ensures;

    lemma_vfronts_wf_transfer(population, fronts, vfronts);
    assert(vfronts.take(j) =~= fronts.take(j).map_values(
        |fv: Vec<Individual>| cand_views(fv@),
    ));
    lemma_vfronts_flat_of_map(fronts.take(j));
    assert(cand_views(out) =~= vfronts_flat(vfronts.take(j)) + Seq::<CandView>::empty());
    assert(nsga2_selected_by(
        cand_views(population),
        cand_views(out),
        population_size,
        vfronts,
        j,
        Seq::<CandView>::empty(),
    ));
    lemma_vfronts_flat_split(vfronts, j);
    vstd::seq_lib::lemma_multiset_commutative(
        vfronts_flat(vfronts.take(j)),
        vfronts_flat(vfronts.skip(j)),
    );
    lemma_vfronts_flat_of_map(fronts);
    assert forall|v: CandView|
        cand_views(out).to_multiset().count(v) <= #[trigger] cand_views(population).to_multiset()
            .count(v) by {
        assert(vfronts_flat(vfronts).to_multiset().count(v) == vfronts_flat(vfronts.take(j))
            .to_multiset().count(v) + vfronts_flat(vfronts.skip(j)).to_multiset().count(v));
    }
}

/// The view-level front decomposition inherits the sort's structure.
proof fn lemma_vfronts_wf_transfer(
    population: Seq<Individual>,
    fronts: Seq<Vec<Individual>>,
    vfronts: Seq<Seq<CandView>>,
)
    requires
        vfronts == fronts.map_values(|fv: Vec<Individual>| cand_views(fv@)),
        fronts_views(fronts).to_multiset() == cand_views(population).to_multiset(),
        forall|ff: int| 0 <= ff < fronts.len() ==> #[trigger] fronts[ff]@.len() >= 1,
        forall|ff: int, f2: int, a: int, b: int|
            0 <= ff <= f2 < fronts.len() && 0 <= a < fronts[ff]@.len() && 0 <= b
                < fronts[f2]@.len() ==> !(#[trigger] fronts[f2]@[b]@).dominates(
                #[trigger] fronts[ff]@[a]@,
            ),
        forall|ff: int, a: int|
            1 <= ff < fronts.len() && 0 <= a < fronts[ff]@.len() ==> crate::population::dominated_from(
                fronts[ff - 1]@,
                #[trigger] fronts[ff]@[a]@,
            ),
    ensures
        vfronts_wf(cand_views(population), vfronts),
{
    lemma_vfronts_flat_of_map(fronts);
    assert(forall|ff: int|
        0 <= ff < vfronts.len() ==> (#[trigger] vfronts[ff]) == cand_views(fronts[ff]@));
    assert forall|ff: int, f2: int, a: int, b: int|
        0 <= ff <= f2 < vfronts.len() && 0 <= a < vfronts[ff].len() && 0 <= b
            < vfronts[f2].len() implies !(#[trigger] vfronts[f2][b]).dominates(
        #[trigger] vfronts[ff][a],
    ) by {
        assert(vfronts[f2][b] == fronts[f2]@[b]@);
        assert(vfronts[ff][a] == fronts[ff]@[a]@);
    }
    assert forall|ff: int, a: int|
        1 <= ff < vfronts.len() && 0 <= a < vfronts[ff].len() implies vdominated_from(
        vfronts[ff - 1],
        #[trigger] vfronts[ff][a],
    ) by {
        assert(vfronts[ff][a] == fronts[ff]@[a]@);
        assert(crate::population::dominated_from(fronts[ff - 1]@, fronts[ff]@[a]@));
        let b = choose|b: int|
            0 <= b < fronts[ff - 1]@.len() && (#[trigger] fronts[ff - 1]@[b]@).dominates(
                fronts[ff]@[a]@,
            );
        assert(vfronts[ff - 1][b] == fronts[ff - 1]@[b]@);
    }
}

/// Survivor selection: build the selection pool (children, or parents and
/// children combined), optionally carve out and keep the skyline, then
/// fill the next population with the configured strategy.
pub fn survivor_selection(parents: &Population, children: &Population, config: &Config) -> (r:
    Population)
    requires
        config_valid(config),
        parents@.len() == config.population_size,
        children@.len() == config.population_size,
        all_evaluated(parents@),
        all_evaluated(children@),
    ensures
        all_evaluated(r@),
        config.survivor_selection.name@ != "roulette_wheel_weighted"@ ==> r@.len()
            == config.population_size,
        config.survivor_selection.name@ == "fullReplacement"@ ==> cand_views(r@) == cand_views(
            children@,
        ),
        config.survivor_selection.name@ == "NSGA-2"@ ==> nsga2_selected(
            cand_views(parents@) + cand_views(children@),
            cand_views(r@),
            config.population_size as int,
        ),
        forall|i: int|
            0 <= i < r@.len() ==> cand_views(parents@).contains(#[trigger] r@[i]@) || cand_views(
                children@,
            ).contains(r@[i]@),
{
    proof {
        reveal_strlit("tournament");
        reveal_strlit("tournament_weighted");
        reveal_strlit("fullReplacement");
        reveal_strlit("NSGA-2");
        reveal_strlit("roulette_wheel_weighted");
        assert("tournament"@.len() == 10);
        assert("tournament_weighted"@.len() == 19);
        assert("fullReplacement"@.len() == 15);
        assert("NSGA-2"@.len() == 6);
        assert("roulette_wheel_weighted"@.len() == 23);
    }
    let fc = &config.survivor_selection;
    let combine = match fc.combine_parents_and_offspring {
        Some(b) => b,
        None => false,
    };
    let mut pool: Population = if combine {
        let mut p = clone_population(parents);
        proof {
            assert forall|i: int| 0 <= i < p@.len() implies cand_views(parents@).contains(
                #[trigger] p@[i]@,
            ) by {
                assert(cand_views(parents@)[i] == parents@[i]@);
            }
            assert(cand_views(p@) =~= cand_views(parents@) + cand_views(children@).take(0));
        }
        let mut m: usize = 0;
        while m < children.len()
            invariant
                m <= children@.len(),
                all_evaluated(children@),
                all_evaluated(p@),
                p@.len() == parents@.len() + m,
                cand_views(p@) == cand_views(parents@) + cand_views(children@).take(m as int),
                forall|i: int|
                    0 <= i < p@.len() ==> cand_views(parents@).contains(#[trigger] p@[i]@)
                        || cand_views(children@).contains(p@[i]@),
            decreases children@.len() - m,
        {
            let item = children[m].clone();
            proof {
                assert(cand_views(children@)[m as int] == item@);
            }
            let ghost before = cand_views(p@);
            p.push(item);
            proof {
                assert(cand_views(p@) =~= before.push(children@[m as int]@));
                assert(cand_views(children@).take(m + 1) =~= cand_views(children@).take(
                    m as int,
                ).push(children@[m as int]@));
                assert(cand_views(p@) =~= cand_views(parents@) + cand_views(children@).take(
                    m + 1,
                ));
            }
            m += 1;
        }
        proof {
            assert(cand_views(children@).take(children@.len() as int) =~= cand_views(children@));
        }
        p
    } else {
        clone_population(children)
    };
    proof {
        assert forall|i: int| 0 <= i < pool@.len() implies (#[trigger] pool@[i]@).evaluated by {
            if combine {
            } else {
                assert(pool@[i]@ == children@[i]@);
            }
        }
        assert forall|i: int| 0 <= i < pool@.len() implies cand_views(parents@).contains(
            #[trigger] pool@[i]@,
        ) || cand_views(children@).contains(pool@[i]@) by {
            if !combine {
                assert(pool@[i]@ == children@[i]@);
                assert(cand_views(children@)[i] == children@[i]@);
            }
        }
    }
    let ghost pool_base = pool@.len();
    if config.preserve_skyline {
        let ghost pool_at_sort = pool@;
        let sorted = non_dominated_sort(&pool);
        if sorted.len() > 0 {
            let mut a: usize = 0;
            let skyline_len = sorted[0].len();
            while a < skyline_len
                invariant
                    sorted@.len() > 0,
                    skyline_len == sorted@[0]@.len(),
                    fronts_views(sorted@).to_multiset() == cand_views(pool_at_sort).to_multiset(),
                    forall|ff: int, aa: int|
                        0 <= ff < sorted@.len() && 0 <= aa < sorted@[ff]@.len() ==> (
                        #[trigger] sorted@[ff]@[aa]@).evaluated,
                    a <= skyline_len,
                    all_evaluated(pool@),
                    pool@.len() >= pool_base,
                    forall|i: int|
                        0 <= i < pool_at_sort.len() ==> cand_views(parents@).contains(
                            #[trigger] pool_at_sort[i]@,
                        ) || cand_views(children@).contains(pool_at_sort[i]@),
                    forall|i: int|
                        0 <= i < pool@.len() ==> cand_views(parents@).contains(
                            #[trigger] pool@[i]@,
                        ) || cand_views(children@).contains(pool@[i]@),
                decreases skyline_len - a,
            {
                let item = sorted[0][a].clone();
                proof {
                    lemma_front_member_in_population(sorted@, pool_at_sort, 0, a as int);
                    let v = item@;
                    assert(cand_views(pool_at_sort).contains(v));
                    let m = choose|m: int|
                        0 <= m < cand_views(pool_at_sort).len() && cand_views(pool_at_sort)[m]
                            == v;
                    assert(pool_at_sort[m]@ == v);
                }
                pool.push(item);
                a += 1;
            }
        }
    }
    proof {
        assert(pool@.len() >= pool_base);
        assert(pool_base >= 1);
    }
    let selected: Population = if selection_name_is(&fc.name, "fullReplacement") {
        let copy = clone_population(children);
        proof {
            assert forall|i: int| 0 <= i < copy@.len() implies cand_views(children@).contains(
                #[trigger] copy@[i]@,
            ) by {
                assert(cand_views(children@)[i] == children@[i]@);
            }
        }
        copy
    } else if selection_name_is(&fc.name, "tournament") {
        let size = match fc.tournament_size {
            Some(t) => t,
            None => 1,
        };
        let prob = match fc.probability {
            Some(p) => p,
            None => 0,
        };
        proof {
            assert(pool@.len() >= 1);
        }
        tournament_selection(&pool, config.population_size, size, prob)
    } else if selection_name_is(&fc.name, "NSGA-2") {
        let picked = nsga_2_selection(&pool, config.population_size);
        proof {
            assert(combine && !config.preserve_skyline);
            assert(cand_views(pool@) == cand_views(parents@) + cand_views(children@));
            assert(nsga2_selected(
                cand_views(parents@) + cand_views(children@),
                cand_views(picked@),
                config.population_size as int,
            ));
        }
        picked
    } else if selection_name_is(&fc.name, "tournament_weighted") {
        let size = match fc.tournament_size {
            Some(t) => t,
            None => 1,
        };
        let prob = match fc.probability {
            Some(p) => p,
            None => 0,
        };
        proof {
            assert(pool@.len() >= 1);
        }
        tournament_weighted(&pool, config.population_size, size, prob)
    } else {
        proof {
            assert(pool@.len() >= 1);
        }
        roulette_wheel_weighted(&pool, config.population_size)
    };
    proof {
        assert forall|i: int| 0 <= i < selected@.len() implies (
        #[trigger] selected@[i]@).evaluated by {
            if cand_views(pool@).contains(selected@[i]@) {
                let m = choose|m: int|
                    0 <= m < cand_views(pool@).len() && cand_views(pool@)[m] == selected@[i]@;
                assert(pool@[m]@ == selected@[i]@);
            }
        }
        assert forall|i: int| 0 <= i < selected@.len() implies cand_views(parents@).contains(
            #[trigger] selected@[i]@,
        ) || cand_views(children@).contains(selected@[i]@) by {
            if cand_views(pool@).contains(selected@[i]@) {
                let m = choose|m: int|
                    0 <= m < cand_views(pool@).len() && cand_views(pool@)[m] == selected@[i]@;
                assert(pool@[m]@ == selected@[i]@);
            }
        }
    }
    selected
}

/// Whether a name equals a literal key.
fn selection_name_is(name: &String, key: &str) -> (r: bool)
    ensures
        r == (name@ == key@),
{
    let owned: String = key.to_owned();
    *name == owned
}

} // verus!
