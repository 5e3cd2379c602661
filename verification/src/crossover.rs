//! Crossover operators: one-point, n-point and uniform gene exchange.
//!
//! Every operator preserves genome length and takes each child gene from
//! one of the two parents at the same position, the other child receiving
//! the remaining gene.

use vstd::prelude::*;
use crate::individual::Individual;
use crate::config::{Config, config_valid, crossover_valid};
use crate::decoder::vec_contains;
use crate::genome::{Connection, Genome};
use crate::global_data::GlobalData;
use crate::individual::clone_genome;
use crate::population::Population;
use crate::rng::rand_index;

verus! {

broadcast use vstd::seq_lib::to_multiset_update;

/// The genes the population carries at one position, in population order.
pub open spec fn genes_at(s: Seq<Individual>, pos: int) -> Seq<Connection> {
    s.map_values(|x: Individual| x@.genome[pos])
}

/// Exchanging (or keeping) one gene position between two candidates
/// preserves the multiset of genes the population holds at that position.
proof fn lemma_two_point_exchange_multiset(s: Seq<Connection>, a: int, b: int, x: Connection, y: Connection)
    requires
        0 <= a < s.len(),
        0 <= b < s.len(),
        a != b,
        (x == s[a] && y == s[b]) || (x == s[b] && y == s[a]),
    ensures
        s.update(a, x).update(b, y).to_multiset() == s.to_multiset(),
{
    let s2 = s.update(a, x).update(b, y);
    if x == s[a] && y == s[b] {
        assert(s2 =~= s);
    } else {
        assert(s.update(a, x)[b] == s[b]);
        assert(s.update(a, x).to_multiset() == s.to_multiset().insert(s[b]).remove(s[a]));
        assert(s2.to_multiset() == s.update(a, x).to_multiset().insert(s[a]).remove(s[b]));
        assert(s.to_multiset().contains(s[a])) by {
            broadcast use vstd::seq_lib::group_to_multiset_ensures;

            assert(s.contains(s[a]));
        }
        assert(s.to_multiset().contains(s[b])) by {
            broadcast use vstd::seq_lib::group_to_multiset_ensures;

            assert(s.contains(s[b]));
        }
        assert(s2.to_multiset() =~= s.to_multiset());
    }
}

/// Both children have their parents' length, and at every position the two
/// children carry the two parents' genes, in one order or the other.
pub open spec fn genes_from_parents(
    g1: Seq<Connection>,
    g2: Seq<Connection>,
    c1: Seq<Connection>,
    c2: Seq<Connection>,
) -> bool {
    &&& c1.len() == g1.len()
    &&& c2.len() == g1.len()
    &&& forall|i: int|
        #![auto]
        0 <= i < g1.len() ==> ((c1[i] == g1[i] && c2[i] == g2[i]) || (c1[i] == g2[i] && c2[i]
            == g1[i]))
}

/// How many of the first `i` positions are cut points of `slices`.
pub open spec fn flips_upto(slices: Seq<usize>, i: int) -> int
    decreases i,
{
    if i <= 0 {
        0
    } else {
        flips_upto(slices, i - 1) + if slices.contains((i - 1) as usize) {
            1int
        } else {
            0int
        }
    }
}

/// One-point crossover at a fixed cut: genes before `cut` stay, the tails
/// from `cut` on are swapped between the children.
pub fn one_point_crossover_at(genome1: &Genome, genome2: &Genome, cut: usize) -> (r: (
    Genome,
    Genome,
))
    requires
        genome1@.len() == genome2@.len(),
        cut <= genome1@.len(),
    ensures
        r.0@.len() == genome1@.len(),
        r.1@.len() == genome1@.len(),
        forall|i: int| #![auto] 0 <= i < cut ==> r.0@[i] == genome1@[i] && r.1@[i] == genome2@[i],
        forall|i: int| #![auto]
            cut <= i < genome1@.len() ==> r.0@[i] == genome2@[i] && r.1@[i] == genome1@[i],
        genes_from_parents(genome1@, genome2@, r.0@, r.1@),
{
    let n = genome1.len();
    let mut c1: Genome = Vec::new();
    let mut c2: Genome = Vec::new();
    let mut i: usize = 0;
    while i < n
        invariant
            n == genome1@.len() == genome2@.len(),
            cut <= n,
            i <= n,
            c1@.len() == i,
            c2@.len() == i,
            forall|m: int| #![auto]
                0 <= m < i && m < cut ==> c1@[m] == genome1@[m] && c2@[m] == genome2@[m],
            forall|m: int| #![auto]
                cut <= m < i ==> c1@[m] == genome2@[m] && c2@[m] == genome1@[m],
        decreases n - i,
    {
        if i < cut {
            c1.push(genome1[i]);
            c2.push(genome2[i]);
        } else {
            c1.push(genome2[i]);
            c2.push(genome1[i]);
        }
        i += 1;
    }
    (c1, c2)
}

/// The children exchange exactly the tails from `cut` on.
pub open spec fn one_point_exchange(
    g1: Seq<Connection>,
    g2: Seq<Connection>,
    c1: Seq<Connection>,
    c2: Seq<Connection>,
    cut: int,
) -> bool {
    &&& 0 <= cut <= g1.len()
    &&& c1.len() == g1.len()
    &&& c2.len() == g1.len()
    &&& forall|i: int| #![auto] 0 <= i < cut ==> c1[i] == g1[i] && c2[i] == g2[i]
    &&& forall|i: int| #![auto] cut <= i < g1.len() ==> c1[i] == g2[i] && c2[i] == g1[i]
}

/// One-point crossover at a random cut index: for some cut, the heads are
/// kept and the tails are swapped.
pub fn one_point_crossover(genome1: &Genome, genome2: &Genome) -> (r: (Genome, Genome))
    requires
        genome1@.len() == genome2@.len(),
        genome1@.len() >= 1,
    ensures
        genes_from_parents(genome1@, genome2@, r.0@, r.1@),
        exists|cut: int| #[trigger] one_point_exchange(genome1@, genome2@, r.0@, r.1@, cut),
{
    let cut = rand_index(genome1.len());
    let r = one_point_crossover_at(genome1, genome2, cut);
    proof {
        assert(one_point_exchange(genome1@, genome2@, r.0@, r.1@, cut as int));
    }
    r
}

/// N-point crossover at fixed cuts: sweeping left to right, the source
/// parent alternates each time a cut position is passed.
pub fn n_point_crossover_at(genome1: &Genome, genome2: &Genome, slices: &Vec<usize>) -> (r: (
    Genome,
    Genome,
))
    requires
        genome1@.len() == genome2@.len(),
    ensures
        r.0@.len() == genome1@.len(),
        r.1@.len() == genome1@.len(),
        forall|i: int| #![auto]
            0 <= i < genome1@.len() ==> if flips_upto(slices@, i) % 2 == 0 {
                r.0@[i] == genome1@[i] && r.1@[i] == genome2@[i]
            } else {
                r.0@[i] == genome2@[i] && r.1@[i] == genome1@[i]
            },
        genes_from_parents(genome1@, genome2@, r.0@, r.1@),
{
    let n = genome1.len();
    let mut c1: Genome = Vec::new();
    let mut c2: Genome = Vec::new();
    let mut flipped: bool = false;
    let mut i: usize = 0;
    while i < n
        invariant
            n == genome1@.len() == genome2@.len(),
            i <= n,
            c1@.len() == i,
            c2@.len() == i,
            flipped == (flips_upto(slices@, i as int) % 2 == 1),
            forall|m: int| #![auto]
                0 <= m < i ==> if flips_upto(slices@, m) % 2 == 0 {
                    c1@[m] == genome1@[m] && c2@[m] == genome2@[m]
                } else {
                    c1@[m] == genome2@[m] && c2@[m] == genome1@[m]
                },
        decreases n - i,
    {
        if !flipped {
            c1.push(genome1[i]);
            c2.push(genome2[i]);
        } else {
            c1.push(genome2[i]);
            c2.push(genome1[i]);
        }
        if vec_contains(slices, i) {
            flipped = !flipped;
        }
        i += 1;
    }
    (c1, c2)
}

/// Sweeping left to right, the source parent alternates each time a cut
/// position of `slices` is passed.
pub open spec fn n_point_exchange(
    g1: Seq<Connection>,
    g2: Seq<Connection>,
    c1: Seq<Connection>,
    c2: Seq<Connection>,
    slices: Seq<usize>,
) -> bool {
    &&& c1.len() == g1.len()
    &&& c2.len() == g1.len()
    &&& forall|i: int|
        #![auto]
        0 <= i < g1.len() ==> if flips_upto(slices, i) % 2 == 0 {
            c1[i] == g1[i] && c2[i] == g2[i]
        } else {
            c1[i] == g2[i] && c2[i] == g1[i]
        }
}

/// N-point crossover at `number_of_slices` random cut indices: for some
/// multiset of that many cut positions, the source parent alternates each
/// time a cut is passed.
pub fn n_point_crossover(genome1: &Genome, genome2: &Genome, number_of_slices: usize) -> (r: (
    Genome,
    Genome,
))
    requires
        genome1@.len() == genome2@.len(),
        genome1@.len() >= 1,
    ensures
        genes_from_parents(genome1@, genome2@, r.0@, r.1@),
        exists|slices: Seq<usize>|
            #[trigger] n_point_exchange(genome1@, genome2@, r.0@, r.1@, slices) && slices.len()
                == number_of_slices,
{
    let mut slices: Vec<usize> = Vec::new();
    let mut k: usize = 0;
    while k < number_of_slices
        invariant
            genome1@.len() >= 1,
            k <= number_of_slices,
            slices@.len() == k,
        decreases number_of_slices - k,
    {
        slices.push(rand_index(genome1.len()));
        k += 1;
    }
    let r = n_point_crossover_at(genome1, genome2, &slices);
    proof {
        assert(n_point_exchange(genome1@, genome2@, r.0@, r.1@, slices@));
    }
    r
}

/// Uniform crossover with fixed per-position choices: where `swaps` is
/// set, the children exchange that position's genes.
pub fn uniform_crossover_with(genome1: &Genome, genome2: &Genome, swaps: &Vec<bool>) -> (r: (
    Genome,
    Genome,
))
    requires
        genome1@.len() == genome2@.len(),
        swaps@.len() == genome1@.len(),
    ensures
        r.0@.len() == genome1@.len(),
        r.1@.len() == genome1@.len(),
        forall|i: int| #![auto]
            0 <= i < genome1@.len() ==> if swaps@[i] {
                r.0@[i] == genome2@[i] && r.1@[i] == genome1@[i]
            } else {
                r.0@[i] == genome1@[i] && r.1@[i] == genome2@[i]
            },
        genes_from_parents(genome1@, genome2@, r.0@, r.1@),
{
    let n = genome1.len();
    let mut c1: Genome = Vec::new();
    let mut c2: Genome = Vec::new();
    let mut i: usize = 0;
    while i < n
        invariant
            n == genome1@.len() == genome2@.len(),
            swaps@.len() == n,
            i <= n,
            c1@.len() == i,
            c2@.len() == i,
            forall|m: int| #![auto]
                0 <= m < i ==> if swaps@[m] {
                    c1@[m] == genome2@[m] && c2@[m] == genome1@[m]
                } else {
                    c1@[m] == genome1@[m] && c2@[m] == genome2@[m]
                },
        decreases n - i,
    {
        if swaps[i] {
            c1.push(genome2[i]);
            c2.push(genome1[i]);
        } else {
            c1.push(genome1[i]);
            c2.push(genome2[i]);
        }
        i += 1;
    }
    (c1, c2)
}

/// Uniform crossover: every position swaps independently with probability
/// one half.
pub fn uniform_crossover(genome1: &Genome, genome2: &Genome) -> (r: (Genome, Genome))
    requires
        genome1@.len() == genome2@.len(),
    ensures
        genes_from_parents(genome1@, genome2@, r.0@, r.1@),
{
    let n = genome1.len();
    let mut swaps: Vec<bool> = Vec::new();
    let mut k: usize = 0;
    while k < n
        invariant
            k <= n,
            swaps@.len() == k,
        decreases n - k,
    {
        swaps.push(rand_index(2) == 0);
        k += 1;
    }
    uniform_crossover_with(genome1, genome2, &swaps)
}

/// One crossover entry applies: its rate is positive, so at least one
/// pairing happens.
pub open spec fn crossover_applies(fc: crate::config::FunctionConfig) -> bool {
    fc.probability matches Some(p) && p >= 1
}

/// Apply every configured crossover entry: `ceil(population_size * rate /
/// 2)` times, pick two distinct random parents, replace their genomes by
/// the children and mark both dirty.  Genome lengths are preserved, a
/// candidate is only ever replaced by a dirty child, each pairing only
/// exchanges genes position-wise (so at every gene position the multiset
/// of genes across the population is unchanged), and any entry with a
/// positive rate leaves at least two candidates dirty.
pub fn crossover(population: &mut Population, config: &Config, global_data: &GlobalData)
    requires
        global_data.wf(),
        config_valid(config),
        old(population)@.len() == config.population_size,
        forall|i: int|
            0 <= i < old(population)@.len() ==> (#[trigger] old(population)@[i]@).genome.len()
                == global_data.area(),
    ensures
        final(population)@.len() == old(population)@.len(),
        forall|i: int|
            0 <= i < final(population)@.len() ==> (#[trigger] final(population)@[i]@).genome.len()
                == global_data.area(),
        forall|i: int|
            0 <= i < final(population)@.len() ==> #[trigger] final(population)@[i]@ == old(
                population,
            )@[i]@ || !final(population)@[i]@.evaluated,
        forall|pos: int|
            0 <= pos < global_data.area() ==> #[trigger] genes_at(
                final(population)@,
                pos,
            ).to_multiset() == genes_at(old(population)@, pos).to_multiset(),
        config.population_size >= 2 && (exists|e: int|
            0 <= e < config.crossovers@.len() && crossover_applies(
                #[trigger] config.crossovers@[e],
            )) ==> exists|i: int, j: int|
            0 <= i < final(population)@.len() && 0 <= j < final(population)@.len() && i != j && !(
            #[trigger] final(population)@[i]@).evaluated && !(
            #[trigger] final(population)@[j]@).evaluated,
{
    proof {
        assert(global_data.area() >= 1) by (nonlinear_arith)
            requires
                global_data.area() == global_data.width * global_data.height,
                global_data.width >= 1,
                global_data.height >= 1,
        ;
    }
    let ghost pop0 = old(population)@;
    let pop_size = config.population_size;
    let mut e: usize = 0;
    while e < config.crossovers.len()
        invariant
            config_valid(config),
            pop_size == config.population_size,
            population@.len() == pop_size == pop0.len(),
            global_data.area() >= 1,
            forall|i: int|
                0 <= i < population@.len() ==> (#[trigger] population@[i]@).genome.len()
                    == global_data.area(),
            forall|i: int|
                0 <= i < population@.len() ==> #[trigger] population@[i]@ == pop0[i]@
                    || !population@[i]@.evaluated,
            forall|pos: int|
                0 <= pos < global_data.area() ==> #[trigger] genes_at(
                    population@,
                    pos,
                ).to_multiset() == genes_at(pop0, pos).to_multiset(),
            forall|e2: int|
                0 <= e2 < e && pop_size >= 2 && crossover_applies(#[trigger] config.crossovers@[e2])
                    ==> exists|i: int, j: int|
                    #![auto]
                    0 <= i < population@.len() && 0 <= j < population@.len() && i != j
                        && !population@[i]@.evaluated && !population@[j]@.evaluated,
        decreases config.crossovers@.len() - e,
    {
        let entry = &config.crossovers[e];
        proof {
            assert(crossover_valid(config.crossovers@[e as int]));
        }
        let rate: u32 = match entry.probability {
            Some(p) => p,
            None => 0,
        };
        // ceil(population_size * rate / 2), rates in thousandths
        proof {
            assert((pop_size as int) * (rate as int) <= 18446744073709551615 * 1000)
                by (nonlinear_arith)
                requires
                    0 <= pop_size as int <= 18446744073709551615,
                    0 <= rate as int <= 1000,
            ;
        }
        let count: usize = (((pop_size as u128) * (rate as u128) + 1999) / 2000) as usize;
        proof {
            assert(((pop_size as int) * (rate as int) + 1999) / 2000 <= pop_size as int)
                by (nonlinear_arith)
                requires
                    0 <= rate as int <= 1000,
                    pop_size as int >= 0,
            ;
            if rate >= 1 && pop_size >= 2 {
                assert((pop_size as int) * (rate as int) >= 2) by (nonlinear_arith)
                    requires
                        pop_size as int >= 2,
                        rate as int >= 1,
                ;
                assert(((pop_size as int) * (rate as int) + 1999) / 2000 >= 1) by {
                    vstd::arithmetic::div_mod::lemma_div_is_ordered(
                        2001,
                        (pop_size as int) * (rate as int) + 1999,
                        2000,
                    );
                }
                assert(count >= 1);
            }
        }
        let mut c: usize = 0;
        while c < count
            invariant
                config_valid(config),
                e < config.crossovers@.len(),
                entry == &config.crossovers@[e as int],
                pop_size == config.population_size,
                population@.len() == pop_size == pop0.len(),
                global_data.area() >= 1,
                forall|i: int|
                    0 <= i < population@.len() ==> (#[trigger] population@[i]@).genome.len()
                        == global_data.area(),
                forall|i: int|
                    0 <= i < population@.len() ==> #[trigger] population@[i]@ == pop0[i]@
                        || !population@[i]@.evaluated,
                forall|pos: int|
                    0 <= pos < global_data.area() ==> #[trigger] genes_at(
                        population@,
                        pos,
                    ).to_multiset() == genes_at(pop0, pos).to_multiset(),
                forall|e2: int|
                    0 <= e2 < e && pop_size >= 2 && crossover_applies(
                        #[trigger] config.crossovers@[e2],
                    ) ==> exists|i: int, j: int|
                        #![auto]
                        0 <= i < population@.len() && 0 <= j < population@.len() && i != j
                            && !population@[i]@.evaluated && !population@[j]@.evaluated,
                rate >= 1 && pop_size >= 2 ==> count >= 1,
                c >= 1 && pop_size >= 2 ==> exists|i: int, j: int|
                    #![auto]
                    0 <= i < population@.len() && 0 <= j < population@.len() && i != j
                        && !population@[i]@.evaluated && !population@[j]@.evaluated,
            decreases count - c,
        {
            if pop_size >= 2 {
                let a = rand_index(pop_size);
                let mut b = rand_index(pop_size - 1);
                if b >= a {
                    b = b + 1;
                }
                let g1 = clone_genome(population[a].genome_ref());
                let g2 = clone_genome(population[b].genome_ref());
                proof {
                    assert(g1@ == population@[a as int]@.genome);
                    assert(g2@ == population@[b as int]@.genome);
                }
                let children: (Genome, Genome) = if name_matches(&entry.name, "one_point") {
                    one_point_crossover(&g1, &g2)
                } else if name_matches(&entry.name, "n_point") {
                    let slices = match entry.number_of_slices {
                        Some(nslices) => nslices,
                        None => 1,
                    };
                    n_point_crossover(&g1, &g2, slices)
                } else {
                    uniform_crossover(&g1, &g2)
                };
                let (c1, c2) = children;
                let ghost before = population@;
                let mut ind_a = population[a].clone();
                ind_a.set_genome(c1);
                population.set(a, ind_a);
                let mut ind_b = population[b].clone();
                ind_b.set_genome(c2);
                population.set(b, ind_b);
                proof {
                    assert(!population@[a as int]@.evaluated);
                    assert(!population@[b as int]@.evaluated);
                    assert forall|pos: int| 0 <= pos < global_data.area() implies #[trigger]
                    genes_at(population@, pos).to_multiset() == genes_at(
                        before,
                        pos,
                    ).to_multiset() by {
                        let olds = genes_at(before, pos);
                        let news = genes_at(population@, pos);
                        assert(news =~= olds.update(a as int, c1@[pos]).update(
                            b as int,
                            c2@[pos],
                        ));
                        assert(olds[a as int] == g1@[pos] && olds[b as int] == g2@[pos]);
                        lemma_two_point_exchange_multiset(
                            olds,
                            a as int,
                            b as int,
                            c1@[pos],
                            c2@[pos],
                        );
                    }
                }
            }
            c += 1;
        }
        proof {
            if pop_size >= 2 && crossover_applies(config.crossovers@[e as int]) {
                assert(rate >= 1);
                assert(count >= 1);
                assert(c >= 1);
            }
        }
        e += 1;
    }
}

/// Whether a name equals a literal key.
fn name_matches(name: &String, key: &str) -> (r: bool)
    ensures
        r == (name@ == key@),
{
    let owned: String = key.to_owned();
    *name == owned
}

} // verus!
