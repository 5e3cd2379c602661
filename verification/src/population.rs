//! The population and its Pareto ranking.
//!
//! Non-dominated sorting splits a population into fronts: front 0 holds
//! the candidates dominated by nobody, and each later front the candidates
//! dominated only by earlier fronts.  The fronts partition the population:
//! together they hold exactly the input candidates, each exactly once.

use vstd::prelude::*;
use crate::config::{Config, config_valid};
use crate::genome::Genome;
use crate::global_data::GlobalData;
use crate::individual::{CandView, Individual, scored_for};
use vstd::multiset::Multiset;
use crate::mst::get_mst_genome;

verus! {

broadcast use vstd::seq_lib::group_to_multiset_ensures;

/// An ordered collection of candidates.
pub type Population = Vec<Individual>;

/// The views of a candidate sequence.
pub open spec fn cand_views(s: Seq<Individual>) -> Seq<CandView> {
    s.map_values(|x: Individual| x@)
}

/// The concatenated views of a sequence of fronts.
pub open spec fn fronts_views(fs: Seq<Vec<Individual>>) -> Seq<CandView>
    decreases fs.len(),
{
    if fs.len() == 0 {
        Seq::empty()
    } else {
        fronts_views(fs.drop_last()) + cand_views(fs.last()@)
    }
}

/// Candidate `i` of `ws` is dominated by some member of `ws`.
pub open spec fn is_dominated(ws: Seq<CandView>, i: int) -> bool {
    exists|j: int| 0 <= j < ws.len() && #[trigger] ws[j].dominates(ws[i])
}

/// View `v` is the view of an undominated member of `ws`.
spec fn undominated_member(ws: Seq<CandView>, v: CandView) -> bool {
    exists|m: int| 0 <= m < ws.len() && !(#[trigger] is_dominated(ws, m)) && v == ws[m]
}

/// Every candidate sequence has a member dominated by nobody: dominance is
/// a strict partial order, so a finite nonempty set has a minimal element.
proof fn lemma_exists_nondominated(ws: Seq<CandView>)
    requires
        ws.len() >= 1,
    ensures
        exists|i: int| 0 <= i < ws.len() && !(#[trigger] is_dominated(ws, i)),
    decreases ws.len(),
{
    if ws.len() == 1 {
        assert(!is_dominated(ws, 0)) by {
            assert(forall|j: int| 0 <= j < ws.len() ==> !#[trigger] ws[j].dominates(ws[0]));
        }
    } else {
        let sub = ws.drop_first();
        lemma_exists_nondominated(sub);
        let m = choose|i: int| 0 <= i < sub.len() && !(#[trigger] is_dominated(sub, i));
        assert(forall|j: int| 0 <= j < sub.len() ==> !#[trigger] sub[j].dominates(sub[m]));
        assert(forall|j: int| 0 <= j < sub.len() ==> sub[j] == ws[j + 1]);
        if ws[0].dominates(ws[m + 1]) {
            // The head is then itself dominated by nobody: anything
            // dominating it would dominate the minimal member of the rest.
            assert(!is_dominated(ws, 0)) by {
                assert forall|j: int| 0 <= j < ws.len() implies !#[trigger] ws[j].dominates(
                    ws[0],
                ) by {
                    if ws[j].dominates(ws[0]) {
                        crate::individual::lemma_dominates_strict(ws[j], ws[0], ws[m + 1]);
                        if j == 0 {
                        } else {
                            assert(sub[j - 1].dominates(sub[m]));
                        }
                    }
                }
            }
        } else {
            assert(!is_dominated(ws, m + 1)) by {
                assert forall|j: int| 0 <= j < ws.len() implies !#[trigger] ws[j].dominates(
                    ws[m + 1],
                ) by {
                    if ws[j].dominates(ws[m + 1]) {
                        if j == 0 {
                        } else {
                            assert(sub[j - 1].dominates(sub[m]));
                        }
                    }
                }
            }
        }
    }
}

/// View `v` belongs to a dominated member of `ws`.
pub open spec fn dominated_view_of(ws: Seq<CandView>, v: CandView) -> bool {
    exists|m: int| 0 <= m < ws.len() && v == ws[m] && #[trigger] is_dominated(ws, m)
}

/// Some member of a front dominates the given candidate.
pub open spec fn dominated_from(front: Seq<Individual>, v: CandView) -> bool {
    exists|b: int| 0 <= b < front.len() && (#[trigger] front[b]@).dominates(v)
}

/// Every nonempty subset of candidates has a member dominated by no
/// member of the subset.
proof fn lemma_exists_subset_minimal(ws: Seq<CandView>, p: spec_fn(int) -> bool)
    requires
        exists|i: int| 0 <= i < ws.len() && #[trigger] p(i),
    ensures
        exists|i: int|
            0 <= i < ws.len() && #[trigger] p(i) && (forall|j: int|
                0 <= j < ws.len() && #[trigger] p(j) ==> !ws[j].dominates(ws[i])),
{
    lemma_count_matching_le(ws, p, p, ws.len() as int);
    lemma_exists_subset_minimal_bounded(ws, p, count_matching(ws, p, ws.len() as int));
}

/// How many of the first `k` indices satisfy the predicate.
spec fn count_matching(ws: Seq<CandView>, p: spec_fn(int) -> bool, k: int) -> int
    decreases k,
{
    if k <= 0 {
        0
    } else {
        count_matching(ws, p, k - 1) + if p(k - 1) {
            1int
        } else {
            0int
        }
    }
}

/// Counts of matching indices never go negative and shrink under a
/// stricter predicate that excludes a matching index.
proof fn lemma_count_matching_le(ws: Seq<CandView>, p: spec_fn(int) -> bool, q: spec_fn(int) -> bool, k: int)
    requires
        forall|j: int| #[trigger] q(j) ==> p(j),
    ensures
        0 <= count_matching(ws, q, k) <= count_matching(ws, p, k),
    decreases k,
{
    if k > 0 {
        lemma_count_matching_le(ws, p, q, k - 1);
    }
}

/// A matching index below `k` makes the count positive.
proof fn lemma_count_matching_pos(ws: Seq<CandView>, p: spec_fn(int) -> bool, k: int, i: int)
    requires
        0 <= i < k,
        p(i),
    ensures
        count_matching(ws, p, k) >= 1,
    decreases k,
{
    lemma_count_matching_le(ws, p, p, k - 1);
    if i < k - 1 {
        lemma_count_matching_pos(ws, p, k - 1, i);
    }
}

/// The bounded workhorse of [`lemma_exists_subset_minimal`], descending on
/// the subset's size.
proof fn lemma_exists_subset_minimal_bounded(
    ws: Seq<CandView>,
    p: spec_fn(int) -> bool,
    bound: int,
)
    requires
        exists|i: int| 0 <= i < ws.len() && #[trigger] p(i),
        count_matching(ws, p, ws.len() as int) <= bound,
    ensures
        exists|i: int|
            0 <= i < ws.len() && #[trigger] p(i) && (forall|j: int|
                0 <= j < ws.len() && #[trigger] p(j) ==> !ws[j].dominates(ws[i])),
    decreases bound,
{
    let i0 = choose|i: int| 0 <= i < ws.len() && #[trigger] p(i);
    if forall|j: int| 0 <= j < ws.len() && #[trigger] p(j) ==> !ws[j].dominates(ws[i0]) {
    } else {
        let q = |j: int| p(j) && ws[j].dominates(ws[i0]);
        assert(exists|j: int| 0 <= j < ws.len() && #[trigger] q(j)) by {
            let jw = choose|j: int|
                0 <= j < ws.len() && #[trigger] p(j) && ws[j].dominates(ws[i0]);
            assert(q(jw));
        }
        // the dominator subset is strictly smaller: it excludes `i0`
        assert(count_matching(ws, q, ws.len() as int) < count_matching(ws, p, ws.len() as int))
            by {
            crate::individual::lemma_dominates_strict(ws[i0], ws[i0], ws[i0]);
            assert(!q(i0));
            lemma_count_matching_splits(ws, p, q, i0, ws.len() as int);
        }
        lemma_count_matching_pos(ws, p, ws.len() as int, i0);
        lemma_exists_subset_minimal_bounded(ws, q, bound - 1);
        let m = choose|i: int|
            0 <= i < ws.len() && #[trigger] q(i) && (forall|j: int|
                0 <= j < ws.len() && #[trigger] q(j) ==> !ws[j].dominates(ws[i]));
        assert forall|j: int| 0 <= j < ws.len() && #[trigger] p(j) implies !ws[j].dominates(
            ws[m],
        ) by {
            if ws[j].dominates(ws[m]) {
                crate::individual::lemma_dominates_strict(ws[j], ws[m], ws[i0]);
                assert(q(j));
            }
        }
        assert(p(m));
    }
}

/// A sub-predicate that misses one matching index counts strictly fewer
/// matches.
proof fn lemma_count_matching_splits(
    ws: Seq<CandView>,
    p: spec_fn(int) -> bool,
    q: spec_fn(int) -> bool,
    excluded: int,
    k: int,
)
    requires
        forall|j: int| #[trigger] q(j) ==> p(j),
        0 <= excluded < k,
        p(excluded),
        !q(excluded),
    ensures
        count_matching(ws, q, k) < count_matching(ws, p, k),
    decreases k,
{
    lemma_count_matching_le(ws, p, q, k - 1);
    if excluded < k - 1 {
        lemma_count_matching_splits(ws, p, q, excluded, k - 1);
    }
}

/// Every dominated candidate has an undominated dominator.
proof fn lemma_exists_minimal_dominator(ws: Seq<CandView>, i: int)
    requires
        0 <= i < ws.len(),
        is_dominated(ws, i),
    ensures
        exists|d: int|
            0 <= d < ws.len() && !(#[trigger] is_dominated(ws, d)) && ws[d].dominates(ws[i]),
{
    let p = |j: int| ws[j].dominates(ws[i]);
    assert(exists|j: int| 0 <= j < ws.len() && #[trigger] p(j)) by {
        let jw = choose|j: int| 0 <= j < ws.len() && #[trigger] ws[j].dominates(ws[i]);
        assert(p(jw));
    }
    lemma_exists_subset_minimal(ws, p);
    let m = choose|j: int|
        0 <= j < ws.len() && #[trigger] p(j) && (forall|k: int|
            0 <= k < ws.len() && #[trigger] p(k) ==> !ws[k].dominates(ws[j]));
    assert(!is_dominated(ws, m)) by {
        if is_dominated(ws, m) {
            let x = choose|x: int| 0 <= x < ws.len() && #[trigger] ws[x].dominates(ws[m]);
            crate::individual::lemma_dominates_strict(ws[x], ws[m], ws[i]);
            assert(p(x));
        }
    }
}

/// Copy a population; the copies carry the same views.
pub fn clone_population(population: &Population) -> (r: Population)
    ensures
        r@.len() == population@.len(),
        forall|i: int| 0 <= i < r@.len() ==> #[trigger] r@[i]@ == population@[i]@,
        cand_views(r@) == cand_views(population@),
{
    let mut out: Population = Vec::new();
    let mut k: usize = 0;
    while k < population.len()
        invariant
            k <= population@.len(),
            out@.len() == k,
            forall|m: int| 0 <= m < k ==> #[trigger] out@[m]@ == population@[m]@,
        decreases population@.len() - k,
    {
        out.push(population[k].clone());
        k += 1;
    }
    proof {
        assert(cand_views(out@) =~= cand_views(population@));
    }
    out
}

/// Split a population into Pareto fronts.
///
/// The fronts partition the input: together they hold exactly the input
/// candidates (as a multiset of views), each front is nonempty, and front
/// 0 contains no pair in a dominance relation.
pub fn non_dominated_sort(population: &Population) -> (r: Vec<Vec<Individual>>)
    requires
        forall|i: int| 0 <= i < population@.len() ==> (#[trigger] population@[i]@).evaluated,
    ensures
        fronts_views(r@).to_multiset() == cand_views(population@).to_multiset(),
        forall|f: int| 0 <= f < r@.len() ==> #[trigger] r@[f]@.len() >= 1,
        r@.len() > 0 <==> population@.len() > 0,
        forall|f: int, a: int|
            0 <= f < r@.len() && 0 <= a < r@[f]@.len() ==> (#[trigger] r@[f]@[a]@).evaluated,
        forall|f: int, f2: int, a: int, b: int|
            0 <= f <= f2 < r@.len() && 0 <= a < r@[f]@.len() && 0 <= b < r@[f2]@.len()
                ==> !(#[trigger] r@[f2]@[b]@).dominates(#[trigger] r@[f]@[a]@),
        population@.len() > 0 ==> forall|m: int|
            0 <= m < population@.len() && !(#[trigger] is_dominated(cand_views(population@), m))
                ==> cand_views(r@[0]@).contains(cand_views(population@)[m]),
        forall|f: int, a: int|
            1 <= f < r@.len() && 0 <= a < r@[f]@.len() ==> dominated_from(
                r@[f - 1]@,
                #[trigger] r@[f]@[a]@,
            ),
{
    let mut working: Population = clone_population(population);
    let mut fronts: Vec<Vec<Individual>> = Vec::new();
    while working.len() > 0
        invariant
            forall|i: int| 0 <= i < working@.len() ==> (#[trigger] working@[i]@).evaluated,
            fronts_views(fronts@).to_multiset().add(cand_views(working@).to_multiset())
                == cand_views(population@).to_multiset(),
            forall|f: int| 0 <= f < fronts@.len() ==> #[trigger] fronts@[f]@.len() >= 1,
            forall|f: int, a: int|
                0 <= f < fronts@.len() && 0 <= a < fronts@[f]@.len() ==> (#[trigger] fronts@[f]@[a]@).evaluated,
            forall|f: int, f2: int, a: int, b: int|
                0 <= f <= f2 < fronts@.len() && 0 <= a < fronts@[f]@.len() && 0 <= b
                    < fronts@[f2]@.len() ==> !(#[trigger] fronts@[f2]@[b]@).dominates(
                    #[trigger] fronts@[f]@[a]@,
                ),
            forall|f: int, a: int, m: int|
                0 <= f < fronts@.len() && 0 <= a < fronts@[f]@.len() && 0 <= m < working@.len()
                    ==> !(#[trigger] working@[m]@).dominates(#[trigger] fronts@[f]@[a]@),
            fronts@.len() == 0 ==> cand_views(working@) == cand_views(population@),
            fronts@.len() > 0 ==> forall|m: int|
                0 <= m < population@.len() && !(#[trigger] is_dominated(
                    cand_views(population@),
                    m,
                )) ==> cand_views(fronts@[0]@).contains(cand_views(population@)[m]),
            forall|f: int, a: int|
                1 <= f < fronts@.len() && 0 <= a < fronts@[f]@.len() ==> dominated_from(
                    fronts@[f - 1]@,
                    #[trigger] fronts@[f]@[a]@,
                ),
            fronts@.len() > 0 ==> forall|m: int|
                0 <= m < working@.len() ==> dominated_from(
                    fronts@[fronts@.len() - 1]@,
                    #[trigger] working@[m]@,
                ),
        decreases working@.len(),
    {
        let ghost ws = cand_views(working@);
        let n = working.len();
        // Mark every candidate that some other member dominates.
        let mut dominated: Vec<bool> = Vec::new();
        let mut i: usize = 0;
        while i < n
            invariant
                n == working@.len(),
                forall|m: int| 0 <= m < working@.len() ==> (#[trigger] working@[m]@).evaluated,
                ws == cand_views(working@),
                i <= n,
                dominated@.len() == i,
                forall|m: int| 0 <= m < i ==> #[trigger] dominated@[m] == is_dominated(ws, m),
            decreases n - i,
        {
            let mut dom: bool = false;
            let mut j: usize = 0;
            while j < n
                invariant
                    n == working@.len(),
                    forall|m: int| 0 <= m < working@.len() ==> (#[trigger] working@[m]@).evaluated,
                    ws == cand_views(working@),
                    i < n,
                    j <= n,
                    dom == exists|m: int| 0 <= m < j && #[trigger] ws[m].dominates(ws[i as int]),
                decreases n - j,
            {
                if working[j].dominates(&working[i]) {
                    proof {
                        assert(ws[j as int].dominates(ws[i as int]));
                    }
                    dom = true;
                }
                j += 1;
            }
            proof {
                assert(dom == is_dominated(ws, i as int));
            }
            dominated.push(dom);
            i += 1;
        }
        // Split into the current front and the remainder.
        let mut current_front: Vec<Individual> = Vec::new();
        let mut new_working: Vec<Individual> = Vec::new();
        let mut k: usize = 0;
        while k < n
            invariant
                n == working@.len(),
                forall|m: int| 0 <= m < working@.len() ==> (#[trigger] working@[m]@).evaluated,
                ws == cand_views(working@),
                dominated@.len() == n,
                forall|m: int| 0 <= m < n ==> #[trigger] dominated@[m] == is_dominated(ws, m),
                k <= n,
                cand_views(current_front@).to_multiset().add(
                    cand_views(new_working@).to_multiset(),
                ) == cand_views(working@.take(k as int)).to_multiset(),
                forall|a: int|
                    0 <= a < current_front@.len() ==> #[trigger] undominated_member(
                        ws,
                        current_front@[a]@,
                    ),
                forall|m: int|
                    0 <= m < k && !(#[trigger] dominated@[m]) ==> current_front@.len() >= 1,
                forall|m: int|
                    0 <= m < k && !(#[trigger] is_dominated(ws, m)) ==> cand_views(
                        current_front@,
                    ).contains(ws[m]),
                forall|a: int|
                    0 <= a < new_working@.len() ==> dominated_view_of(
                        ws,
                        #[trigger] new_working@[a]@,
                    ),
                forall|a: int|
                    0 <= a < current_front@.len() ==> (#[trigger] current_front@[a]@).evaluated,
                forall|a: int|
                    0 <= a < new_working@.len() ==> (#[trigger] new_working@[a]@).evaluated,
                new_working@.len() <= k,
                k == current_front@.len() + new_working@.len(),
            decreases n - k,
        {
            let ghost old_cf = cand_views(current_front@);
            let ghost old_nw = cand_views(new_working@);
            let item = working[k].clone();
            proof {
                assert(item@ == ws[k as int]);
                assert(cand_views(working@.take(k + 1)) =~= cand_views(
                    working@.take(k as int),
                ).push(ws[k as int]));
            }
            let ghost old_cf_len = current_front@.len();
            if !dominated[k] {
                current_front.push(item);
                proof {
                    assert(cand_views(current_front@) =~= old_cf.push(ws[k as int]));
                    assert forall|a: int| 0 <= a < current_front@.len() implies #[trigger]
                    undominated_member(ws, current_front@[a]@) by {
                        if a < old_cf_len {
                            assert(undominated_member(ws, current_front@[a]@));
                        } else {
                            assert(current_front@[a]@ == ws[k as int]);
                            assert(!is_dominated(ws, k as int));
                            assert(undominated_member(ws, current_front@[a]@));
                        }
                    }
                    assert forall|m: int|
                        0 <= m < k + 1 && !(#[trigger] is_dominated(ws, m)) implies cand_views(
                        current_front@,
                    ).contains(ws[m]) by {
                        if m < k as int {
                            let b = choose|b: int|
                                0 <= b < old_cf.len() && old_cf[b] == ws[m];
                            assert(cand_views(current_front@)[b] == ws[m]);
                        } else {
                            assert(cand_views(current_front@)[old_cf_len as int]
                                == ws[k as int]);
                        }
                    }
                }
            } else {
                new_working.push(item);
                proof {
                    assert(cand_views(new_working@) =~= old_nw.push(ws[k as int]));
                    assert forall|m: int|
                        0 <= m < k + 1 && !(#[trigger] is_dominated(ws, m)) implies cand_views(
                        current_front@,
                    ).contains(ws[m]) by {
                        if m < k as int {
                        } else {
                            assert(dominated@[k as int]);
                        }
                    }
                    assert(new_working@[new_working@.len() - 1]@ == ws[k as int]);
                    assert(is_dominated(ws, k as int));
                    assert(dominated_view_of(ws, new_working@[new_working@.len() - 1]@));
                }
            }
            k += 1;
        }
        proof {
            assert(working@.take(n as int) =~= working@);
            // The current front is nonempty: some member is undominated.
            lemma_exists_nondominated(ws);
            let wit = choose|m: int| 0 <= m < ws.len() && !(#[trigger] is_dominated(ws, m));
            assert(dominated@[wit] == is_dominated(ws, wit));
            assert(current_front@.len() >= 1);
            // Every remaining candidate has an undominated dominator, and
            // the current front holds every undominated candidate, so the
            // remainder is dominated from this front.
            assert forall|m: int| 0 <= m < new_working@.len() implies dominated_from(
                current_front@,
                #[trigger] new_working@[m]@,
            ) by {
                assert(dominated_view_of(ws, new_working@[m]@));
                let mi = choose|mm: int|
                    0 <= mm < ws.len() && new_working@[m]@ == ws[mm] && #[trigger] is_dominated(
                        ws,
                        mm,
                    );
                lemma_exists_minimal_dominator(ws, mi);
                let di = choose|d: int|
                    0 <= d < ws.len() && !(#[trigger] is_dominated(ws, d)) && ws[d].dominates(
                        ws[mi],
                    );
                assert(cand_views(current_front@).contains(ws[di]));
                let b = choose|b: int|
                    0 <= b < cand_views(current_front@).len() && cand_views(current_front@)[b]
                        == ws[di];
                assert(current_front@[b]@ == ws[di]);
                assert(dominated_from(current_front@, new_working@[m]@));
            }
        }
        let ghost old_fronts = fronts@;
        fronts.push(current_front);
        proof {
            assert forall|f: int, a: int|
                1 <= f < fronts@.len() && 0 <= a < fronts@[f]@.len() implies dominated_from(
                fronts@[f - 1]@,
                #[trigger] fronts@[f]@[a]@,
            ) by {
                if f < old_fronts.len() {
                    assert(fronts@[f]@[a]@ == old_fronts[f]@[a]@);
                    assert(dominated_from(old_fronts[f - 1]@, old_fronts[f]@[a]@));
                } else {
                    // the freshly pushed front: its members are views of
                    // the working set, which the previous front dominates
                    assert(fronts@[f]@ == current_front@);
                    assert(undominated_member(ws, current_front@[a]@));
                    let m = choose|m: int|
                        0 <= m < ws.len() && !(#[trigger] is_dominated(ws, m))
                            && current_front@[a]@ == ws[m];
                    assert(ws[m] == working@[m]@);
                    assert(dominated_from(old_fronts[old_fronts.len() - 1]@, working@[m]@));
                }
            }
            assert(fronts@.drop_last() =~= old_fronts);
            assert(fronts_views(fronts@) == fronts_views(old_fronts) + cand_views(
                fronts@.last()@,
            ));
            vstd::seq_lib::lemma_multiset_commutative(
                fronts_views(old_fronts),
                cand_views(fronts@.last()@),
            );
            assert(fronts_views(fronts@).to_multiset() =~= fronts_views(old_fronts).to_multiset()
                .add(cand_views(fronts@.last()@).to_multiset()));
            // No front member is dominated by a same-or-later front
            // member: the new front's members are undominated in the
            // working set, and older fronts were never dominated by it.
            assert forall|f: int, f2: int, a: int, b: int|
                0 <= f <= f2 < fronts@.len() && 0 <= a < fronts@[f]@.len() && 0 <= b
                    < fronts@[f2]@.len() implies !(#[trigger] fronts@[f2]@[b]@).dominates(
                #[trigger] fronts@[f]@[a]@,
            ) by {
                if f2 < old_fronts.len() {
                    assert(fronts@[f]@[a]@ == old_fronts[f]@[a]@);
                    assert(fronts@[f2]@[b]@ == old_fronts[f2]@[b]@);
                } else {
                    assert(fronts@[f2]@ == current_front@);
                    assert(undominated_member(ws, current_front@[b]@));
                    let mb = choose|m: int|
                        0 <= m < ws.len() && !(#[trigger] is_dominated(ws, m))
                            && current_front@[b]@ == ws[m];
                    assert(ws[mb] == working@[mb]@);
                    if f < f2 {
                        // the new front's members come from the working
                        // set, which never dominated an older front
                        assert(fronts@[f]@[a]@ == old_fronts[f]@[a]@);
                        assert(!working@[mb]@.dominates(old_fronts[f]@[a]@));
                    } else {
                        // within the new front: both undominated in `ws`
                        assert(undominated_member(ws, current_front@[a]@));
                        let ma = choose|m: int|
                            0 <= m < ws.len() && !(#[trigger] is_dominated(ws, m))
                                && current_front@[a]@ == ws[m];
                        if current_front@[b]@.dominates(current_front@[a]@) {
                            assert(ws[mb].dominates(ws[ma]));
                            assert(is_dominated(ws, ma));
                        }
                    }
                }
            }
            // The remainder never dominates any front member.
            assert forall|f: int, a: int, m: int|
                0 <= f < fronts@.len() && 0 <= a < fronts@[f]@.len() && 0 <= m
                    < new_working@.len() implies !(#[trigger] new_working@[m]@).dominates(
                #[trigger] fronts@[f]@[a]@,
            ) by {
                assert(dominated_view_of(ws, new_working@[m]@));
                let mm = choose|mw: int|
                    0 <= mw < ws.len() && new_working@[m]@ == ws[mw] && #[trigger] is_dominated(
                        ws,
                        mw,
                    );
                assert(ws[mm] == working@[mm]@);
                if f < old_fronts.len() {
                    assert(fronts@[f]@[a]@ == old_fronts[f]@[a]@);
                    assert(!working@[mm]@.dominates(old_fronts[f]@[a]@));
                } else {
                    assert(fronts@[f]@ == current_front@);
                    assert(undominated_member(ws, current_front@[a]@));
                    let ma = choose|mv: int|
                        0 <= mv < ws.len() && !(#[trigger] is_dominated(ws, mv))
                            && current_front@[a]@ == ws[mv];
                    if new_working@[m]@.dominates(current_front@[a]@) {
                        assert(ws[mm].dominates(ws[ma]));
                        assert(is_dominated(ws, ma));
                    }
                }
            }
        }
        working = new_working;
    }
    proof {
        assert(cand_views(working@).to_multiset() =~= Multiset::empty());
        assert(fronts_views(fronts@).to_multiset().add(Multiset::empty()) =~= fronts_views(
            fronts@,
        ).to_multiset());
        assert(cand_views(population@).to_multiset().len() == cand_views(population@).len());
        assert(cand_views(population@).len() == population@.len());
        if fronts@.len() > 0 {
            let last = fronts@.last();
            assert(fronts@[fronts@.len() - 1]@.len() >= 1);
            assert(fronts_views(fronts@) == fronts_views(fronts@.drop_last()) + cand_views(
                last@,
            ));
            assert(fronts_views(fronts@).len() >= 1);
            assert(fronts_views(fronts@).to_multiset().len() == fronts_views(fronts@).len());
            assert(population@.len() > 0);
        }
        if population@.len() > 0 && fronts@.len() == 0 {
            assert(fronts_views(fronts@).len() == 0);
            assert(fronts_views(fronts@).to_multiset().len() == 0);
            assert(false);
        }
    }
    fronts
}

/// Build the initial population: `population_size` candidates, random or
/// MST-seeded by configuration, each evaluated right after construction:
/// every candidate's stored scores are the evaluator's result for its own
/// genome.
pub fn initialize_population(config: &Config, global_data: &GlobalData) -> (r: Population)
    requires
        global_data.wf(),
        config_valid(config),
    ensures
        r@.len() == config.population_size,
        forall|i: int| 0 <= i < r@.len() ==> (#[trigger] r@[i]@).evaluated,
        forall|i: int| 0 <= i < r@.len() ==> (#[trigger] r@[i]@).genome.len() == global_data.area(),
        forall|i: int| 0 <= i < r@.len() ==> scored_for(#[trigger] r@[i]@, global_data, config),
{
    let mut population: Population = Vec::new();
    let use_mst: bool = {
        let owned: String = "mst".to_owned();
        config.initialization_method == owned
    };
    let mut k: usize = 0;
    while k < config.population_size
        invariant
            global_data.wf(),
            k <= config.population_size,
            population@.len() == k,
            forall|i: int| 0 <= i < k ==> (#[trigger] population@[i]@).evaluated,
            forall|i: int|
                0 <= i < k ==> (#[trigger] population@[i]@).genome.len() == global_data.area(),
            forall|i: int|
                0 <= i < k ==> scored_for(#[trigger] population@[i]@, global_data, config),
        decreases config.population_size - k,
    {
        let mut individual = if use_mst {
            let genome: Genome = get_mst_genome(global_data);
            Individual::new_with_genome(&genome)
        } else {
            Individual::new_random(global_data)
        };
        individual.update_objectives(config, global_data);
        population.push(individual);
        k += 1;
    }
    population
}

} // verus!
