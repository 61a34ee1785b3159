//! Parent and survivor selection strategies, and the probabilistic crowding
//! replacement rule that decides whether an offspring supplants the parent
//! it most resembles.

use vstd::prelude::*;
use rand_chacha::ChaCha8Rng;
use crate::individual::Route;
use crate::helper::lemma_move_ms;
use crate::rng::{rng_below, rng_below_u64};
use crate::{FITNESS_LIMIT, MAX_POP};

verus! {

/// A coin that comes up true with probability `num / den`, implemented as a
/// uniform draw below `den`.
pub fn coin_ratio_u64(rng: &mut ChaCha8Rng, num: u64, den: u64) -> (r: bool)
    requires
        den >= 1,
    ensures
        num == 0 ==> !r,
        num >= den ==> r,
{
    let x = rng_below_u64(rng, den);
    x < num
}

/// Probabilistic crowding between an incumbent `b1` and a challenger `b2`:
/// the replacement probability follows the crowding formula with selection
/// pressure `phi = phi_num / phi_den`, falling back to a fair coin on a
/// fitness tie.  Returns 0 when the challenger `b2` survives the draw and 1
/// when the incumbent `b1` does; with `phi = 0` the lower-fitness individual
/// always wins.  The caps on the rational's parts only keep the weighted
/// draw inside `u64`.
pub fn general_crowding(
    b1: &Route,
    b2: &Route,
    phi_num: u64,
    phi_den: u64,
    rng: &mut ChaCha8Rng,
) -> (r: usize)
    requires
        1 <= phi_den <= 1000,
        phi_num <= 1000,
        b1.fitness < FITNESS_LIMIT,
        b2.fitness < FITNESS_LIMIT,
    ensures
        r == 0 || r == 1,
        phi_num == 0 && b1.fitness > b2.fitness ==> r == 0,
        phi_num == 0 && b1.fitness < b2.fitness ==> r == 1,
{
    let f1 = b1.fitness;
    let f2 = b2.fitness;
    proof {
        assert(f1 * phi_den <= 0x2_0000_0000_0000int * 1000 && f1 * phi_num <= 0x2_0000_0000_0000int
            * 1000 && f2 * phi_den <= 0x2_0000_0000_0000int * 1000 && f2 * phi_num
            <= 0x2_0000_0000_0000int * 1000 && f1 * phi_den >= 0 && f2 * phi_den >= 0 && f1
            * phi_num >= 0 && f2 * phi_num >= 0) by (nonlinear_arith)
            requires
                0 <= f1 < 0x2_0000_0000_0000,
                0 <= f2 < 0x2_0000_0000_0000,
                0 <= phi_num <= 1000,
                1 <= phi_den <= 1000,
        ;
        assert(f1 > f2 ==> f1 * phi_den >= 1) by (nonlinear_arith)
            requires
                0 <= f2 < f1 || true,
                1 <= phi_den,
                0 <= f1,
                0 <= f2,
        ;
        assert(f1 < f2 ==> f2 * phi_den >= 1) by (nonlinear_arith)
            requires
                1 <= phi_den,
                0 <= f1,
                0 <= f2,
        ;
    }
    if f1 > f2 {
        let num = f1 * phi_den;
        let den = f1 * phi_den + phi_num * f2;
        if coin_ratio_u64(rng, num, den) {
            0
        } else {
            1
        }
    } else if f1 < f2 {
        let num = phi_num * f1;
        let den = phi_num * f1 + f2 * phi_den;
        if coin_ratio_u64(rng, num, den) {
            0
        } else {
            1
        }
    } else {
        if coin_ratio_u64(rng, 1, 2) {
            0
        } else {
            1
        }
    }
}

/// The feasibility predicate, as a named function value so every filter
/// call speaks of the same term.
pub open spec fn feas_pred() -> spec_fn(Route) -> bool {
    |r: Route| r.feasible
}

pub open spec fn infeas_pred() -> spec_fn(Route) -> bool {
    |r: Route| !r.feasible
}

/// Run the crowding draw and hand back the survivor: the challenger itself,
/// or a copy of the incumbent.  With zero selection pressure the contract
/// pins the outcome: the lower-fitness individual survives.
pub fn crowding_survivor(
    incumbent: &Route,
    challenger: Route,
    phi_num: u64,
    phi_den: u64,
    rng: &mut ChaCha8Rng,
) -> (r: Route)
    requires
        1 <= phi_den <= 1000,
        phi_num <= 1000,
        incumbent.fitness < FITNESS_LIMIT,
        challenger.fitness < FITNESS_LIMIT,
    ensures
        r == challenger || r.fitness == incumbent.fitness && r.feasible == incumbent.feasible
            && r.chromosome@ == incumbent.chromosome@,
        phi_num == 0 && challenger.fitness < incumbent.fitness ==> r == challenger,
        phi_num == 0 && incumbent.fitness < challenger.fitness ==> r.fitness == incumbent.fitness
            && r.feasible == incumbent.feasible && r.chromosome@ == incumbent.chromosome@,
{
    let m = general_crowding(incumbent, &challenger, phi_num, phi_den, rng);
    if m == 0 {
        challenger
    } else {
        duplicate_route(incumbent)
    }
}

/// Ascending fitness order.
pub open spec fn sorted_by_fitness(s: Seq<Route>) -> bool {
    forall|i: int, j: int| 0 <= i < j < s.len() ==> s[i].fitness <= s[j].fitness
}

/// Sort a population ascending by fitness (insertion sort); the multiset of
/// individuals is unchanged.
pub fn sort_by_fitness(population: &mut Vec<Route>)
    ensures
        final(population)@.len() == old(population)@.len(),
        sorted_by_fitness(final(population)@),
        final(population)@.to_multiset() == old(population)@.to_multiset(),
        forall|x: Route| final(population)@.contains(x) ==> old(population)@.contains(x),
{
    broadcast use vstd::seq_lib::group_to_multiset_ensures;

    let ghost orig = population@;
    let n = population.len();
    if n == 0 {
        return ;
    }
    let mut i: usize = 1;
    while i < n
        invariant
            n == population@.len(),
            1 <= i <= n,
            population@.to_multiset() == orig.to_multiset(),
            sorted_by_fitness(population@.take(i as int)),
        decreases n - i,
    {
        // find the insertion point for element i within the sorted prefix
        let mut pos: usize = 0;
        while pos < i && population[pos].fitness <= population[i].fitness
            invariant
                pos <= i < n,
                n == population@.len(),
                forall|k: int| 0 <= k < pos ==> population@[k].fitness <= population@[i as int].fitness,
            decreases i - pos,
        {
            pos = pos + 1;
        }
        let ghost before = population@;
        let x = population.remove(i);
        population.insert(pos, x);
        proof {
            lemma_move_ms(before, i as int, pos as int);
            assert(population@ == before.remove(i as int).insert(pos as int, before[i as int]));
            assert(sorted_by_fitness(population@.take(i + 1))) by {
                let cur = population@;
                assert forall|a: int, b: int| 0 <= a < b < i + 1 implies cur[a].fitness
                    <= cur[b].fitness by {
                    assert(forall|a2: int, b2: int|
                        0 <= a2 < b2 < i ==> (#[trigger] before[a2]).fitness <= (
                        #[trigger] before[b2]).fitness) by {
                        assert forall|a2: int, b2: int|
                            0 <= a2 < b2 < i implies (#[trigger] before[a2]).fitness <= (
                        #[trigger] before[b2]).fitness by {
                            assert(before.take(i as int)[a2] == before[a2]);
                            assert(before.take(i as int)[b2] == before[b2]);
                        }
                    }
                    if pos < i {
                        assert(before[pos as int].fitness > before[i as int].fitness);
                    }
                    if a < pos && b < pos {
                        assert(cur[a] == before[a]);
                        assert(cur[b] == before[b]);
                    } else if a < pos && b == pos {
                        assert(cur[a] == before[a]);
                        assert(cur[b] == before[i as int]);
                    } else if a < pos && b > pos {
                        assert(cur[a] == before[a]);
                        assert(cur[b] == before[b - 1]);
                    } else if a == pos {
                        assert(cur[a] == before[i as int]);
                        if b > pos {
                            assert(cur[b] == before[b - 1]);
                            assert(pos <= b - 1 < i);
                            assert(before[pos as int].fitness <= before[b - 1].fitness);
                        }
                    } else {
                        assert(cur[a] == before[a - 1]);
                        assert(cur[b] == before[b - 1]);
                        assert(pos <= a - 1 < b - 1 < i);
                    }
                }
            }
        }
        i = i + 1;
    }
    proof {
        if n == 0 {
            assert(sorted_by_fitness(population@));
        } else {
            assert(population@.take(n as int) =~= population@);
        }
        assert forall|x: Route| population@.contains(x) implies orig.contains(x) by {
            assert(population@.to_multiset().count(x) > 0);
            assert(orig.to_multiset().count(x) > 0);
        }
    }
}

/// Elitism: keep the `pop_size` lowest-fitness individuals.
pub struct ElitismSurvivorSelection;

impl ElitismSurvivorSelection {
    pub fn new() -> (r: Self) {
        Self
    }

    pub fn select(&self, rng: &mut ChaCha8Rng, population: &mut Vec<Route>, pop_size: usize)
        requires
            pop_size <= old(population)@.len(),
        ensures
            final(population)@.len() == pop_size,
            sorted_by_fitness(final(population)@),
            forall|x: Route| final(population)@.contains(x) ==> old(population)@.contains(x),
            exists|all: Seq<Route>|
                #![auto]
                all.to_multiset() == old(population)@.to_multiset() && sorted_by_fitness(all)
                    && final(population)@ == all.take(pop_size as int),
    {
        sort_by_fitness(population);
        let ghost all = population@;
        population.truncate(pop_size);
        proof {
            assert(population@ == all.take(pop_size as int));
            assert forall|x: Route| population@.contains(x) implies old(population)@.contains(
                x,
            ) by {
                let i = choose|i: int| 0 <= i < population@.len() && population@[i] == x;
                assert(all[i] == x);
                assert(all.contains(x));
            }
        }
    }
}

/// Elitism that ranks the feasible survivors ahead of the infeasible ones:
/// keep the `pop_size` best, then list the feasible ones first (each group
/// staying in fitness order).
pub struct ElitismSurvivorSelectionKeepFeasible;

impl ElitismSurvivorSelectionKeepFeasible {
    pub fn new() -> (r: Self) {
        Self
    }

    pub fn select(&self, rng: &mut ChaCha8Rng, population: &mut Vec<Route>, pop_size: usize)
        requires
            pop_size <= old(population)@.len(),
        ensures
            final(population)@.len() == pop_size,
            forall|x: Route| final(population)@.contains(x) ==> old(population)@.contains(x),
            exists|all: Seq<Route>|
                #![auto]
                all.to_multiset() == old(population)@.to_multiset() && sorted_by_fitness(all)
                    && final(population)@ == all.take(pop_size as int).filter(
                    feas_pred(),
                ) + all.take(pop_size as int).filter(infeas_pred()),
    {
        sort_by_fitness(population);
        let ghost all = population@;
        population.truncate(pop_size);
        proof {
            assert(population@ == all.take(pop_size as int));
        }
        let ghost top = all.take(pop_size as int);
        let n = population.len();
        let mut feas: Vec<Route> = Vec::new();
        let mut infeas: Vec<Route> = Vec::new();
        let mut i: usize = 0;
        while i < n
            invariant
                n == top.len(),
                population@ == top.skip(i as int),
                i <= n,
                feas@ == top.take(i as int).filter(feas_pred()),
                infeas@ == top.take(i as int).filter(infeas_pred()),
            decreases n - i,
        {
            let x = population.remove(0);
            proof {
                assert(x == top[i as int]);
                assert(population@ =~= top.skip(i + 1));
            }
            if x.feasible {
                feas.push(x);
            } else {
                infeas.push(x);
            }
            proof {
                reveal(Seq::filter);
                assert(top.take(i + 1).drop_last() =~= top.take(i as int));
                assert(top.take(i + 1).last() == top[i as int]);
                assert(top.take(i + 1).filter(feas_pred()) == if top[i as int].feasible {
                    top.take(i as int).filter(feas_pred()).push(top[i as int])
                } else {
                    top.take(i as int).filter(feas_pred())
                });
                assert(top.take(i + 1).filter(infeas_pred()) == if !top[i as int].feasible {
                    top.take(i as int).filter(infeas_pred()).push(top[i as int])
                } else {
                    top.take(i as int).filter(infeas_pred())
                });
            }
            i = i + 1;
        }
        proof {
            assert(top.take(n as int) =~= top);
        }
        let mut result = feas;
        let mut rest = infeas;
        result.append(&mut rest);
        *population = result;
        proof {
            lemma_filter_partition_len(top);
            assert(population@.len() == pop_size);
            assert forall|x: Route| population@.contains(x) implies old(population)@.contains(
                x,
            ) by {
                let i = choose|i: int| 0 <= i < population@.len() && population@[i] == x;
                let f = top.filter(feas_pred());
                let g = top.filter(infeas_pred());
                if i < f.len() {
                    assert(f.contains(x));
                    lemma_filter_elem_of(top, feas_pred(), x);
                } else {
                    assert(g[i - f.len()] == x);
                    assert(g.contains(x));
                    lemma_filter_elem_of(top, infeas_pred(), x);
                }
                assert(top.contains(x));
                let j = choose|j: int| 0 <= j < top.len() && top[j] == x;
                assert(all[j] == x);
                assert(all.contains(x));
            }
        }
    }
}

/// A fresh copy of an individual: same genes, fitness and flag.
pub fn duplicate_route(r: &Route) -> (d: Route)
    ensures
        d.fitness == r.fitness,
        d.feasible == r.feasible,
        d.chromosome@ == r.chromosome@,
{
    Route {
        fitness: r.fitness,
        chromosome: crate::chromosome::Chromosome {
            genes: crate::chromosome::copy_genes(&r.chromosome.genes),
        },
        feasible: r.feasible,
    }
}

/// Splitting a sequence by a predicate keeps every element.
proof fn lemma_filter_partition_len(s: Seq<Route>)
    ensures
        s.filter(feas_pred()).len() + s.filter(infeas_pred()).len() == s.len(),
    decreases s.len(),
{
    reveal(Seq::filter);
    if s.len() > 0 {
        lemma_filter_partition_len(s.drop_last());
    }
}

/// An element of a filtered sequence is an element of the base sequence.
proof fn lemma_filter_elem_of(s: Seq<Route>, pred: spec_fn(Route) -> bool, x: Route)
    requires
        s.filter(pred).contains(x),
    ensures
        s.contains(x),
    decreases s.len(),
{
    reveal(Seq::filter);
    if s.len() > 0 {
        let f = s.filter(pred);
        if pred(s.last()) && x == s.last() {
            assert(s[s.len() - 1] == x);
        } else {
            let d = s.drop_last();
            assert(d.filter(pred).contains(x)) by {
                let i = choose|i: int| 0 <= i < f.len() && f[i] == x;
                if pred(s.last()) {
                    assert(f == d.filter(pred).push(s.last()));
                    assert(i < f.len() - 1);
                    assert(d.filter(pred)[i] == x);
                } else {
                    assert(f == d.filter(pred));
                }
            }
            lemma_filter_elem_of(d, pred, x);
            let j = choose|j: int| 0 <= j < d.len() && d[j] == x;
            assert(s[j] == x);
        }
    }
}

/// Placeholder slot for a crowding-based survivor selection that never
/// received an implementation.
pub struct CrowdingSurvivorSelection;

impl CrowdingSurvivorSelection {
    pub fn new() -> (r: Self) {
        Self
    }
}

/// A sample of `k` pairwise distinct positions below `n`.
pub fn sample_distinct(rng: &mut ChaCha8Rng, n: usize, k: usize) -> (r: Vec<usize>)
    requires
        k <= n,
    ensures
        r@.len() == k,
        forall|i: int| 0 <= i < k ==> (#[trigger] r@[i]) < n,
        forall|i: int, j: int| #![trigger r@[i], r@[j]] 0 <= i < j < k ==> r@[i] != r@[j],
{
    let mut idx: Vec<usize> = Vec::new();
    let mut q: usize = 0;
    while q < n
        invariant
            q <= n,
            idx@.len() == q,
            forall|i: int| 0 <= i < q ==> (#[trigger] idx@[i]) == i,
        decreases n - q,
    {
        idx.push(q);
        q = q + 1;
    }
    let mut i: usize = 0;
    while i < k
        invariant
            i <= k <= n,
            idx@.len() == n,
            forall|a: int| 0 <= a < n ==> (#[trigger] idx@[a]) < n,
            forall|a: int, b: int| #![trigger idx@[a], idx@[b]] 0 <= a < b < n ==> idx@[a] != idx@[b],
        decreases k - i,
    {
        let j = i + rng_below(rng, n - i);
        let a = idx[i];
        let b = idx[j];
        idx.set(i, b);
        idx.set(j, a);
        i = i + 1;
    }
    let mut r: Vec<usize> = Vec::new();
    let mut p: usize = 0;
    while p < k
        invariant
            p <= k <= n,
            idx@.len() == n,
            forall|a: int| 0 <= a < n ==> (#[trigger] idx@[a]) < n,
            forall|a: int, b: int| #![trigger idx@[a], idx@[b]] 0 <= a < b < n ==> idx@[a] != idx@[b],
            r@ == idx@.take(p as int),
        decreases k - p,
    {
        r.push(idx[p]);
        proof {
            assert(idx@.take(p + 1) =~= idx@.take(p as int).push(idx@[p as int]));
        }
        p = p + 1;
    }
    r
}

/// The member of `sample[lo..hi]` whose individual has the lowest fitness.
pub open spec fn half_min(pop: Seq<Route>, sample: Seq<usize>, lo: int, hi: int, w: int) -> bool {
    &&& exists|m: int| lo <= m < hi && sample[m] == w
    &&& forall|j: int| lo <= j < hi ==> pop[sample[j] as int].fitness >= pop[w].fitness
}

fn min_of_half(population: &Vec<Route>, sample: &Vec<usize>, lo: usize, hi: usize) -> (r: usize)
    requires
        lo < hi <= sample@.len(),
        forall|i: int| 0 <= i < sample@.len() ==> (#[trigger] sample@[i]) < population@.len(),
    ensures
        r < population@.len(),
        half_min(population@, sample@, lo as int, hi as int, r as int),
{
    let mut best = sample[lo];
    let mut j = lo + 1;
    while j < hi
        invariant
            lo < hi <= sample@.len(),
            lo < j <= hi,
            forall|i: int| 0 <= i < sample@.len() ==> (#[trigger] sample@[i]) < population@.len(),
            best < population@.len(),
            exists|m: int| lo <= m < j && sample@[m] == best,
            forall|i: int|
                lo <= i < j ==> population@[sample@[i] as int].fitness >= population@[best as int].fitness,
        decreases hi - j,
    {
        if population[sample[j]].fitness < population[best].fitness {
            best = sample[j];
        }
        j = j + 1;
    }
    best
}

/// Tournament parent selection: sample `2 * tournament_size` distinct
/// individuals, split the sample in half, and return the fitness minimum of
/// each half.  Demands a population of at least twice the tournament size.
pub struct TournamentParentSelection {
    pub tournament_size: usize,
}

impl TournamentParentSelection {
    pub fn new(tournament_size: usize) -> (r: Self)
        ensures
            r.tournament_size == tournament_size,
    {
        Self { tournament_size }
    }

    pub fn select(&self, rng: &mut ChaCha8Rng, population: &Vec<Route>) -> (r: (usize, usize))
        requires
            self.tournament_size >= 1,
            population@.len() >= 2 * self.tournament_size,
        ensures
            r.0 < population@.len(),
            r.1 < population@.len(),
            r.0 != r.1,
            exists|sample: Seq<usize>|
                #![auto]
                sample.len() == 2 * self.tournament_size && (forall|i: int|
                    0 <= i < sample.len() ==> sample[i] < population@.len()) && (forall|
                    a: int,
                    b: int,
                |
                    0 <= a < b < sample.len() ==> sample[a] != sample[b]) && half_min(
                    population@,
                    sample,
                    0,
                    self.tournament_size as int,
                    r.0 as int,
                ) && half_min(
                    population@,
                    sample,
                    self.tournament_size as int,
                    2 * self.tournament_size as int,
                    r.1 as int,
                ),
    {
        let ts = self.tournament_size;
        let sample = sample_distinct(rng, population.len(), 2 * ts);
        let w1 = min_of_half(population, &sample, 0, ts);
        let w2 = min_of_half(population, &sample, ts, 2 * ts);
        proof {
            let m1 = choose|m: int| 0 <= m < ts && sample@[m] == w1;
            let m2 = choose|m: int| ts <= m < 2 * ts && sample@[m] == w2;
            assert(sample@[m1] != sample@[m2]);
        }
        (w1, w2)
    }
}

/// The highest (worst) fitness of a population.
pub open spec fn max_fitness(pop: Seq<Route>) -> int
    decreases pop.len(),
{
    if pop.len() == 0 {
        0
    } else if max_fitness(pop.drop_last()) >= pop.last().fitness {
        max_fitness(pop.drop_last())
    } else {
        pop.last().fitness as int
    }
}

/// The roulette weight of an individual: its fitness shortfall from the
/// worst, plus one so every individual keeps a positive share.  Fitness is
/// lower-is-better, so this draws the better individuals more often.
pub open spec fn roulette_weight(pop: Seq<Route>, i: int) -> int {
    max_fitness(pop) + 1 - pop[i].fitness
}

/// The summed roulette weight of the first `i` individuals.
pub open spec fn weight_prefix(pop: Seq<Route>, i: int) -> int
    decreases i,
{
    if i <= 0 {
        0
    } else {
        weight_prefix(pop, i - 1) + roulette_weight(pop, i - 1)
    }
}

/// `idx` is the individual a roulette draw of `x` lands on.
pub open spec fn roulette_hit(pop: Seq<Route>, x: int, idx: int) -> bool {
    &&& 0 <= idx < pop.len()
    &&& weight_prefix(pop, idx) <= x < weight_prefix(pop, idx + 1)
}

proof fn lemma_max_fitness(pop: Seq<Route>)
    requires
        forall|j: int| 0 <= j < pop.len() ==> (#[trigger] pop[j]).fitness < FITNESS_LIMIT,
    ensures
        0 <= max_fitness(pop) < FITNESS_LIMIT || pop.len() == 0 && max_fitness(pop) == 0,
        forall|j: int| 0 <= j < pop.len() ==> (#[trigger] pop[j]).fitness <= max_fitness(pop),
    decreases pop.len(),
{
    if pop.len() > 0 {
        assert(forall|j: int|
            0 <= j < pop.drop_last().len() ==> pop.drop_last()[j] == pop[j]);
        lemma_max_fitness(pop.drop_last());
        assert forall|j: int|
            0 <= j < pop.len() implies (#[trigger] pop[j]).fitness <= max_fitness(pop) by {
            if j < pop.len() - 1 {
                assert(pop.drop_last()[j] == pop[j]);
            }
        }
    }
}

proof fn lemma_weight_prefix_bound(pop: Seq<Route>, i: int)
    requires
        0 <= i <= pop.len(),
        forall|j: int| 0 <= j < pop.len() ==> (#[trigger] pop[j]).fitness < FITNESS_LIMIT,
        pop.len() <= MAX_POP,
    ensures
        i <= weight_prefix(pop, i) <= i * (FITNESS_LIMIT as int),
    decreases i,
{
    lemma_max_fitness(pop);
    if i > 0 {
        lemma_weight_prefix_bound(pop, i - 1);
    }
}

/// One roulette draw: an index sampled with probability proportional to its
/// inverse-fitness weight.
pub fn roulette_draw(rng: &mut ChaCha8Rng, population: &Vec<Route>) -> (r: usize)
    requires
        1 <= population@.len() <= MAX_POP,
        forall|j: int|
            0 <= j < population@.len() ==> (#[trigger] population@[j]).fitness < FITNESS_LIMIT,
    ensures
        r < population@.len(),
        exists|x: int| roulette_hit(population@, x, r as int),
{
    let n = population.len();
    proof {
        lemma_max_fitness(population@);
    }
    let mut worst: u64 = 0;
    let mut i: usize = 0;
    while i < n
        invariant
            n == population@.len(),
            forall|j: int|
                0 <= j < population@.len() ==> (#[trigger] population@[j]).fitness < FITNESS_LIMIT,
            i <= n,
            worst == max_fitness(population@.take(i as int)),
            worst < FITNESS_LIMIT,
        decreases n - i,
    {
        proof {
            assert(population@.take(i + 1).drop_last() =~= population@.take(i as int));
            assert(population@.take(i + 1).last() == population@[i as int]);
        }
        if population[i].fitness > worst {
            worst = population[i].fitness;
        }
        i = i + 1;
    }
    proof {
        assert(population@.take(n as int) =~= population@);
    }
    let mut total: u64 = 0;
    let mut i: usize = 0;
    while i < n
        invariant
            n == population@.len(),
            n <= MAX_POP,
            forall|j: int|
                0 <= j < population@.len() ==> (#[trigger] population@[j]).fitness < FITNESS_LIMIT,
            worst == max_fitness(population@),
            worst < FITNESS_LIMIT,
            i <= n,
            total == weight_prefix(population@, i as int),
        decreases n - i,
    {
        proof {
            lemma_weight_prefix_bound(population@, i as int);
            lemma_max_fitness(population@);
        }
        total = total + (worst + 1 - population[i].fitness);
        i = i + 1;
    }
    proof {
        lemma_weight_prefix_bound(population@, n as int);
    }
    let x = rng_below_u64(rng, total);
    let mut acc: u64 = 0;
    let mut idx: usize = 0;
    loop
        invariant_except_break
            n == population@.len(),
            n >= 1,
            n <= MAX_POP,
            forall|j: int|
                0 <= j < population@.len() ==> (#[trigger] population@[j]).fitness < FITNESS_LIMIT,
            worst == max_fitness(population@),
            worst < FITNESS_LIMIT,
            idx < n,
            acc == weight_prefix(population@, idx as int),
            acc <= x,
            x < total,
            total == weight_prefix(population@, n as int),
        ensures
            idx < n,
            exists|y: int| roulette_hit(population@, y, idx as int),
        decreases n - idx,
    {
        proof {
            lemma_weight_prefix_bound(population@, idx as int);
            lemma_max_fitness(population@);
        }
        let w = worst + 1 - population[idx].fitness;
        if x < acc + w {
            proof {
                assert(roulette_hit(population@, x as int, idx as int));
            }
            break;
        }
        acc = acc + w;
        if idx + 1 == n {
            proof {
                assert(weight_prefix(population@, n as int) == acc);
                assert(false);
            }
        }
        idx = idx + 1;
    }
    idx
}

/// Roulette parent selection: two independent draws, each with probability
/// proportional to the individual's fitness shortfall from the worst
/// (inverse-fitness weighting), so lower-cost plans breed more often.
pub struct RouletteParentSelection;

impl RouletteParentSelection {
    pub fn new() -> (r: Self) {
        Self
    }

    pub fn select(&self, rng: &mut ChaCha8Rng, population: &Vec<Route>) -> (r: (usize, usize))
        requires
            1 <= population@.len() <= MAX_POP,
            forall|j: int|
                0 <= j < population@.len() ==> (#[trigger] population@[j]).fitness < FITNESS_LIMIT,
        ensures
            r.0 < population@.len(),
            r.1 < population@.len(),
            exists|x: int| roulette_hit(population@, x, r.0 as int),
            exists|x: int| roulette_hit(population@, x, r.1 as int),
    {
        let a = roulette_draw(rng, population);
        let b = roulette_draw(rng, population);
        (a, b)
    }
}

} // verus!
