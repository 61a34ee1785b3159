//! The decisions of one island's evolutionary loop: run generations of the
//! engine, detect stagnation and reseed, and pick or absorb migrants.  The
//! surrounding process loop performs the actual channel sends and receives;
//! it hands migrants in and out as plain individuals.

use vstd::prelude::*;
use rand_chacha::ChaCha8Rng;
use crate::gen_alg::GenAlg;
use crate::individual::Route;
use crate::instance::TrainData;
use crate::population_init::PopulationGeneratorMethod;
use crate::selection::{sample_distinct, duplicate_route};
use crate::helper::{avg_fitness, keep_best_n, fitness_bounded, sum_fitness};
use crate::rng::rng_below;
use crate::mutation::{
    MutationHolder, MutationItem, CrossRouteInsertMutation, CrossRouteSwapMutation,
    InRouteSwapMutation, InRouteInsertMutation, InRouteInversionMutation, InRouteScrambleMutation,
};
use crate::MAX_POP;

verus! {

/// Generations between two migration exchanges.
pub const SEND_INTERVAL: usize = 150;

/// Individuals sent at each migration exchange.
pub const NUM_SEND_I: usize = 5;

/// Generations an island runs before returning its best individual.
pub const ISLAND_GENERATIONS: usize = 100;

/// Generations between two stagnation checks.
pub const STAGNATION_INTERVAL: usize = 10;

/// One island generation: evolve the population once; every tenth
/// generation compare the mean fitness against the previous check, and on
/// stagnation keep only the two best individuals and refill the rest from
/// the generator.  Returns the mean-fitness memo for the next check.
pub fn island_generation(
    gen_alg: &mut GenAlg,
    pop_gen: &PopulationGeneratorMethod,
    population: &mut Vec<Route>,
    pop_size: usize,
    rng: &mut ChaCha8Rng,
    gen_index: usize,
    prev_avg: u64,
) -> (r: u64)
    requires
        old(gen_alg).wf(),
        2 <= old(population)@.len() <= MAX_POP,
        old(population)@.len() * old(gen_alg).pop_size_multiplier <= MAX_POP,
        2 <= pop_size <= MAX_POP,
        old(gen_alg).pop_ok(old(population)@),
        old(gen_alg).parent_selection_method.pre(old(population)@),
        pop_gen.pre(&old(gen_alg).t_data),
        forall|s: Seq<u16>|
            pop_gen.produces(s, &old(gen_alg).t_data) ==> old(
                gen_alg,
            ).crossover_method.chromo_ok(s, &old(gen_alg).t_data),
    ensures
        final(gen_alg).wf(),
        final(gen_alg).t_data == old(gen_alg).t_data,
        final(gen_alg).crossover_method == old(gen_alg).crossover_method,
        final(gen_alg).parent_selection_method == old(gen_alg).parent_selection_method,
        final(gen_alg).pop_size_multiplier == old(gen_alg).pop_size_multiplier,
        final(population)@.len() == old(population)@.len() || final(population)@.len() == pop_size,
        final(gen_alg).pop_ok(final(population)@),
        gen_index % STAGNATION_INTERVAL != 0 ==> r == prev_avg && final(population)@.len()
            == old(population)@.len(),
        gen_index % STAGNATION_INTERVAL == 0 && r != prev_avg ==> final(population)@.len()
            == old(population)@.len() && r == sum_fitness(final(population)@) / (
        final(population)@.len() as int),
        gen_index % STAGNATION_INTERVAL == 0 && r == prev_avg ==> final(population)@.len()
            == pop_size,
{
    let ghost t0 = gen_alg.t_data;
    let next = gen_alg.evolve(rng, population);
    *population = next;
    if gen_index % STAGNATION_INTERVAL == 0 {
        proof {
            assert(fitness_bounded(population@)) by {
                assert(forall|i: int|
                    0 <= i < population@.len() ==> (#[trigger] population@[i]).consistent_with(
                        &t0,
                    ));
            }
        }
        let current_avg = avg_fitness(population);
        if prev_avg == current_avg {
            keep_best_n(population, 2);
            proof {
                assert forall|i: int|
                    0 <= i < population@.len() implies (#[trigger] population@[i]).consistent_with(
                    &t0,
                ) && gen_alg.crossover_method.chromo_ok(population@[i].chromosome@, &t0) by {
                    assert(population@.contains(population@[i]));
                }
            }
            let mut refill = pop_gen.generate_population(gen_alg.t_data(), pop_size - 2, rng);
            population.append(&mut refill);
            proof {
                assert(population@.len() == pop_size);
            }
        }
        current_avg
    } else {
        prev_avg
    }
}

/// `m` is a copy of some member of `pop`.
pub open spec fn copied_from(m: Route, pop: Seq<Route>) -> bool {
    exists|j: int|
        0 <= j < pop.len() && m.fitness == (#[trigger] pop[j]).fitness && m.feasible
            == pop[j].feasible && m.chromosome@ == pop[j].chromosome@
}

/// Pick migrants for one exchange: a uniform sample without replacement,
/// copied out so the island keeps its own population.
pub fn select_migrants(population: &Vec<Route>, rng: &mut ChaCha8Rng, count: usize) -> (r: Vec<
    Route,
>)
    requires
        count <= population@.len(),
    ensures
        r@.len() == count,
        forall|i: int| 0 <= i < r@.len() ==> copied_from(#[trigger] r@[i], population@),
{
    let picks = sample_distinct(rng, population.len(), count);
    let mut r: Vec<Route> = Vec::new();
    let mut i: usize = 0;
    while i < count
        invariant
            count <= population@.len(),
            picks@.len() == count,
            forall|k: int| 0 <= k < count ==> (#[trigger] picks@[k]) < population@.len(),
            i <= count,
            r@.len() == i,
            forall|k: int| 0 <= k < i ==> copied_from(#[trigger] r@[k], population@),
        decreases count - i,
    {
        let x = duplicate_route(&population[picks[i]]);
        r.push(x);
        proof {
            let j = picks@[i as int] as int;
            assert(0 <= j < population@.len() && r@[i as int].fitness == population@[j].fitness
                && r@[i as int].feasible == population@[j].feasible && r@[i as int].chromosome@
                == population@[j].chromosome@);
            assert(copied_from(r@[i as int], population@));
        }
        i = i + 1;
    }
    r
}

/// Absorb one migrant: its chromosome is validated against the island's own
/// encoding and re-evaluated on the island's instance; a migrant that does
/// not fit the encoding is dropped (migration is best-effort and lossy).
/// Returns whether the migrant joined the population.
pub fn absorb_migrant(gen_alg: &GenAlg, population: &mut Vec<Route>, migrant: Route) -> (r: bool)
    requires
        gen_alg.wf(),
        gen_alg.pop_ok(old(population)@),
    ensures
        gen_alg.pop_ok(final(population)@),
        final(population)@.len() == old(population)@.len() + if r {
            1int
        } else {
            0int
        },
{
    let t = &gen_alg.t_data;
    let np = t.patient_count();
    let nn = t.nbr_nurses;
    let fits = match &gen_alg.crossover_method {
        crate::gen_alg::CrossoverMethod::OrderOne(_) => crate::chromosome::check_valid_delimited(
            &migrant.chromosome,
            np as u16,
            nn,
        ),
        _ => crate::chromosome::check_valid_no_delim(&migrant.chromosome, np as u16),
    };
    if fits {
        proof {
            crate::gen_alg::lemma_chromo_ok_evaluable(
                gen_alg.crossover_method,
                migrant.chromosome@,
                t,
            );
        }
        let fresh = Route::new(migrant.chromosome, t);
        let ghost before = population@;
        population.push(fresh);
        proof {
            assert forall|i: int|
                0 <= i < population@.len() implies (#[trigger] population@[i]).consistent_with(t)
                && gen_alg.crossover_method.chromo_ok(population@[i].chromosome@, t) by {
                if i < before.len() {
                    assert(population@[i] == before[i]);
                }
            }
        }
        true
    } else {
        false
    }
}

/// The mutation operators an island runs with, each drawn with its own
/// random application probability between six and fifteen percent.
pub fn mutation_vec(rng: &mut ChaCha8Rng) -> (r: MutationHolder)
    ensures
        r.mutations@.len() == 6,
{
    let mut holder = MutationHolder::new();
    holder.register(
        MutationItem::CrossRouteInsert(CrossRouteInsertMutation::new(60 + rng_below(rng, 90) as u32)),
    );
    holder.register(
        MutationItem::CrossRouteSwap(CrossRouteSwapMutation::new(60 + rng_below(rng, 90) as u32)),
    );
    holder.register(
        MutationItem::InRouteSwap(InRouteSwapMutation::new(60 + rng_below(rng, 90) as u32)),
    );
    holder.register(
        MutationItem::InRouteInsert(InRouteInsertMutation::new(60 + rng_below(rng, 90) as u32)),
    );
    holder.register(
        MutationItem::InRouteInversion(InRouteInversionMutation::new(60 + rng_below(rng, 90) as u32)),
    );
    holder.register(
        MutationItem::InRouteScramble(InRouteScrambleMutation::new(60 + rng_below(rng, 90) as u32)),
    );
    holder
}

} // verus!
