//! The generational engine: one `evolve` call selects parents, produces an
//! expanded offspring pool by crossover, mutation and crowding replacement,
//! and culls it back to the population size with the survivor selection.
//! A diversity feedback loop raises the mutation probability when the
//! population's fitness spread shrinks.

use vstd::prelude::*;
use rand_chacha::ChaCha8Rng;
use crate::chromosome::{Chromosome, valid_delimited, valid_no_delim, lemma_valid_of_multiset_eq};
use crate::individual::{Route, calculate_fitness, evaluable, has_delim};
use crate::instance::TrainData;
use crate::mutation::MutationHolder;
use crate::crossover::{
    OrderOneCrossover, OrderOneCrossoverNoDelim, HeuristicCrossover, MergeCrossover,
};
use crate::selection::{
    TournamentParentSelection, RouletteParentSelection, ElitismSurvivorSelection,
    ElitismSurvivorSelectionKeepFeasible, crowding_survivor, duplicate_route, weight_prefix,
    roulette_draw,
};
use crate::helper::{pop_std_dev, hamming_distance, fitness_bounded, sum_fitness, dev_sq_sum};
use crate::rng::{rng_below, rng_coin};
use crate::{FITNESS_LIMIT, MAX_POP};

verus! {

/// Floor for the population fitness standard deviation in the diversity
/// feedback rule.
pub const MIN_POP_DEV: u64 = 4;

/// Minimum mutation probability, in thousandths.
pub const P_MUT_MIN_PERMILLE: u32 = 70;

/// Crossover probability, in thousandths.
pub const XOVER_PROB_PERMILLE: u32 = 970;

/// The parent selection strategy an engine runs with.
pub enum ParentSelectionMethod {
    Tournament(TournamentParentSelection),
    Roulette(RouletteParentSelection),
}

impl ParentSelectionMethod {
    /// What the strategy demands of a population.
    pub open spec fn pre(&self, pop: Seq<Route>) -> bool {
        match self {
            ParentSelectionMethod::Tournament(t) => t.tournament_size >= 1 && pop.len() >= 2
                * t.tournament_size,
            ParentSelectionMethod::Roulette(_) => 1 <= pop.len() <= MAX_POP && fitness_bounded(
                pop,
            ),
        }
    }

    /// Choose two breeding individuals.
    pub fn select(&self, rng: &mut ChaCha8Rng, population: &Vec<Route>) -> (r: (usize, usize))
        requires
            self.pre(population@),
        ensures
            r.0 < population@.len(),
            r.1 < population@.len(),
    {
        match self {
            ParentSelectionMethod::Tournament(t) => t.select(rng, population),
            ParentSelectionMethod::Roulette(t) => t.select(rng, population),
        }
    }
}

/// The survivor selection strategy an engine runs with.
pub enum SurvivorSelectionMethod {
    Elitism(ElitismSurvivorSelection),
    ElitismKeepFeasible(ElitismSurvivorSelectionKeepFeasible),
}

impl SurvivorSelectionMethod {
    /// Cull a population back to `pop_size` individuals.
    pub fn select(&self, rng: &mut ChaCha8Rng, population: &mut Vec<Route>, pop_size: usize)
        requires
            pop_size <= old(population)@.len(),
        ensures
            final(population)@.len() == pop_size,
            forall|x: Route| final(population)@.contains(x) ==> old(population)@.contains(x),
            self matches SurvivorSelectionMethod::Elitism(_)
                ==> crate::selection::sorted_by_fitness(final(population)@),
    {
        match self {
            SurvivorSelectionMethod::Elitism(s) => s.select(rng, population, pop_size),
            SurvivorSelectionMethod::ElitismKeepFeasible(s) => s.select(rng, population, pop_size),
        }
    }
}

/// The crossover operator an engine runs with.
pub enum CrossoverMethod {
    OrderOne(OrderOneCrossover),
    OrderOneNoDelim(OrderOneCrossoverNoDelim),
    Heuristic(HeuristicCrossover),
    Merge(MergeCrossover),
}

impl CrossoverMethod {
    /// The encoding invariant the operator works under.
    pub open spec fn chromo_ok(&self, s: Seq<u16>, t: &TrainData) -> bool {
        match self {
            CrossoverMethod::OrderOne(_) => valid_delimited(
                s,
                t.spec_patient_count(),
                t.nbr_nurses as nat,
            ),
            _ => valid_no_delim(s, t.spec_patient_count()),
        }
    }

    pub fn crossover(
        &self,
        rng: &mut ChaCha8Rng,
        parent_a: &Chromosome,
        parent_b: &Chromosome,
        t_data: &TrainData,
    ) -> (r: Chromosome)
        requires
            t_data.wf(),
            t_data.spec_patient_count() >= 1,
            self.chromo_ok(parent_a@, t_data),
            self.chromo_ok(parent_b@, t_data),
        ensures
            self.chromo_ok(r@, t_data),
    {
        proof {
            assert(parent_a@.len() >= 1);
        }
        match self {
            CrossoverMethod::OrderOne(c) => c.crossover(rng, parent_a, parent_b, t_data),
            CrossoverMethod::OrderOneNoDelim(c) => c.crossover(rng, parent_a, parent_b, t_data),
            CrossoverMethod::Heuristic(c) => c.crossover(rng, parent_a, parent_b, t_data),
            CrossoverMethod::Merge(c) => c.crossover(rng, parent_a, parent_b, t_data),
        }
    }
}

/// The encoding invariant only depends on the gene multiset, so a mutation
/// never invalidates a chromosome.
pub proof fn lemma_chromo_ok_ms(m: CrossoverMethod, s1: Seq<u16>, s2: Seq<u16>, t: &TrainData)
    requires
        m.chromo_ok(s1, t),
        s1.to_multiset() == s2.to_multiset(),
    ensures
        m.chromo_ok(s2, t),
{
    lemma_valid_of_multiset_eq(s1, s2, t.spec_patient_count(), t.nbr_nurses as nat);
    lemma_valid_of_multiset_eq(s1, s2, t.spec_patient_count(), 1);
}

/// A chromosome valid under either encoding can be evaluated.
pub proof fn lemma_chromo_ok_evaluable(m: CrossoverMethod, s: Seq<u16>, t: &TrainData)
    requires
        t.wf(),
        t.spec_patient_count() >= 1,
        m.chromo_ok(s, t),
    ensures
        evaluable(s, t),
{
    broadcast use vstd::seq_lib::group_to_multiset_ensures;

    match m {
        CrossoverMethod::OrderOne(_) => {
            if !has_delim(s) {
                assert(!s.contains(0u16));
                assert(s.to_multiset().count(0u16) == 0);
                assert(s.len() == t.spec_patient_count());
            }
        },
        _ => {},
    }
}

/// `sd` is the population's fitness standard deviation: the floor square
/// root of the sample variance around the floor mean.
pub open spec fn std_dev_matches(pop: Seq<Route>, sd: u64) -> bool {
    let mean = sum_fitness(pop) / (pop.len() as int);
    let var = dev_sq_sum(pop, mean) / (pop.len() - 1);
    &&& (sd as int) * (sd as int) <= var
    &&& var < (sd as int + 1) * (sd as int + 1)
}

/// The mutation probability the diversity feedback dictates for a measured
/// standard deviation, in thousandths: the minimum plus one tenth of the
/// deviation's shortfall from the floor.
pub open spec fn feedback_chance(sd: u64) -> u32 {
    (P_MUT_MIN_PERMILLE + 100 * ((MIN_POP_DEV - (if sd >= MIN_POP_DEV {
        MIN_POP_DEV
    } else {
        sd
    })) as u32)) as u32
}

/// The generational engine: selection, crossover, mutation, crowding
/// replacement, survivor culling, and the diversity feedback controller.
pub struct GenAlg {
    pub survivor_selection_method: SurvivorSelectionMethod,
    pub parent_selection_method: ParentSelectionMethod,
    pub crossover_method: CrossoverMethod,
    pub t_data: TrainData,
    pub pop_size_multiplier: usize,
    pub m_method_vec: MutationHolder,
}

impl GenAlg {
    pub open spec fn wf(&self) -> bool {
        &&& self.t_data.wf()
        &&& self.t_data.spec_patient_count() >= 1
        &&& 1 <= self.pop_size_multiplier <= 5
        &&& self.m_method_vec.mutations@.len() >= 1
    }

    /// Every individual of the population carries a chromosome valid for the
    /// engine's operators, with caches that agree with the evaluator.
    pub open spec fn pop_ok(&self, pop: Seq<Route>) -> bool {
        forall|i: int|
            0 <= i < pop.len() ==> (#[trigger] pop[i]).consistent_with(&self.t_data)
                && self.crossover_method.chromo_ok(pop[i].chromosome@, &self.t_data)
    }

    pub fn new(
        survivor_selection_method: SurvivorSelectionMethod,
        parent_selection_method: ParentSelectionMethod,
        crossover_method: CrossoverMethod,
        t_data: TrainData,
        m_method_vec: MutationHolder,
    ) -> (r: Self)
        requires
            t_data.wf(),
            t_data.spec_patient_count() >= 1,
            m_method_vec.mutations@.len() >= 1,
        ensures
            r.wf(),
            r.t_data == t_data,
            r.crossover_method == crossover_method,
            r.parent_selection_method == parent_selection_method,
            r.survivor_selection_method == survivor_selection_method,
            r.pop_size_multiplier == 5,
    {
        Self {
            survivor_selection_method,
            parent_selection_method,
            crossover_method,
            t_data,
            pop_size_multiplier: 5,
            m_method_vec,
        }
    }

    pub fn t_data(&self) -> (r: &TrainData)
        ensures
            r == &self.t_data,
    {
        &self.t_data
    }

    /// One evolutionary step: adapt the mutation probability to the
    /// population's diversity, breed an offspring pool of
    /// `len * pop_size_multiplier` individuals (crossover plus up to
    /// `num_operators` mutations and crowding replacement, or a cloned
    /// parent), and cull the pool back to the population size.
    pub fn evolve(&mut self, rng: &mut ChaCha8Rng, population: &Vec<Route>) -> (r: Vec<Route>)
        requires
            old(self).wf(),
            2 <= population@.len(),
            population@.len() <= MAX_POP,
            population@.len() * old(self).pop_size_multiplier <= MAX_POP,
            old(self).pop_ok(population@),
            old(self).parent_selection_method.pre(population@),
        ensures
            final(self).wf(),
            final(self).t_data == old(self).t_data,
            final(self).crossover_method == old(self).crossover_method,
            final(self).parent_selection_method == old(self).parent_selection_method,
            final(self).survivor_selection_method == old(self).survivor_selection_method,
            final(self).pop_size_multiplier == old(self).pop_size_multiplier,
            r@.len() == population@.len(),
            final(self).pop_ok(r@),
            old(self).survivor_selection_method matches SurvivorSelectionMethod::Elitism(_)
                ==> crate::selection::sorted_by_fitness(r@),
            final(self).m_method_vec.mutations@.len() == old(
                self,
            ).m_method_vec.mutations@.len(),
            exists|sd: u64|
                #![auto]
                std_dev_matches(population@, sd) && (forall|i: int|
                    0 <= i < final(self).m_method_vec.mutations@.len()
                        ==> final(self).m_method_vec.mutations@[i]
                        == old(self).m_method_vec.mutations@[i].with_chance(feedback_chance(sd))),
    {
        let ghost t0 = self.t_data;
        proof {
            assert(fitness_bounded(population@)) by {
                assert(forall|i: int|
                    0 <= i < population@.len() ==> (#[trigger] population@[i]).consistent_with(
                        &t0,
                    ));
            }
        }
        let std = pop_std_dev(population);
        let std_c = if std >= MIN_POP_DEV {
            MIN_POP_DEV
        } else {
            std
        };
        let p_permille = P_MUT_MIN_PERMILLE + 100 * ((MIN_POP_DEV - std_c) as u32);
        let ghost gsd = std;
        proof {
            assert(std_dev_matches(population@, gsd));
            assert(p_permille == feedback_chance(gsd));
        }
        self.m_method_vec.adjust_chances(p_permille);
        let target = population.len() * self.pop_size_multiplier;
        proof {
            assert(target >= population@.len()) by (nonlinear_arith)
                requires
                    target == population@.len() * self.pop_size_multiplier,
                    self.pop_size_multiplier >= 1,
                    population@.len() >= 0,
            ;
        }
        let mut new_pop: Vec<Route> = Vec::new();
        while new_pop.len() < target
            invariant
                self.wf(),
                self.t_data == t0,
                t0 == old(self).t_data,
                self.crossover_method == old(self).crossover_method,
                self.parent_selection_method == old(self).parent_selection_method,
                self.survivor_selection_method == old(self).survivor_selection_method,
                self.pop_size_multiplier == old(self).pop_size_multiplier,
                old(self).pop_ok(population@),
                old(self).parent_selection_method.pre(population@),
                std_dev_matches(population@, gsd),
                self.m_method_vec.mutations@.len() == old(self).m_method_vec.mutations@.len(),
                forall|ii: int|
                    0 <= ii < self.m_method_vec.mutations@.len() ==> (
                    #[trigger] self.m_method_vec.mutations@[ii]) == old(
                        self,
                    ).m_method_vec.mutations@[ii].with_chance(feedback_chance(gsd)),
                new_pop@.len() <= target,
                forall|i: int|
                    0 <= i < new_pop@.len() ==> (#[trigger] new_pop@[i]).consistent_with(&t0)
                        && old(self).crossover_method.chromo_ok(new_pop@[i].chromosome@, &t0),
            decreases target - new_pop@.len(),
        {
            let parents = self.parent_selection_method.select(rng, population);
            let pa = parents.0;
            let pb = parents.1;
            proof {
                assert(pa < population@.len() && pb < population@.len());
                assert((#[trigger] population@[pa as int]).consistent_with(&old(self).t_data)
                    && old(self).crossover_method.chromo_ok(
                    population@[pa as int].chromosome@,
                    &old(self).t_data,
                ));
                assert((#[trigger] population@[pb as int]).consistent_with(&old(self).t_data)
                    && old(self).crossover_method.chromo_ok(
                    population@[pb as int].chromosome@,
                    &old(self).t_data,
                ));
                assert(old(self).t_data == t0);
            }
            if rng_coin(rng, XOVER_PROB_PERMILLE, 1000) {
                let mut child = self.crossover_method.crossover(
                    rng,
                    &population[pa].chromosome,
                    &population[pb].chromosome,
                    &self.t_data,
                );
                // apply between zero and `num_operators` random mutations
                let reps = rng_below(rng, self.m_method_vec.len());
                let mut k: usize = 0;
                while k < reps
                    invariant
                        self.wf(),
                        self.t_data == t0,
                        self.crossover_method == old(self).crossover_method,
                        k <= reps,
                        self.crossover_method.chromo_ok(child@, &t0),
                    decreases reps - k,
                {
                    let ghost before = child@;
                    let idx = rng_below(rng, self.m_method_vec.len());
                    self.m_method_vec.mutate_at(idx, rng, &mut child);
                    proof {
                        lemma_chromo_ok_ms(self.crossover_method, before, child@, &t0);
                    }
                    k = k + 1;
                }
                proof {
                    lemma_chromo_ok_evaluable(self.crossover_method, child@, &t0);
                }
                let fitness_pair = calculate_fitness(&child, &self.t_data);
                let fitness = fitness_pair.0;
                let breaks = fitness_pair.1;
                let child_individual = Route::create(child, fitness, breaks == 0);
                proof {
                    assert(child_individual.consistent_with(&t0));
                    // both parents and the child have the encoding's length
                    assert(population@[pa as int].chromosome@.len()
                        == child_individual.chromosome@.len());
                    assert(population@[pb as int].chromosome@.len()
                        == child_individual.chromosome@.len());
                    assert(child_individual.chromosome@.len() <= u16::MAX);
                }
                let da = hamming_distance(
                    &population[pa].chromosome,
                    &child_individual.chromosome,
                );
                let db = hamming_distance(
                    &population[pb].chromosome,
                    &child_individual.chromosome,
                );
                let competitor = if da < db {
                    pa
                } else {
                    pb
                };
                // the crowding draw decides whether the offspring or the
                // nearer parent enters the pool; with zero pressure the
                // lower-fitness one always does
                let survivor = crowding_survivor(
                    &population[competitor],
                    child_individual,
                    0,
                    1000,
                    rng,
                );
                new_pop.push(survivor);
            } else {
                // no crossover: clone a parent, chosen by a fair coin
                let pick = if rng_coin(rng, 500, 1000) {
                    pa
                } else {
                    pb
                };
                new_pop.push(duplicate_route(&population[pick]));
            }
        }
        self.survivor_selection_method.select(rng, &mut new_pop, population.len());
        proof {
            assert forall|i: int|
                0 <= i < new_pop@.len() implies (#[trigger] new_pop@[i]).consistent_with(&t0)
                && old(self).crossover_method.chromo_ok(new_pop@[i].chromosome@, &t0) by {
                assert(new_pop@.contains(new_pop@[i]));
            }
        }
        new_pop
    }
}

/// A single roulette draw over a population, with probability proportional
/// to the individual's fitness shortfall from the worst (inverse-fitness
/// weighting).
pub struct RouletteSelection;

impl RouletteSelection {
    pub fn new() -> (r: Self) {
        Self
    }

    pub fn select(&self, rng: &mut ChaCha8Rng, population: &Vec<Route>) -> (r: usize)
        requires
            1 <= population@.len() <= MAX_POP,
            fitness_bounded(population@),
        ensures
            r < population@.len(),
            exists|x: int| crate::selection::roulette_hit(population@, x, r as int),
    {
        roulette_draw(rng, population)
    }
}

} // verus!
