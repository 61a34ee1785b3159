//! Individuals of the evolutionary search: a chromosome together with its
//! cached fitness and feasibility flag, and the fitness evaluator itself.
//! Fitness is a cost in tenths of a time unit, lower is better.

use vstd::prelude::*;
use crate::chromosome::{Chromosome, genes_in_range};
use crate::instance::TrainData;
use crate::eval::{full_sim, lemma_full_sim_bounds, lemma_no_breaks_no_overrun, eval_core, SimState};
use crate::helper::{
    pfi_routes, join_spec, split_spec, push_forward_insertion, combine_into_chromo,
    lemma_join_split, lemma_pfi_assigns_all, lemma_join_total_len, lemma_join_elems,
};
use crate::{MAX_GENES, MAX_PATIENTS, FITNESS_LIMIT};

verus! {

/// Whether a gene sequence carries a route delimiter.
pub open spec fn has_delim(s: Seq<u16>) -> bool {
    exists|i: int| 0 <= i < s.len() && s[i] == 0
}

/// The delimiter-free form of a gene sequence.
pub open spec fn strip_zeros(s: Seq<u16>) -> Seq<u16> {
    s.filter(|g: u16| g != 0)
}

/// Cost of a delimited chromosome: the total travel time, inflated
/// multiplicatively by 3/10 per constraint break (in tenths).
pub open spec fn delim_cost_spec(s: Seq<u16>, t: &TrainData) -> int {
    full_sim(s, t).travel * (10 + 3 * full_sim(s, t).breaks)
}

/// The simulation of a delimiter-free chromosome: the routes derived by
/// push-forward insertion, visited in order.
pub open spec fn nodelim_sim(s: Seq<u16>, t: &TrainData) -> SimState {
    full_sim(join_spec(pfi_routes(s, t, t.nbr_nurses as nat)), t)
}

/// Cost of a delimiter-free chromosome: the total travel time plus an
/// additive 3/10 penalty per unit of overrun (in tenths).
pub open spec fn nodelim_cost_spec(s: Seq<u16>, t: &TrainData) -> int {
    10 * nodelim_sim(s, t).travel + 3 * nodelim_sim(s, t).overrun
}

/// Number of constraint breaks of a chromosome under its encoding.
pub open spec fn fitness_breaks_spec(s: Seq<u16>, t: &TrainData) -> int {
    if has_delim(s) {
        full_sim(s, t).breaks
    } else {
        nodelim_sim(s, t).breaks
    }
}

/// Cost of a chromosome under its encoding.
pub open spec fn fitness_cost_spec(s: Seq<u16>, t: &TrainData) -> int {
    if has_delim(s) {
        delim_cost_spec(s, t)
    } else {
        nodelim_cost_spec(s, t)
    }
}

/// What the evaluator demands of its input: a well-formed instance, at
/// least one gene, genes in range, and room below the global caps.
pub open spec fn evaluable(s: Seq<u16>, t: &TrainData) -> bool {
    &&& t.wf()
    &&& 1 <= s.len() <= MAX_GENES
    &&& genes_in_range(s, t.spec_patient_count())
    &&& (!has_delim(s) ==> s.len() <= MAX_PATIENTS)
}

/// Evaluate a chromosome: its cost (in tenths of a time unit) and its
/// number of constraint breaks.  A chromosome with a delimiter takes the
/// delimited path; one without is first split into routes by push-forward
/// insertion.
pub fn calculate_fitness(chromosome: &Chromosome, t_data: &TrainData) -> (r: (u64, u64))
    requires
        evaluable(chromosome@, t_data),
    ensures
        r.0 == fitness_cost_spec(chromosome@, t_data),
        r.1 == fitness_breaks_spec(chromosome@, t_data),
        r.0 < FITNESS_LIMIT,
{
    let n = chromosome.genes.len();
    let mut found = false;
    let mut i: usize = 0;
    while i < n
        invariant
            n == chromosome@.len(),
            i <= n,
            found <==> exists|j: int| 0 <= j < i && chromosome@[j] == 0,
        decreases n - i,
    {
        if chromosome.genes[i] == 0 {
            found = true;
        }
        i = i + 1;
    }
    assert(found == has_delim(chromosome@));
    if found {
        calculate_fitness_delims(chromosome, t_data)
    } else {
        calculate_fitness_no_delims(chromosome, t_data)
    }
}

/// The delimited fitness path.
fn calculate_fitness_delims(chromosome: &Chromosome, t_data: &TrainData) -> (r: (u64, u64))
    requires
        evaluable(chromosome@, t_data),
        has_delim(chromosome@),
    ensures
        r.0 == delim_cost_spec(chromosome@, t_data),
        r.1 == full_sim(chromosome@, t_data).breaks,
        r.0 < FITNESS_LIMIT,
{
    let (travel, breaks, _overrun) = eval_core(&chromosome.genes, t_data);
    proof {
        lemma_full_sim_bounds(chromosome@, t_data);
        let tr = travel as int;
        let br = breaks as int;
        assert(tr * (10 + 3 * br) <= 5_000_500_000int * 60_016) by (nonlinear_arith)
            requires
                0 <= tr <= 5_000_500_000,
                0 <= br <= 20_002,
        ;
    }
    let cost = travel * (10 + 3 * breaks);
    (cost, breaks)
}

/// The delimiter-free fitness path: push-forward insertion, then the same
/// simulation route by route.
fn calculate_fitness_no_delims(chromosome: &Chromosome, t_data: &TrainData) -> (r: (u64, u64))
    requires
        evaluable(chromosome@, t_data),
        !has_delim(chromosome@),
    ensures
        r.0 == nodelim_cost_spec(chromosome@, t_data),
        r.1 == nodelim_sim(chromosome@, t_data).breaks,
        r.0 < FITNESS_LIMIT,
{
    let ghost npat = t_data.spec_patient_count();
    let ghost nn = t_data.nbr_nurses as nat;
    proof {
        assert(forall|i: int|
            0 <= i < chromosome@.len() ==> 1 <= (#[trigger] chromosome@[i]) <= npat);
        lemma_pfi_assigns_all(chromosome@, t_data, nn, npat);
    }
    let routes = push_forward_insertion(chromosome, t_data);
    let flat = combine_into_chromo(&routes);
    proof {
        let rs = pfi_routes(chromosome@, t_data, nn);
        assert(flat@ == join_spec(rs));
        lemma_join_total_len(rs);
        assert(flat@.len() == chromosome@.len() + nn - 1);
        assert(flat@.len() <= MAX_GENES);
        lemma_join_elems(rs, npat);
        assert(genes_in_range(flat@, npat));
    }
    let (travel, breaks, overrun) = eval_core(&flat.genes, t_data);
    proof {
        lemma_full_sim_bounds(flat@, t_data);
    }
    let cost = 10 * travel + 3 * overrun;
    (cost, breaks)
}

/// The two fitness paths agree: a delimited chromosome and its stripped
/// form produce the same cost and break count whenever push-forward
/// insertion reassembles exactly the chromosome's own routes and the plan
/// is free of constraint breaks.  (With breaks the two paths differ by
/// design: one penalty is multiplicative, the other additive.)
pub proof fn lemma_fitness_paths_agree(s: Seq<u16>, t: &TrainData)
    requires
        has_delim(s),
        split_spec(s) == pfi_routes(strip_zeros(s), t, t.nbr_nurses as nat),
        fitness_breaks_spec(s, t) == 0,
    ensures
        fitness_cost_spec(strip_zeros(s), t) == fitness_cost_spec(s, t),
        fitness_breaks_spec(strip_zeros(s), t) == fitness_breaks_spec(s, t),
{
    assert(!has_delim(strip_zeros(s))) by {
        assert forall|i: int| 0 <= i < strip_zeros(s).len() implies strip_zeros(s)[i] != 0 by {
            s.lemma_filter_pred(|g: u16| g != 0, i);
        }
    }
    lemma_join_split(s);
    assert(join_spec(pfi_routes(strip_zeros(s), t, t.nbr_nurses as nat)) == s);
    assert(nodelim_sim(strip_zeros(s), t) == full_sim(s, t));
    lemma_no_breaks_no_overrun(s, t);
    assert(full_sim(s, t).overrun == 0);
    assert(fitness_cost_spec(s, t) == full_sim(s, t).travel * 10);
    assert(fitness_cost_spec(strip_zeros(s), t) == 10 * full_sim(s, t).travel);
}

/// One individual: a chromosome with its cached fitness (lower is better)
/// and feasibility flag.  Both caches are recomputed whenever the
/// chromosome changes, never mutated independently.
#[derive(Clone, Debug)]
pub struct Route {
    pub fitness: u64,
    pub chromosome: Chromosome,
    pub feasible: bool,
}

impl Route {
    /// The cached values agree with the evaluator on this instance.
    pub open spec fn consistent_with(&self, t: &TrainData) -> bool {
        &&& self.fitness == fitness_cost_spec(self.chromosome@, t)
        &&& self.feasible == (fitness_breaks_spec(self.chromosome@, t) == 0)
        &&& self.fitness < FITNESS_LIMIT
    }

    /// Evaluate a chromosome and wrap it.
    pub fn new(chromosome: Chromosome, t_data: &TrainData) -> (r: Route)
        requires
            evaluable(chromosome@, t_data),
        ensures
            r.chromosome == chromosome,
            r.consistent_with(t_data),
    {
        let (fitness, breaks) = calculate_fitness(&chromosome, t_data);
        Route { fitness, chromosome, feasible: breaks == 0 }
    }

    /// Wrap an already evaluated chromosome.
    pub fn create(chromosome: Chromosome, fitness: u64, feasible: bool) -> (r: Route)
        ensures
            r.chromosome == chromosome,
            r.fitness == fitness,
            r.feasible == feasible,
    {
        Route { fitness, chromosome, feasible }
    }

    pub fn chromosome(&self) -> (r: &Chromosome)
        ensures
            r == &self.chromosome,
    {
        &self.chromosome
    }

    pub fn fitness(&self) -> (r: u64)
        ensures
            r == self.fitness,
    {
        self.fitness
    }

    pub fn feasible(&self) -> (r: bool)
        ensures
            r == self.feasible,
    {
        self.feasible
    }

    /// A fresh individual with the same chromosome and caches.
    pub fn duplicate(&self) -> (r: Route)
        ensures
            r.chromosome@ == self.chromosome@,
            r.fitness == self.fitness,
            r.feasible == self.feasible,
    {
        Route {
            fitness: self.fitness,
            chromosome: self.chromosome.duplicate(),
            feasible: self.feasible,
        }
    }
}

} // verus!
