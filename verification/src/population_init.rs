//! Initial population generators: uniformly random permutations in either
//! encoding, and a variant that spreads the delimiters so every nurse
//! starts with a route of roughly equal size.

use vstd::prelude::*;
use rand_chacha::ChaCha8Rng;
use crate::chromosome::{Chromosome, valid_delimited, valid_no_delim, lemma_valid_of_multiset_eq};
use crate::instance::TrainData;
use crate::individual::{Route, calculate_fitness, evaluable, has_delim};
use crate::helper::{lemma_insert_ms, lemma_ms_insert_counts};
use crate::rng::{rng_below, rng_shuffle};
use crate::{MAX_PATIENTS, MAX_NURSES};

verus! {

/// The identity permutation `1..=n`.
pub open spec fn iota(n: nat) -> Seq<u16> {
    Seq::new(n, |k: int| (k + 1) as u16)
}

proof fn lemma_iota_counts(n: nat)
    requires
        n <= u16::MAX,
    ensures
        forall|v: u16| #[trigger]
            iota(n).to_multiset().count(v) == if 1 <= v <= n {
                1int
            } else {
                0int
            },
    decreases n,
{
    broadcast use vstd::seq_lib::group_to_multiset_ensures;

    if n == 0 {
        assert forall|v: u16| #[trigger] iota(0).to_multiset().count(v) == 0int by {
            assert(iota(0).len() == 0);
            assert(!iota(0).contains(v));
        }
    } else {
        lemma_iota_counts((n - 1) as nat);
        assert(iota(n) =~= iota((n - 1) as nat).push(n as u16));
        iota((n - 1) as nat).to_multiset_ensures();
        assert(iota(n).to_multiset() =~= iota((n - 1) as nat).to_multiset().insert(n as u16));
        lemma_ms_insert_counts(iota((n - 1) as nat).to_multiset(), n as u16);
    }
}

/// A vector holding `1..=n` in order.
fn build_iota(n: u16) -> (r: Vec<u16>)
    ensures
        r@ == iota(n as nat),
{
    let mut r: Vec<u16> = Vec::new();
    let mut i: u16 = 0;
    while i < n
        invariant
            i <= n,
            r@.len() == i,
            forall|k: int| 0 <= k < i ==> r@[k] == k + 1,
        decreases n - i,
    {
        r.push(i + 1);
        i = i + 1;
    }
    proof {
        assert(r@ =~= iota(n as nat));
    }
    r
}

/// A delimited chromosome built from a shuffled permutation and a given
/// number of delimiters appended before the shuffle.
fn random_delimited(rng: &mut ChaCha8Rng, patients: u16, nurses: u16) -> (r: Chromosome)
    requires
        nurses >= 1,
        patients as nat + nurses as nat <= u16::MAX,
    ensures
        valid_delimited(r@, patients as nat, nurses as nat),
{
    broadcast use vstd::seq_lib::group_to_multiset_ensures;

    let mut genes = build_iota(patients);
    let ghost base = genes@;
    let mut z: u16 = 0;
    while z < nurses - 1
        invariant
            z <= nurses - 1,
            genes@.len() == patients as nat + z as nat,
            forall|v: u16| #[trigger]
                genes@.to_multiset().count(v) == base.to_multiset().count(v) + if v == 0 {
                    z as int
                } else {
                    0int
                },
        decreases nurses - 1 - z,
    {
        let ghost before = genes@;
        genes.push(0);
        proof {
            before.to_multiset_ensures();
            assert(genes@.to_multiset() =~= before.to_multiset().insert(0u16));
            lemma_ms_insert_counts(before.to_multiset(), 0u16);
        }
        z = z + 1;
    }
    rng_shuffle(rng, &mut genes);
    let r = Chromosome { genes };
    proof {
        lemma_iota_counts(patients as nat);
        assert forall|i: int| 0 <= i < r@.len() implies r@[i] <= patients by {
            assert(r@.contains(r@[i]));
            assert(r@.to_multiset().count(r@[i]) > 0);
        }
    }
    r
}

/// A random delimited chromosome for the benchmark shape: a permutation of
/// one hundred patients with twenty-four delimiters.
pub fn random_chromo(rng: &mut ChaCha8Rng) -> (r: Chromosome)
    ensures
        valid_delimited(r@, 100, 25),
{
    random_delimited(rng, 100, 25)
}

/// A random delimiter-free chromosome over `num_patients` patients.
pub fn random_chromo_no_delimit(rng: &mut ChaCha8Rng, num_patients: u16) -> (r: Chromosome)
    ensures
        valid_no_delim(r@, num_patients as nat),
{
    broadcast use vstd::seq_lib::group_to_multiset_ensures;

    let mut genes = build_iota(num_patients);
    rng_shuffle(rng, &mut genes);
    let r = Chromosome { genes };
    proof {
        lemma_iota_counts(num_patients as nat);
        assert forall|i: int| 0 <= i < r@.len() implies r@[i] <= num_patients by {
            assert(r@.contains(r@[i]));
            assert(r@.to_multiset().count(r@[i]) > 0);
        }
    }
    r
}

/// A delimited chromosome whose delimiters are spread at roughly even steps
/// through a shuffled permutation, so every nurse starts with work.
pub fn nurse_distributed_chromo(rng: &mut ChaCha8Rng, t_data: &TrainData) -> (r: Chromosome)
    requires
        t_data.wf(),
    ensures
        valid_delimited(r@, t_data.spec_patient_count(), t_data.nbr_nurses as nat),
{
    broadcast use vstd::seq_lib::group_to_multiset_ensures;

    let ghost np = t_data.spec_patient_count();
    let num_nurses = t_data.nbr_nurses;
    let num_patients = t_data.patient_count();
    let mut genes = build_iota(num_patients as u16);
    rng_shuffle(rng, &mut genes);
    proof {
        lemma_iota_counts(np);
    }
    // one delimiter per additional nurse, at evenly stepped positions
    let step = (2 * num_patients + num_nurses) / (2 * num_nurses);
    proof {
        assert(step <= 2 * num_patients + num_nurses) by (nonlinear_arith)
            requires
                step == (2 * num_patients + num_nurses) / (2 * num_nurses as int),
                num_nurses >= 1,
                num_patients >= 0,
        ;
    }
    let mut i: usize = 1;
    while i < num_nurses
        invariant
            t_data.wf(),
            np == t_data.spec_patient_count(),
            num_nurses == t_data.nbr_nurses,
            num_patients == np,
            num_patients <= 5000,
            num_nurses <= 5000,
            step <= 15000,
            1 <= i <= num_nurses,
            genes@.len() == np + i - 1,
            forall|v: u16| #[trigger]
                genes@.to_multiset().count(v) == iota(np).to_multiset().count(v) + if v == 0 {
                    i - 1
                } else {
                    0int
                },
        decreases num_nurses - i,
    {
        proof {
            assert(1 <= i * (step + 1) <= 5000 * 15001) by (nonlinear_arith)
                requires
                    1 <= i <= 5000,
                    0 <= step <= 15000,
            ;
        }
        let index = i * (step + 1) - 1;
        let ghost before = genes@;
        let len = genes.len();
        if index > len {
            genes.insert(len, 0);
            proof {
                lemma_insert_ms(before, len as int, 0u16);
                lemma_ms_insert_counts(before.to_multiset(), 0u16);
            }
        } else {
            genes.insert(index, 0);
            proof {
                lemma_insert_ms(before, index as int, 0u16);
                lemma_ms_insert_counts(before.to_multiset(), 0u16);
            }
        }
        i = i + 1;
    }
    let r = Chromosome { genes };
    proof {
        assert forall|j: int| 0 <= j < r@.len() implies r@[j] <= np by {
            assert(r@.contains(r@[j]));
            assert(r@.to_multiset().count(r@[j]) > 0);
        }
    }
    r
}

/// A freshly evaluated individual over a random delimited chromosome of the
/// benchmark shape.
pub fn random_route(rng: &mut ChaCha8Rng, t_data: &TrainData) -> (r: Route)
    requires
        t_data.wf(),
        t_data.spec_patient_count() == 100,
        t_data.nbr_nurses == 25,
    ensures
        valid_delimited(r.chromosome@, 100, 25),
        r.consistent_with(t_data),
{
    let chromo = random_chromo(rng);
    Route::new(chromo, t_data)
}

/// A freshly evaluated individual over an evenly delimited chromosome.
pub fn nurse_distributed_route(rng: &mut ChaCha8Rng, t_data: &TrainData) -> (r: Route)
    requires
        t_data.wf(),
        t_data.spec_patient_count() >= 1,
    ensures
        valid_delimited(r.chromosome@, t_data.spec_patient_count(), t_data.nbr_nurses as nat),
        r.consistent_with(t_data),
{
    let chromo = nurse_distributed_chromo(rng, t_data);
    proof {
        lemma_delimited_evaluable(chromo@, t_data);
    }
    Route::new(chromo, t_data)
}

/// A valid delimited chromosome of a well-formed instance can be evaluated.
pub proof fn lemma_delimited_evaluable(s: Seq<u16>, t: &TrainData)
    requires
        t.wf(),
        t.spec_patient_count() >= 1,
        valid_delimited(s, t.spec_patient_count(), t.nbr_nurses as nat),
    ensures
        evaluable(s, t),
{
    broadcast use vstd::seq_lib::group_to_multiset_ensures;

    if !has_delim(s) {
        assert(!s.contains(0u16));
        assert(s.to_multiset().count(0u16) == 0);
        assert(s.len() == t.spec_patient_count());
    }
}

/// Generates random delimited populations of the benchmark shape.
pub struct RandomPopulation;

impl RandomPopulation {
    pub fn new() -> (r: Self) {
        Self
    }

    pub fn generate_population(
        &self,
        data: &TrainData,
        pop_size: usize,
        rng: &mut ChaCha8Rng,
    ) -> (r: Vec<Route>)
        requires
            data.wf(),
            data.spec_patient_count() == 100,
            data.nbr_nurses == 25,
        ensures
            r@.len() == pop_size,
            forall|i: int|
                0 <= i < r@.len() ==> (#[trigger] r@[i]).consistent_with(data) && valid_delimited(
                    r@[i].chromosome@,
                    data.spec_patient_count(),
                    data.nbr_nurses as nat,
                ),
    {
        let mut population: Vec<Route> = Vec::new();
        let mut k: usize = 0;
        while k < pop_size
            invariant
                data.wf(),
                data.spec_patient_count() == 100,
                data.nbr_nurses == 25,
                k <= pop_size,
                population@.len() == k,
                forall|i: int|
                    0 <= i < population@.len() ==> (#[trigger] population@[i]).consistent_with(
                        data,
                    ) && valid_delimited(
                        population@[i].chromosome@,
                        data.spec_patient_count(),
                        data.nbr_nurses as nat,
                    ),
            decreases pop_size - k,
        {
            population.push(random_route(rng, data));
            k = k + 1;
        }
        population
    }
}

/// Generates random delimiter-free populations.
pub struct RandomPopulationNoDelim;

impl RandomPopulationNoDelim {
    pub fn new() -> (r: Self) {
        Self
    }

    pub fn generate_population(
        &self,
        data: &TrainData,
        pop_size: usize,
        rng: &mut ChaCha8Rng,
    ) -> (r: Vec<Route>)
        requires
            data.wf(),
            data.spec_patient_count() >= 1,
        ensures
            r@.len() == pop_size,
            forall|i: int|
                0 <= i < r@.len() ==> (#[trigger] r@[i]).consistent_with(data) && valid_no_delim(
                    r@[i].chromosome@,
                    data.spec_patient_count(),
                ),
    {
        let mut population: Vec<Route> = Vec::new();
        let mut k: usize = 0;
        while k < pop_size
            invariant
                data.wf(),
                data.spec_patient_count() >= 1,
                k <= pop_size,
                population@.len() == k,
                forall|i: int|
                    0 <= i < population@.len() ==> (#[trigger] population@[i]).consistent_with(
                        data,
                    ) && valid_no_delim(
                        population@[i].chromosome@,
                        data.spec_patient_count(),
                    ),
            decreases pop_size - k,
        {
            let chromo = random_chromo_no_delimit(rng, data.patient_count() as u16);
            let individual = Route::new(chromo, data);
            population.push(individual);
            k = k + 1;
        }
        population
    }
}

/// Generates populations of evenly delimited chromosomes.
pub struct BalancedRoutes;

impl BalancedRoutes {
    pub fn new() -> (r: Self) {
        Self
    }

    pub fn generate_population(
        &self,
        data: &TrainData,
        pop_size: usize,
        rng: &mut ChaCha8Rng,
    ) -> (r: Vec<Route>)
        requires
            data.wf(),
            data.spec_patient_count() >= 1,
        ensures
            r@.len() == pop_size,
            forall|i: int|
                0 <= i < r@.len() ==> (#[trigger] r@[i]).consistent_with(data) && valid_delimited(
                    r@[i].chromosome@,
                    data.spec_patient_count(),
                    data.nbr_nurses as nat,
                ),
    {
        let mut population: Vec<Route> = Vec::new();
        let mut k: usize = 0;
        while k < pop_size
            invariant
                data.wf(),
                data.spec_patient_count() >= 1,
                k <= pop_size,
                population@.len() == k,
                forall|i: int|
                    0 <= i < population@.len() ==> (#[trigger] population@[i]).consistent_with(
                        data,
                    ) && valid_delimited(
                        population@[i].chromosome@,
                        data.spec_patient_count(),
                        data.nbr_nurses as nat,
                    ),
            decreases pop_size - k,
        {
            population.push(nurse_distributed_route(rng, data));
            k = k + 1;
        }
        population
    }
}

/// An initial population of random delimited chromosomes.
pub fn init_pop_random(data: &TrainData, pop_size: usize, rng: &mut ChaCha8Rng) -> (r: Vec<Route>)
    requires
        data.wf(),
        data.spec_patient_count() == 100,
        data.nbr_nurses == 25,
    ensures
        r@.len() == pop_size,
        forall|i: int|
            0 <= i < r@.len() ==> (#[trigger] r@[i]).consistent_with(data) && valid_delimited(
                r@[i].chromosome@,
                data.spec_patient_count(),
                data.nbr_nurses as nat,
            ),
{
    let generator = RandomPopulation::new();
    generator.generate_population(data, pop_size, rng)
}

/// An initial population of random delimiter-free chromosomes.
pub fn init_pop_random_no_delim(data: &TrainData, pop_size: usize, rng: &mut ChaCha8Rng) -> (r:
    Vec<Route>)
    requires
        data.wf(),
        data.spec_patient_count() >= 1,
    ensures
        r@.len() == pop_size,
        forall|i: int|
            0 <= i < r@.len() ==> (#[trigger] r@[i]).consistent_with(data) && valid_no_delim(
                r@[i].chromosome@,
                data.spec_patient_count(),
            ),
{
    let generator = RandomPopulationNoDelim::new();
    generator.generate_population(data, pop_size, rng)
}

/// An initial population of evenly delimited chromosomes.
pub fn init_pop_even_chromosomes(data: &TrainData, pop_size: usize, rng: &mut ChaCha8Rng) -> (r:
    Vec<Route>)
    requires
        data.wf(),
        data.spec_patient_count() >= 1,
    ensures
        r@.len() == pop_size,
        forall|i: int|
            0 <= i < r@.len() ==> (#[trigger] r@[i]).consistent_with(data) && valid_delimited(
                r@[i].chromosome@,
                data.spec_patient_count(),
                data.nbr_nurses as nat,
            ),
{
    let generator = BalancedRoutes::new();
    generator.generate_population(data, pop_size, rng)
}


/// The population generator an island reseeds with.
pub enum PopulationGeneratorMethod {
    Random(RandomPopulation),
    RandomNoDelim(RandomPopulationNoDelim),
    Balanced(BalancedRoutes),
}

impl PopulationGeneratorMethod {
    /// What the generator demands of the instance.
    pub open spec fn pre(&self, t: &TrainData) -> bool {
        match self {
            PopulationGeneratorMethod::Random(_) => t.spec_patient_count() == 100
                && t.nbr_nurses == 25,
            _ => t.spec_patient_count() >= 1,
        }
    }

    /// The encoding every generated chromosome satisfies.
    pub open spec fn produces(&self, s: Seq<u16>, t: &TrainData) -> bool {
        match self {
            PopulationGeneratorMethod::RandomNoDelim(_) => valid_no_delim(
                s,
                t.spec_patient_count(),
            ),
            _ => valid_delimited(s, t.spec_patient_count(), t.nbr_nurses as nat),
        }
    }

    pub fn generate_population(
        &self,
        data: &TrainData,
        pop_size: usize,
        rng: &mut ChaCha8Rng,
    ) -> (r: Vec<Route>)
        requires
            data.wf(),
            self.pre(data),
        ensures
            r@.len() == pop_size,
            forall|i: int|
                0 <= i < r@.len() ==> (#[trigger] r@[i]).consistent_with(data) && self.produces(
                    r@[i].chromosome@,
                    data,
                ),
    {
        match self {
            PopulationGeneratorMethod::Random(g) => g.generate_population(data, pop_size, rng),
            PopulationGeneratorMethod::RandomNoDelim(g) => g.generate_population(
                data,
                pop_size,
                rng,
            ),
            PopulationGeneratorMethod::Balanced(g) => g.generate_population(data, pop_size, rng),
        }
    }
}

} // verus!
