use nurse_ga::chromosome::{Chromosome, valid_chromosome, valid_chromosome_nurseless};
use nurse_ga::instance::{TrainData, Depot, Patient};
use nurse_ga::individual::{Route, calculate_fitness};
use nurse_ga::helper::{hamming_distance, pop_std_dev, avg_fitness, best_fitness, keep_best_n};
use nurse_ga::crossover::{OrderOneCrossover, HeuristicCrossover, MergeCrossover};
use nurse_ga::mutation::{
    InversionMutation, ScrambleMutation, InRouteInversionMutation, InRouteSwapMutation,
    InRouteInsertMutation, CrossRouteSwapMutation, CrossRouteInsertMutation,
};
use nurse_ga::selection::{TournamentParentSelection, RouletteParentSelection, general_crowding, crowding_survivor};
use nurse_ga::gen_alg::{
    GenAlg, ParentSelectionMethod, SurvivorSelectionMethod, CrossoverMethod,
};
use nurse_ga::selection::ElitismSurvivorSelection;
use nurse_ga::population_init::{random_chromo, random_chromo_no_delimit, random_route};
use nurse_ga::island::{mutation_vec, select_migrants, absorb_migrant};
use nurse_ga::report::u64_string;
use rand_chacha::ChaCha8Rng;
use rand_chacha::rand_core::SeedableRng;

/// A patient with a wide-open window sitting at integer position `pos` on a
/// line; the depot is position zero.
fn line_patient(pos: u64) -> Patient {
    Patient {
        care_time: 1,
        demand: 1,
        end_time: 500_000,
        start_time: 0,
        x_coord: pos as i32,
        y_coord: 0,
    }
}

/// An instance with `positions.len()` patients on a line.
fn line_instance(nurses: usize, positions: &[u64]) -> TrainData {
    let np = positions.len();
    let mut all = vec![0u64];
    all.extend_from_slice(positions);
    let mut travel = Vec::new();
    for i in 0..np + 1 {
        let mut row = Vec::new();
        for j in 0..np + 1 {
            let d = if all[i] > all[j] { all[i] - all[j] } else { all[j] - all[i] };
            row.push(d);
        }
        travel.push(row);
    }
    TrainData {
        instance_name: String::from("line"),
        nbr_nurses: nurses,
        capacity_nurse: 1_000,
        depot: Depot { return_time: 500_000, x_coord: 0, y_coord: 0 },
        patients: positions.iter().map(|p| line_patient(*p)).collect(),
        travel_times: travel,
    }
}

/// The benchmark shape: one hundred patients, twenty-five nurses.
fn benchmark_instance() -> TrainData {
    let positions: Vec<u64> = (1..=100u64).map(|i| i * 3).collect();
    line_instance(25, &positions)
}

#[test]
fn probabilistic_crowding() {
    let mut rng = ChaCha8Rng::from_seed(Default::default());
    let better = Route::create(Chromosome { genes: vec![1, 2] }, 10, true);
    let worse = Route::create(Chromosome { genes: vec![2, 1] }, 20, true);
    for _ in 0..20 {
        // with zero selection pressure the lower fitness always survives
        assert_eq!(general_crowding(&worse, &better, 0, 1000, &mut rng), 0);
        assert_eq!(general_crowding(&better, &worse, 0, 1000, &mut rng), 1);
        let r = general_crowding(&better, &better, 0, 1000, &mut rng);
        assert!(r == 0 || r == 1);
    }
}

#[test]
fn deterministic_crowding() {
    let mut rng = ChaCha8Rng::from_seed(Default::default());
    let parent_one = Route::create(Chromosome { genes: vec![1, 2, 3] }, 30, true);
    let parent_two = Route::create(Chromosome { genes: vec![3, 2, 1] }, 50, true);
    for _ in 0..5 {
        // with zero pressure the draw always keeps the lower-fitness side:
        // a result of one names the first argument
        let winner = general_crowding(&parent_one, &parent_two, 0, 1000, &mut rng);
        assert_eq!(winner, 1);
    }
}

#[test]
fn crowding_survivor_keeps_better() {
    let mut rng = ChaCha8Rng::from_seed(Default::default());
    let better = Route::create(Chromosome { genes: vec![1, 2] }, 10, true);
    let worse = Route::create(Chromosome { genes: vec![2, 1] }, 20, true);
    for _ in 0..5 {
        // whichever side the better plan stands on, it survives a
        // zero-pressure draw
        let s1 = crowding_survivor(&worse, better.duplicate(), 0, 1000, &mut rng);
        assert_eq!(s1.fitness(), 10);
        let s2 = crowding_survivor(&better, worse.duplicate(), 0, 1000, &mut rng);
        assert_eq!(s2.fitness(), 10);
    }
}

#[test]
fn roulette_selection_draws_valid_parents() {
    let mut rng = ChaCha8Rng::from_seed(Default::default());
    let mut population: Vec<Route> = Vec::new();
    for i in 0..10u64 {
        population.push(Route::create(Chromosome { genes: vec![1] }, 100 + i, true));
    }
    let sel = RouletteParentSelection::new();
    for _ in 0..20 {
        let parents = sel.select(&mut rng, &population);
        assert!(parents.0 < population.len());
        assert!(parents.1 < population.len());
    }
}

#[test]
fn nurse_distributed_route() {
    let mut rng = ChaCha8Rng::from_seed(Default::default());
    let data = benchmark_instance();
    let t = nurse_ga::population_init::nurse_distributed_route(&mut rng, &data);
    assert!(valid_chromosome(t.chromosome()));
}

#[test]
fn valid_random_chromosome() {
    let mut rng = ChaCha8Rng::from_seed(Default::default());
    let data = benchmark_instance();
    let roote = random_route(&mut rng, &data);
    assert!(valid_chromosome(roote.chromosome()));
}

#[test]
fn hamming() {
    let mut rng = ChaCha8Rng::from_seed([43; 32]);
    let data = benchmark_instance();
    let parent1 = random_chromo(&mut rng);
    let parent2 = random_chromo(&mut rng);

    let crossover = OrderOneCrossover::new();
    let child = crossover.crossover(&mut rng, &parent1, &parent2, &data);
    let child_2 = crossover.crossover(&mut rng, &parent2, &parent1, &data);

    println!("{:?}", hamming_distance(&parent1, &child));
    println!("{:?}", hamming_distance(&parent1, &child_2));
    println!("{:?}", hamming_distance(&parent2, &child));
    println!("{:?}", hamming_distance(&parent2, &child_2));
}

#[test]
fn tournament_selection() {
    let mut rng = ChaCha8Rng::from_seed(Default::default());
    let data = benchmark_instance();
    let mut population: Vec<Route> = Vec::new();
    for _ in 0..100 {
        population.push(Route::new(random_chromo(&mut rng), &data));
    }
    let parent_s = TournamentParentSelection::new(2);
    let parents = parent_s.select(&mut rng, &population);
    assert!(parents.0 < population.len());
    assert!(parents.1 < population.len());
    assert_ne!(parents.0, parents.1);
    println!("{:?} {:?}", population[parents.0].fitness(), population[parents.1].fitness());
}

#[test]
fn order_one_crossover() {
    let mut rng = ChaCha8Rng::from_seed(Default::default());
    let data = benchmark_instance();
    let parent_one = random_chromo(&mut rng);
    let parent_two = random_chromo(&mut rng);
    assert_ne!(&parent_one.genes, &parent_two.genes);

    let crossover = OrderOneCrossover::new();
    let chromie = crossover.crossover(&mut rng, &parent_one, &parent_two, &data);
    assert!(valid_chromosome(&chromie));
}

#[test]
fn heuristic_crossover() {
    let mut rng = ChaCha8Rng::from_seed(Default::default());
    let data = benchmark_instance();
    let parent_one = random_chromo_no_delimit(&mut rng, 100);
    let parent_two = random_chromo_no_delimit(&mut rng, 100);
    assert_ne!(&parent_one.genes, &parent_two.genes);

    let crossover = HeuristicCrossover::new();
    let chromie = crossover.crossover(&mut rng, &parent_one, &parent_two, &data);
    assert!(valid_chromosome_nurseless(&chromie));
}

#[test]
fn merge_crossover() {
    let mut rng = ChaCha8Rng::from_seed(Default::default());
    let data = benchmark_instance();
    let parent_one = random_chromo_no_delimit(&mut rng, 100);
    let parent_two = random_chromo_no_delimit(&mut rng, 100);
    assert_ne!(&parent_one.genes, &parent_two.genes);

    let crossover = MergeCrossover::new();
    let chromie = crossover.crossover(&mut rng, &parent_one, &parent_two, &data);
    assert!(valid_chromosome_nurseless(&chromie));
}

#[test]
fn chromosome_inversion() {
    let mut rng = ChaCha8Rng::from_seed(Default::default());
    let mut chromo = random_chromo(&mut rng);
    let mutation = InversionMutation::new(1000);
    let chromo_copy = chromo.duplicate();
    mutation.mutate(&mut rng, &mut chromo);
    println!("{:?}", chromo);
    println!("{:?}", chromo_copy);
    assert_ne!(chromo.genes, chromo_copy.genes);
}

#[test]
fn in_route_inversion() {
    let mut rng = ChaCha8Rng::from_seed(Default::default());
    let mut chromo = random_chromo(&mut rng);
    let mutation = InRouteInversionMutation::new(1000);
    let chromo_copy = chromo.duplicate();
    mutation.mutate(&mut rng, &mut chromo);
    println!("{:?}", chromo);
    println!("{:?}", chromo_copy);
    assert_ne!(chromo.genes, chromo_copy.genes);
}

#[test]
fn in_route_swap() {
    let mut rng = ChaCha8Rng::from_seed(Default::default());
    let mut chromo = random_chromo(&mut rng);
    let mutation = InRouteSwapMutation::new(1000);
    let chromo_copy = chromo.duplicate();
    mutation.mutate(&mut rng, &mut chromo);
    println!("{:?}", chromo);
    println!("{:?}", chromo_copy);
    assert_ne!(chromo.genes, chromo_copy.genes);
    assert_eq!(hamming_distance(&chromo, &chromo_copy), 2);
}

#[test]
fn in_route_insert() {
    let mut rng = ChaCha8Rng::from_seed(Default::default());
    let mut chromo = random_chromo(&mut rng);
    let mutation = InRouteInsertMutation::new(1000);
    let chromo_copy = chromo.duplicate();
    mutation.mutate(&mut rng, &mut chromo);
    println!("{:?}", chromo);
    println!("{:?}", chromo_copy);
    assert_ne!(chromo.genes, chromo_copy.genes);
}

#[test]
fn cross_route_insert() {
    let mut rng = ChaCha8Rng::from_seed(Default::default());
    let mut chromo = random_chromo(&mut rng);
    let mutation = CrossRouteInsertMutation::new(1000);
    let chromo_copy = chromo.duplicate();
    mutation.mutate(&mut rng, &mut chromo);
    println!("{:?}", chromo);
    println!("{:?}", chromo_copy);
    assert_ne!(chromo.genes, chromo_copy.genes);
}

#[test]
fn cross_route_swap() {
    let mut rng = ChaCha8Rng::from_seed(Default::default());
    let mut chromo = random_chromo(&mut rng);
    let mutation = CrossRouteSwapMutation::new(1000);
    let chromo_copy = chromo.duplicate();
    mutation.mutate(&mut rng, &mut chromo);
    println!("{:?}", chromo);
    println!("{:?}", chromo_copy);
    assert_ne!(chromo.genes, chromo_copy.genes);
}

#[test]
fn split_into_nurses() {
    let mut rng = ChaCha8Rng::from_seed(Default::default());
    let chromo = random_chromo(&mut rng);
    let mongo = nurse_ga::helper::split_into_nurses(&chromo);
    println!("{:?}", mongo);
    println!("{:?}", chromo);
    assert_eq!(mongo.len(), 25);
}

#[test]
fn push_forward_insertion() {
    let mut rng = ChaCha8Rng::from_seed(Default::default());
    let chromo = random_chromo_no_delimit(&mut rng, 100);
    let data = benchmark_instance();
    let test_t = nurse_ga::helper::push_forward_insertion(&chromo, &data);
    let flat: Vec<u16> = test_t.into_iter().flatten().collect();
    assert!(valid_chromosome_nurseless(&Chromosome { genes: flat }));
}

#[test]
fn fitness_nurseless() {
    let mut rng = ChaCha8Rng::from_seed(Default::default());
    let data = benchmark_instance();
    let chromo = random_chromo_no_delimit(&mut rng, 100);

    let mut chromo_no_nurse = chromo.duplicate();
    chromo_no_nurse.genes.retain(|&x| x != 0);

    let fitness_nurse = calculate_fitness(&chromo, &data);
    let fitness_no_nurse = calculate_fitness(&chromo_no_nurse, &data);
    println!("{:?}", fitness_no_nurse);
    println!("{:?}", fitness_nurse);
    assert_eq!(fitness_nurse, fitness_no_nurse);
}

#[test]
fn combine_into_chromo() {
    let mut rng = ChaCha8Rng::from_seed(Default::default());
    let chromo = random_chromo(&mut rng);
    let mongo = nurse_ga::helper::split_into_nurses(&chromo);
    let t = nurse_ga::helper::combine_into_chromo(&mongo);
    println!("{:?}", mongo);
    println!("{:?}", chromo);
    println!("{:?}", t);
    assert_eq!(chromo.genes, t.genes);
}

#[test]
fn chromosome_scramble() {
    let mut rng = ChaCha8Rng::from_seed(Default::default());
    let mut chromo = random_chromo(&mut rng);
    let mutation = ScrambleMutation::new(1000);
    let chromo_copy = chromo.duplicate();
    mutation.mutate(&mut rng, &mut chromo);
    println!("{:?}", chromo);
    println!("{:?}", chromo_copy);
    assert_ne!(chromo.genes, chromo_copy.genes);
}

#[test]
fn mutations_preserve_validity() {
    let mut rng = ChaCha8Rng::from_seed([7; 32]);
    for _ in 0..10 {
        let mut chromo = random_chromo(&mut rng);
        InRouteInversionMutation::new(1000).mutate(&mut rng, &mut chromo);
        assert!(valid_chromosome(&chromo));
        InRouteSwapMutation::new(1000).mutate(&mut rng, &mut chromo);
        assert!(valid_chromosome(&chromo));
        InRouteInsertMutation::new(1000).mutate(&mut rng, &mut chromo);
        assert!(valid_chromosome(&chromo));
        CrossRouteSwapMutation::new(1000).mutate(&mut rng, &mut chromo);
        assert!(valid_chromosome(&chromo));
        CrossRouteInsertMutation::new(1000).mutate(&mut rng, &mut chromo);
        assert!(valid_chromosome(&chromo));
        InversionMutation::new(1000).mutate(&mut rng, &mut chromo);
        assert!(valid_chromosome(&chromo));
        ScrambleMutation::new(1000).mutate(&mut rng, &mut chromo);
        assert!(valid_chromosome(&chromo));
    }
}

#[test]
fn hamming_properties() {
    let a = Chromosome { genes: vec![1, 2, 3, 4] };
    let b = Chromosome { genes: vec![1, 3, 2, 4] };
    let c = Chromosome { genes: vec![4, 3, 2, 1] };
    // symmetric
    assert_eq!(hamming_distance(&a, &b), hamming_distance(&b, &a));
    // zero exactly on identical chromosomes
    assert_eq!(hamming_distance(&a, &a), 0);
    assert!(hamming_distance(&a, &b) > 0);
    // equal to the length exactly when every position differs
    assert_eq!(hamming_distance(&a, &c), 4);
    assert_eq!(hamming_distance(&a, &b), 2);
}

#[test]
fn split_combine_small() {
    let chromo = Chromosome { genes: vec![3, 7, 0, 1, 0, 5, 2] };
    let split = nurse_ga::helper::split_into_nurses(&chromo);
    assert_eq!(split, vec![vec![3, 7], vec![1], vec![5, 2]]);
    let back = nurse_ga::helper::combine_into_chromo(&split);
    assert_eq!(back.genes, chromo.genes);
}

#[test]
fn fitness_exact_delimited() {
    // two patients at positions 1 and 2, two nurses, no violations:
    // routes [1] and [2] travel 2 + 4 = 6, cost in tenths is 60
    let data = line_instance(2, &[1, 2]);
    let chromo = Chromosome { genes: vec![1, 0, 2] };
    assert_eq!(calculate_fitness(&chromo, &data), (60, 0));
}

#[test]
fn fitness_exact_delimited_with_break() {
    // the second patient's window closes before care can end there
    let mut data = line_instance(2, &[1, 2]);
    data.patients[1].end_time = 1;
    let chromo = Chromosome { genes: vec![1, 0, 2] };
    // travel 6, one break: 6 * (10 + 3) = 78
    assert_eq!(calculate_fitness(&chromo, &data), (78, 1));
}

#[test]
fn fitness_exact_no_delim() {
    // the strict window arithmetic of push-forward insertion sends each
    // patient to its own route here: travel 6, additive penalties zero
    let data = line_instance(2, &[1, 2]);
    let routes = nurse_ga::helper::push_forward_insertion(&Chromosome { genes: vec![1, 2] }, &data);
    assert_eq!(routes, vec![vec![1], vec![2]]);
    let chromo = Chromosome { genes: vec![1, 2] };
    assert_eq!(calculate_fitness(&chromo, &data), (60, 0));
}

#[test]
fn fitness_paths_agree_without_breaks() {
    // the delimited plan [1],[2] and its delimiter-stripped form rebuild
    // the same routes and carry no breaks, so both paths report the same
    // cost and violation count
    let data = line_instance(2, &[1, 2]);
    let delimited = Chromosome { genes: vec![1, 0, 2] };
    let stripped = Chromosome { genes: vec![1, 2] };
    assert_eq!(calculate_fitness(&delimited, &data), calculate_fitness(&stripped, &data));
}

#[test]
fn format_chromosome_text() {
    let chromo = Chromosome { genes: vec![3, 7, 1, 0, 5, 2] };
    assert_eq!(chromo.format_chromosome(), "[[3,7,1],[5,2]]");
    let single = Chromosome { genes: vec![12] };
    assert_eq!(single.format_chromosome(), "[[12]]");
    let with_empty = Chromosome { genes: vec![4, 0] };
    assert_eq!(with_empty.format_chromosome(), "[[4],[]]");
}

#[test]
fn decimal_rendering() {
    assert_eq!(u64_string(0), "0");
    assert_eq!(u64_string(7), "7");
    assert_eq!(u64_string(42), "42");
    assert_eq!(u64_string(1234), "1234");
}

#[test]
fn population_statistics() {
    let a = Route::create(Chromosome { genes: vec![1, 2] }, 100, true);
    let b = Route::create(Chromosome { genes: vec![2, 1] }, 200, true);
    let pop = vec![a, b];
    assert_eq!(avg_fitness(&pop), 150);
    // variance around the mean is 5000; its floor square root is 70
    assert_eq!(pop_std_dev(&pop), 70);
    let best = best_fitness(&pop);
    assert_eq!(best.fitness(), 100);
}

#[test]
fn keep_best_n_keeps_best() {
    let mut pop = vec![
        Route::create(Chromosome { genes: vec![1] }, 30, true),
        Route::create(Chromosome { genes: vec![1] }, 10, true),
        Route::create(Chromosome { genes: vec![1] }, 20, true),
    ];
    keep_best_n(&mut pop, 2);
    assert_eq!(pop.len(), 2);
    assert_eq!(pop[0].fitness(), 10);
    assert_eq!(pop[1].fitness(), 20);
}

#[test]
fn migration_exchange() {
    let mut rng = ChaCha8Rng::from_seed(Default::default());
    let data = line_instance(1, &[4, 8, 12, 16, 21]);
    let holder = mutation_vec(&mut rng);
    let ga = GenAlg::new(
        SurvivorSelectionMethod::Elitism(ElitismSurvivorSelection::new()),
        ParentSelectionMethod::Tournament(TournamentParentSelection::new(2)),
        CrossoverMethod::OrderOne(OrderOneCrossover::new()),
        data.clone(),
        holder,
    );
    let mut pop: Vec<Route> = (0..6)
        .map(|_| Route::new(random_chromo_no_delimit(&mut rng, 5), &data))
        .collect();
    let migrants = select_migrants(&pop, &mut rng, 2);
    assert_eq!(migrants.len(), 2);
    // a migrant with the right shape joins; one with the wrong shape is dropped
    let good = migrants.into_iter().next().unwrap();
    assert!(absorb_migrant(&ga, &mut pop, good));
    assert_eq!(pop.len(), 7);
    let bad = Route::create(Chromosome { genes: vec![1, 1, 1] }, 0, true);
    assert!(!absorb_migrant(&ga, &mut pop, bad));
    assert_eq!(pop.len(), 7);
}

#[test]
fn engine_converges_on_toy_tour() {
    // five patients on a line; the best single-nurse tour travels 42, and
    // with no violations the reported cost is 420 tenths
    let mut rng = ChaCha8Rng::from_seed([5; 32]);
    let data = line_instance(1, &[4, 8, 12, 16, 21]);
    let holder = mutation_vec(&mut rng);
    let mut ga = GenAlg::new(
        SurvivorSelectionMethod::Elitism(ElitismSurvivorSelection::new()),
        ParentSelectionMethod::Tournament(TournamentParentSelection::new(2)),
        CrossoverMethod::OrderOne(OrderOneCrossover::new()),
        data.clone(),
        holder,
    );
    let mut pop: Vec<Route> = (0..30)
        .map(|_| Route::new(random_chromo_no_delimit(&mut rng, 5), &data))
        .collect();
    for _ in 0..60 {
        pop = ga.evolve(&mut rng, &pop);
    }
    let best = best_fitness(&pop);
    assert_eq!(best.fitness(), 420);
    assert!(best.feasible());
}
