use std::cell::Cell;

use jerome::factor::{Factor, Table};
use jerome::init::Initialization;
use jerome::model::directed::{DirectedModel, DirectedModelBuilder};
use jerome::model::undirected::UndirectedModelBuilder;
use jerome::samplers::{
    ForwardSampler, GibbsSampler, IndependentSampler, IndependentWeightedSampler, LikelihoodWeightedSampler, Sampler,
    WeightedSample, WeightedSampler,
};
use jerome::variable::{Arena, Assignment, Variable};
use jerome::weight::{Arithmetic, Chance};

struct Reals;

impl Arithmetic<f64> for Reals {
    fn zero(&self) -> f64 {
        0.0
    }

    fn one(&self) -> f64 {
        1.0
    }

    fn plus(&self, a: f64, b: f64) -> f64 {
        a + b
    }

    fn minus(&self, a: f64, b: f64) -> f64 {
        a - b
    }

    fn times(&self, a: f64, b: f64) -> f64 {
        a * b
    }

    fn over(&self, a: f64, b: f64) -> f64 {
        a / b
    }

    fn less(&self, a: f64, b: f64) -> bool {
        a < b
    }

    fn equal(&self, a: f64, b: f64) -> bool {
        a == b
    }

    fn near(&self, a: f64, b: f64) -> bool {
        (a - b).abs() <= 0.001
    }

    fn count(&self, n: usize) -> f64 {
        n as f64
    }
}

/// A source of draws that gives the same draws in every run.
struct Dice {
    state: Cell<u64>,
}

impl Dice {
    fn new(seed: u64) -> Self {
        Dice { state: Cell::new(seed) }
    }
}

impl Chance<f64> for Dice {
    fn uniform(&self) -> f64 {
        let state = self.state.get().wrapping_add(0x9E37_79B9_7F4A_7C15);
        self.state.set(state);
        let mut z = state;
        z = (z ^ (z >> 30)).wrapping_mul(0xBF58_476D_1CE4_E5B9);
        z = (z ^ (z >> 27)).wrapping_mul(0x94D0_49BB_1331_11EB);
        z ^= z >> 31;
        ((z >> 11) as f64) / ((1u64 << 53) as f64)
    }
}

fn table(shape: Vec<usize>, data: Vec<f64>) -> Table<f64> {
    Table::from_shape_vec(shape, data).expect("Unexpected error")
}

fn assign(pairs: &[(Variable, usize)]) -> Assignment {
    let mut assn = Assignment::new();
    for (v, x) in pairs {
        assert!(assn.set(v, *x).is_none());
    }
    assn
}

/// Example taken from Koller & Friedman Figure 12.1 and Example 2.3
fn student(arena: &mut Arena, dice: &Dice) -> (Variable, Variable, Variable, Variable, Variable, DirectedModel<f64>) {
    let d = Variable::binary(arena);
    let i = Variable::binary(arena);
    let g = Variable::discrete(arena, 3);
    let s = Variable::binary(arena);
    let l = Variable::binary(arena);

    let cpd_g = Factor::cpd(
        g,
        vec![i, d],
        table(vec![2, 2, 3], vec![0.3, 0.4, 0.3, 0.05, 0.25, 0.7, 0.9, 0.08, 0.02, 0.5, 0.3, 0.2]),
        &Reals,
    )
    .unwrap();

    let cpd_l = Factor::cpd(l, vec![g], table(vec![3, 2], vec![0.1, 0.9, 0.4, 0.6, 0.99, 0.01]), &Reals).unwrap();
    let cpd_s = Factor::cpd(s, vec![i], table(vec![2, 2], vec![0.95, 0.05, 0.2, 0.8]), &Reals).unwrap();

    let model = DirectedModelBuilder::new()
        .with_variable(&d, vec![], Initialization::Binomial(0.6), &Reals, dice)
        .with_variable(&i, vec![], Initialization::Binomial(0.7), &Reals, dice)
        .with_variable(&g, vec![i, d], Initialization::Table(cpd_g), &Reals, dice)
        .with_variable(&s, vec![i], Initialization::Table(cpd_s), &Reals, dice)
        .with_variable(&l, vec![g], Initialization::Table(cpd_l), &Reals, dice)
        .build()
        .unwrap();
    (d, i, g, s, l, model)
}

#[test]
fn forward_sample() {
    let dice = Dice::new(42);
    let mut arena = Arena::new();
    let intelligence = Variable::binary(&mut arena);
    let sat = Variable::binary(&mut arena);

    let sfactor = Factor::cpd(sat, vec![intelligence], table(vec![2, 2], vec![0.95, 0.05, 0.2, 0.8]), &Reals).unwrap();

    let b = DirectedModelBuilder::new();
    let model = b
        .with_named_variable(&intelligence, "I", Vec::new(), Initialization::Multinomial(vec![0.7, 0.3]), &Reals, &dice)
        .with_named_variable(&sat, "S", vec![intelligence], Initialization::Table(sfactor), &Reals, &dice)
        .build()
        .unwrap();

    let mut sampler = ForwardSampler::new(&model, &Reals, &dice);

    for _ in 0..100 {
        let a = sampler.sample();

        assert!(a.get(&intelligence).is_some());
        assert!(*a.get(&intelligence).unwrap() <= 1);
        assert!(a.get(&sat).is_some());
        assert!(*a.get(&sat).unwrap() <= 1);
    }

    for _ in 0..100 {
        let a = sampler.ind_sample();

        assert!(a.get(&intelligence).is_some());
        assert!(*a.get(&intelligence).unwrap() <= 1);
        assert!(a.get(&sat).is_some());
        assert!(*a.get(&sat).unwrap() <= 1);
    }
}

#[test]
fn forward_sampler_follows_the_distribution() {
    let dice = Dice::new(2024);
    let mut arena = Arena::new();
    let (d, i, g, s, l, model) = student(&mut arena, &dice);
    let sampler = ForwardSampler::new(&model, &Reals, &dice);
    let n = 20000;
    let mut d0 = 0;
    let mut s1_given_i1 = 0;
    let mut i1 = 0;
    for _ in 0..n {
        let a = sampler.get_sample();
        assert_eq!(5, a.len());
        assert!(*a.get(&g).unwrap() < 3);
        assert!(*a.get(&l).unwrap() < 2);
        if *a.get(&d).unwrap() == 0 {
            d0 += 1;
        }
        if *a.get(&i).unwrap() == 1 {
            i1 += 1;
            if *a.get(&s).unwrap() == 1 {
                s1_given_i1 += 1;
            }
        }
    }
    assert!(((d0 as f64) / (n as f64) - 0.6).abs() < 0.02);
    assert!(((i1 as f64) / (n as f64) - 0.3).abs() < 0.02);
    assert!(((s1_given_i1 as f64) / (i1 as f64) - 0.8).abs() < 0.02);
}

#[test]
fn likelihood_sample() {
    let dice = Dice::new(42);
    let mut arena = Arena::new();
    let (d, i, g, s, l, model) = student(&mut arena, &dice);

    let evidence = assign(&[(l, 0), (s, 1)]);

    let mut sampler = LikelihoodWeightedSampler::new(&model, &evidence, &Reals, &dice);
    for _ in 0..100 {
        let WeightedSample(particle, weight) = sampler.weighted_sample();

        assert!(particle.get(&d).is_some());
        assert!(*particle.get(&d).unwrap() < 2);
        assert!(particle.get(&i).is_some());
        assert!(*particle.get(&i).unwrap() < 2);
        assert!(particle.get(&g).is_some());
        assert!(*particle.get(&g).unwrap() < 3);

        assert!(particle.get(&s).is_some());
        assert_eq!(*particle.get(&s).unwrap(), 1);
        assert!(particle.get(&l).is_some());
        assert_eq!(*particle.get(&l).unwrap(), 0);

        assert!(weight >= 0.0);
        assert!(weight <= 1.0);
    }

    for _ in 0..100 {
        let WeightedSample(particle, weight) = sampler.ind_weighted_sample();

        assert!(particle.get(&d).is_some());
        assert!(*particle.get(&d).unwrap() < 2);
        assert!(particle.get(&i).is_some());
        assert!(*particle.get(&i).unwrap() < 2);
        assert!(particle.get(&g).is_some());
        assert!(*particle.get(&g).unwrap() < 3);

        assert!(particle.get(&s).is_some());
        assert_eq!(*particle.get(&s).unwrap(), 1);
        assert!(particle.get(&l).is_some());
        assert_eq!(*particle.get(&l).unwrap(), 0);

        assert!(weight >= 0.0);
        assert!(weight <= 1.0);
    }

    // verify the weight in example 12.3
    loop {
        let WeightedSample(particle, weight) = sampler.weighted_sample();

        let dval = *particle.get(&d).unwrap();
        let ival = *particle.get(&i).unwrap();
        let gval = *particle.get(&g).unwrap();

        if dval == 1 && ival == 0 && gval == 1 {
            assert!((weight - 0.02).abs() < 0.001);
            // the weight is the product of the entries of the factors of the evidence, in order
            assert_eq!(1.0 * 0.05 * 0.4, weight);
            break;
        }
    }
}

#[test]
fn directed_student() {
    let dice = Dice::new(42);
    let mut arena = Arena::new();
    let (d, i, g, s, l, model) = student(&mut arena, &dice);

    let evidence = assign(&[(l, 0), (s, 1)]);

    // need a better way to test this
    let mut sampler = GibbsSampler::for_directed(&model, &evidence, &Reals, &dice);
    for _ in 0..100 {
        let particle = sampler.sample();

        assert!(particle.get(&d).is_some());
        assert!(*particle.get(&d).unwrap() < 2);
        assert!(particle.get(&i).is_some());
        assert!(*particle.get(&i).unwrap() < 2);
        assert!(particle.get(&g).is_some());
        assert!(*particle.get(&g).unwrap() < 3);

        assert!(particle.get(&s).is_some());
        assert_eq!(*particle.get(&s).unwrap(), 1);
        assert!(particle.get(&l).is_some());
        assert_eq!(*particle.get(&l).unwrap(), 0);
    }
}

/// Undirected equivalent of example taken from Koller & Friedman Figure 12.1 and Example 2.3
#[test]
fn undirected_student() {
    let dice = Dice::new(42);
    let mut arena = Arena::new();
    let d = Variable::binary(&mut arena);
    let i = Variable::binary(&mut arena);
    let g = Variable::discrete(&mut arena, 3);
    let s = Variable::binary(&mut arena);
    let l = Variable::binary(&mut arena);

    let cpd_g = Factor::new(
        vec![i, d, g],
        table(vec![2, 2, 3], vec![0.3, 0.4, 0.3, 0.05, 0.25, 0.7, 0.9, 0.08, 0.02, 0.5, 0.3, 0.2]),
        false,
        &Reals,
    )
    .unwrap();

    let cpd_l = Factor::new(vec![g, l], table(vec![3, 2], vec![0.1, 0.9, 0.4, 0.6, 0.99, 0.01]), false, &Reals).unwrap();
    let cpd_s = Factor::new(vec![i, s], table(vec![2, 2], vec![0.95, 0.05, 0.2, 0.8]), false, &Reals).unwrap();

    let model = UndirectedModelBuilder::new()
        .with_factor(vec![d], Initialization::Binomial(0.6), &Reals, &dice)
        .with_factor(vec![i], Initialization::Binomial(0.7), &Reals, &dice)
        .with_factor(vec![i, d, g], Initialization::Table(cpd_g), &Reals, &dice)
        .with_factor(vec![i, s], Initialization::Table(cpd_s), &Reals, &dice)
        .with_factor(vec![g, l], Initialization::Table(cpd_l), &Reals, &dice)
        .build(&Reals)
        .unwrap();

    let evidence = assign(&[(l, 0), (s, 1)]);

    // need a better way to test this
    let mut sampler = GibbsSampler::for_undirected(&model, &evidence, &Reals, &dice);
    for _ in 0..100 {
        let particle = sampler.sample();

        assert!(particle.get(&d).is_some());
        assert!(*particle.get(&d).unwrap() < 2);
        assert!(particle.get(&i).is_some());
        assert!(*particle.get(&i).unwrap() < 2);
        assert!(particle.get(&g).is_some());
        assert!(*particle.get(&g).unwrap() < 3);

        assert!(particle.get(&s).is_some());
        assert_eq!(*particle.get(&s).unwrap(), 1);
        assert!(particle.get(&l).is_some());
        assert_eq!(*particle.get(&l).unwrap(), 0);
    }
}

/// test to verify correctness of sampling method
/// Constructs a directed network as follows:
///     A  B
///     \  /
///      C
/// And uses C as evidence. This way, A and B are independent given the evidence and we can
/// verify that the sampling is consistent with the distribution of A and B
#[test]
fn directed_test() {
    let dice = Dice::new(42);
    let mut arena = Arena::new();
    let a = Variable::binary(&mut arena);
    let b = Variable::binary(&mut arena);
    let c = Variable::binary(&mut arena);

    let model = DirectedModelBuilder::new()
        .with_variable(&a, vec![], Initialization::Binomial(0.75), &Reals, &dice)
        .with_variable(&b, vec![], Initialization::Binomial(0.5), &Reals, &dice)
        .with_variable(&c, vec![a, b], Initialization::Uniform, &Reals, &dice)
        .build()
        .unwrap();

    let evidence = assign(&[(c, 0)]);

    let mut sampler = GibbsSampler::for_directed(&model, &evidence, &Reals, &dice);

    let mut a_ct = 0;
    let mut b_ct = 0;
    let iters = 500;

    for _ in 0..iters {
        let particle = sampler.sample();

        a_ct = a_ct + *particle.get(&a).unwrap();
        b_ct = b_ct + *particle.get(&b).unwrap();
    }

    let p_a = 1.0 - (a_ct as f64) / (iters as f64);
    let p_b = 1.0 - (b_ct as f64) / (iters as f64);
    println!("A Statistics = {}", p_a);
    println!("B Statistics = {}", p_b);

    assert!((p_a - 0.75).abs() < 0.05);
    assert!((p_b - 0.5).abs() < 0.05);
}

#[test]
fn gibbs_follows_the_distribution() {
    let dice = Dice::new(77);
    let mut arena = Arena::new();
    let a = Variable::binary(&mut arena);
    let b = Variable::binary(&mut arena);
    let c = Variable::binary(&mut arena);

    let model = DirectedModelBuilder::new()
        .with_variable(&a, vec![], Initialization::Binomial(0.75), &Reals, &dice)
        .with_variable(&b, vec![], Initialization::Binomial(0.5), &Reals, &dice)
        .with_variable(&c, vec![a, b], Initialization::Uniform, &Reals, &dice)
        .build()
        .unwrap();

    let evidence = assign(&[(c, 0)]);
    let mut sampler = GibbsSampler::for_directed(&model, &evidence, &Reals, &dice);
    let iters = 40000;
    let mut a_ct = 0;
    let mut b_ct = 0;
    for _ in 0..iters {
        let particle = sampler.sample();
        a_ct += *particle.get(&a).unwrap();
        b_ct += *particle.get(&b).unwrap();
    }
    assert!(((a_ct as f64) / (iters as f64) - 0.25).abs() < 0.01);
    assert!(((b_ct as f64) / (iters as f64) - 0.5).abs() < 0.01);
}

#[test]
fn gibbs_keeps_the_evidence_in_a_long_run() {
    let dice = Dice::new(9);
    let mut arena = Arena::new();
    let (d, i, g, s, l, model) = student(&mut arena, &dice);
    let evidence = assign(&[(g, 2), (d, 1)]);
    let mut sampler = GibbsSampler::for_directed(&model, &evidence, &Reals, &dice);
    let mut seen = [0usize; 2];
    for _ in 0..5000 {
        let particle = sampler.get_sample();
        assert_eq!(5, particle.len());
        assert_eq!(Some(&2), particle.get(&g));
        assert_eq!(Some(&1), particle.get(&d));
        assert!(*particle.get(&s).unwrap() < 2);
        assert!(*particle.get(&l).unwrap() < 2);
        seen[*particle.get(&i).unwrap()] += 1;
    }
    // P(i = 1 | g = 2, d = 1) = 0.3 * 0.2 / (0.3 * 0.2 + 0.7 * 0.7)
    let expected = 0.06 / 0.55;
    assert!(((seen[1] as f64) / 5000.0 - expected).abs() < 0.02);
    // the free variables do change
    assert!(seen[0] > 0 && seen[1] > 0);
}

#[test]
fn gibbs_with_no_free_variable() {
    let dice = Dice::new(9);
    let mut arena = Arena::new();
    let (d, i, g, s, l, model) = student(&mut arena, &dice);
    let evidence = assign(&[(d, 0), (i, 1), (g, 2), (s, 0), (l, 1)]);
    let mut sampler = GibbsSampler::for_directed(&model, &evidence, &Reals, &dice);
    for _ in 0..10 {
        let particle = sampler.sample();
        assert_eq!(Some(&0), particle.get(&d));
        assert_eq!(Some(&1), particle.get(&i));
        assert_eq!(Some(&2), particle.get(&g));
        assert_eq!(Some(&0), particle.get(&s));
        assert_eq!(Some(&1), particle.get(&l));
    }
}

#[test]
fn gibbs_first_state_of_an_undirected_model() {
    let dice = Dice::new(9);
    let mut arena = Arena::new();
    let a = Variable::discrete(&mut arena, 7);
    let b = Variable::binary(&mut arena);
    let joint = Factor::new(vec![a, b], table(vec![7, 2], vec![1.0; 14]), false, &Reals).unwrap();
    let model = UndirectedModelBuilder::new()
        .with_factor(vec![a, b], Initialization::Table(joint), &Reals, &dice)
        .build(&Reals)
        .unwrap();
    // the first state is chosen at random: over many samplers every state of `a` is seen
    let mut seen = [false; 7];
    for _ in 0..400 {
        let evidence = assign(&[(b, 1)]);
        let mut sampler = GibbsSampler::for_undirected(&model, &evidence, &Reals, &dice);
        let particle = sampler.sample();
        assert_eq!(Some(&1), particle.get(&b));
        let state = *particle.get(&a).unwrap();
        assert!(state < 7);
        seen[state] = true;
    }
    assert!(seen.iter().all(|x| *x));
}

#[test]
fn samplers_read_a_table_that_holds_its_variable_first() {
    let dice = Dice::new(7);
    let mut arena = Arena::new();
    let a = Variable::binary(&mut arena);
    let b = Variable::discrete(&mut arena, 3);
    // `b` is in its first state when `a` is in its first, and in its last when `a` is in its second
    let first = Factor::new(vec![b, a], table(vec![3, 2], vec![1., 0., 0., 0., 0., 1.]), false, &Reals).unwrap();
    assert_eq!(0, first.sample_for(&b, &assign(&[(a, 0)]), 0.999, &Reals).unwrap());
    assert_eq!(2, first.sample_for(&b, &assign(&[(a, 1)]), 0.001, &Reals).unwrap());
    let first = match first {
        Factor::TableFactor { scope, table, .. } => Factor::TableFactor { scope, table, cpd: true },
        other => other,
    };
    let model = DirectedModelBuilder::new()
        .with_variable(&a, vec![], Initialization::Binomial(0.5), &Reals, &dice)
        .with_variable(&b, vec![a], Initialization::Table(first), &Reals, &dice)
        .build()
        .unwrap();
    assert!(model.can_be_sampled(&Reals));

    let sampler = ForwardSampler::new(&model, &Reals, &dice);
    let mut seen = [0, 0];
    for _ in 0..200 {
        let sample = sampler.get_sample();
        let state = *sample.get(&a).unwrap();
        assert_eq!(2 * state, *sample.get(&b).unwrap());
        seen[state] += 1;
    }
    assert!(seen[0] > 0 && seen[1] > 0);

    let evidence = assign(&[(b, 2)]);
    let mut sampler = LikelihoodWeightedSampler::new(&model, &evidence, &Reals, &dice);
    for _ in 0..200 {
        let WeightedSample(sample, weight) = sampler.weighted_sample();
        assert_eq!(2, *sample.get(&b).unwrap());
        let state = *sample.get(&a).unwrap();
        assert_eq!(state as f64, weight);
    }
}
