use std::cell::Cell;

use jerome::factor::{Factor, Table};
use jerome::inference::order::{count_marked, max_cardinality_elimination_order, neighbors, pick};
use jerome::inference::variable_elimination::{multiply_all, split};
use jerome::inference::{ConditionalInferenceEngine, ImportanceSamplingEngine, McmcEngine, VariableEliminationEngine};
use jerome::init::Initialization;
use jerome::model::directed::{DirectedModel, DirectedModelBuilder};
use jerome::model::undirected::UndirectedModel;
use jerome::samplers::GibbsSampler;
use jerome::util::JeromeError;
use jerome::variable::{Arena, Assignment, Variable};
use jerome::weight::{Arithmetic, Chance};

struct Reals;

impl Arithmetic<f64> for Reals {
    fn zero(&self) -> f64 {
        0.0
    }

    fn one(&self) -> f64 {
        1.0
    }

    fn plus(&self, a: f64, b: f64) -> f64 {
        a + b
    }

    fn minus(&self, a: f64, b: f64) -> f64 {
        a - b
    }

    fn times(&self, a: f64, b: f64) -> f64 {
        a * b
    }

    fn over(&self, a: f64, b: f64) -> f64 {
        a / b
    }

    fn less(&self, a: f64, b: f64) -> bool {
        a < b
    }

    fn equal(&self, a: f64, b: f64) -> bool {
        a == b
    }

    fn near(&self, a: f64, b: f64) -> bool {
        (a - b).abs() <= 0.001
    }

    fn count(&self, n: usize) -> f64 {
        n as f64
    }
}

/// A source of draws that gives the same draws in every run.
struct Dice {
    state: Cell<u64>,
}

impl Dice {
    fn new(seed: u64) -> Self {
        Dice { state: Cell::new(seed) }
    }
}

impl Chance<f64> for Dice {
    fn uniform(&self) -> f64 {
        let state = self.state.get().wrapping_add(0x9E37_79B9_7F4A_7C15);
        self.state.set(state);
        let mut z = state;
        z = (z ^ (z >> 30)).wrapping_mul(0xBF58_476D_1CE4_E5B9);
        z = (z ^ (z >> 27)).wrapping_mul(0x94D0_49BB_1331_11EB);
        z ^= z >> 31;
        ((z >> 11) as f64) / ((1u64 << 53) as f64)
    }
}

fn table(shape: Vec<usize>, data: Vec<f64>) -> Table<f64> {
    Table::from_shape_vec(shape, data).expect("Unexpected error")
}

fn assign(pairs: &[(Variable, usize)]) -> Assignment {
    let mut assn = Assignment::new();
    for (v, x) in pairs {
        assert!(assn.set(v, *x).is_none());
    }
    assn
}

/// Utility function to build the student inference example
fn build_student_example(arena: &mut Arena, dice: &Dice) -> (Variable, DirectedModel<f64>, Assignment) {
    let d = Variable::binary(arena);
    let i = Variable::binary(arena);
    let g = Variable::binary(arena);
    let s = Variable::binary(arena);
    let l = Variable::binary(arena);

    let cpd_g = Factor::cpd(
        g,
        vec![i, d],
        table(vec![2, 2, 2], vec![0.3, 0.7, 0.05, 0.95, 0.9, 0.1, 0.5, 0.5]),
        &Reals,
    )
    .unwrap();

    let cpd_s = Factor::cpd(s, vec![i], table(vec![2, 2], vec![0.95, 0.05, 0.2, 0.8]), &Reals).unwrap();
    let cpd_l = Factor::cpd(l, vec![g], table(vec![2, 2], vec![0.9, 0.1, 0.4, 0.6]), &Reals).unwrap();

    let builder = DirectedModelBuilder::new();
    let model = builder
        .with_variable(&d, Vec::new(), Initialization::Binomial(0.6), &Reals, dice)
        .with_variable(&i, Vec::new(), Initialization::Binomial(0.7), &Reals, dice)
        .with_variable(&g, vec![i, d], Initialization::Table(cpd_g), &Reals, dice)
        .with_variable(&s, vec![i], Initialization::Table(cpd_s), &Reals, dice)
        .with_variable(&l, vec![g], Initialization::Table(cpd_l), &Reals, dice)
        .build()
        .unwrap();

    let evidence = assign(&[(d, 0), (l, 1), (s, 0)]);

    (i, model, evidence)
}

/// Utility method to test the actual inference task
fn test_inference<E: ConditionalInferenceEngine<f64>>(i: Variable, engine: &mut E, precision: f64) {
    let f = engine.infer(&vec![i]);

    assert!(!f.is_err());

    let f = f.unwrap();
    assert_eq!(vec![i], f.scope());
    let assn = assign(&[(i, 1)]);

    let expected = 0.02919708;
    println!("actual = {}", f.value(&assn).unwrap());
    assert!((f.value(&assn).unwrap() - expected).abs() < precision);
}

#[test]
/// Test variable elimination
fn variable_elimination() {
    let dice = Dice::new(42);
    let mut arena = Arena::new();
    let (i, model, evidence) = build_student_example(&mut arena, &dice);

    // note that this implicitly tests for_undirected as well!
    let mut engine = VariableEliminationEngine::for_directed(&model, &evidence, &Reals);

    // the result should be the same on subsequent iterations
    for _ in 0..10 {
        test_inference(i, &mut engine, 0.00000001);
    }
    let first = engine.answer(&vec![i]).unwrap().value(&assign(&[(i, 1)])).unwrap();
    let second = engine.answer(&vec![i]).unwrap().value(&assign(&[(i, 1)])).unwrap();
    assert_eq!(first.to_bits(), second.to_bits());
}

#[test]
/// Test importance sampling
fn importance_sampling() {
    let dice = Dice::new(42);
    let mut arena = Arena::new();
    let (i, model, evidence) = build_student_example(&mut arena, &dice);

    let mut engine = ImportanceSamplingEngine::new(&model, &evidence, 2000, &Reals, &dice);

    // the result should be the same on subsequent iterations
    for _ in 0..10 {
        test_inference(i, &mut engine, 0.01);
    }
}

#[test]
/// Test importance sampling
fn mcmc() {
    let dice = Dice::new(42);
    let mut arena = Arena::new();
    let (i, model, evidence) = build_student_example(&mut arena, &dice);

    let mut sampler = GibbsSampler::for_directed(&model, &evidence, &Reals, &dice);
    let mut engine = McmcEngine::new(&mut sampler, 10000, 2000, &Reals);

    // the result should be the same on subsequent iterations
    for _ in 0..10 {
        test_inference(i, &mut engine, 0.01);
    }
}

#[test]
fn variable_elimination_answers() {
    let dice = Dice::new(42);
    let mut arena = Arena::new();
    let (i, model, evidence) = build_student_example(&mut arena, &dice);
    let order = model.topological_order();
    let (d, g, s, l) = (order[0], order[2], order[3], order[4]);
    let engine = VariableEliminationEngine::for_directed(&model, &evidence, &Reals);

    // a variable of the evidence, or no variable of the model, cannot be queried
    assert!(matches!(engine.answer(&vec![d]), Err(JeromeError::InvalidScope)));
    assert!(matches!(engine.answer(&vec![i, s]), Err(JeromeError::InvalidScope)));
    assert!(matches!(engine.answer(&vec![l]), Err(JeromeError::InvalidScope)));
    let other = Variable::binary(&mut arena);
    assert!(matches!(engine.answer(&vec![other]), Err(JeromeError::InvalidScope)));

    // the joint distribution of both free variables
    let joint = engine.answer(&vec![i, g]).unwrap();
    assert_eq!(2, joint.scope().len());
    assert!(joint.mentions(&i) && joint.mentions(&g));
    let mut sum = 0.0;
    let mut i1 = 0.0;
    for x in 0..2 {
        for y in 0..2 {
            let p = joint.value(&assign(&[(i, x), (g, y)])).unwrap();
            // P(i, g | d = 0, l = 1, s = 0), by the chain rule
            let pi = [0.7, 0.3][x];
            let ps = [0.95, 0.2][x];
            let pg = [[0.3, 0.7], [0.9, 0.1]][x][y];
            let pl = [0.1, 0.6][y];
            let expected = pi * ps * pg * pl / (0.29925 + 0.009);
            assert!((p - expected).abs() < 1e-12);
            sum += p;
            if x == 1 {
                i1 += p;
            }
        }
    }
    assert!((sum - 1.0).abs() < 1e-12);
    assert!((i1 - 0.02919708).abs() < 1e-8);

    // the other free variable alone
    let only_g = engine.answer(&vec![g]).unwrap();
    assert_eq!(vec![g], only_g.scope());
    let expected = (0.7 * 0.95 * 0.7 * 0.6 + 0.3 * 0.2 * 0.1 * 0.6) / (0.29925 + 0.009);
    assert!((only_g.value(&assign(&[(g, 1)])).unwrap() - expected).abs() < 1e-12);

    // no variable at all: everything is eliminated, and the unit is left
    let nothing = engine.answer(&vec![]).unwrap();
    assert!(nothing.is_identity());
}

#[test]
fn variable_elimination_without_evidence() {
    let dice = Dice::new(42);
    let mut arena = Arena::new();
    let (i, model, _) = build_student_example(&mut arena, &dice);
    let order = model.topological_order();
    let (d, s) = (order[0], order[3]);
    let flat = UndirectedModel::from(&model, &Reals);
    let engine = VariableEliminationEngine::for_undirected(&flat, &Assignment::new(), &Reals);
    let sat = engine.answer(&vec![s]).unwrap();
    assert_eq!(vec![s], sat.scope());
    assert!((sat.value(&assign(&[(s, 1)])).unwrap() - (0.7 * 0.05 + 0.3 * 0.8)).abs() < 1e-12);
    // two variables that are left in factors without a common variable cannot be answered
    assert!(matches!(engine.answer(&vec![d, i]), Err(JeromeError::InvalidScope)));
}

#[test]
fn sampling_engines_refuse_what_they_cannot_count() {
    let dice = Dice::new(42);
    let mut arena = Arena::new();
    let (i, model, evidence) = build_student_example(&mut arena, &dice);
    let other = Variable::binary(&mut arena);

    let engine = ImportanceSamplingEngine::new(&model, &evidence, 100, &Reals, &dice);
    assert!(matches!(engine.answer(&vec![other]), Err(JeromeError::InvalidScope)));
    assert!(matches!(engine.answer(&vec![]), Err(JeromeError::General(_))));
    assert!(matches!(engine.answer(&vec![i, i]), Err(JeromeError::General(_))));
    // a variable of the evidence has all its weight on the state of the evidence
    let d = model.topological_order()[0];
    let fixed = engine.answer(&vec![d]).unwrap();
    assert_eq!(1.0, fixed.value(&assign(&[(d, 0)])).unwrap());
    assert_eq!(0.0, fixed.value(&assign(&[(d, 1)])).unwrap());
    // no sample, no weight
    let engine = ImportanceSamplingEngine::new(&model, &evidence, 0, &Reals, &dice);
    assert!(matches!(engine.answer(&vec![i]), Err(JeromeError::DivideByZero)));

    let mut sampler = GibbsSampler::for_directed(&model, &evidence, &Reals, &dice);
    let mut engine = McmcEngine::new(&mut sampler, 10, 50, &Reals);
    assert!(matches!(engine.answer(&vec![other]), Err(JeromeError::InvalidScope)));
    let both = engine.answer(&vec![i, d]).unwrap();
    assert_eq!(vec![i, d], both.scope());
    // every draw counts once: the entries are multiples of one fiftieth
    let mut sum = 0.0;
    for x in 0..2 {
        let p = both.value(&assign(&[(i, x), (d, 0)])).unwrap();
        assert!(((p * 50.0).round() - p * 50.0).abs() < 1e-9);
        sum += p;
        assert_eq!(0.0, both.value(&assign(&[(i, x), (d, 1)])).unwrap());
    }
    assert!((sum - 1.0).abs() < 1e-12);
}

/// This example is taken from Koller & Friedman Example 9.3 and Figure 9.11.
fn extended_student(arena: &mut Arena, dice: &Dice) -> (Vec<Variable>, UndirectedModel<f64>) {
    let c = Variable::binary(arena);
    let d = Variable::binary(arena);
    let i = Variable::binary(arena);
    let g = Variable::binary(arena);
    let s = Variable::binary(arena);
    let l = Variable::binary(arena);
    let j = Variable::binary(arena);
    let h = Variable::binary(arena);

    let builder = DirectedModelBuilder::new();
    let model = builder
        .with_variable(&c, Vec::new(), Initialization::Uniform, &Reals, dice)
        .with_variable(&d, vec![c], Initialization::Uniform, &Reals, dice)
        .with_variable(&i, Vec::new(), Initialization::Uniform, &Reals, dice)
        .with_variable(&g, vec![d, i], Initialization::Uniform, &Reals, dice)
        .with_variable(&s, vec![i], Initialization::Uniform, &Reals, dice)
        .with_variable(&l, vec![g], Initialization::Uniform, &Reals, dice)
        .with_variable(&j, vec![l, s], Initialization::Uniform, &Reals, dice)
        .with_variable(&h, vec![g, j], Initialization::Uniform, &Reals, dice)
        .build()
        .unwrap();

    (vec![c, d, i, g, s, l, j, h], UndirectedModel::from(&model, &Reals))
}

#[test]
fn max_cardinality() {
    let dice = Dice::new(42);
    let mut arena = Arena::new();
    let (vars, model) = extended_student(&mut arena, &dice);
    let (c, d, i, g, s, l, j, h) = (vars[0], vars[1], vars[2], vars[3], vars[4], vars[5], vars[6], vars[7]);

    let factors = model.factors();
    assert!(neighbors(factors, &c, &d));
    assert!(neighbors(factors, &d, &i));
    assert!(neighbors(factors, &s, &l));
    assert!(!neighbors(factors, &c, &i));
    assert!(!neighbors(factors, &c, &c));
    assert_eq!(2, count_marked(factors, &g, &vec![c, d, i, s]));
    assert_eq!(0, count_marked(factors, &g, &vec![]));

    // nothing is marked: the first variable is picked
    assert_eq!(Some(0), pick(factors, &vars, &vec![]));
    // c is marked: d is its only neighbor
    assert_eq!(Some(1), pick(factors, &vars, &vec![c]));
    // c and d are marked: i and g both have one marked neighbor, and i comes first
    assert_eq!(Some(2), pick(factors, &vars, &vec![c, d]));
    // all are marked
    assert_eq!(None, pick(factors, &vars, &vars));

    let order = max_cardinality_elimination_order(factors, &vars);
    // marked in turn: c, d, i, g (two marked neighbors), s (i), l (g and s), j (l and s), h
    assert_eq!(vec![h, j, l, s, g, i, d, c], order);

    // in another order of the variables the ties fall otherwise
    let backwards = vec![h, j, l, s, g, i, d, c];
    let order = max_cardinality_elimination_order(factors, &backwards);
    // marked in turn: h, j (h), g (h and j), l (j and g), s (j and l), i (g and s), d (g and i), c
    assert_eq!(vec![c, d, i, s, l, g, j, h], order);
}

#[test]
fn products_of_many() {
    let mut arena = Arena::new();
    let a = Variable::binary(&mut arena);
    let b = Variable::binary(&mut arena);
    let c = Variable::binary(&mut arena);
    let ab = Factor::new(vec![a, b], table(vec![2, 2], vec![1., 2., 3., 4.]), false, &Reals).unwrap();
    let bc = Factor::new(vec![b, c], table(vec![2, 2], vec![5., 6., 7., 8.]), false, &Reals).unwrap();
    let c1 = Factor::new(vec![c], table(vec![2], vec![0.5, 2.]), false, &Reals).unwrap();
    let a1 = Factor::new(vec![a], table(vec![2], vec![10., 100.]), false, &Reals).unwrap();

    let nothing: Vec<Factor<f64>> = Vec::new();
    assert!(multiply_all(&nothing, &Reals).unwrap().is_identity());

    let all = vec![Factor::identity(), ab.copy(), Factor::identity(), bc.copy(), c1.copy()];
    let f = multiply_all(&all, &Reals).unwrap();
    assert_eq!(vec![a, b, c], f.scope());
    assert_eq!(3. * 6. * 2., f.value(&assign(&[(a, 1), (b, 0), (c, 1)])).unwrap());
    assert_eq!(2. * 7. * 0.5, f.value(&assign(&[(a, 0), (b, 1), (c, 0)])).unwrap());

    // a factor that shares no variable with the product before it
    let apart = vec![ab.copy(), c1.copy(), bc.copy()];
    assert!(matches!(multiply_all(&apart, &Reals), Err(JeromeError::InvalidScope)));

    let (with, without) = split(vec![ab, c1, bc, a1, Factor::identity()], &b);
    assert_eq!(2, with.len());
    assert_eq!(vec![a, b], with[0].scope());
    assert_eq!(vec![b, c], with[1].scope());
    assert_eq!(3, without.len());
    assert_eq!(vec![c], without[0].scope());
    assert_eq!(vec![a], without[1].scope());
    assert!(without[2].is_identity());
}
