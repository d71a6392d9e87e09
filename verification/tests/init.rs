use std::cell::Cell;

use jerome::factor::{Factor, Table};
use jerome::init::Initialization;
use jerome::util::JeromeError;
use jerome::variable::{all_assignments, Arena, Assignment, Variable};
use jerome::weight::{Arithmetic, Chance};

struct Reals;

impl Arithmetic<f64> for Reals {
    fn zero(&self) -> f64 {
        0.0
    }

    fn one(&self) -> f64 {
        1.0
    }

    fn plus(&self, a: f64, b: f64) -> f64 {
        a + b
    }

    fn minus(&self, a: f64, b: f64) -> f64 {
        a - b
    }

    fn times(&self, a: f64, b: f64) -> f64 {
        a * b
    }

    fn over(&self, a: f64, b: f64) -> f64 {
        a / b
    }

    fn less(&self, a: f64, b: f64) -> bool {
        a < b
    }

    fn equal(&self, a: f64, b: f64) -> bool {
        a == b
    }

    fn near(&self, a: f64, b: f64) -> bool {
        (a - b).abs() <= 0.001
    }

    fn count(&self, n: usize) -> f64 {
        n as f64
    }
}

/// A source of draws that gives the same draws in every run.
struct Dice {
    state: Cell<u64>,
}

impl Dice {
    fn new(seed: u64) -> Self {
        Dice { state: Cell::new(seed) }
    }
}

impl Chance<f64> for Dice {
    fn uniform(&self) -> f64 {
        let state = self.state.get().wrapping_add(0x9E37_79B9_7F4A_7C15);
        self.state.set(state);
        let mut z = state;
        z = (z ^ (z >> 30)).wrapping_mul(0xBF58_476D_1CE4_E5B9);
        z = (z ^ (z >> 27)).wrapping_mul(0x94D0_49BB_1331_11EB);
        z ^= z >> 31;
        ((z >> 11) as f64) / ((1u64 << 53) as f64)
    }
}

fn table(shape: Vec<usize>, data: Vec<f64>) -> Table<f64> {
    Table::from_shape_vec(shape, data).expect("Unexpected error")
}

fn assign(pairs: &[(Variable, usize)]) -> Assignment {
    let mut assn = Assignment::new();
    for (v, x) in pairs {
        assert!(assn.set(v, *x).is_none());
    }
    assn
}

fn same_variables(a: &Vec<Variable>, b: &Vec<Variable>) -> bool {
    a.len() == b.len() && a.iter().all(|v| b.contains(v))
}

fn total(factor: &Factor<f64>) -> f64 {
    let scope = factor.scope();
    let mut it = all_assignments(&scope);
    let mut sum = 0.0;
    while let Some(a) = it.next() {
        sum += factor.value(&a).unwrap();
    }
    sum
}

#[test]
fn empty_scope() {
    let dice = Dice::new(7);
    let scope: Vec<Variable> = Vec::new();
    assert!(Initialization::Uniform.build_factor(scope.clone(), &Reals, &dice).is_err());
    assert!(Initialization::Random.build_factor(scope.clone(), &Reals, &dice).is_err());
    assert!(Initialization::Binomial(0.5).build_factor(scope.clone(), &Reals, &dice).is_err());
    assert!(Initialization::Multinomial(vec![0.333, 0.333, 0.333]).build_factor(scope.clone(), &Reals, &dice).is_err());
    assert!(matches!(
        Initialization::Uniform.build_factor(scope.clone(), &Reals, &dice),
        Err(JeromeError::InvalidScope)
    ));
}

#[test]
fn invalid_scope_subset() {
    let dice = Dice::new(7);
    let mut arena = Arena::new();
    let a = Variable::discrete(&mut arena, 3);
    let b = Variable::binary(&mut arena);

    let tbl = table(vec![3, 2], vec![0.1, 0.2, 0.3, 0.1, 0.2, 0.1]);
    let f = Factor::new(vec![a, b], tbl, false, &Reals).unwrap();

    let init = Initialization::Table(f);

    let scope = vec![a];

    assert!(init.build_factor(scope, &Reals, &dice).is_err());
}

#[test]
fn invalid_scope_superset() {
    let dice = Dice::new(7);
    let mut arena = Arena::new();
    let a = Variable::discrete(&mut arena, 3);
    let b = Variable::binary(&mut arena);
    let c = Variable::binary(&mut arena);

    let tbl = table(vec![3, 2], vec![0.1, 0.2, 0.3, 0.1, 0.2, 0.1]);
    let f = Factor::new(vec![a, b], tbl, false, &Reals).unwrap();

    let init = Initialization::Table(f);

    let scope = vec![a, b, c];

    assert!(matches!(init.build_factor(scope, &Reals, &dice), Err(JeromeError::InvalidScope)));
}

fn random_init_body() {
    let dice = Dice::new(11);
    let mut arena = Arena::new();
    let a = Variable::binary(&mut arena);
    let b = Variable::discrete(&mut arena, 10);
    let c = Variable::discrete(&mut arena, 3);

    let init = Initialization::Random;

    let scope = vec![a, b, c];
    let factor = init.build_factor(scope.clone(), &Reals, &dice);
    assert!(!factor.is_err());

    let factor = factor.unwrap();
    assert!(factor.is_cpd());
    assert!(!factor.is_identity());
    assert!(same_variables(&scope, &factor.scope()));

    let sum = total(&factor);
    assert!((1.0 - sum).abs() < 0.001);
}

#[test]
fn init_random_init() {
    random_init_body();
}

#[test]
fn model_random_init() {
    random_init_body();
}

fn uniform_init_body() {
    let dice = Dice::new(11);
    let mut arena = Arena::new();
    let a = Variable::binary(&mut arena);
    let b = Variable::discrete(&mut arena, 10);
    let c = Variable::discrete(&mut arena, 3);

    let init = Initialization::Uniform;

    let scope = vec![a, b, c];
    let factor = init.build_factor(scope.clone(), &Reals, &dice);
    assert!(!factor.is_err());

    let factor = factor.unwrap();
    assert!(factor.is_cpd());
    assert!(!factor.is_identity());
    assert!(same_variables(&scope, &factor.scope()));

    let expected = 1.0 / ((a.cardinality() * b.cardinality() * c.cardinality()) as f64);
    let fscope = factor.scope();
    let mut it = all_assignments(&fscope);
    let mut count = 0;
    while let Some(assn) = it.next() {
        assert!((expected - factor.value(&assn).unwrap()).abs() < std::f64::EPSILON);
        count += 1;
    }
    assert_eq!(60, count);
}

#[test]
fn init_uniform_init() {
    uniform_init_body();
}

#[test]
fn model_uniform_init() {
    uniform_init_body();
}

fn binomial_init_body() {
    let dice = Dice::new(11);
    let mut arena = Arena::new();
    let a = Variable::binary(&mut arena);

    let init = Initialization::Binomial(0.25);

    let scope = vec![a];

    let factor = init.build_factor(scope.clone(), &Reals, &dice);
    assert!(!factor.is_err());

    let factor = factor.unwrap();
    assert!(factor.is_cpd());
    assert!(!factor.is_identity());
    assert!(same_variables(&scope, &factor.scope()));

    let assn = assign(&[(a, 0)]);
    assert!((0.25 - factor.value(&assn).unwrap()).abs() < std::f64::EPSILON);

    let assn = assign(&[(a, 1)]);
    assert!((0.75 - factor.value(&assn).unwrap()).abs() < std::f64::EPSILON);
}

#[test]
fn init_binomial_init() {
    binomial_init_body();
}

#[test]
fn model_binomial_init() {
    binomial_init_body();
}

fn multinomial_init_body() {
    let dice = Dice::new(11);
    let mut arena = Arena::new();
    let a = Variable::discrete(&mut arena, 3);

    let init = Initialization::Multinomial(vec![0.1, 0.7, 0.2]);

    let scope = vec![a];

    let factor = init.build_factor(scope.clone(), &Reals, &dice);
    assert!(!factor.is_err());

    let factor = factor.unwrap();
    assert!(factor.is_cpd());
    assert!(!factor.is_identity());
    assert!(same_variables(&scope, &factor.scope()));

    let assn = assign(&[(a, 0)]);
    assert!((0.1 - factor.value(&assn).unwrap()).abs() < std::f64::EPSILON);

    let assn = assign(&[(a, 1)]);
    assert!((0.7 - factor.value(&assn).unwrap()).abs() < std::f64::EPSILON);

    let assn = assign(&[(a, 2)]);
    assert!((0.2 - factor.value(&assn).unwrap()).abs() < std::f64::EPSILON);
}

#[test]
fn init_multinomial_init() {
    multinomial_init_body();
}

#[test]
fn model_multinomial_init() {
    multinomial_init_body();
}

fn factor_init_body(cpd: bool) {
    let dice = Dice::new(11);
    let mut arena = Arena::new();
    let a = Variable::discrete(&mut arena, 3);
    let b = Variable::binary(&mut arena);

    let tbl = table(vec![3, 2], vec![0.1, 0.2, 0.3, 0.1, 0.2, 0.1]);
    let f = Factor::new(vec![a, b], tbl.copy(), cpd, &Reals).unwrap();

    let init = Initialization::Table(f);

    let scope = vec![a, b];

    let factor = init.build_factor(scope.clone(), &Reals, &dice);
    assert!(!factor.is_err());

    let factor = factor.unwrap();
    assert_eq!(cpd, factor.is_cpd());
    assert!(!factor.is_identity());
    assert!(same_variables(&scope, &factor.scope()));

    for (x, y) in (0..3).zip(0..2) {
        let assn = assign(&[(a, x), (b, y)]);

        let expected = tbl.get(&vec![x, y]).unwrap();

        assert!((expected - factor.value(&assn).unwrap()).abs() < std::f64::EPSILON);
    }
}

#[test]
fn init_factor_init() {
    factor_init_body(false);
}

#[test]
fn model_factor_init() {
    factor_init_body(true);
}

#[test]
fn build_factor_refuses_what_does_not_suit() {
    let dice = Dice::new(3);
    let mut arena = Arena::new();
    let a = Variable::binary(&mut arena);
    let b = Variable::discrete(&mut arena, 3);
    // a binomial needs a variable of two states, alone
    assert!(matches!(
        Initialization::Binomial(0.5).build_factor(vec![b], &Reals, &dice),
        Err(JeromeError::InvalidInitialization)
    ));
    assert!(matches!(
        Initialization::Binomial(0.5).build_factor(vec![a, b], &Reals, &dice),
        Err(JeromeError::InvalidInitialization)
    ));
    // a multinomial needs one probability for each state
    assert!(matches!(
        Initialization::Multinomial(vec![0.5, 0.5]).build_factor(vec![b], &Reals, &dice),
        Err(JeromeError::InvalidInitialization)
    ));
    assert!(matches!(
        Initialization::Multinomial(vec![0.5, 0.5]).build_factor(vec![a, b], &Reals, &dice),
        Err(JeromeError::InvalidInitialization)
    ));
    // probabilities have to be above zero and to sum to one
    assert!(matches!(
        Initialization::Binomial(1.0).build_factor(vec![a], &Reals, &dice),
        Err(JeromeError::NonPositiveProbability)
    ));
    assert!(matches!(
        Initialization::Multinomial(vec![0.5, 0.2, 0.2]).build_factor(vec![b], &Reals, &dice),
        Err(JeromeError::General(_))
    ));
    // a variable twice in the scope
    assert!(matches!(
        Initialization::Uniform.build_factor(vec![a, a], &Reals, &dice),
        Err(JeromeError::General(_))
    ));
    // a table too large to be held
    let mut huge = Vec::new();
    for _ in 0..40 {
        huge.push(Variable::discrete(&mut arena, 1000));
    }
    assert!(matches!(Initialization::Uniform.build_factor(huge, &Reals, &dice), Err(JeromeError::General(_))));
}

#[test]
fn build_cpd_fills_rows() {
    let dice = Dice::new(5);
    let mut arena = Arena::new();
    let p = Variable::discrete(&mut arena, 3);
    let q = Variable::binary(&mut arena);
    let v = Variable::discrete(&mut arena, 4);

    let f = Initialization::Uniform.build_cpd(v, vec![p, q], &Reals, &dice).unwrap();
    assert!(f.is_cpd());
    assert_eq!(vec![p, q, v], f.scope());
    let scope = f.scope();
    let mut it = all_assignments(&scope);
    while let Some(a) = it.next() {
        assert_eq!(0.25, f.value(&a).unwrap());
    }

    let f = Initialization::Random.build_cpd(v, vec![p, q], &Reals, &dice).unwrap();
    assert!(f.is_cpd());
    assert_eq!(vec![p, q, v], f.scope());
    for x in 0..3 {
        for y in 0..2 {
            let mut row = 0.0;
            for z in 0..4 {
                let e = f.value(&assign(&[(p, x), (q, y), (v, z)])).unwrap();
                assert!(e > 0.0);
                row += e;
            }
            assert!((row - 1.0).abs() < 1e-9);
        }
    }
    // two random tables differ
    let g = Initialization::Random.build_cpd(v, vec![p, q], &Reals, &dice).unwrap();
    let at = assign(&[(p, 0), (q, 0), (v, 0)]);
    assert_ne!(f.value(&at).unwrap(), g.value(&at).unwrap());

    let f = Initialization::Binomial(0.6).build_cpd(q, vec![], &Reals, &dice).unwrap();
    assert_eq!(0.6, f.value(&assign(&[(q, 0)])).unwrap());
    assert_eq!(1.0 - 0.6, f.value(&assign(&[(q, 1)])).unwrap());

    let f = Initialization::Multinomial(vec![0.1, 0.2, 0.7]).build_cpd(p, vec![], &Reals, &dice).unwrap();
    assert_eq!(0.7, f.value(&assign(&[(p, 2)])).unwrap());
}

/// A source that gives the draws that it is told to give, again and again.
struct Told {
    draws: Vec<f64>,
    next: Cell<usize>,
}

impl Chance<f64> for Told {
    fn uniform(&self) -> f64 {
        let k = self.next.get();
        self.next.set(k + 1);
        self.draws[k % self.draws.len()]
    }
}

#[test]
fn random_tables_come_from_the_draws() {
    let mut arena = Arena::new();
    let p = Variable::binary(&mut arena);
    let v = Variable::binary(&mut arena);
    let told = Told { draws: vec![0.0, 1.0, 0.5, 0.25], next: Cell::new(0) };
    // the weights are 1, 100, 50.5 and 25.75, in the order of the entries
    let f = Initialization::Random.build_cpd(v, vec![p], &Reals, &told).unwrap();
    assert_eq!(1.0 / (0.0 + 1.0 + 100.0), f.value(&assign(&[(p, 0), (v, 0)])).unwrap());
    assert_eq!(100.0 / (0.0 + 1.0 + 100.0), f.value(&assign(&[(p, 0), (v, 1)])).unwrap());
    assert_eq!(50.5 / (0.0 + 50.5 + 25.75), f.value(&assign(&[(p, 1), (v, 0)])).unwrap());
    assert_eq!(25.75 / (0.0 + 50.5 + 25.75), f.value(&assign(&[(p, 1), (v, 1)])).unwrap());

    let told = Told { draws: vec![0.0, 1.0, 0.5, 0.25], next: Cell::new(0) };
    let f = Initialization::Random.build_factor(vec![p, v], &Reals, &told).unwrap();
    let all = 0.0 + 1.0 + 100.0 + 50.5 + 25.75;
    assert_eq!(1.0 / all, f.value(&assign(&[(p, 0), (v, 0)])).unwrap());
    assert_eq!(100.0 / all, f.value(&assign(&[(p, 0), (v, 1)])).unwrap());
    assert_eq!(50.5 / all, f.value(&assign(&[(p, 1), (v, 0)])).unwrap());
    assert_eq!(25.75 / all, f.value(&assign(&[(p, 1), (v, 1)])).unwrap());
}

#[test]
fn build_cpd_refuses_what_does_not_suit() {
    let dice = Dice::new(5);
    let mut arena = Arena::new();
    let p = Variable::discrete(&mut arena, 3);
    let q = Variable::binary(&mut arena);
    let v = Variable::binary(&mut arena);

    assert!(matches!(
        Initialization::Binomial(0.5).build_cpd(v, vec![p], &Reals, &dice),
        Err(JeromeError::InvalidInitialization)
    ));
    assert!(matches!(
        Initialization::Binomial(0.5).build_cpd(p, vec![], &Reals, &dice),
        Err(JeromeError::InvalidInitialization)
    ));
    assert!(matches!(
        Initialization::Multinomial(vec![0.5, 0.5]).build_cpd(v, vec![p], &Reals, &dice),
        Err(JeromeError::InvalidInitialization)
    ));
    assert!(matches!(
        Initialization::Multinomial(vec![0.5, 0.5]).build_cpd(p, vec![], &Reals, &dice),
        Err(JeromeError::InvalidInitialization)
    ));

    // a given factor has to be marked as a distribution
    let plain = Factor::new(vec![p, v], table(vec![3, 2], vec![0.5; 6]), false, &Reals).unwrap();
    assert!(matches!(
        Initialization::Table(plain).build_cpd(v, vec![p], &Reals, &dice),
        Err(JeromeError::InvalidInitialization)
    ));
    // and to hold the variable and the parents, and nothing else
    let rows = vec![0.5; 6];
    let given = Factor::cpd(v, vec![p], table(vec![3, 2], rows.clone()), &Reals).unwrap();
    assert!(matches!(
        Initialization::Table(given).build_cpd(v, vec![q], &Reals, &dice),
        Err(JeromeError::InvalidScope)
    ));
    let given = Factor::cpd(v, vec![p], table(vec![3, 2], rows.clone()), &Reals).unwrap();
    assert!(matches!(
        Initialization::Table(given).build_cpd(v, vec![], &Reals, &dice),
        Err(JeromeError::InvalidScope)
    ));
    let given = Factor::cpd(v, vec![p], table(vec![3, 2], rows.clone()), &Reals).unwrap();
    assert!(matches!(
        Initialization::Table(given).build_cpd(q, vec![p], &Reals, &dice),
        Err(JeromeError::InvalidScope)
    ));
    let given = Factor::cpd(v, vec![p], table(vec![3, 2], rows.clone()), &Reals).unwrap();
    let f = Initialization::Table(given).build_cpd(v, vec![p], &Reals, &dice).unwrap();
    assert_eq!(vec![p, v], f.scope());
    let unit: Factor<f64> = Factor::identity();
    assert!(matches!(
        Initialization::Table(unit).build_cpd(v, vec![], &Reals, &dice),
        Err(JeromeError::InvalidScope)
    ));
}
