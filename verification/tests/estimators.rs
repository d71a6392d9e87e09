use std::cell::Cell;
use std::iter::repeat;

use jerome::estimators::{Estimator, LocalMLEstimator, ModelMLEstimator};
use jerome::factor::{Factor, Table};
use jerome::init::Initialization;
use jerome::model::directed::DirectedModelBuilder;
use jerome::util::JeromeError;
use jerome::variable::{all_assignments, Arena, Assignment, Variable};
use jerome::weight::{Arithmetic, Chance};

struct Reals;

impl Arithmetic<f64> for Reals {
    fn zero(&self) -> f64 {
        0.0
    }

    fn one(&self) -> f64 {
        1.0
    }

    fn plus(&self, a: f64, b: f64) -> f64 {
        a + b
    }

    fn minus(&self, a: f64, b: f64) -> f64 {
        a - b
    }

    fn times(&self, a: f64, b: f64) -> f64 {
        a * b
    }

    fn over(&self, a: f64, b: f64) -> f64 {
        a / b
    }

    fn less(&self, a: f64, b: f64) -> bool {
        a < b
    }

    fn equal(&self, a: f64, b: f64) -> bool {
        a == b
    }

    fn near(&self, a: f64, b: f64) -> bool {
        (a - b).abs() <= 0.001
    }

    fn count(&self, n: usize) -> f64 {
        n as f64
    }
}

/// A source of draws that gives the same draws in every run.
struct Dice {
    state: Cell<u64>,
}

impl Dice {
    fn new(seed: u64) -> Self {
        Dice { state: Cell::new(seed) }
    }
}

impl Chance<f64> for Dice {
    fn uniform(&self) -> f64 {
        let state = self.state.get().wrapping_add(0x9E37_79B9_7F4A_7C15);
        self.state.set(state);
        let mut z = state;
        z = (z ^ (z >> 30)).wrapping_mul(0xBF58_476D_1CE4_E5B9);
        z = (z ^ (z >> 27)).wrapping_mul(0x94D0_49BB_1331_11EB);
        z ^= z >> 31;
        ((z >> 11) as f64) / ((1u64 << 53) as f64)
    }
}

fn table(shape: Vec<usize>, data: Vec<f64>) -> Table<f64> {
    Table::from_shape_vec(shape, data).expect("Unexpected error")
}

fn assign(pairs: &[(Variable, usize)]) -> Assignment {
    let mut assn = Assignment::new();
    for (v, x) in pairs {
        assert!(assn.set(v, *x).is_none());
    }
    assn
}

fn values(factor: &Factor<f64>, vars: &Vec<Variable>) -> Vec<f64> {
    let mut it = all_assignments(vars);
    let mut actual = Vec::new();
    while let Some(a) = it.next() {
        actual.push(factor.value(&a).unwrap());
    }
    actual
}

#[test]
/// Test MLE of a single, binary variable (a weighted coin)
fn coin_toss() {
    let mut arena = Arena::new();
    let c = Variable::binary(&mut arena);
    let f = Factor::cpd(c, Vec::new(), table(vec![2], vec![0.5, 0.5]), &Reals).unwrap();

    let a = assign(&[(c, 0)]);
    let zeros = repeat(a).take(30);

    let a = assign(&[(c, 1)]);
    let ones = repeat(a).take(70);

    let mut estimator = LocalMLEstimator::new(&f, &Reals).unwrap();

    let dataset: Vec<Assignment> = zeros.chain(ones).collect();
    let factor = estimator.estimate(&dataset).unwrap();

    let a = assign(&[(c, 0)]);
    assert_eq!(0.3, factor.value(&a).unwrap());

    let a = assign(&[(c, 1)]);
    assert_eq!(0.7, factor.value(&a).unwrap());
}

#[test]
/// Test X (binary) -> Y (binary) factor
///
/// CPT:
///    | y0 | y1
/// ---+----+-----
/// x0 | .2 | .8
/// ---+----------
/// x1 | .9 | .1
fn one_parent() {
    let mut arena = Arena::new();
    let x = Variable::binary(&mut arena);
    let y = Variable::binary(&mut arena);

    let f = Factor::cpd(y, vec![x], table(vec![2, 2], vec![0.5, 0.5, 0.5, 0.5]), &Reals).unwrap();

    let zz = repeat(assign(&[(x, 0), (y, 0)])).take(20);
    let zo = repeat(assign(&[(x, 0), (y, 1)])).take(80);
    let oz = repeat(assign(&[(x, 1), (y, 0)])).take(9);
    let oo = repeat(assign(&[(x, 1), (y, 1)])).take(1);

    let mut estimator = LocalMLEstimator::new(&f, &Reals).unwrap();

    let dataset: Vec<Assignment> = zz.chain(zo).chain(oz).chain(oo).collect();
    let factor = estimator.estimate(&dataset);
    assert!(factor.is_ok());
    let factor = factor.unwrap();
    assert!(factor.is_cpd());

    let vars = vec![x, y];
    let actual = values(&factor, &vars);
    let expected = vec![0.2, 0.8, 0.9, 0.1];
    assert_eq!(expected.len(), actual.len());
    assert!(expected.iter().zip(actual).all(|(e, a)| *e == a));
}

#[test]
/// Test X (binary) -> Y (multinomial) factor
///
/// CPT:
///    | y0 | y1 | y2
/// ---+----+----+----
/// x0 | .2 | .5 | .3
/// ---+---------+----
/// x1 | .7 | .1 | .1
fn one_parent_binary_discrete() {
    let mut arena = Arena::new();
    let x = Variable::binary(&mut arena);
    let y = Variable::discrete(&mut arena, 3);

    let f = Factor::cpd(y, vec![x], table(vec![2, 3], vec![0.1, 0.8, 0.1, 0.1, 0.8, 0.1]), &Reals).unwrap();

    let zz = repeat(assign(&[(x, 0), (y, 0)])).take(20);
    let zo = repeat(assign(&[(x, 0), (y, 1)])).take(50);
    let zt = repeat(assign(&[(x, 0), (y, 2)])).take(30);
    let oz = repeat(assign(&[(x, 1), (y, 0)])).take(8);
    let oo = repeat(assign(&[(x, 1), (y, 1)])).take(1);
    let ot = repeat(assign(&[(x, 1), (y, 2)])).take(1);

    let mut estimator = LocalMLEstimator::new(&f, &Reals).unwrap();

    let dataset: Vec<Assignment> = zz.chain(zo).chain(oz).chain(oo).chain(zt).chain(ot).collect();

    let factor = estimator.estimate(&dataset);
    assert!(factor.is_ok());
    let factor = factor.unwrap();
    assert!(factor.is_cpd());

    let vars = vec![x, y];
    let actual = values(&factor, &vars);
    let expected = vec![0.2, 0.5, 0.3, 0.8, 0.1, 0.1];
    assert_eq!(expected.len(), actual.len());
    assert!(expected.iter().zip(actual).all(|(e, a)| *e == a));
}

#[test]
/// Test X (multinomial) -> Y (binomial) factor
///
/// CPT:
///    | y0 | y1
/// ---+----+----
/// x0 | .8 | .2
/// ---+---------
/// x1 | .5 | .5
/// ---+----+----
/// x2 | .3 | .7
fn one_parent_discrete_binary() {
    let mut arena = Arena::new();
    let x = Variable::discrete(&mut arena, 3);
    let y = Variable::binary(&mut arena);

    let f = Factor::cpd(y, vec![x], table(vec![3, 2], vec![0.1, 0.9, 0.1, 0.9, 0.1, 0.9]), &Reals).unwrap();

    let zz = repeat(assign(&[(x, 0), (y, 0)])).take(80);
    let zo = repeat(assign(&[(x, 0), (y, 1)])).take(20);
    let oz = repeat(assign(&[(x, 1), (y, 0)])).take(500);
    let oo = repeat(assign(&[(x, 1), (y, 1)])).take(500);
    let tz = repeat(assign(&[(x, 2), (y, 0)])).take(3);
    let to = repeat(assign(&[(x, 2), (y, 1)])).take(7);

    let mut estimator = LocalMLEstimator::new(&f, &Reals).unwrap();

    let dataset: Vec<Assignment> = zz.chain(zo).chain(oz).chain(oo).chain(tz).chain(to).collect();

    let factor = estimator.estimate(&dataset);
    assert!(factor.is_ok());
    let factor = factor.unwrap();
    assert!(factor.is_cpd());

    let vars = vec![x, y];
    let actual = values(&factor, &vars);
    let expected = vec![0.8, 0.2, 0.5, 0.5, 0.3, 0.7];
    assert_eq!(expected.len(), actual.len());
    assert!(expected.iter().zip(actual).all(|(e, a)| *e == a));
}

#[test]
/// Test X (binomial) -> Y (binomial) model
///
/// CPT X:
/// x0 | .3
/// x1 | .7
///
/// CPT Y:
///    | y0 | y1
/// ---+----+----
/// x0 | .8 | .2
/// ---+---------
/// x1 | .5 | .5
///
/// Assuming 1000 samples:
///     x0: 300
///         y0: 300 * .8 = 240
///         y1: 300 * .2 = 60
///     x1: 700
///         y0: 700 * .5 = 350
///         y1: 350 * .5 = 350
fn one_parent_model() {
    let dice = Dice::new(1);
    let mut arena = Arena::new();
    let x = Variable::binary(&mut arena);
    let y = Variable::binary(&mut arena);

    let builder = DirectedModelBuilder::new();
    let model = builder
        .with_named_variable(&x, "X", Vec::new(), Initialization::Binomial(0.5), &Reals, &dice)
        .with_named_variable(&y, "Y", vec![x], Initialization::Uniform, &Reals, &dice)
        .build()
        .unwrap();

    let zz = repeat(assign(&[(x, 0), (y, 0)])).take(240);
    let zo = repeat(assign(&[(x, 0), (y, 1)])).take(60);
    let oz = repeat(assign(&[(x, 1), (y, 0)])).take(350);
    let oo = repeat(assign(&[(x, 1), (y, 1)])).take(350);

    let dataset: Vec<Assignment> = zz.chain(zo).chain(oz).chain(oo).collect();

    let mut estimator = ModelMLEstimator::new(&model, &Reals).unwrap();

    let new_model = estimator.estimate(&dataset);
    assert!(new_model.is_ok());
    let new_model = new_model.unwrap();

    assert_eq!(vec![x, y], new_model.topological_order());
    assert_eq!("X", new_model.lookup_name(&x).unwrap());
    assert_eq!("Y", new_model.lookup_name(&y).unwrap());

    let vars = vec![x, y];
    let mut it = all_assignments(&vars);
    let mut actual = Vec::new();
    while let Some(a) = it.next() {
        actual.push(new_model.probability(&a, &Reals).unwrap());
    }
    let expected = vec![0.3 * 0.8, 0.3 * 0.2, 0.7 * 0.5, 0.7 * 0.5];
    assert_eq!(expected.len(), actual.len());
    assert!(expected.iter().zip(actual).all(|(e, a)| *e == a));
}

#[test]
fn estimators_refuse_what_they_cannot_estimate() {
    let dice = Dice::new(1);
    let mut arena = Arena::new();
    let x = Variable::binary(&mut arena);
    let y = Variable::binary(&mut arena);

    // only a distribution can be estimated
    let unit: Factor<f64> = Factor::identity();
    assert!(matches!(LocalMLEstimator::new(&unit, &Reals), Err(JeromeError::NotACPD)));
    let plain = Factor::new(vec![x, y], table(vec![2, 2], vec![1.0; 4]), false, &Reals).unwrap();
    assert!(matches!(LocalMLEstimator::new(&plain, &Reals), Err(JeromeError::NotACPD)));

    let f = Factor::cpd(y, vec![x], table(vec![2, 2], vec![0.5; 4]), &Reals).unwrap();
    let estimator = LocalMLEstimator::new(&f, &Reals).unwrap();

    // an assignment that does not cover the scope
    let dataset = vec![assign(&[(x, 0), (y, 0)]), assign(&[(x, 1)])];
    assert!(matches!(estimator.fit(&dataset), Err(JeromeError::IncompleteAssignment)));
    // a state of the parent that does not occur
    let dataset = vec![assign(&[(x, 0), (y, 0)]), assign(&[(x, 0), (y, 1)])];
    assert!(matches!(estimator.fit(&dataset), Err(JeromeError::DivideByZero)));
    assert!(matches!(estimator.fit(&Vec::new()), Err(JeromeError::DivideByZero)));
    // a state of the variable that does not occur with a state of the parent
    let dataset = vec![assign(&[(x, 0), (y, 0)]), assign(&[(x, 1), (y, 0)]), assign(&[(x, 1), (y, 1)])];
    assert!(matches!(estimator.fit(&dataset), Err(JeromeError::NonPositiveProbability)));
    // each estimate is made from its own dataset alone
    let dataset = vec![assign(&[(x, 0), (y, 0)]), assign(&[(x, 0), (y, 1)]), assign(&[(x, 1), (y, 0)]), assign(&[(x, 1), (y, 1)])];
    let first = estimator.fit(&dataset).unwrap();
    let second = estimator.fit(&dataset).unwrap();
    assert_eq!(vec![0.5; 4], values(&first, &vec![x, y]));
    assert_eq!(vec![0.5; 4], values(&second, &vec![x, y]));

    // a model with a factor that is not a distribution
    let model = DirectedModelBuilder::new()
        .with_variable(&x, vec![], Initialization::Uniform, &Reals, &dice)
        .with_variable(&y, vec![x], Initialization::Uniform, &Reals, &dice)
        .build()
        .unwrap();
    let given = model.condition(&assign(&[(x, 0)]));
    assert!(ModelMLEstimator::new(&given, &Reals).is_err());
    // the first error of the estimators of a model
    let estimator = ModelMLEstimator::new(&model, &Reals).unwrap();
    let dataset = vec![assign(&[(x, 0)]), assign(&[(x, 1)])];
    assert!(matches!(estimator.fit(&dataset), Err(JeromeError::IncompleteAssignment)));
}
