use jerome::factor::{Factor, Table};
use jerome::util::JeromeError;
use jerome::variable::{Arena, Assignment, Variable};
use jerome::rows::{rows_pass, rows_with_mass, shares_of};
use jerome::weight::{inverse_cdf, sum_all, Arithmetic};

struct Reals;

impl Arithmetic<f64> for Reals {
    fn zero(&self) -> f64 {
        0.0
    }

    fn one(&self) -> f64 {
        1.0
    }

    fn plus(&self, a: f64, b: f64) -> f64 {
        a + b
    }

    fn minus(&self, a: f64, b: f64) -> f64 {
        a - b
    }

    fn times(&self, a: f64, b: f64) -> f64 {
        a * b
    }

    fn over(&self, a: f64, b: f64) -> f64 {
        a / b
    }

    fn less(&self, a: f64, b: f64) -> bool {
        a < b
    }

    fn equal(&self, a: f64, b: f64) -> bool {
        a == b
    }

    fn near(&self, a: f64, b: f64) -> bool {
        (a - b).abs() <= 0.001
    }

    fn count(&self, n: usize) -> f64 {
        n as f64
    }
}

fn table(shape: Vec<usize>, data: Vec<f64>) -> Table<f64> {
    Table::from_shape_vec(shape, data).expect("Unexpected error")
}

fn assign(pairs: &[(Variable, usize)]) -> Assignment {
    let mut assn = Assignment::new();
    for (v, x) in pairs {
        assert!(assn.set(v, *x).is_none());
    }
    assn
}

#[test]
fn factor_identity() {
    let f: Factor<f64> = Factor::identity();
    let f2: Factor<f64> = Factor::identity();

    assert!(f.is_identity());
    assert!(f2.is_identity());
}

#[test]
fn mod_identity() {
    let f: Factor<f64> = Factor::identity();
    let f2: Factor<f64> = Factor::identity();

    assert!(f.is_identity());
    assert!(f2.is_identity());
    assert!(f.is_cpd());
    assert!(f.scope().is_empty());
}

#[test]
fn factor_table_factor() {
    let mut arena = Arena::new();
    let vars = vec![Variable::binary(&mut arena), Variable::discrete(&mut arena, 5), Variable::discrete(&mut arena, 3)];
    let mut table = Table::from_elem(vec![2, 5, 3], 1.).unwrap();
    assert!(table.set(&vec![1, 1, 1], 5.));

    // assert table holds correct values
    let f = Factor::new(vars.clone(), table, false, &Reals).unwrap();

    assert!(!f.is_identity());
    for x in 0..2 {
        for y in 0..5 {
            for z in 0..3 {
                let assn = assign(&[(vars[0], x), (vars[1], y), (vars[2], z)]);

                let val = f.value(&assn).unwrap();
                if x == 1 && y == 1 && z == 1 {
                    assert_eq!(5., val);
                } else {
                    assert_eq!(1., val);
                }
            }
        }
    }

    assert!(!f.is_cpd());
}

#[test]
fn mod_table_factor() {
    let mut arena = Arena::new();
    let vars = vec![Variable::binary(&mut arena), Variable::discrete(&mut arena, 5), Variable::discrete(&mut arena, 3)];
    let mut table = Table::from_elem(vec![2, 5, 3], 1.).unwrap();
    assert!(table.set(&vec![1, 1, 1], 5.));

    let f = Factor::new(vars.clone(), table, false, &Reals).unwrap();

    assert!(!f.is_identity());
    for (x, (y, z)) in (0..2).zip((0..5).zip(0..3)) {
        let assn = assign(&[(vars[0], x), (vars[1], y), (vars[2], z)]);

        let val = f.value(&assn).unwrap();
        if x == 1 && y == 1 && z == 1 {
            assert_eq!(5., val);
        } else {
            assert_eq!(1., val);
        }
    }

    assert!(!f.is_cpd());
}

fn table_factor_errs_body() {
    let mut arena = Arena::new();
    // empty scope
    let vars = vec![];
    let table = Table::from_elem(vec![2, 5, 3], 1.).unwrap();
    let f = Factor::new(vars, table, false, &Reals);
    assert!(f.is_err());
    match f.expect_err("missing error") {
        JeromeError::General(_) => assert!(true),
        _ => panic!("wrong error type"),
    };

    // mismatched number of dimensions
    let vars = vec![Variable::binary(&mut arena), Variable::binary(&mut arena)];
    let table = Table::from_elem(vec![2, 2, 2], 1.).unwrap();
    let f = Factor::new(vars.clone(), table, false, &Reals);
    assert!(f.is_err());
    match f.expect_err("missing error") {
        JeromeError::General(_) => assert!(true),
        _ => panic!("wrong error type"),
    };

    // wrong cardinality
    let table = Table::from_elem(vec![2, 3], 1.).unwrap();
    let f = Factor::new(vars.clone(), table, false, &Reals);
    assert!(f.is_err());
    match f.expect_err("missing error") {
        JeromeError::General(_) => assert!(true),
        _ => panic!("wrong error type"),
    };

    // not a cpd
    let table = Table::from_elem(vec![2, 2], 1.).unwrap();
    let f = Factor::new(vars.clone(), table, true, &Reals);
    assert!(f.is_err());
    match f.expect_err("missing error") {
        JeromeError::General(_) => assert!(true),
        _ => panic!("wrong error type"),
    };
}

#[test]
fn factor_table_factor_errs() {
    table_factor_errs_body();
}

#[test]
fn mod_table_factor_errs() {
    table_factor_errs_body();
}

#[test]
fn factor_table_factor_cpd() {
    let mut arena = Arena::new();
    let vars = vec![Variable::binary(&mut arena), Variable::binary(&mut arena)];
    let table = Table::from_elem(vec![2, 2], 1. / 4.).unwrap();

    let f = Factor::new(vars, table, true, &Reals).expect("unexpected error");
    assert!(f.is_cpd());
}

#[test]
fn mod_table_factor_cpd() {
    let mut arena = Arena::new();
    let vars = vec![Variable::binary(&mut arena), Variable::binary(&mut arena)];
    let table = Table::from_elem(vec![2, 2], 1. / 4.).unwrap();

    let f = Factor::new(vars, table, true, &Reals).expect("unexpected error");
    assert!(f.is_cpd());
    assert!(!f.is_identity());
}

fn value_body() {
    let mut arena = Arena::new();
    let vars = vec![Variable::binary(&mut arena), Variable::binary(&mut arena)];
    let mut table = Table::from_elem(vec![2, 2], 1.).unwrap();

    for (i, (x, y)) in (0..2).zip(0..2).enumerate() {
        assert!(table.set(&vec![x, y], i as f64));
    }

    let f = Factor::new(vars.clone(), table, false, &Reals).expect("Unexpected error");

    // verify behavior on precise assignment
    for (i, (x, y)) in (0..2).zip(0..2).enumerate() {
        let assn = assign(&[(vars[0], x), (vars[1], y)]);

        assert_eq!(i as f64, f.value(&assn).expect("unexpected error"));
    }

    // verify behavior on full assignment with out of scope values
    let v3 = Variable::binary(&mut arena);

    for (i, (x, y)) in (0..2).zip(0..2).enumerate() {
        let assn = assign(&[(vars[0], x), (vars[1], y), (v3, 0)]);

        assert_eq!(i as f64, f.value(&assn).expect("unexpected error"));
    }

    // verify behavior on incomplete assignment
    let assn = assign(&[(vars[0], 0), (v3, 0)]);

    let res = f.value(&assn);
    assert!(res.is_err());
    match res.expect_err("") {
        JeromeError::IncompleteAssignment => assert!(true),
        _ => panic!("incorrect error"),
    };
}

#[test]
fn factor_value() {
    value_body();
}

#[test]
fn mod_value() {
    value_body();
}

#[test]
fn value_of_the_identity() {
    let f: Factor<f64> = Factor::identity();
    assert!(matches!(f.value(&Assignment::new()), Err(JeromeError::General(_))));
}

#[test]
/// Example taken from Koller & Friedman Figure 4.3
fn factor_product() {
    let mut arena = Arena::new();
    let a = Variable::discrete(&mut arena, 3);
    let b = Variable::binary(&mut arena);
    let c = Variable::binary(&mut arena);

    let tbl1 = table(vec![3, 2], vec![0.5, 0.8, 0.1, 0., 0.3, 0.9]);
    let phi1 = Factor::new(vec![a, b], tbl1, false, &Reals).expect("Unexpected error");

    let tbl2 = table(vec![2, 2], vec![0.5, 0.7, 0.1, 0.2]);
    let phi2 = Factor::new(vec![b, c], tbl2, false, &Reals).expect("Unexpected error");

    let phi = phi1.product(&phi2, &Reals).expect("Unexpected error");
    assert_eq!(vec![a, b, c], phi.scope());
    assert!(!phi.is_cpd());

    let expected = table(vec![3, 2, 2], vec![0.25, 0.35, 0.08, 0.16, 0.05, 0.07, 0., 0., 0.15, 0.21, 0.09, 0.18]);

    for x in 0..3 {
        for y in 0..2 {
            for z in 0..2 {
                let assn = assign(&[(a, x), (b, y), (c, z)]);

                let val = expected.get(&vec![x, y, z]).unwrap();

                assert!((val - phi.value(&assn).unwrap()).abs() < std::f64::EPSILON);
            }
        }
    }
}

#[test]
fn mod_product() {
    let mut arena = Arena::new();
    let a = Variable::discrete(&mut arena, 3);
    let b = Variable::binary(&mut arena);
    let c = Variable::binary(&mut arena);

    let tbl1 = table(vec![3, 2], vec![0.5, 0.8, 0.1, 0., 0.3, 0.9]);
    let phi1 = Factor::new(vec![a, b], tbl1, false, &Reals).expect("Unexpected error");

    let tbl2 = table(vec![2, 2], vec![0.5, 0.7, 0.1, 0.2]);
    let phi2 = Factor::new(vec![b, c], tbl2, false, &Reals).expect("Unexpected error");

    let phi = phi1.product(&phi2, &Reals).expect("Unexpected error");

    let expected = table(vec![3, 2, 2], vec![0.25, 0.35, 0.08, 0.16, 0.05, 0.07, 0., 0., 0.15, 0.21, 0.09, 0.18]);

    for (x, (y, z)) in (0..3).zip((0..2).zip(0..2)) {
        let assn = assign(&[(a, x), (b, y), (c, z)]);

        assert_eq!(expected.get(&vec![x, y, z]).unwrap(), phi.value(&assn).expect("unexpected error"));
    }
}

#[test]
fn prod_identity() {
    let mut arena = Arena::new();
    let a = Variable::discrete(&mut arena, 3);
    let b = Variable::binary(&mut arena);

    let tbl1 = table(vec![3, 2], vec![0.5, 0.8, 0.1, 0., 0.3, 0.9]);
    let phi1 = Factor::new(vec![a, b], tbl1.copy(), false, &Reals).expect("Unexpected error");

    let phi2 = Factor::identity();
    let phi = phi1.product(&phi2, &Reals).expect("Unexpected error");

    assert_eq!(phi1.scope(), phi.scope());

    for x in 0..3 {
        for y in 0..2 {
            let assn = assign(&[(a, x), (b, y)]);

            let val = tbl1.get(&vec![x, y]).unwrap();
            assert!((val - phi.value(&assn).unwrap()).abs() < std::f64::EPSILON);
        }
    }

    let phi = phi2.product(&phi1, &Reals).expect("Unexpected error");
    assert_eq!(phi1.scope(), phi.scope());

    for x in 0..3 {
        for y in 0..2 {
            let assn = assign(&[(a, x), (b, y)]);

            let val = tbl1.get(&vec![x, y]).unwrap();
            assert!((val - phi.value(&assn).unwrap()).abs() < std::f64::EPSILON);
        }
    }
}

#[test]
fn prod_err() {
    let mut arena = Arena::new();
    let a = Variable::discrete(&mut arena, 3);
    let b = Variable::binary(&mut arena);
    let c = Variable::binary(&mut arena);

    let tbl1 = table(vec![3, 2], vec![0.5, 0.8, 0.1, 0., 0.3, 0.9]);
    let phi1 = Factor::new(vec![a, b], tbl1, false, &Reals).expect("Unexpected error");

    let tbl2 = table(vec![2], vec![0.5, 0.7]);
    let phi2 = Factor::new(vec![c], tbl2, false, &Reals).expect("Unexpected error");

    let phi = phi1.product(&phi2, &Reals);
    match phi {
        Ok(_) => panic!("Failed to produce error on invalid scope"),
        Err(e) => {
            match e {
                JeromeError::InvalidScope => assert!(true),
                _ => panic!("Failed to produce correct error on invalid scope"),
            };
        },
    };
}

#[test]
/// Example taken from Koller & Friedman Figure 4.3
fn divide() {
    let mut arena = Arena::new();
    let a = Variable::discrete(&mut arena, 3);
    let b = Variable::binary(&mut arena);

    let tbl1 = table(vec![3, 2], vec![0.5, 0.2, 0., 0., 0.3, 0.45]);
    let phi1 = Factor::new(vec![a, b], tbl1, false, &Reals).expect("Unexpected error");

    let tbl2 = table(vec![3], vec![0.8, 0., 0.6]);
    let phi2 = Factor::new(vec![a], tbl2, false, &Reals).expect("Unexpected error");

    let phi = phi1.divide(&phi2, &Reals).expect("Unexpected error");
    assert_eq!(vec![a, b], phi.scope());

    let expected = table(vec![3, 2], vec![0.625, 0.25, 0., 0., 0.5, 0.75]);

    for x in 0..3 {
        for y in 0..2 {
            let assn = assign(&[(a, x), (b, y)]);

            let val = expected.get(&vec![x, y]).unwrap();

            assert!((val - phi.value(&assn).unwrap()).abs() < std::f64::EPSILON);
        }
    }
}

#[test]
fn divide_identity() {
    let mut arena = Arena::new();
    let a = Variable::discrete(&mut arena, 3);
    let b = Variable::binary(&mut arena);

    let tbl1 = table(vec![3, 2], vec![0.5, 0.2, 0., 0., 0.3, 0.45]);
    let phi1 = Factor::new(vec![a, b], tbl1.copy(), false, &Reals).expect("Unexpected error");

    let phi2 = Factor::identity();

    let phi = phi1.divide(&phi2, &Reals).expect("Unexpected error");
    for x in 0..3 {
        for y in 0..2 {
            let assn = assign(&[(a, x), (b, y)]);

            let val = tbl1.get(&vec![x, y]).unwrap();

            assert!((val - phi.value(&assn).unwrap()).abs() < std::f64::EPSILON);
        }
    }

    let phi = phi2.divide(&phi2, &Reals).expect("Unexpected error");
    assert!(phi.is_identity());

    let phi = phi2.divide(&phi1, &Reals);
    match phi {
        Ok(_) => panic!("Incorrectly allowed 1 / factor division"),
        Err(e) => match e {
            JeromeError::InvalidScope => assert!(true),
            _ => assert!(false),
        },
    };
}

#[test]
/// Example taken from Koller & Friedman Figure 4.3
fn divide_err_bad_scope() {
    let mut arena = Arena::new();
    let a = Variable::discrete(&mut arena, 3);
    let b = Variable::binary(&mut arena);

    let tbl1 = table(vec![3, 2], vec![0.5, 0.2, 0., 0., 0.3, 0.45]);
    let phi1 = Factor::new(vec![a, b], tbl1, false, &Reals).expect("Unexpected error");

    let tbl2 = table(vec![3], vec![0.8, 0., 0.6]);
    let phi2 = Factor::new(vec![a], tbl2, false, &Reals).expect("Unexpected error");

    let phi = phi2.divide(&phi1, &Reals);
    assert!(phi.is_err());
    match phi.err().unwrap() {
        JeromeError::InvalidScope => assert!(true),
        _ => assert!(false),
    };
}

#[test]
/// Example taken from Koller & Friedman Figure 4.3
fn divide_err_div_by_zero() {
    let mut arena = Arena::new();
    let a = Variable::discrete(&mut arena, 3);
    let b = Variable::binary(&mut arena);

    let tbl1 = table(vec![3, 2], vec![0.5, 0.2, 0., 0., 0.3, 0.45]);
    let phi1 = Factor::new(vec![a, b], tbl1, false, &Reals).expect("Unexpected error");

    let tbl2 = table(vec![3], vec![0., 0., 0.]);
    let phi2 = Factor::new(vec![a], tbl2, false, &Reals).expect("Unexpected error");

    let phi = phi1.divide(&phi2, &Reals);
    assert!(phi.is_err());
    match phi.err().unwrap() {
        JeromeError::DivideByZero => assert!(true),
        _ => assert!(false),
    };
}

fn koller_friedman_4_5(arena: &mut Arena) -> (Variable, Variable, Variable, Factor<f64>) {
    let a = Variable::discrete(arena, 3);
    let b = Variable::binary(arena);
    let c = Variable::binary(arena);

    let table = table(vec![3, 2, 2], vec![0.25, 0.35, 0.08, 0.16, 0.05, 0.07, 0., 0., 0.15, 0.21, 0.09, 0.18]);

    let phi = Factor::new(vec![a, b, c], table, false, &Reals).expect("Unexpected error");
    (a, b, c, phi)
}

fn reduce_simple_body() {
    let mut arena = Arena::new();
    let (a, b, c, phi) = koller_friedman_4_5(&mut arena);

    let assn = assign(&[(c, 0)]);

    let expected = table(vec![3, 2], vec![0.25, 0.08, 0.05, 0., 0.15, 0.09]);

    let reduced = phi.reduce(&assn);
    assert_eq!(vec![a, b], reduced.scope());
    for (x, y) in (0..3).zip(0..2) {
        let assn = assign(&[(a, x), (b, y)]);

        assert_eq!(expected.get(&vec![x, y]).unwrap(), reduced.value(&assn).expect("unexpected error"));
    }
}

#[test]
/// Example take from Koller & Friedman Figure 4.5
fn factor_reduce_simple() {
    reduce_simple_body();
}

#[test]
fn mod_reduce_simple() {
    reduce_simple_body();
}

fn reduce_empty_body() {
    let mut arena = Arena::new();
    let a = Variable::binary(&mut arena);
    let b = Variable::binary(&mut arena);
    let c = Variable::binary(&mut arena);

    let tbl = table(vec![2, 2], vec![1., 0., 0., 1.]);
    let phi = Factor::new(vec![a, b], tbl.copy(), false, &Reals).expect("Unexpected error");

    let assn = assign(&[(c, 1)]);

    let reduced = phi.reduce(&assn);
    assert_eq!(vec![a, b], reduced.scope());
    for (x, y) in (0..2).zip(0..2) {
        let asn = assign(&[(a, x), (b, y)]);

        assert_eq!(tbl.get(&vec![x, y]).unwrap(), reduced.value(&asn).expect("Unexpected error"));
    }
}

#[test]
fn factor_reduce_empty() {
    reduce_empty_body();
}

#[test]
fn mod_reduce_empty() {
    reduce_empty_body();
}

fn reduce_full_body() {
    let mut arena = Arena::new();
    let a = Variable::binary(&mut arena);
    let b = Variable::binary(&mut arena);
    let c = Variable::binary(&mut arena);

    let tbl = table(vec![2, 2], vec![1., 0., 0., 1.]);
    let phi = Factor::new(vec![a, b], tbl, false, &Reals).expect("Unexpected error");

    let assn = assign(&[(a, 0), (b, 0), (c, 1)]);

    let reduced = phi.reduce(&assn);
    assert!(reduced.is_identity());
}

#[test]
fn factor_reduce_full() {
    reduce_full_body();
}

#[test]
fn mod_reduce_full() {
    reduce_full_body();
}

fn reduce_multiple_body() {
    let mut arena = Arena::new();
    let (a, b, c, phi) = koller_friedman_4_5(&mut arena);

    let assn = assign(&[(c, 0), (a, 2)]);

    let expected = vec![0.15, 0.09];

    let reduced = phi.reduce(&assn);
    assert_eq!(vec![b], reduced.scope());
    for x in 0..2 {
        let assn = assign(&[(b, x)]);

        assert_eq!(expected[x], reduced.value(&assn).expect("unexpected error"));
    }
}

#[test]
fn factor_reduce_multiple() {
    reduce_multiple_body();
}

#[test]
fn mod_reduce_multiple() {
    reduce_multiple_body();
}

fn marginalize_body() {
    let mut arena = Arena::new();
    let (a, b, c, phi) = koller_friedman_4_5(&mut arena);

    let marginalized = phi.marginalize(b, &Reals);
    assert_eq!(vec![a, c], marginalized.scope());

    let expected = table(vec![3, 2], vec![0.33, 0.51, 0.05, 0.07, 0.24, 0.39]);
    for (x, y) in (0..3).zip(0..2) {
        let assn = assign(&[(a, x), (c, y)]);

        let val = expected.get(&vec![x, y]).unwrap();
        assert!((val - marginalized.value(&assn).unwrap()).abs() < std::f64::EPSILON);
    }
}

#[test]
/// Example taken from Koller & Friedman Figure 9.7
fn factor_marginalize() {
    marginalize_body();
}

#[test]
fn mod_marginalize() {
    marginalize_body();
}

#[test]
fn marginalize_every_entry() {
    let mut arena = Arena::new();
    let (a, b, c, phi) = koller_friedman_4_5(&mut arena);

    let over_a = phi.marginalize(a, &Reals);
    assert_eq!(vec![b, c], over_a.scope());
    assert!(!over_a.is_cpd());
    // the entries are added in the order of the states, from zero
    assert_eq!(0.0 + 0.25 + 0.05 + 0.15, over_a.value(&assign(&[(b, 0), (c, 0)])).unwrap());
    assert_eq!(0.0 + 0.35 + 0.07 + 0.21, over_a.value(&assign(&[(b, 0), (c, 1)])).unwrap());
    assert_eq!(0.0 + 0.08 + 0.0 + 0.09, over_a.value(&assign(&[(b, 1), (c, 0)])).unwrap());
    assert_eq!(0.0 + 0.16 + 0.0 + 0.18, over_a.value(&assign(&[(b, 1), (c, 1)])).unwrap());

    let over_c = phi.marginalize(c, &Reals);
    assert_eq!(vec![a, b], over_c.scope());
    assert_eq!(0.0 + 0.15 + 0.21, over_c.value(&assign(&[(a, 2), (b, 0)])).unwrap());
}

#[test]
fn marginalize_edge_cases() {
    let mut arena = Arena::new();
    let (a, b, c, phi) = koller_friedman_4_5(&mut arena);
    let d = Variable::binary(&mut arena);

    // a variable outside the scope leaves the factor as it is
    let same = phi.marginalize(d, &Reals);
    assert_eq!(vec![a, b, c], same.scope());
    assert_eq!(0.21, same.value(&assign(&[(a, 2), (b, 0), (c, 1)])).unwrap());

    // the unit stays the unit
    let unit: Factor<f64> = Factor::identity();
    assert!(unit.marginalize(a, &Reals).is_identity());

    // a factor over the variable alone is summed to the unit
    let single = Factor::new(vec![d], table(vec![2], vec![0.3, 0.7]), true, &Reals).unwrap();
    assert!(single.marginalize(d, &Reals).is_identity());

    // the mark stays
    let joint = Factor::new(vec![a, d], table(vec![3, 2], vec![0.1, 0.2, 0.1, 0.2, 0.3, 0.1]), true, &Reals).unwrap();
    let marginal = joint.marginalize(d, &Reals);
    assert!(marginal.is_cpd());
    assert_eq!(vec![a], marginal.scope());
}

#[test]
fn mass_is_conserved() {
    let mut arena = Arena::new();
    let (a, _b, c, phi) = koller_friedman_4_5(&mut arena);
    let marginal = phi.marginalize(a, &Reals).marginalize(c, &Reals);
    let mut after = 0.0;
    for x in 0..2 {
        after += marginal.value(&assign(&[(_b, x)])).unwrap();
    }
    let before: f64 = [0.25, 0.35, 0.08, 0.16, 0.05, 0.07, 0., 0., 0.15, 0.21, 0.09, 0.18].iter().sum();
    assert!((before - after).abs() < 1e-12);
}

#[test]
fn value_depends_on_the_scope_alone() {
    let mut arena = Arena::new();
    let (a, b, c, phi) = koller_friedman_4_5(&mut arena);
    let d = Variable::discrete(&mut arena, 5);
    for x in 0..3 {
        for y in 0..2 {
            for z in 0..2 {
                let plain = phi.value(&assign(&[(a, x), (b, y), (c, z)])).unwrap();
                for other in 0..5 {
                    let more = phi.value(&assign(&[(d, other), (c, z), (a, x), (b, y)])).unwrap();
                    assert_eq!(plain, more);
                }
            }
        }
    }
}

#[test]
fn reduce_lays_the_evidence_over() {
    let mut arena = Arena::new();
    let (a, b, c, phi) = koller_friedman_4_5(&mut arena);
    let reduced = phi.reduce(&assign(&[(b, 1)]));
    assert_eq!(vec![a, c], reduced.scope());
    assert!(!reduced.is_cpd());
    for x in 0..3 {
        for z in 0..2 {
            // the state that the assignment gives the reduced variable is not read
            let got = reduced.value(&assign(&[(a, x), (c, z), (b, 0)])).unwrap();
            assert_eq!(phi.value(&assign(&[(a, x), (b, 1), (c, z)])).unwrap(), got);
        }
    }
    let unit: Factor<f64> = Factor::identity();
    assert!(unit.reduce(&assign(&[(b, 1)])).is_identity());
}

#[test]
fn new_rejects_bad_tables() {
    let mut arena = Arena::new();
    let a = Variable::binary(&mut arena);
    let b = Variable::binary(&mut arena);
    // a negative entry
    let f = Factor::new(vec![a, b], table(vec![2, 2], vec![0.5, -0.1, 0.3, 0.3]), false, &Reals);
    assert!(matches!(f, Err(JeromeError::NonPositiveProbability)));
    // zero is allowed in a factor, but not in a distribution
    assert!(Factor::new(vec![a, b], table(vec![2, 2], vec![0.5, 0., 0.25, 0.25]), false, &Reals).is_ok());
    let f = Factor::new(vec![a, b], table(vec![2, 2], vec![0.5, 0., 0.25, 0.25]), true, &Reals);
    assert!(matches!(f, Err(JeromeError::NonPositiveProbability)));
    // a variable twice
    let f = Factor::new(vec![a, a], table(vec![2, 2], vec![0.25, 0.25, 0.25, 0.25]), false, &Reals);
    assert!(matches!(f, Err(JeromeError::General(_))));
    // the sign of an entry is looked at first
    let f = Factor::new(vec![a, a], table(vec![2, 2], vec![0.25, -0.25, 0.25, 0.25]), false, &Reals);
    assert!(matches!(f, Err(JeromeError::NonPositiveProbability)));
    let f = Factor::cpd(a, vec![a], table(vec![2, 2], vec![0.5, 0.5, 0., 1.]), &Reals);
    assert!(matches!(f, Err(JeromeError::NonPositiveProbability)));
    // the tolerance
    assert!(Factor::new(vec![a], table(vec![2], vec![0.5, 0.5009]), true, &Reals).is_ok());
    assert!(matches!(
        Factor::new(vec![a], table(vec![2], vec![0.5, 0.502]), true, &Reals),
        Err(JeromeError::General(_))
    ));
}

#[test]
fn tables() {
    assert!(matches!(Table::from_shape_vec(vec![2, 3], vec![1.0; 5]), Err(JeromeError::General(_))));
    let mut t = table(vec![2, 3], vec![0., 1., 2., 3., 4., 5.]);
    assert_eq!(&vec![2, 3], t.shape());
    assert_eq!(2, t.ndim());
    assert_eq!(6, t.len());
    assert_eq!(Some(5.), t.get(&vec![1, 2]));
    assert_eq!(Some(3.), t.get(&vec![1, 0]));
    assert_eq!(None, t.get(&vec![2, 0]));
    assert_eq!(None, t.get(&vec![1]));
    assert_eq!(4., t.entry(4));
    assert!(!t.set(&vec![0, 3], 9.));
    assert!(t.set(&vec![0, 2], 9.));
    assert_eq!(Some(9.), t.get(&vec![0, 2]));
    assert_eq!(Some(1.), t.get(&vec![0, 1]));
    assert!(Table::from_elem(vec![usize::MAX, 2], 0.).is_none());
    let empty = Table::from_elem(vec![3, 0], 0.).unwrap();
    assert_eq!(0, empty.len());
}

#[test]
fn normalize() {
    let mut arena = Arena::new();
    let a = Variable::binary(&mut arena);
    let b = Variable::binary(&mut arena);
    let f = Factor::new(vec![a, b], table(vec![2, 2], vec![1., 3., 4., 2.]), false, &Reals).unwrap();
    let n = f.normalize(&Reals).unwrap();
    assert_eq!(vec![a, b], n.scope());
    assert!(!n.is_cpd());
    assert_eq!(1. / 10., n.value(&assign(&[(a, 0), (b, 0)])).unwrap());
    assert_eq!(3. / 10., n.value(&assign(&[(a, 0), (b, 1)])).unwrap());
    assert_eq!(4. / 10., n.value(&assign(&[(a, 1), (b, 0)])).unwrap());
    assert_eq!(2. / 10., n.value(&assign(&[(a, 1), (b, 1)])).unwrap());

    let zero = Factor::new(vec![a], table(vec![2], vec![0., 0.]), false, &Reals).unwrap();
    assert!(matches!(zero.normalize(&Reals), Err(JeromeError::DivideByZero)));

    let unit: Factor<f64> = Factor::identity();
    assert!(unit.normalize(&Reals).unwrap().is_identity());
}

#[test]
fn cpd() {
    let mut arena = Arena::new();
    let i = Variable::binary(&mut arena);
    let d = Variable::binary(&mut arena);
    let g = Variable::discrete(&mut arena, 3);

    let rows = vec![0.3, 0.4, 0.3, 0.05, 0.25, 0.7, 0.9, 0.08, 0.02, 0.5, 0.3, 0.2];
    let f = Factor::cpd(g, vec![i, d], table(vec![2, 2, 3], rows.clone()), &Reals).unwrap();
    assert!(f.is_cpd());
    assert!(!f.is_identity());
    assert_eq!(vec![i, d, g], f.scope());
    assert_eq!(0.7, f.value(&assign(&[(i, 0), (d, 1), (g, 2)])).unwrap());
    assert_eq!(0.08, f.value(&assign(&[(i, 1), (d, 0), (g, 1)])).unwrap());

    // no parents
    let f = Factor::cpd(d, Vec::new(), table(vec![2], vec![0.5, 0.5]), &Reals).unwrap();
    assert_eq!(vec![d], f.scope());

    // a row that does not sum to one
    let mut bad = rows.clone();
    bad[4] = 0.35;
    let f = Factor::cpd(g, vec![i, d], table(vec![2, 2, 3], bad), &Reals);
    assert!(matches!(f, Err(JeromeError::NotACPD)));

    // the rows sum to one, the columns do not
    let f = Factor::cpd(d, vec![i], table(vec![2, 2], vec![0.9, 0.1, 0.8, 0.2]), &Reals);
    assert!(f.is_ok());

    // an entry that is not above zero
    let f = Factor::cpd(d, vec![i], table(vec![2, 2], vec![1.0, 0.0, 0.5, 0.5]), &Reals);
    assert!(matches!(f, Err(JeromeError::NonPositiveProbability)));

    // the table does not fit
    let f = Factor::cpd(g, vec![i, d], table(vec![2, 3, 2], rows.clone()), &Reals);
    assert!(matches!(f, Err(JeromeError::General(_))));
    let f = Factor::cpd(g, vec![i], table(vec![2, 2, 3], rows.clone()), &Reals);
    assert!(matches!(f, Err(JeromeError::General(_))));
    let f = Factor::cpd(g, vec![g, d], table(vec![3, 2, 3], vec![0.1; 18]), &Reals);
    assert!(matches!(f, Err(JeromeError::General(_))));
}

#[test]
fn sample_cpd() {
    let mut arena = Arena::new();
    let i = Variable::binary(&mut arena);
    let g = Variable::discrete(&mut arena, 3);
    let f = Factor::cpd(g, vec![i], table(vec![2, 3], vec![0.2, 0.5, 0.3, 0.7, 0.2, 0.1]), &Reals).unwrap();

    let given = assign(&[(i, 0)]);
    assert_eq!(0, f.sample_cpd(&given, 0.0, &Reals).unwrap());
    assert_eq!(0, f.sample_cpd(&given, 0.19, &Reals).unwrap());
    assert_eq!(1, f.sample_cpd(&given, 0.21, &Reals).unwrap());
    assert_eq!(1, f.sample_cpd(&given, 0.69, &Reals).unwrap());
    assert_eq!(2, f.sample_cpd(&given, 0.71, &Reals).unwrap());
    assert_eq!(2, f.sample_cpd(&given, 0.999, &Reals).unwrap());
    // a draw that no cumulative share lies above falls to the last state
    assert_eq!(2, f.sample_cpd(&given, 1.5, &Reals).unwrap());

    // the state of the variable itself is not read
    let given = assign(&[(g, 2), (i, 1)]);
    assert_eq!(0, f.sample_cpd(&given, 0.69, &Reals).unwrap());
    assert_eq!(1, f.sample_cpd(&given, 0.71, &Reals).unwrap());
    assert_eq!(2, f.sample_cpd(&given, 0.91, &Reals).unwrap());

    assert!(matches!(f.sample_cpd(&Assignment::new(), 0.5, &Reals), Err(JeromeError::IncompleteAssignment)));
    assert!(matches!(f.sample_cpd(&assign(&[(g, 0)]), 0.5, &Reals), Err(JeromeError::IncompleteAssignment)));
    let unit: Factor<f64> = Factor::identity();
    assert!(matches!(unit.sample_cpd(&given, 0.5, &Reals), Err(JeromeError::NotACPD)));

    // a row that is not normalized is normalized first
    let h = Factor::new(vec![i, g], table(vec![2, 3], vec![2., 6., 2., 0., 0., 0.]), false, &Reals).unwrap();
    assert_eq!(0, h.sample_cpd(&assign(&[(i, 0)]), 0.19, &Reals).unwrap());
    assert_eq!(1, h.sample_cpd(&assign(&[(i, 0)]), 0.21, &Reals).unwrap());
    assert_eq!(2, h.sample_cpd(&assign(&[(i, 0)]), 0.81, &Reals).unwrap());
    assert!(matches!(h.sample_cpd(&assign(&[(i, 1)]), 0.5, &Reals), Err(JeromeError::DivideByZero)));
}

#[test]
fn sample_for_any_variable_of_the_scope() {
    let mut arena = Arena::new();
    let i = Variable::binary(&mut arena);
    let g = Variable::discrete(&mut arena, 3);
    let other = Variable::binary(&mut arena);
    // P(g | i) with `g` first
    let f = Factor::new(vec![g, i], table(vec![3, 2], vec![0.2, 0.7, 0.5, 0.2, 0.3, 0.1]), false, &Reals).unwrap();
    let given = assign(&[(i, 0), (other, 1)]);
    assert_eq!(0, f.sample_for(&g, &given, 0.19, &Reals).unwrap());
    assert_eq!(1, f.sample_for(&g, &given, 0.21, &Reals).unwrap());
    assert_eq!(2, f.sample_for(&g, &given, 0.71, &Reals).unwrap());
    let given = assign(&[(i, 1), (g, 0)]);
    assert_eq!(0, f.sample_for(&g, &given, 0.69, &Reals).unwrap());
    assert_eq!(1, f.sample_for(&g, &given, 0.71, &Reals).unwrap());
    assert_eq!(2, f.sample_for(&g, &given, 0.91, &Reals).unwrap());
    // the other variable of the scope, given `g`: (0.5, 0.2) over 0.7
    let given = assign(&[(g, 1)]);
    assert_eq!(0, f.sample_for(&i, &given, 0.7, &Reals).unwrap());
    assert_eq!(1, f.sample_for(&i, &given, 0.72, &Reals).unwrap());

    assert!(matches!(f.sample_for(&other, &given, 0.5, &Reals), Err(JeromeError::InvalidScope)));
    assert!(matches!(f.sample_for(&g, &Assignment::new(), 0.5, &Reals), Err(JeromeError::IncompleteAssignment)));
    let unit: Factor<f64> = Factor::identity();
    assert!(matches!(unit.sample_for(&g, &given, 0.5, &Reals), Err(JeromeError::InvalidScope)));
    let h = Factor::new(vec![g, i], table(vec![3, 2], vec![0., 1., 0., 1., 0., 1.]), false, &Reals).unwrap();
    assert!(matches!(h.sample_for(&g, &assign(&[(i, 0)]), 0.5, &Reals), Err(JeromeError::DivideByZero)));
    assert!(!h.has_mass(&g, &Reals));
    assert!(h.has_mass(&i, &Reals));
    assert!(f.has_mass(&g, &Reals));
}

#[test]
fn inverse_cdf_and_sums() {
    assert_eq!(0.0 + 1.5 + 2.5, sum_all(&vec![1.5, 2.5], &Reals));
    assert_eq!(0.0, sum_all(&Vec::new(), &Reals));
    assert_eq!(1, inverse_cdf(&vec![1., 1., 2.], 0.25, &Reals).unwrap());
    assert_eq!(0, inverse_cdf(&vec![1., 1., 2.], 0.24, &Reals).unwrap());
    assert_eq!(2, inverse_cdf(&vec![1., 1., 2.], 0.5, &Reals).unwrap());
    assert!(matches!(inverse_cdf(&Vec::new(), 0.5, &Reals), Err(JeromeError::NotEnoughData)));
    assert!(matches!(inverse_cdf(&vec![0., 0.], 0.5, &Reals), Err(JeromeError::DivideByZero)));
}

#[test]
fn rows() {
    let values = vec![1., 3., 2., 2., 0., 0.];
    assert_eq!(6, shares_of(&values, 2, &Reals).len());
    assert_eq!(vec![0.25, 0.75, 0.5, 0.5], shares_of(&vec![1., 3., 2., 2.], 2, &Reals));
    assert_eq!(vec![1. / 6., 3. / 6., 2. / 6.], shares_of(&vec![1., 3., 2.], 3, &Reals));
    assert!(shares_of(&Vec::new(), 3, &Reals).is_empty());
    assert!(!rows_with_mass(&values, 2, &Reals));
    assert!(rows_with_mass(&values, 3, &Reals));
    assert!(rows_with_mass(&values, 6, &Reals));
    assert!(rows_pass(&vec![0.5, 0.5, 0.1, 0.9], 2, &Reals));
    assert!(!rows_pass(&vec![0.5, 0.5, 0.1, 0.9], 4, &Reals));
    assert!(!rows_pass(&vec![0.5, 0.5, 0.1, 0.8], 2, &Reals));
    // an incomplete row at the end is not a row
    assert!(rows_pass(&vec![0.5, 0.5, 0.1], 2, &Reals));
}

#[test]
fn copies() {
    let mut arena = Arena::new();
    let (a, b, c, phi) = koller_friedman_4_5(&mut arena);
    let copy = phi.copy();
    assert_eq!(phi.scope(), copy.scope());
    assert_eq!(phi.is_cpd(), copy.is_cpd());
    assert_eq!(0.18, copy.value(&assign(&[(a, 2), (b, 1), (c, 1)])).unwrap());
    assert!(copy.mentions(&a));
    let d = Variable::binary(&mut arena);
    assert!(!copy.mentions(&d));
}
