use jerome::layout::{measure, offset};
use jerome::util::JeromeError;
use jerome::variable::{all_assignments, to_assn, Arena, Assignment, Variable};

#[test]
fn binary() {
    let mut arena = Arena::new();
    let v = Variable::binary(&mut arena);
    assert_eq!(v.cardinality(), 2);

    let v2 = v;
    assert_eq!(v, v2);

    let v3 = Variable::binary(&mut arena);
    assert_ne!(v, v3);
    assert_ne!(v2, v3);
}

#[test]
fn discrete() {
    let mut arena = Arena::new();
    let v = Variable::discrete(&mut arena, 10);
    assert_eq!(v.cardinality(), 10);

    let v2 = v;
    assert_eq!(v, v2);

    let v3 = Variable::discrete(&mut arena, 10);
    assert_ne!(v, v3);
    assert_ne!(v2, v3);
}

#[test]
fn assignment() {
    let mut arena = Arena::new();
    let v = Variable::binary(&mut arena);
    let v2 = Variable::discrete(&mut arena, 10);

    let mut assn = Assignment::new();
    if let None = assn.set(&v, 2) {
        panic!("Did not fail when attempting to add an out of range value");
    }

    if let Some(_) = assn.set(&v, 1) {
        panic!("Failed to add a value in range");
    }

    if let None = assn.set(&v, 0) {
        panic!("Did not fail when adding a duplicate assignment");
    }

    match assn.get(&v) {
        Some(&val) => assert_eq!(1, val),
        None => panic!("Returned incorrect value"),
    };

    if let Some(_) = assn.get(&v2) {
        panic!("Did not fail when attempting to retrieve an un-added variable");
    }

    if let None = assn.set(&v2, 25) {
        panic!("Did not fail when attempting to add an out of range value");
    }

    if let Some(_) = assn.set(&v2, 5) {
        panic!("Failed to add a value in range");
    }
}

#[test]
fn assignment_iter() {
    let mut arena = Arena::new();
    let a = Variable::binary(&mut arena);
    let b = Variable::binary(&mut arena);
    let vars = vec![a, b];

    let mut it = all_assignments(&vars);
    let mut i = 0;
    while let Some(assn) = it.next() {
        assert_eq!(i / 2, *assn.get(&a).expect("Missing assignment"));
        assert_eq!(i % 2, *assn.get(&b).expect("Missing assignment"));
        i += 1;
    }
    assert_eq!(4, i);
}

#[test]
fn identities_are_consecutive() {
    let mut arena = Arena::new();
    let a = Variable::binary(&mut arena);
    let b = Variable::discrete(&mut arena, 3);
    let c = Variable::binary(&mut arena);
    assert_eq!(0, a.id());
    assert_eq!(1, b.id());
    assert_eq!(2, c.id());
    assert_eq!(1, usize::from(b));
    assert_eq!(3, arena.next_id());
}

#[test]
fn set_reports_each_error() {
    let mut arena = Arena::new();
    let v = Variable::discrete(&mut arena, 3);
    let mut assn = Assignment::new();
    assert!(matches!(assn.set(&v, 3), Some(JeromeError::OutOfRange)));
    assert!(assn.get(&v).is_none());
    assert!(assn.set(&v, 2).is_none());
    assert!(matches!(assn.set(&v, 1), Some(JeromeError::DuplicateAssignment)));
    // a variable that has a state keeps it, also when the new state is out of range
    assert!(matches!(assn.set(&v, 7), Some(JeromeError::DuplicateAssignment)));
    assert_eq!(Some(&2), assn.get(&v));
    assert_eq!(1, assn.len());
}

#[test]
fn unset_removes_one_variable() {
    let mut arena = Arena::new();
    let a = Variable::binary(&mut arena);
    let b = Variable::discrete(&mut arena, 4);
    let mut assn = Assignment::new();
    assn.set(&a, 1);
    assn.set(&b, 3);
    assn.unset(&a);
    assert!(assn.get(&a).is_none());
    assert_eq!(Some(&3), assn.get(&b));
    assn.unset(&a);
    assert_eq!(1, assn.len());
    assert!(assn.set(&a, 0).is_none());
    assert_eq!(Some(&0), assn.get(&a));
    let copy = assn.copy();
    assert_eq!(Some(&0), copy.get(&a));
    assert_eq!(Some(&3), copy.get(&b));
}

#[test]
fn to_assn_passes_over_what_cannot_be_set() {
    let mut arena = Arena::new();
    let a = Variable::binary(&mut arena);
    let b = Variable::discrete(&mut arena, 3);
    // the second state of `a` comes too late, the state of `b` is out of range
    let assn = to_assn(&vec![a, a, b], &vec![1, 0, 3]);
    assert_eq!(Some(&1), assn.get(&a));
    assert!(assn.get(&b).is_none());
    // states without a variable are not read
    let assn = to_assn(&vec![b], &vec![2, 1, 0]);
    assert_eq!(Some(&2), assn.get(&b));
    assert_eq!(1, assn.len());
}

#[test]
fn all_assignments_in_row_major_order() {
    let mut arena = Arena::new();
    let a = Variable::discrete(&mut arena, 3);
    let b = Variable::binary(&mut arena);
    let c = Variable::discrete(&mut arena, 4);
    let vars = vec![a, b, c];

    let mut it = all_assignments(&vars);
    let mut seen: Vec<Vec<usize>> = Vec::new();
    let mut k = 0;
    while let Some(assn) = it.next() {
        let states = vec![*assn.get(&a).unwrap(), *assn.get(&b).unwrap(), *assn.get(&c).unwrap()];
        // the last variable varies fastest
        assert_eq!(vec![k / 8, (k / 4) % 2, k % 4], states);
        assert_eq!(Some(k), offset(&vec![3, 2, 4], &states));
        assert!(!seen.contains(&states));
        seen.push(states);
        k += 1;
    }
    assert_eq!(3 * 2 * 4, k);
    assert_eq!(Some(k), measure(&vec![3, 2, 4]));
    assert!(it.next().is_none());
}

#[test]
fn offsets_and_sizes() {
    assert_eq!(Some(1), measure(&vec![]));
    assert_eq!(Some(0), measure(&vec![usize::MAX, usize::MAX, 0]));
    assert_eq!(None, measure(&vec![usize::MAX, 2]));
    assert_eq!(Some(0), offset(&vec![], &vec![]));
    assert_eq!(Some(23), offset(&vec![3, 2, 4], &vec![2, 1, 3]));
    assert_eq!(Some(13), offset(&vec![3, 2, 4], &vec![1, 1, 1]));
    assert_eq!(None, offset(&vec![3, 2, 4], &vec![1, 2, 1]));
    assert_eq!(None, offset(&vec![3, 2, 4], &vec![1, 1]));
}

#[test]
fn all_assignments_of_no_variable() {
    let vars: Vec<Variable> = Vec::new();
    let mut it = all_assignments(&vars);
    let only = it.next().expect("the empty assignment");
    assert_eq!(0, only.len());
    assert!(it.next().is_none());
}

#[test]
fn descriptions() {
    assert_eq!("Encountered division by zero", JeromeError::DivideByZero.description());
    assert_eq!("Provided scope did not satisfy constraints", JeromeError::InvalidScope.description());
    assert_eq!("some text", JeromeError::General(String::from("some text")).description());
    assert_eq!("An unknown error occured", JeromeError::Unknown.description());
}
