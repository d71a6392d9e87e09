//! The variables of a model in the order in which they were added, with
//! lookup of a variable's position by its identity.

use vstd::prelude::*;
use indexmap::IndexMap;
use crate::variable::Variable;

verus! {

/// `indexmap::IndexMap`, a hash map that keeps the order of insertion: a
/// value that is carried through and never looked into.
#[verifier::external_type_specification]
#[verifier::external_body]
#[verifier::reject_recursive_types(K)]
#[verifier::reject_recursive_types(V)]
#[verifier::reject_recursive_types(S)]
pub struct ExIndexMap<K, V, S>(IndexMap<K, V, S>);

/// The pairs of identity and cardinality that an ordered map holds, in its
/// order.
pub uninterp spec fn pairs(map: IndexMap<usize, usize>) -> Seq<(usize, usize)>;

/// `IndexMap::new`: a map that holds no pair.
#[verifier::external_body]
fn map_new() -> (map: IndexMap<usize, usize>)
    ensures
        pairs(map) == Seq::<(usize, usize)>::empty(),
{
    IndexMap::new()
}

/// `IndexMap::len`: the number of pairs in the map.
#[verifier::external_body]
fn map_len(map: &IndexMap<usize, usize>) -> (n: usize)
    ensures
        n == pairs(*map).len(),
{
    map.len()
}

/// `IndexMap::insert` of a key that the map does not hold: the pair is
/// added last in the order, and the pairs before it stay as they are.
#[verifier::external_body]
fn map_insert(map: &mut IndexMap<usize, usize>, key: usize, value: usize)
    requires
        forall|i: int| 0 <= i < pairs(*old(map)).len() ==> pairs(*old(map))[i].0 != key,
    ensures
        pairs(*final(map)) == pairs(*old(map)).push((key, value)),
{
    map.insert(key, value);
}

/// `IndexMap::get_full`: the position and the value of the pair with the
/// given key, or nothing if the map holds no pair with that key.
#[verifier::external_body]
fn map_find(map: &IndexMap<usize, usize>, key: usize) -> (r: Option<(usize, usize)>)
    ensures
        match r {
            Some((i, value)) => i < pairs(*map).len() && pairs(*map)[i as int] == (key, value),
            None => forall|i: int| 0 <= i < pairs(*map).len() ==> pairs(*map)[i].0 != key,
        },
{
    map.get_full(&key).map(|(i, _, value)| (i, *value))
}

/// `IndexMap::get_index`: the pair at a position of the order, or nothing
/// if the position is past the last pair.
#[verifier::external_body]
fn map_at(map: &IndexMap<usize, usize>, i: usize) -> (r: Option<(usize, usize)>)
    ensures
        r == if i < pairs(*map).len() {
            Some(pairs(*map)[i as int])
        } else {
            None
        },
{
    map.get_index(i).map(|(key, value)| (*key, *value))
}

/// `Clone::clone` of an `IndexMap`: a map that holds the same pairs in the
/// same order.
#[verifier::external_body]
fn map_clone(map: &IndexMap<usize, usize>) -> (copy: IndexMap<usize, usize>)
    ensures
        pairs(copy) == pairs(*map),
{
    map.clone()
}

/// The variables that a sequence of pairs of identity and cardinality
/// stands for.
pub open spec fn listed(held: Seq<(usize, usize)>) -> Seq<Variable> {
    Seq::new(held.len(), |i: int| Variable::spec_of(held[i].0, held[i].1))
}

/// Whether no identity occurs twice among `order`.
pub open spec fn distinct_ids(order: Seq<Variable>) -> bool {
    forall|i: int, j: int| 0 <= i < j < order.len() ==> order[i].spec_id() != order[j].spec_id()
}

/// The variables of a model in insertion order.
pub struct Roster {
    map: IndexMap<usize, usize>,
}

impl View for Roster {
    type V = Seq<Variable>;

    closed spec fn view(&self) -> Seq<Variable> {
        listed(pairs(self.map))
    }
}

impl Roster {
    /// The validity of a roster: no identity is held twice, and every
    /// variable has a state.
    pub closed spec fn wf(&self) -> bool {
        &&& forall|i: int, j: int|
            0 <= i < j < pairs(self.map).len() ==> pairs(self.map)[i].0 != pairs(self.map)[j].0
        &&& forall|i: int| 0 <= i < pairs(self.map).len() ==> (#[trigger] pairs(self.map)[i]).1 >= 1
    }

    /// A valid roster holds no identity, and so no variable, twice.
    pub proof fn lemma_distinct(&self)
        requires
            self.wf(),
        ensures
            distinct_ids(self@),
            self@.no_duplicates(),
    {
        let held = pairs(self.map);
        assert forall|i: int| 0 <= i < self@.len() implies (#[trigger] self@[i]).spec_id() == held[i].0 by {
            Variable::lemma_of(held[i].0, held[i].1);
        }
    }

    /// The empty roster.
    pub fn new() -> (r: Self)
        ensures
            r.wf(),
            r@ == Seq::<Variable>::empty(),
    {
        let r = Roster { map: map_new() };
        proof {
            assert(r@ =~= Seq::<Variable>::empty());
        }
        r
    }

    /// A copy of the roster.
    pub fn copy(&self) -> (r: Self)
        ensures
            r@ == self@,
            self.wf() ==> r.wf(),
    {
        Roster { map: map_clone(&self.map) }
    }

    /// The number of variables.
    pub fn len(&self) -> (n: usize)
        ensures
            n == self@.len(),
    {
        map_len(&self.map)
    }

    /// The position of `v`, if the roster holds it.
    pub fn position(&self, v: &Variable) -> (r: Option<usize>)
        requires
            self.wf(),
        ensures
            match r {
                Some(i) => i < self@.len() && self@[i as int] == *v,
                None => !self@.contains(*v),
            },
    {
        let found = map_find(&self.map, v.id());
        proof {
            v.lemma_parts();
            let held = pairs(self.map);
            assert forall|i: int| 0 <= i < self@.len() implies (#[trigger] self@[i]).spec_id() == held[i].0
                && self@[i].spec_cardinality() == held[i].1 by {
                Variable::lemma_of(held[i].0, held[i].1);
            }
        }
        match found {
            Some((i, states)) => {
                if states == v.cardinality() {
                    Some(i)
                } else {
                    proof {
                        if self@.contains(*v) {
                            let j = choose|j: int| 0 <= j < self@.len() && self@[j] == *v;
                            assert(pairs(self.map)[j].0 == pairs(self.map)[i as int].0);
                        }
                    }
                    None
                }
            },
            None => None,
        }
    }

    /// The position of the variable with the identity `id`, if the roster
    /// holds one.
    pub fn by_id(&self, id: usize) -> (r: Option<usize>)
        requires
            self.wf(),
        ensures
            match r {
                Some(i) => i < self@.len() && self@[i as int].spec_id() == id,
                None => forall|i: int| 0 <= i < self@.len() ==> (#[trigger] self@[i]).spec_id() != id,
            },
    {
        let found = map_find(&self.map, id);
        proof {
            let held = pairs(self.map);
            assert forall|i: int| 0 <= i < self@.len() implies (#[trigger] self@[i]).spec_id() == held[i].0 by {
                Variable::lemma_of(held[i].0, held[i].1);
            }
        }
        match found {
            Some((i, _)) => Some(i),
            None => None,
        }
    }

    /// Whether the roster holds a variable with the identity of `v`.
    pub fn knows(&self, v: &Variable) -> (b: bool)
        requires
            self.wf(),
        ensures
            b == exists|i: int| 0 <= i < self@.len() && self@[i].spec_id() == v.spec_id(),
    {
        let found = map_find(&self.map, v.id());
        proof {
            let held = pairs(self.map);
            assert forall|i: int| 0 <= i < self@.len() implies (#[trigger] self@[i]).spec_id() == held[i].0 by {
                Variable::lemma_of(held[i].0, held[i].1);
            }
            match found {
                Some((i, states)) => {
                    assert(self@[i as int].spec_id() == v.spec_id());
                },
                None => {},
            }
        }
        found.is_some()
    }

    /// Adds `v` at the end, unless the roster holds a variable with its
    /// identity.
    pub fn push(&mut self, v: Variable) -> (added: bool)
        requires
            old(self).wf(),
        ensures
            final(self).wf(),
            added == !exists|i: int| 0 <= i < old(self)@.len() && old(self)@[i].spec_id() == v.spec_id(),
            added ==> final(self)@ == old(self)@.push(v),
            !added ==> final(self)@ == old(self)@,
    {
        if self.knows(&v) {
            return false;
        }
        proof {
            let held = pairs(self.map);
            assert forall|i: int| 0 <= i < held.len() implies held[i].0 != v.spec_id() by {
                Variable::lemma_of(held[i].0, held[i].1);
                assert(self@[i].spec_id() == held[i].0);
            }
        }
        map_insert(&mut self.map, v.id(), v.cardinality());
        proof {
            v.lemma_parts();
            assert(self@ =~= old(self)@.push(v));
        }
        true
    }

    /// The variable at position `i`.
    pub fn get(&self, i: usize) -> (v: Variable)
        requires
            self.wf(),
            i < self@.len(),
        ensures
            v == self@[i as int],
    {
        let (id, states) = map_at(&self.map, i).unwrap();
        Variable::of(id, states)
    }

    /// The variables in order.
    pub fn to_vec(&self) -> (r: Vec<Variable>)
        requires
            self.wf(),
        ensures
            r@ == self@,
    {
        let mut r: Vec<Variable> = Vec::new();
        let n = self.len();
        let mut i: usize = 0;
        while i < n
            invariant
                self.wf(),
                n == self@.len(),
                i <= n,
                r@ == self@.take(i as int),
            decreases n - i,
        {
            r.push(self.get(i));
            proof {
                assert(r@ =~= self@.take(i + 1));
            }
            i += 1;
        }
        proof {
            assert(self@.take(i as int) == self@);
        }
        r
    }
}

} // verus!
