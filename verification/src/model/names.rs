//! The names of the variables of a model: a table that is read in both
//! directions, from a variable to its name and from a name to its variable.

use vstd::prelude::*;
use bidir_map::BidirMap;
use crate::variable::Variable;

verus! {

/// `bidir_map::BidirMap`, a map that is read in both directions: a value
/// that is carried through and never looked into.
#[verifier::external_type_specification]
#[verifier::external_body]
#[verifier::reject_recursive_types(Kv1)]
#[verifier::reject_recursive_types(Kv2)]
pub struct ExBidirMap<Kv1: PartialEq, Kv2: PartialEq>(BidirMap<Kv1, Kv2>);

/// Whether one of `pairs` is the pair of `id` and `name`.
pub open spec fn pairs_with(pairs: Seq<(usize, Seq<char>)>, id: usize, name: Seq<char>) -> bool {
    exists|i: int| 0 <= i < pairs.len() && #[trigger] pairs[i] == (id, name)
}

/// The pairs of identity and name that a table holds, in its order.
pub uninterp spec fn named(table: BidirMap<usize, String>) -> Seq<(usize, Seq<char>)>;

/// `BidirMap::new`: a table that holds no pair.
#[verifier::external_body]
fn table_new() -> (table: BidirMap<usize, String>)
    ensures
        named(table) == Seq::<(usize, Seq<char>)>::empty(),
{
    BidirMap::new()
}

/// A sequence without its item at `i`: the last item takes its place.
pub open spec fn swap_removed<X>(items: Seq<X>, i: int) -> Seq<X> {
    items.update(i, items.last()).drop_last()
}

/// Whether the pair at `i` is the first of `pairs` with the identity `id`.
pub open spec fn first_with_id(pairs: Seq<(usize, Seq<char>)>, id: usize, i: int) -> bool {
    &&& 0 <= i < pairs.len()
    &&& pairs[i].0 == id
    &&& forall|j: int| 0 <= j < i ==> pairs[j].0 != id
}

/// Whether the pair at `i` is the first of `pairs` with the name `name`.
pub open spec fn first_with_name(pairs: Seq<(usize, Seq<char>)>, name: Seq<char>, i: int) -> bool {
    &&& 0 <= i < pairs.len()
    &&& pairs[i].1 == name
    &&& forall|j: int| 0 <= j < i ==> pairs[j].1 != name
}

/// Whether the pair at `i` makes room when `id` and `name` are inserted: it
/// is the first pair with the identity or, where no pair has the identity,
/// the first pair with the name.
pub open spec fn leaves(pairs: Seq<(usize, Seq<char>)>, id: usize, name: Seq<char>, i: int) -> bool {
    if has_id(pairs, id) {
        first_with_id(pairs, id, i)
    } else {
        first_with_name(pairs, name, i)
    }
}

/// `BidirMap::insert`: where the table holds neither the identity nor the
/// name, the pair is added at the end and the pairs before it stay as they
/// are. Otherwise one pair leaves first, the first with the identity or
/// else the first with the name, and the last pair takes its place.
#[verifier::external_body]
fn table_insert(table: &mut BidirMap<usize, String>, id: usize, name: String)
    ensures
        !has_id(named(*old(table)), id) && !has_name(named(*old(table)), name@) ==> named(*final(table)) == named(
            *old(table),
        ).push((id, name@)),
        forall|i: int| #[trigger]
            leaves(named(*old(table)), id, name@, i) ==> named(*final(table)) == swap_removed(
                named(*old(table)),
                i,
            ).push((id, name@)),
{
    table.insert(id, name);
}

/// `BidirMap::get_by_first`: a copy of the name of the first pair with the
/// given identity, or nothing if the table holds no such pair.
#[verifier::external_body]
fn table_by_first(table: &BidirMap<usize, String>, id: usize) -> (r: Option<String>)
    ensures
        match r {
            Some(name) => pairs_with(named(*table), id, name@),
            None => forall|i: int| 0 <= i < named(*table).len() ==> named(*table)[i].0 != id,
        },
{
    table.get_by_first(&id).cloned()
}

/// `BidirMap::get_by_second`: the identity of the first pair with the
/// given name, or nothing if the table holds no such pair.
#[verifier::external_body]
fn table_by_second(table: &BidirMap<usize, String>, name: &str) -> (r: Option<usize>)
    ensures
        match r {
            Some(id) => pairs_with(named(*table), id, name@),
            None => forall|i: int| 0 <= i < named(*table).len() ==> named(*table)[i].1 != name@,
        },
{
    table.get_by_second(name).copied()
}

/// `Clone::clone` of a `BidirMap`: a table that holds the same pairs in the
/// same order.
#[verifier::external_body]
fn table_clone(table: &BidirMap<usize, String>) -> (copy: BidirMap<usize, String>)
    ensures
        named(copy) == named(*table),
{
    table.clone()
}

/// The character of a decimal digit.
pub open spec fn digit(d: nat) -> char {
    if d == 0 {
        '0'
    } else if d == 1 {
        '1'
    } else if d == 2 {
        '2'
    } else if d == 3 {
        '3'
    } else if d == 4 {
        '4'
    } else if d == 5 {
        '5'
    } else if d == 6 {
        '6'
    } else if d == 7 {
        '7'
    } else if d == 8 {
        '8'
    } else {
        '9'
    }
}

/// The decimal text of a number, without leading zeros.
pub open spec fn decimal(n: nat) -> Seq<char>
    decreases n,
{
    if n < 10 {
        seq![digit(n)]
    } else {
        decimal(n / 10).push(digit(n % 10))
    }
}

/// The character of the decimal digit `d`.
fn digit_of(d: usize) -> (c: char)
    requires
        d < 10,
    ensures
        c == digit(d as nat),
{
    if d == 0 {
        '0'
    } else if d == 1 {
        '1'
    } else if d == 2 {
        '2'
    } else if d == 3 {
        '3'
    } else if d == 4 {
        '4'
    } else if d == 5 {
        '5'
    } else if d == 6 {
        '6'
    } else if d == 7 {
        '7'
    } else if d == 8 {
        '8'
    } else {
        '9'
    }
}

/// Writes the decimal digits of `n` after the characters of `out`.
fn write_decimal(n: usize, out: &mut Vec<char>)
    ensures
        final(out)@ == old(out)@ + decimal(n as nat),
    decreases n,
{
    if n >= 10 {
        write_decimal(n / 10, out);
    }
    out.push(digit_of(n % 10));
    proof {
        assert(final(out)@ =~= old(out)@ + decimal(n as nat));
    }
}

/// `String::from_iter` on the characters of a vector: the string of those
/// characters, in their order.
#[verifier::external_body]
fn string_of(chars: &Vec<char>) -> (text: String)
    ensures
        text@ == chars@,
{
    chars.iter().collect()
}

/// The decimal text of `n`.
pub fn text_of(n: usize) -> (text: String)
    ensures
        text@ == decimal(n as nat),
{
    let mut chars: Vec<char> = Vec::new();
    write_decimal(n, &mut chars);
    proof {
        assert(chars@ =~= decimal(n as nat));
    }
    string_of(&chars)
}

/// Whether no identity and no name occurs twice among `pairs`.
pub open spec fn one_to_one(pairs: Seq<(usize, Seq<char>)>) -> bool {
    forall|i: int, j: int| 0 <= i < j < pairs.len() ==> pairs[i].0 != pairs[j].0 && pairs[i].1 != pairs[j].1
}

/// Whether one of `pairs` has the identity `id`.
pub open spec fn has_id(pairs: Seq<(usize, Seq<char>)>, id: usize) -> bool {
    exists|i: int| 0 <= i < pairs.len() && (#[trigger] pairs[i]).0 == id
}

/// Whether one of `pairs` has the name `name`.
pub open spec fn has_name(pairs: Seq<(usize, Seq<char>)>, name: Seq<char>) -> bool {
    exists|i: int| 0 <= i < pairs.len() && (#[trigger] pairs[i]).1 == name
}

/// The names among `pairs`, in their order.
pub open spec fn labels(pairs: Seq<(usize, Seq<char>)>) -> Seq<Seq<char>> {
    Seq::new(pairs.len(), |i: int| pairs[i].1)
}

/// Whether `pairs` names the variables `order`, each at its position.
pub open spec fn labelled(order: Seq<Variable>, pairs: Seq<(usize, Seq<char>)>) -> bool {
    &&& pairs.len() == order.len()
    &&& forall|i: int| 0 <= i < order.len() ==> (#[trigger] pairs[i]).0 == order[i].spec_id()
}

/// Pairs stay one to one when the only pair that holds an identity or a
/// name leaves and the two are added as a pair.
pub proof fn lemma_swap_removed(pairs: Seq<(usize, Seq<char>)>, at: int, pair: (usize, Seq<char>))
    requires
        one_to_one(pairs),
        0 <= at < pairs.len(),
        forall|j: int| 0 <= j < pairs.len() && j != at ==> (#[trigger] pairs[j]).0 != pair.0 && pairs[j].1 != pair.1,
    ensures
        one_to_one(swap_removed(pairs, at).push(pair)),
{
    let next = swap_removed(pairs, at).push(pair);
    let last = pairs.len() - 1;
    assert forall|i: int, j: int| 0 <= i < j < next.len() implies next[i].0 != next[j].0 && next[i].1 != next[j].1 by {
        let x = if i == at {
            last
        } else {
            i
        };
        assert(next[i] == pairs[x]);
        assert(x != at || at == last);
        if j < last {
            let y = if j == at {
                last
            } else {
                j
            };
            assert(next[j] == pairs[y]);
            if x < y {
                assert(pairs[x].0 != pairs[y].0);
            } else {
                assert(pairs[y].0 != pairs[x].0);
            }
        } else {
            assert(next[j] == pair);
            assert(x != at);
        }
    }
}

/// The names of variables, each variable told by its identity. No variable
/// has two names, and no two variables have the same name.
pub struct Names {
    table: BidirMap<usize, String>,
}

impl View for Names {
    type V = Seq<(usize, Seq<char>)>;

    closed spec fn view(&self) -> Seq<(usize, Seq<char>)> {
        named(self.table)
    }
}

impl Names {
    /// The validity of a table of names.
    pub open spec fn wf(&self) -> bool {
        one_to_one(self@)
    }

    /// The empty table.
    pub fn new() -> (names: Self)
        ensures
            names.wf(),
            names@ == Seq::<(usize, Seq<char>)>::empty(),
    {
        Names { table: table_new() }
    }

    /// A copy of the table.
    pub fn copy(&self) -> (names: Self)
        ensures
            names@ == self@,
    {
        Names { table: table_clone(&self.table) }
    }

    /// The name of the variable with the identity `id`, if it has one.
    pub fn name_of(&self, id: usize) -> (r: Option<String>)
        ensures
            match r {
                Some(name) => pairs_with(self@, id, name@),
                None => !has_id(self@, id),
            },
    {
        table_by_first(&self.table, id)
    }

    /// The identity of the variable with the name `name`, if there is one.
    pub fn id_of(&self, name: &str) -> (r: Option<usize>)
        ensures
            match r {
                Some(id) => pairs_with(self@, id, name@),
                None => !has_name(self@, name@),
            },
    {
        table_by_second(&self.table, name)
    }

    /// Gives the variable with the identity `id` the name `name`, unless the
    /// variable has a name or the name is taken.
    pub fn insert(&mut self, id: usize, name: String) -> (added: bool)
        requires
            old(self).wf(),
        ensures
            final(self).wf(),
            added == (!has_id(old(self)@, id) && !has_name(old(self)@, name@)),
            final(self)@ == if added {
                old(self)@.push((id, name@))
            } else {
                old(self)@
            },
    {
        if table_by_first(&self.table, id).is_some() {
            return false;
        }
        if table_by_second(&self.table, name.as_str()).is_some() {
            return false;
        }
        table_insert(&mut self.table, id, name);
        true
    }

    /// Gives the variable with the identity `id` the name `name` in place
    /// of the pair at `at`, the only one that holds the identity or the
    /// name: that pair leaves, the last pair takes its place, and the new
    /// pair is added at the end.
    pub fn replace(&mut self, at: usize, id: usize, name: String)
        requires
            old(self).wf(),
            at < old(self)@.len(),
            old(self)@[at as int].0 == id || old(self)@[at as int].1 == name@,
            forall|j: int|
                0 <= j < old(self)@.len() && j != at ==> (#[trigger] old(self)@[j]).0 != id && old(self)@[j].1
                    != name@,
        ensures
            final(self).wf(),
            final(self)@ == swap_removed(old(self)@, at as int).push((id, name@)),
    {
        proof {
            let pairs = self@;
            if has_id(pairs, id) {
                let i = choose|i: int| 0 <= i < pairs.len() && (#[trigger] pairs[i]).0 == id;
                assert(i == at);
            }
            assert(leaves(pairs, id, name@, at as int));
            lemma_swap_removed(pairs, at as int, (id, name@));
        }
        table_insert(&mut self.table, id, name);
    }
}

} // verus!
