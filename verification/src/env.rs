use crate::error::EvalError;
use crate::text::{alphanumeric, chars_of};
use vstd::prelude::*;
use vstd::string::StringExecFns;

verus! {

/// Whether a character may stand in a variable's name: alphanumeric, or `_`.
pub open spec fn name_char(c: char) -> bool {
    alphanumeric(c) || c == '_'
}

/// Whether a text may name a variable: it is not empty, and each character may stand
/// in a name.
pub open spec fn valid_name(name: Seq<char>) -> bool {
    name.len() > 0 && forall|i: int| 0 <= i < name.len() ==> name_char(#[trigger] name[i])
}

/// The position of `name` among the entries, if it is there.
pub open spec fn position_of<D>(entries: Seq<(Seq<char>, D)>, name: Seq<char>) -> Option<int>
    decreases entries.len(),
{
    if entries.len() == 0 {
        None
    } else if entries.last().0 == name {
        Some(entries.len() - 1)
    } else {
        position_of(entries.drop_last(), name)
    }
}

/// Whether no name occurs twice among the entries.
pub open spec fn distinct_names<D>(entries: Seq<(Seq<char>, D)>) -> bool {
    forall|i: int, j: int|
        0 <= i < j < entries.len() ==> (#[trigger] entries[i]).0 != (#[trigger] entries[j]).0
}

/// The mapping that the entries spell.
pub open spec fn mapping_of<D>(entries: Seq<(Seq<char>, D)>) -> Map<Seq<char>, D> {
    Map::new(
        |name: Seq<char>| position_of(entries, name) is Some,
        |name: Seq<char>| entries[position_of(entries, name)->Some_0].1,
    )
}

/// The entries after `name` is given `value`: in place where the name is there
/// already, at the end where it is new.
pub open spec fn entries_with<D>(entries: Seq<(Seq<char>, D)>, name: Seq<char>, value: D) -> Seq<
    (Seq<char>, D),
> {
    match position_of(entries, name) {
        Some(i) => entries.update(i, (name, value)),
        None => entries.push((name, value)),
    }
}

/// `position_of` finds a name exactly where it stands.
pub proof fn lemma_position_of<D>(entries: Seq<(Seq<char>, D)>, name: Seq<char>)
    ensures
        match position_of(entries, name) {
            Some(i) => 0 <= i < entries.len() && entries[i].0 == name,
            None => forall|i: int| 0 <= i < entries.len() ==> (#[trigger] entries[i]).0 != name,
        },
    decreases entries.len(),
{
    if entries.len() > 0 && entries.last().0 != name {
        lemma_position_of(entries.drop_last(), name);
        assert forall|i: int| 0 <= i < entries.len() && position_of(entries, name) is None implies (
        #[trigger] entries[i]).0 != name by {
            if i < entries.len() - 1 {
                assert(entries.drop_last()[i] == entries[i]);
            }
        }
    }
}

/// Among distinct names, a name that stands at `i` is found at `i`.
pub proof fn lemma_position_unique<D>(entries: Seq<(Seq<char>, D)>, i: int)
    requires
        distinct_names(entries),
        0 <= i < entries.len(),
    ensures
        position_of(entries, entries[i].0) == Some(i),
{
    lemma_position_of(entries, entries[i].0);
}

/// Giving a name a value changes the mapping at that name, and nowhere else; distinct
/// names stay distinct.
pub proof fn lemma_entries_with<D>(entries: Seq<(Seq<char>, D)>, name: Seq<char>, value: D)
    requires
        distinct_names(entries),
    ensures
        distinct_names(entries_with(entries, name, value)),
        mapping_of(entries_with(entries, name, value)) == mapping_of(entries).insert(name, value),
{
    let after = entries_with(entries, name, value);
    lemma_position_of(entries, name);
    assert(distinct_names(after));
    assert forall|other: Seq<char>|
        position_of(after, other) is Some <==> (other == name || position_of(
            entries,
            other,
        ) is Some) by {
        lemma_position_of(entries, other);
        lemma_position_of(after, other);
        if position_of(entries, other) is Some {
            let k = position_of(entries, other)->Some_0;
            assert(after[k].0 == other);
        }
    }
    assert forall|other: Seq<char>| position_of(after, other) is Some implies after[position_of(
        after,
        other,
    )->Some_0].1 == (if other == name {
        value
    } else {
        entries[position_of(entries, other)->Some_0].1
    }) by {
        lemma_position_of(entries, other);
        lemma_position_of(after, other);
        let k = position_of(after, other)->Some_0;
        if other != name {
            let j = position_of(entries, other)->Some_0;
            assert(after[j].0 == other);
            assert(k == j);
        }
    }
    assert(mapping_of(after) =~= mapping_of(entries).insert(name, value));
}

struct Binding<D> {
    name: String,
    value: D,
}

/// The variables of a session: each name has at most one value. Names are told apart
/// by their characters, upper and lower case being different, and are listed in the
/// order in which they were first assigned.
pub struct VariableEnvironment<D> {
    bindings: Vec<Binding<D>>,
}

impl<D> View for VariableEnvironment<D> {
    type V = Map<Seq<char>, D>;

    /// The mapping from names to values.
    open spec fn view(&self) -> Map<Seq<char>, D> {
        mapping_of(self.entries())
    }
}

impl<D> VariableEnvironment<D> {
    /// The names with their values, in the order in which the names were first assigned.
    pub closed spec fn entries(&self) -> Seq<(Seq<char>, D)> {
        self.bindings@.map_values(|b: Binding<D>| (b.name@, b.value))
    }

    #[verifier::type_invariant]
    closed spec fn well_formed(&self) -> bool {
        &&& distinct_names(self.entries())
        &&& forall|i: int| 0 <= i < self.entries().len() ==> valid_name((#[trigger] self.entries()[i]).0)
    }
}

impl<D: Copy> VariableEnvironment<D> {
    /// The environment without variables.
    pub fn new() -> (env: Self)
        ensures
            env.entries() == Seq::<(Seq<char>, D)>::empty(),
            env@ == Map::<Seq<char>, D>::empty(),
    {
        let env = VariableEnvironment { bindings: Vec::new() };
        assert(env.entries() =~= Seq::<(Seq<char>, D)>::empty());
        assert(env@ =~= Map::<Seq<char>, D>::empty());
        env
    }

    /// Where `name` stands among the bindings.
    fn find(&self, name: &String) -> (at: Option<usize>)
        ensures
            match at {
                Some(i) => position_of(self.entries(), name@) == Some(i as int) && i
                    < self.bindings.len(),
                None => position_of(self.entries(), name@) is None,
            },
    {
        proof {
            use_type_invariant(self);
        }
        let mut i: usize = 0;
        while i < self.bindings.len()
            invariant
                i <= self.bindings.len(),
                distinct_names(self.entries()),
                forall|j: int| 0 <= j < i ==> (#[trigger] self.entries()[j]).0 != name@,
            decreases self.bindings.len() - i,
        {
            if self.bindings[i].name == *name {
                proof {
                    assert(self.entries()[i as int].0 == name@);
                    lemma_position_unique(self.entries(), i as int);
                }
                return Some(i);
            }
            assert(self.entries()[i as int].0 != name@);
            i += 1;
        }
        proof {
            lemma_position_of(self.entries(), name@);
        }
        None
    }

    /// The value of the variable `name`, if there is one.
    pub fn get(&self, name: &str) -> (value: Option<D>)
        ensures
            value == if self@.contains_key(name@) {
                Some(self@[name@])
            } else {
                None
            },
    {
        let key = String::from_str(name);
        match self.find(&key) {
            Some(i) => Some(self.bindings[i].value),
            None => None,
        }
    }

    /// Gives the variable `name` the value `value`, whether or not it had one. A name
    /// that is not valid is refused, and nothing changes.
    pub fn assign(&mut self, name: &str, value: D) -> (done: Result<(), EvalError>)
        ensures
            valid_name(name@) ==> done is Ok && final(self).entries() == entries_with(
                old(self).entries(),
                name@,
                value,
            ) && final(self)@ == old(self)@.insert(name@, value),
            !valid_name(name@) ==> done == Err::<(), EvalError>(EvalError::InvalidIdentifier)
                && *final(self) == *old(self),
    {
        if !is_valid_name(name) {
            return Err(EvalError::InvalidIdentifier);
        }
        proof {
            use_type_invariant(&*self);
            lemma_entries_with(self.entries(), name@, value);
        }
        let key = String::from_str(name);
        let ghost before = self.entries();
        let found = self.find(&key);
        let mut bindings: Vec<Binding<D>> = Vec::new();
        std::mem::swap(&mut self.bindings, &mut bindings);
        match found {
            Some(i) => {
                bindings.set(i, Binding { name: key, value });
            },
            None => {
                bindings.push(Binding { name: key, value });
            },
        }
        assert(bindings@.map_values(|b: Binding<D>| (b.name@, b.value)) =~= entries_with(
            before,
            name@,
            value,
        ));
        std::mem::swap(&mut self.bindings, &mut bindings);
        Ok(())
    }

    /// Every variable with its value, in the order in which the names were first
    /// assigned.
    pub fn lookup_all(&self) -> (listing: Vec<(String, D)>)
        ensures
            self@.dom().finite(),
            distinct_names(self.entries()),
            forall|i: int|
                0 <= i < self.entries().len() ==> valid_name((#[trigger] self.entries()[i]).0),
            listing@.len() == self.entries().len(),
            forall|i: int|
                0 <= i < listing@.len() ==> (#[trigger] listing@[i]).0@ == self.entries()[i].0
                    && listing@[i].1 == self.entries()[i].1,
    {
        proof {
            use_type_invariant(self);
            lemma_mapping_finite(self.entries());
        }
        let mut listing: Vec<(String, D)> = Vec::new();
        let mut i: usize = 0;
        while i < self.bindings.len()
            invariant
                i <= self.bindings.len(),
                listing@.len() == i,
                forall|j: int|
                    0 <= j < i ==> (#[trigger] listing@[j]).0@ == self.entries()[j].0
                        && listing@[j].1 == self.entries()[j].1,
            decreases self.bindings.len() - i,
        {
            listing.push((self.bindings[i].name.clone(), self.bindings[i].value));
            i += 1;
        }
        listing
    }
}

/// The mapping that entries spell has finitely many names.
pub proof fn lemma_mapping_finite<D>(entries: Seq<(Seq<char>, D)>)
    ensures
        mapping_of(entries).dom().finite(),
    decreases entries.len(),
{
    if entries.len() == 0 {
        assert(mapping_of(entries).dom() =~= Set::<Seq<char>>::empty());
    } else {
        lemma_mapping_finite(entries.drop_last());
        let shorter = mapping_of(entries.drop_last()).dom();
        assert(mapping_of(entries).dom() =~= shorter.insert(entries.last().0));
    }
}

/// Whether `name` may name a variable.
pub fn is_valid_name(name: &str) -> (valid: bool)
    ensures
        valid == valid_name(name@),
{
    let chars = chars_of(name);
    if chars.len() == 0 {
        return false;
    }
    let mut i: usize = 0;
    while i < chars.len()
        invariant
            i <= chars.len(),
            chars@ == name@,
            forall|j: int| 0 <= j < i ==> name_char(#[trigger] chars@[j]),
        decreases chars.len() - i,
    {
        let c = chars[i];
        if !(c.is_alphanumeric() || c == '_') {
            assert(!name_char(name@[i as int]));
            return false;
        }
        i += 1;
    }
    true
}

} // verus!
