//! The environment of a command: variables by name, in the order of their names.

use vstd::prelude::*;
use vstd::string::*;

use crate::order::{in_order, item_same, holds, locate, order_is_total, Order};
use crate::text::{copy_texts, texts};

verus! {

/// The variables of a command, in the order of their names.
#[derive(Debug, PartialEq, Eq)]
pub struct Environment {
    names: Vec<String>,
    values: Vec<String>,
}

/// The names of a sequence of variables.
pub open spec fn names_of(entries: Seq<(Seq<char>, Seq<char>)>) -> Seq<Seq<char>> {
    Seq::new(entries.len(), |i: int| entries[i].0)
}

/// Whether variables stand in the order of their names, each name once.
pub open spec fn ordered_by_name(entries: Seq<(Seq<char>, Seq<char>)>) -> bool {
    in_order(Order::Text, names_of(entries))
}

/// Whether `name` has the value `value` among `entries`.
pub open spec fn has_entry(
    entries: Seq<(Seq<char>, Seq<char>)>,
    name: Seq<char>,
    value: Seq<char>,
) -> bool {
    entries.contains((name, value))
}

/// Whether `name` is among `entries`.
pub open spec fn has_name(entries: Seq<(Seq<char>, Seq<char>)>, name: Seq<char>) -> bool {
    names_of(entries).contains(name)
}

impl View for Environment {
    type V = Seq<(Seq<char>, Seq<char>)>;

    closed spec fn view(&self) -> Seq<(Seq<char>, Seq<char>)> {
        Seq::new(self.names@.len(), |i: int| (self.names@[i]@, self.values@[i]@))
    }
}

proof fn lemma_names(env: Environment)
    ensures
        names_of(env@) == texts(env.names@),
{
    assert(names_of(env@) =~= texts(env.names@));
}

proof fn lemma_holds_name(entries: Seq<(Seq<char>, Seq<char>)>, name: Seq<char>)
    ensures
        holds(Order::Text, names_of(entries), name) == has_name(entries, name),
{
    let names = names_of(entries);
    if holds(Order::Text, names, name) {
        let i = choose|i: int|
            0 <= i < names.len() && item_same(Order::Text, #[trigger] names[i], name);
        assert(names[i] == name);
    }
    if names.contains(name) {
        let i = choose|i: int| 0 <= i < names.len() && names[i] == name;
        assert(item_same(Order::Text, names[i], name));
    }
}

/// A name has one value among variables in order.
pub proof fn names_have_one_value(
    entries: Seq<(Seq<char>, Seq<char>)>,
    name: Seq<char>,
    first: Seq<char>,
    second: Seq<char>,
)
    requires
        ordered_by_name(entries),
        has_entry(entries, name, first),
        has_entry(entries, name, second),
    ensures
        first == second,
{
    let i = choose|i: int| 0 <= i < entries.len() && entries[i] == (name, first);
    let j = choose|j: int| 0 <= j < entries.len() && entries[j] == (name, second);
    let names = names_of(entries);
    order_is_total(Order::Text, names[i], names[j]);
    if i < j {
        assert(crate::order::item_less(Order::Text, names[i], names[j]));
    } else if j < i {
        assert(crate::order::item_less(Order::Text, names[j], names[i]));
    }
}

impl Environment {
    #[verifier::type_invariant]
    spec fn is_valid(self) -> bool {
        &&& self.names@.len() == self.values@.len()
        &&& in_order(Order::Text, texts(self.names@))
    }

    /// No variables.
    pub fn new() -> (env: Environment)
        ensures
            env@ == Seq::<(Seq<char>, Seq<char>)>::empty(),
    {
        let env = Environment { names: Vec::new(), values: Vec::new() };
        assert(env@ =~= Seq::<(Seq<char>, Seq<char>)>::empty());
        env
    }

    /// The number of variables.
    pub fn len(&self) -> (n: usize)
        ensures
            n == self@.len(),
            ordered_by_name(self@),
    {
        proof {
            use_type_invariant(self);
            lemma_names(*self);
        }
        self.names.len()
    }

    /// The name at index `i`.
    pub fn name(&self, i: usize) -> (name: &str)
        requires
            i < self@.len(),
        ensures
            name@ == self@[i as int].0,
    {
        self.names[i].as_str()
    }

    /// The value at index `i`.
    pub fn value(&self, i: usize) -> (value: &str)
        requires
            i < self@.len(),
        ensures
            value@ == self@[i as int].1,
    {
        proof {
            use_type_invariant(self);
        }
        self.values[i].as_str()
    }

    /// The value of `name`, if it has one.
    pub fn get(&self, name: &str) -> (value: Option<&str>)
        ensures
            match value {
                Some(value) => has_entry(self@, name@, value@),
                None => !has_name(self@, name@),
            },
    {
        proof {
            use_type_invariant(self);
            lemma_names(*self);
            lemma_holds_name(self@, name@);
        }
        let (found, at) = locate(Order::Text, &self.names, name);
        if found {
            assert(self@[at as int] == (name@, self.values@[at as int]@));
            Some(self.values[at].as_str())
        } else {
            None
        }
    }

    /// Gives `name` the value `value`, in place of the one it had.
    pub fn insert(&mut self, name: String, value: String)
        ensures
            ordered_by_name(final(self)@),
            forall|n: Seq<char>, v: Seq<char>| #[trigger]
                has_entry(final(self)@, n, v) <==> if n == name@ {
                    v == value@
                } else {
                    has_entry(old(self)@, n, v)
                },
    {
        let ghost before = self@;
        proof {
            use_type_invariant(&*self);
            lemma_names(*self);
            lemma_holds_name(before, name@);
        }
        let mut taken = Environment::new();
        std::mem::swap(self, &mut taken);
        let Environment { mut names, mut values } = taken;
        let (found, at) = locate(Order::Text, &names, name.as_str());
        if found {
            let ghost old_values = values@;
            values.set(at, value);
            let env = Environment { names, values };
            assert(env@ =~= before.update(at as int, (name@, value@)));
            assert forall|n: Seq<char>, v: Seq<char>| #[trigger]
                has_entry(env@, n, v) <==> if n == name@ {
                    v == value@
                } else {
                    has_entry(before, n, v)
                } by {
                lemma_replaced(before, at as int, value@, n, v);
            }
            assert(names_of(env@) =~= names_of(before));
            *self = env;
        } else {
            proof {
                crate::order::insertion_at(Order::Text, texts(names@), name@, at as int);
            }
            let ghost old_names = texts(names@);
            names.insert(at, name);
            values.insert(at, value);
            assert(texts(names@) =~= old_names.insert(at as int, name@));
            let env = Environment { names, values };
            assert(env@ =~= before.insert(at as int, (name@, value@)));
            assert forall|n: Seq<char>, v: Seq<char>| #[trigger]
                has_entry(env@, n, v) <==> if n == name@ {
                    v == value@
                } else {
                    has_entry(before, n, v)
                } by {
                lemma_inserted(before, at as int, name@, value@, n, v);
            }
            assert(names_of(env@) =~= texts(names@));
            *self = env;
        }
    }
}

proof fn lemma_replaced(
    entries: Seq<(Seq<char>, Seq<char>)>,
    at: int,
    value: Seq<char>,
    n: Seq<char>,
    v: Seq<char>,
)
    requires
        ordered_by_name(entries),
        0 <= at < entries.len(),
    ensures
        has_entry(entries.update(at, (entries[at].0, value)), n, v) <==> if n == entries[at].0 {
            v == value
        } else {
            has_entry(entries, n, v)
        },
{
    let name = entries[at].0;
    let out = entries.update(at, (name, value));
    assert(out[at] == (name, value));
    if has_entry(out, n, v) {
        let i = choose|i: int| 0 <= i < out.len() && out[i] == (n, v);
        if i != at {
            assert(entries[i] == (n, v));
            if n == name {
                assert(has_entry(entries, name, entries[at].1)) by {
                    assert(entries[at] == (name, entries[at].1));
                }
                let names = names_of(entries);
                order_is_total(Order::Text, names[i], names[at]);
                if i < at {
                    assert(crate::order::item_less(Order::Text, names[i], names[at]));
                } else {
                    assert(crate::order::item_less(Order::Text, names[at], names[i]));
                }
            }
        }
    }
    if has_entry(entries, n, v) && n != name {
        let i = choose|i: int| 0 <= i < entries.len() && entries[i] == (n, v);
        assert(out[i] == (n, v));
    }
}

proof fn lemma_inserted(
    entries: Seq<(Seq<char>, Seq<char>)>,
    at: int,
    name: Seq<char>,
    value: Seq<char>,
    n: Seq<char>,
    v: Seq<char>,
)
    requires
        !has_name(entries, name),
        0 <= at <= entries.len(),
    ensures
        has_entry(entries.insert(at, (name, value)), n, v) <==> if n == name {
            v == value
        } else {
            has_entry(entries, n, v)
        },
{
    let out = entries.insert(at, (name, value));
    assert(out[at] == (name, value));
    if has_entry(out, n, v) {
        let i = choose|i: int| 0 <= i < out.len() && out[i] == (n, v);
        if i < at {
            assert(entries[i] == (n, v));
            assert(names_of(entries)[i] == n);
        } else if i > at {
            assert(entries[i - 1] == (n, v));
            assert(names_of(entries)[i - 1] == n);
        }
    }
    if has_entry(entries, n, v) {
        let i = choose|i: int| 0 <= i < entries.len() && entries[i] == (n, v);
        assert(names_of(entries)[i] == n);
        if i < at {
            assert(out[i] == (n, v));
        } else {
            assert(out[i + 1] == (n, v));
        }
    }
}

impl Clone for Environment {
    fn clone(&self) -> (env: Environment)
        ensures
            env@ == self@,
    {
        proof {
            use_type_invariant(self);
        }
        let names = copy_texts(&self.names);
        let values = copy_texts(&self.values);
        assert(texts(names@).len() == names@.len());
        assert(texts(values@).len() == values@.len());
        assert forall|i: int| 0 <= i < names@.len() implies (names@[i]@, values@[i]@) == (
            self.names@[i]@,
            self.values@[i]@,
        ) by {
            assert(texts(names@)[i] == texts(self.names@)[i]);
            assert(texts(values@)[i] == texts(self.values@)[i]);
        }
        let env = Environment { names, values };
        assert(env@ =~= self@);
        env
    }
}

} // verus!
