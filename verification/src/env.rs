//! The environment: one flat mapping from symbol names to values.

use crate::builtins::{builtin_named, lemma_names_differ};
use crate::value::{Builtin, RispExp, Value};
use vstd::prelude::*;

verus! {

/// A name bound to a value.
pub struct Binding {
    pub name: String,
    pub value: RispExp,
}

/// The mapping that a sequence of bindings stands for: a later binding of a
/// name replaces an earlier one.
pub open spec fn bound(entries: Seq<Binding>) -> Map<Seq<char>, Value>
    decreases entries.len(),
{
    if entries.len() == 0 {
        Map::empty()
    } else {
        bound(entries.drop_last()).insert(entries.last().name@, entries.last().value@)
    }
}

/// The environment that binds each of the given builtins to its symbol, and
/// nothing else.
pub open spec fn installed(ops: Set<Builtin>) -> Map<Seq<char>, Value> {
    Map::new(
        |name: Seq<char>| builtin_named(name) is Some && ops.contains(builtin_named(name)->0),
        |name: Seq<char>| Value::Func(builtin_named(name)->0),
    )
}

/// Whether no name occurs twice among the bindings.
pub open spec fn names_differ(entries: Seq<Binding>) -> bool {
    forall|i: int, j: int|
        0 <= i < j < entries.len() ==> (#[trigger] entries[i]).name@ != (#[trigger] entries[j]).name@
}

/// A name that no binding has is not bound.
proof fn lemma_bound_without(entries: Seq<Binding>, name: Seq<char>)
    requires
        forall|j: int| 0 <= j < entries.len() ==> (#[trigger] entries[j]).name@ != name,
    ensures
        !bound(entries).contains_key(name),
    decreases entries.len(),
{
    if entries.len() > 0 {
        let front = entries.drop_last();
        assert forall|j: int| 0 <= j < front.len() implies (#[trigger] front[j]).name@ != name by {
            assert(front[j] == entries[j]);
        }
        lemma_bound_without(front, name);
        assert(entries.last() == entries[entries.len() - 1]);
    }
}

/// The last binding of a name is the one that counts.
proof fn lemma_bound_at(entries: Seq<Binding>, i: int)
    requires
        0 <= i < entries.len(),
        forall|j: int| i < j < entries.len() ==> (#[trigger] entries[j]).name@ != entries[i].name@,
    ensures
        bound(entries).contains_key(entries[i].name@),
        bound(entries)[entries[i].name@] == entries[i].value@,
    decreases entries.len(),
{
    if i < entries.len() - 1 {
        let front = entries.drop_last();
        assert(front[i] == entries[i]);
        assert forall|j: int| i < j < front.len() implies (#[trigger] front[j]).name@
            != front[i].name@ by {
            assert(front[j] == entries[j]);
        }
        lemma_bound_at(front, i);
        assert(entries.last() == entries[entries.len() - 1]);
    }
}

/// Putting a binding in the place of the last binding of its name binds
/// that name anew and leaves the others.
proof fn lemma_bound_replaced(entries: Seq<Binding>, i: int, b: Binding)
    requires
        0 <= i < entries.len(),
        entries[i].name@ == b.name@,
        forall|j: int| i < j < entries.len() ==> (#[trigger] entries[j]).name@ != b.name@,
    ensures
        bound(entries.update(i, b)) == bound(entries).insert(b.name@, b.value@),
    decreases entries.len(),
{
    let after = entries.update(i, b);
    let front = entries.drop_last();
    if i == entries.len() - 1 {
        assert(after.drop_last() =~= front);
        assert(after.last() == b);
        assert(bound(after) =~= bound(entries).insert(b.name@, b.value@));
    } else {
        let last = entries.last();
        assert(last == entries[entries.len() - 1]);
        assert(front[i] == entries[i]);
        assert forall|j: int| i < j < front.len() implies (#[trigger] front[j]).name@
            != b.name@ by {
            assert(front[j] == entries[j]);
        }
        lemma_bound_replaced(front, i, b);
        assert(after.drop_last() =~= front.update(i, b));
        assert(after.last() == last);
        assert(bound(after) =~= bound(entries).insert(b.name@, b.value@));
    }
}

/// Bindings that agree name by name and value by value stand for the same
/// mapping.
proof fn lemma_bound_alike(a: Seq<Binding>, b: Seq<Binding>)
    requires
        a.len() == b.len(),
        forall|j: int|
            0 <= j < a.len() ==> (#[trigger] a[j]).name@ == b[j].name@ && a[j].value@
                == b[j].value@,
    ensures
        bound(a) == bound(b),
    decreases a.len(),
{
    if a.len() > 0 {
        let fa = a.drop_last();
        let fb = b.drop_last();
        assert forall|j: int| 0 <= j < fa.len() implies (#[trigger] fa[j]).name@ == fb[j].name@
            && fa[j].value@ == fb[j].value@ by {
            assert(fa[j] == a[j]);
            assert(fb[j] == b[j]);
        }
        lemma_bound_alike(fa, fb);
        assert(a.last() == a[a.len() - 1]);
        assert(b.last() == b[b.len() - 1]);
    }
}

/// The environment against which expressions are evaluated.
pub struct RispEnv {
    data: Vec<Binding>,
}

impl View for RispEnv {
    type V = Map<Seq<char>, Value>;

    closed spec fn view(&self) -> Map<Seq<char>, Value> {
        bound(self.data@)
    }
}

impl RispEnv {
    /// No name is bound twice.
    #[verifier::type_invariant]
    spec fn well_formed(self) -> bool {
        names_differ(self.data@)
    }

    /// An environment that binds nothing.
    pub fn new() -> (env: RispEnv)
        ensures
            env@ == Map::<Seq<char>, Value>::empty(),
    {
        RispEnv { data: Vec::new() }
    }

    /// Where `name` is bound, if it is.
    fn position(&self, name: &String) -> (r: Option<usize>)
        ensures
            match r {
                Some(i) => i < self.data.len() && self.data[i as int].name@ == name@,
                None => forall|j: int|
                    0 <= j < self.data.len() ==> (#[trigger] self.data[j]).name@ != name@,
            },
    {
        let mut i: usize = 0;
        while i < self.data.len()
            invariant
                i <= self.data.len(),
                forall|j: int| 0 <= j < i ==> (#[trigger] self.data[j]).name@ != name@,
            decreases self.data.len() - i,
        {
            if self.data[i].name == *name {
                return Some(i);
            }
            i = i + 1;
        }
        None
    }

    /// Binds `name` to `value`, in place of what it was bound to.
    pub fn insert(&mut self, name: String, value: RispExp)
        ensures
            final(self)@ == old(self)@.insert(name@, value@),
    {
        proof {
            use_type_invariant(&*self);
        }
        let ghost before = self.data@;
        let place = self.position(&name);
        let binding = Binding { name, value };
        let mut data: Vec<Binding> = Vec::new();
        core::mem::swap(&mut self.data, &mut data);
        match place {
            Some(i) => {
                proof {
                    lemma_bound_replaced(before, i as int, binding);
                }
                data.set(i, binding);
            },
            None => {
                data.push(binding);
                proof {
                    assert(data@.drop_last() =~= before);
                }
            },
        }
        core::mem::swap(&mut self.data, &mut data);
    }

    /// The value to which `name` is bound.
    pub fn get(&self, name: &str) -> (r: Option<&RispExp>)
        ensures
            match r {
                Some(v) => self@.contains_key(name@) && v@ == self@[name@],
                None => !self@.contains_key(name@),
            },
    {
        proof {
            use_type_invariant(self);
        }
        let key = name.to_owned();
        match self.position(&key) {
            Some(i) => {
                proof {
                    lemma_bound_at(self.data@, i as int);
                }
                Some(&self.data[i].value)
            },
            None => {
                proof {
                    lemma_bound_without(self.data@, name@);
                }
                None
            },
        }
    }

    /// The environment in which each of the given builtins is bound to its
    /// symbol.
    pub fn with_builtins(ops: &Vec<Builtin>) -> (env: RispEnv)
        ensures
            env@ == installed(ops@.to_set()),
    {
        let mut env = RispEnv::new();
        let mut i: usize = 0;
        proof {
            assert(ops@.take(0).to_set() =~= Set::<Builtin>::empty());
            assert(env@ =~= installed(Set::<Builtin>::empty()));
        }
        while i < ops.len()
            invariant
                i <= ops.len(),
                env@ == installed(ops@.take(i as int).to_set()),
            decreases ops.len() - i,
        {
            let op = ops[i];
            let ghost before = ops@.take(i as int).to_set();
            env.insert(op.name(), RispExp::Func(op));
            i = i + 1;
            proof {
                assert(ops@.take(i as int) =~= ops@.take(i - 1).push(op));
                ops@.take(i - 1).lemma_push_to_set_commute(op);
                lemma_names_differ(op);
                assert(env@ =~= installed(before.insert(op)));
            }
        }
        proof {
            assert(ops@.take(i as int) =~= ops@);
        }
        env
    }
}

impl Clone for RispEnv {
    fn clone(&self) -> (r: Self)
        ensures
            r@ == self@,
    {
        proof {
            use_type_invariant(self);
        }
        let mut data: Vec<Binding> = Vec::new();
        let mut i: usize = 0;
        while i < self.data.len()
            invariant
                i <= self.data.len(),
                data.len() == i,
                forall|j: int|
                    0 <= j < i ==> (#[trigger] data[j]).name@ == self.data[j].name@ && data[j].value@
                        == self.data[j].value@,
            decreases self.data.len() - i,
        {
            let binding = &self.data[i];
            data.push(Binding { name: binding.name.clone(), value: binding.value.clone() });
            i = i + 1;
        }
        proof {
            lemma_bound_alike(data@, self.data@);
            assert forall|a: int, b: int| 0 <= a < b < data@.len() implies (#[trigger] data@[a]).name@
                != (#[trigger] data@[b]).name@ by {
                assert(self.data@[a].name@ != self.data@[b].name@);
            }
        }
        RispEnv { data }
    }
}

/// The environment with every builtin.
pub fn default_env() -> (env: RispEnv)
    ensures
        env@ == installed(Set::<Builtin>::full()),
{
    let ops = Builtin::all();
    proof {
        assert(ops@.to_set() =~= Set::<Builtin>::full());
    }
    RispEnv::with_builtins(&ops)
}

} // verus!
