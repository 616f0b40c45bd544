//! Binding tables and the scope stack: one global table plus a stack of
//! block-local tables, innermost last.
use vstd::prelude::*;
use crate::value::{Val, Value};

verus! {

/// A binding table: names mapped to values.
#[verifier::reject_recursive_types(N)]
pub struct Table<N> {
    names: Vec<String>,
    values: Vec<Value<N>>,
}

/// The map that the bindings `names[i] -> values[i]` make, a later binding
/// overriding an earlier one of the same name.
pub open spec fn bindings_of<N>(names: Seq<String>, values: Seq<Value<N>>) -> Map<Seq<char>, Val<N>>
    decreases names.len(),
{
    if names.len() == 0 || values.len() == 0 {
        Map::empty()
    } else {
        bindings_of(names.drop_last(), values.drop_last()).insert(names.last()@, values.last()@)
    }
}

pub open spec fn distinct_names(names: Seq<String>) -> bool {
    forall|i: int, j: int| 0 <= i < j < names.len() ==> names[i]@ != names[j]@
}

proof fn lemma_bindings_of<N>(names: Seq<String>, values: Seq<Value<N>>)
    requires
        names.len() == values.len(),
        distinct_names(names),
    ensures
        forall|k: Seq<char>| #[trigger]
            bindings_of(names, values).contains_key(k) <==> exists|i: int|
                0 <= i < names.len() && names[i]@ == k,
        forall|i: int|
            0 <= i < names.len() ==> #[trigger] bindings_of(names, values)[names[i]@]
                == values[i]@,
    decreases names.len(),
{
    if names.len() > 0 {
        let n0 = names.drop_last();
        let v0 = values.drop_last();
        assert(distinct_names(n0)) by {
            assert forall|i: int, j: int| 0 <= i < j < n0.len() implies n0[i]@ != n0[j]@ by {
                assert(n0[i] == names[i] && n0[j] == names[j]);
            }
        }
        lemma_bindings_of(n0, v0);
        assert forall|k: Seq<char>| #[trigger]
            bindings_of(names, values).contains_key(k) implies exists|i: int|
                0 <= i < names.len() && names[i]@ == k by {
            if k != names.last()@ {
                assert(bindings_of(n0, v0).contains_key(k));
                let i = choose|i: int| 0 <= i < n0.len() && n0[i]@ == k;
                assert(names[i]@ == k);
            }
        }
        assert forall|k: Seq<char>|
            (exists|i: int| 0 <= i < names.len() && names[i]@ == k) implies #[trigger]
            bindings_of(names, values).contains_key(k) by {
            let i = choose|i: int| 0 <= i < names.len() && names[i]@ == k;
            if i < names.len() - 1 {
                assert(n0[i]@ == k);
                assert(bindings_of(n0, v0).contains_key(n0[i]@));
            }
        }
        assert forall|i: int| 0 <= i < names.len() implies #[trigger] bindings_of(
            names,
            values,
        )[names[i]@] == values[i]@ by {
            if i < names.len() - 1 {
                assert(n0[i] == names[i]);
                assert(v0[i] == values[i]);
                assert(names[i]@ != names.last()@);
                assert(bindings_of(n0, v0)[n0[i]@] == v0[i]@);
            }
        }
    }
}

proof fn lemma_bindings_of_update<N>(names: Seq<String>, values: Seq<Value<N>>, i: int, v: Value<N>)
    requires
        names.len() == values.len(),
        distinct_names(names),
        0 <= i < names.len(),
    ensures
        bindings_of(names, values.update(i, v)) == bindings_of(names, values).insert(names[i]@, v@),
    decreases names.len(),
{
    let n0 = names.drop_last();
    let w = values.update(i, v);
    if i == names.len() - 1 {
        assert(w.drop_last() == values.drop_last());
        assert(bindings_of(names, w) =~= bindings_of(names, values).insert(names[i]@, v@));
    } else {
        assert(w.drop_last() == values.drop_last().update(i, v));
        lemma_bindings_of_update(n0, values.drop_last(), i, v);
        assert(n0[i] == names[i]);
        assert(names[i]@ != names.last()@);
        assert(bindings_of(names, w) =~= bindings_of(names, values).insert(names[i]@, v@));
    }
}

impl<N> View for Table<N> {
    type V = Map<Seq<char>, Val<N>>;

    closed spec fn view(&self) -> Map<Seq<char>, Val<N>> {
        bindings_of(self.names@, self.values@)
    }
}

impl<N: Copy> Table<N> {
    /// The table is well formed: one value per name, and no name twice.
    pub closed spec fn wf(&self) -> bool {
        &&& self.names.len() == self.values.len()
        &&& distinct_names(self.names@)
    }

    /// An empty table.
    pub fn new() -> (r: Table<N>)
        ensures
            r.wf(),
            r@ == Map::<Seq<char>, Val<N>>::empty(),
    {
        Table { names: Vec::new(), values: Vec::new() }
    }

    /// The position of `name`, if the table binds it.
    fn position(&self, name: &String) -> (r: Option<usize>)
        requires
            self.wf(),
        ensures
            match r {
                Some(i) => i < self.names.len() && self.names@[i as int]@ == name@,
                None => !self@.contains_key(name@),
            },
    {
        proof {
            lemma_bindings_of(self.names@, self.values@);
        }
        let mut i: usize = 0;
        while i < self.names.len()
            invariant
                self.wf(),
                i <= self.names.len(),
                forall|j: int| 0 <= j < i ==> self.names@[j]@ != name@,
            decreases self.names.len() - i,
        {
            if self.names[i] == *name {
                return Some(i);
            }
            i = i + 1;
        }
        None
    }

    /// Whether the table binds `name`.
    pub fn contains(&self, name: &String) -> (r: bool)
        requires
            self.wf(),
        ensures
            r == self@.contains_key(name@),
    {
        proof {
            lemma_bindings_of(self.names@, self.values@);
        }
        self.position(name).is_some()
    }

    /// A copy of the value bound to `name`, if any.
    pub fn get(&self, name: &String) -> (r: Option<Value<N>>)
        requires
            self.wf(),
        ensures
            match r {
                Some(v) => self@.contains_key(name@) && self@[name@] == v@,
                None => !self@.contains_key(name@),
            },
    {
        proof {
            lemma_bindings_of(self.names@, self.values@);
        }
        match self.position(name) {
            Some(i) => Some(self.values[i].duplicate()),
            None => None,
        }
    }

    /// Binds `name` to `value`, replacing an earlier binding of that name.
    pub fn insert(&mut self, name: &String, value: Value<N>)
        requires
            old(self).wf(),
        ensures
            final(self).wf(),
            final(self)@ == old(self)@.insert(name@, value@),
    {
        match self.position(name) {
            Some(i) => {
                proof {
                    lemma_bindings_of_update(self.names@, self.values@, i as int, value);
                }
                self.values.set(i, value);
            },
            None => {
                proof {
                    lemma_bindings_of(self.names@, self.values@);
                }
                let ghost before = self.names@;
                let ghost before_values = self.values@;
                self.names.push(name.clone());
                self.values.push(value);
                proof {
                    assert(self.names@.drop_last() == before);
                    assert(self.values@.drop_last() == before_values);
                    assert forall|i: int, j: int|
                        0 <= i < j < self.names@.len() implies self.names@[i]@
                        != self.names@[j]@ by {
                        if j == self.names@.len() - 1 {
                            assert(before[i] == self.names@[i]);
                        }
                    }
                }
            },
        }
    }
}

/// The model of the scope stack: the global table and the block-local tables,
/// innermost last.
#[verifier::reject_recursive_types(N)]
pub struct Env<N> {
    pub globals: Map<Seq<char>, Val<N>>,
    pub locals: Seq<Map<Seq<char>, Val<N>>>,
}

impl<N> Env<N> {
    /// The stack without its innermost local table.
    pub open spec fn outer(self) -> Env<N> {
        Env { globals: self.globals, locals: self.locals.drop_last() }
    }

    /// The value of `name`: innermost table first, the global table last.
    pub open spec fn lookup(self, name: Seq<char>) -> Option<Val<N>>
        decreases self.locals.len(),
    {
        if self.locals.len() == 0 {
            if self.globals.contains_key(name) {
                Some(self.globals[name])
            } else {
                None
            }
        } else if self.locals.last().contains_key(name) {
            Some(self.locals.last()[name])
        } else {
            self.outer().lookup(name)
        }
    }

    /// The stack after assigning `v` to the innermost existing binding of
    /// `name`; `None` where no table binds it.
    pub open spec fn assign(self, name: Seq<char>, v: Val<N>) -> Option<Env<N>>
        decreases self.locals.len(),
    {
        if self.locals.len() == 0 {
            if self.globals.contains_key(name) {
                Some(Env { globals: self.globals.insert(name, v), locals: self.locals })
            } else {
                None
            }
        } else if self.locals.last().contains_key(name) {
            Some(
                Env {
                    globals: self.globals,
                    locals: self.locals.update(
                        self.locals.len() - 1,
                        self.locals.last().insert(name, v),
                    ),
                },
            )
        } else {
            match self.outer().assign(name, v) {
                Some(e) => Some(Env { globals: e.globals, locals: e.locals.push(self.locals.last()) }),
                None => None,
            }
        }
    }

    /// The stack after binding `name` to `v` in the current table: the
    /// innermost local table, or the global table where there is none.
    pub open spec fn declare(self, name: Seq<char>, v: Val<N>) -> Env<N> {
        if self.locals.len() == 0 {
            Env { globals: self.globals.insert(name, v), locals: self.locals }
        } else {
            Env {
                globals: self.globals,
                locals: self.locals.update(self.locals.len() - 1, self.locals.last().insert(name, v)),
            }
        }
    }

    /// The stack with a new, empty innermost table.
    pub open spec fn enter(self) -> Env<N> {
        Env { globals: self.globals, locals: self.locals.push(Map::empty()) }
    }

    /// The stack without its innermost table; unchanged where there is none.
    pub open spec fn leave(self) -> Env<N> {
        if self.locals.len() == 0 {
            self
        } else {
            self.outer()
        }
    }
}

proof fn lemma_lookup_skip<N>(e: Env<N>, name: Seq<char>, n: int)
    requires
        0 <= n <= e.locals.len(),
        forall|j: int| n <= j < e.locals.len() ==> !#[trigger] e.locals[j].contains_key(name),
    ensures
        e.lookup(name) == (Env { globals: e.globals, locals: e.locals.take(n) }).lookup(name),
    decreases e.locals.len(),
{
    if n == e.locals.len() {
        assert(e.locals.take(n) == e.locals);
    } else {
        assert(!e.locals[e.locals.len() - 1].contains_key(name));
        lemma_lookup_skip(e.outer(), name, n);
        assert(e.locals.drop_last().take(n) == e.locals.take(n));
    }
}

proof fn lemma_assign_skip<N>(e: Env<N>, name: Seq<char>, v: Val<N>, n: int)
    requires
        0 <= n <= e.locals.len(),
        forall|j: int| n <= j < e.locals.len() ==> !#[trigger] e.locals[j].contains_key(name),
    ensures
        e.assign(name, v) == match (Env { globals: e.globals, locals: e.locals.take(n) }).assign(
            name,
            v,
        ) {
            Some(r) => Some(Env { globals: r.globals, locals: r.locals + e.locals.skip(n) }),
            None => None,
        },
        (Env { globals: e.globals, locals: e.locals.take(n) }).assign(name, v) matches Some(r)
            ==> r.locals.len() == n,
    decreases e.locals.len(),
{
    lemma_assign_len(Env { globals: e.globals, locals: e.locals.take(n) }, name, v);
    if n == e.locals.len() {
        assert(e.locals.take(n) == e.locals);
        match e.assign(name, v) {
            Some(r) => {
                assert(r.locals + e.locals.skip(n) == r.locals);
            },
            None => {},
        }
    } else {
        assert(!e.locals[e.locals.len() - 1].contains_key(name));
        lemma_assign_skip(e.outer(), name, v, n);
        assert(e.locals.drop_last().take(n) == e.locals.take(n));
        match (Env { globals: e.globals, locals: e.locals.take(n) }).assign(name, v) {
            Some(r) => {
                assert((r.locals + e.locals.drop_last().skip(n)).push(e.locals.last()) == r.locals
                    + e.locals.skip(n));
            },
            None => {},
        }
    }
}

/// Assignment keeps the depth of the stack.
pub proof fn lemma_assign_len<N>(e: Env<N>, name: Seq<char>, v: Val<N>)
    ensures
        e.assign(name, v) matches Some(r) ==> r.locals.len() == e.locals.len(),
    decreases e.locals.len(),
{
    if e.locals.len() > 0 {
        lemma_assign_len(e.outer(), name, v);
    }
}

/// The scope stack that a run of the evaluator works on.
#[verifier::reject_recursive_types(N)]
pub struct Variables<N> {
    global_variables: Table<N>,
    environments: Vec<Table<N>>,
}

impl<N> View for Variables<N> {
    type V = Env<N>;

    closed spec fn view(&self) -> Env<N> {
        Env {
            globals: self.global_variables@,
            locals: Seq::new(self.environments.len() as nat, |i: int| self.environments@[i]@),
        }
    }
}

impl<N: Copy> Variables<N> {
    /// Every table is well formed.
    pub closed spec fn wf(&self) -> bool {
        &&& self.global_variables.wf()
        &&& forall|i: int| 0 <= i < self.environments.len() ==> #[trigger] self.environments@[i].wf()
    }

    /// A scope stack over the given global table, with no local table.
    pub fn new(global_variables: Table<N>) -> (r: Variables<N>)
        requires
            global_variables.wf(),
        ensures
            r.wf(),
            r@ == (Env { globals: global_variables@, locals: Seq::empty() }),
    {
        let r = Variables { global_variables, environments: Vec::new() };
        proof {
            assert(r@.locals =~= Seq::<Map<Seq<char>, Val<N>>>::empty());
        }
        r
    }

    /// The global table, giving up the local ones.
    pub fn into_globals(self) -> (r: Table<N>)
        requires
            self.wf(),
        ensures
            r.wf(),
            r@ == self@.globals,
    {
        self.global_variables
    }

    /// Opens a new, empty innermost table.
    pub fn push_environment(&mut self)
        requires
            old(self).wf(),
        ensures
            final(self).wf(),
            final(self)@ == old(self)@.enter(),
    {
        self.environments.push(Table::new());
        proof {
            assert(self@.locals =~= old(self)@.locals.push(Map::empty()));
        }
    }

    /// Discards the innermost table, if there is one.
    pub fn pop_environment(&mut self)
        requires
            old(self).wf(),
        ensures
            final(self).wf(),
            final(self)@ == old(self)@.leave(),
    {
        self.environments.pop();
        proof {
            assert(self@.locals =~= old(self)@.leave().locals);
        }
    }

    /// A copy of the value that `name` has: the innermost binding wins.
    pub fn get_variable(&self, variable: &String) -> (r: Option<Value<N>>)
        requires
            self.wf(),
        ensures
            match r {
                Some(v) => self@.lookup(variable@) == Some(v@),
                None => self@.lookup(variable@) is None,
            },
    {
        let mut i: usize = self.environments.len();
        while i > 0
            invariant
                self.wf(),
                i <= self.environments.len(),
                forall|j: int| i <= j < self@.locals.len() ==> !#[trigger] self@.locals[j].contains_key(variable@),
            decreases i,
        {
            if self.environments[i - 1].contains(variable) {
                proof {
                    lemma_lookup_skip(self@, variable@, i as int);
                    assert(self@.locals.take(i as int).last() == self@.locals[i - 1]);
                }
                return self.environments[i - 1].get(variable);
            }
            i = i - 1;
        }
        proof {
            lemma_lookup_skip(self@, variable@, 0);
        }
        self.global_variables.get(variable)
    }

    /// Assigns `value` to the innermost existing binding of `variable`.
    /// Never creates a binding: where none exists the stack is left as it was.
    pub fn set_variable(&mut self, variable: &String, value: Value<N>) -> (r: Result<(), ()>)
        requires
            old(self).wf(),
        ensures
            final(self).wf(),
            match old(self)@.assign(variable@, value@) {
                Some(e) => r is Ok && final(self)@ == e,
                None => r is Err && final(self)@ == old(self)@,
            },
    {
        let mut i: usize = self.environments.len();
        while i > 0
            invariant
                self.wf(),
                i <= self.environments.len(),
                forall|j: int| i <= j < self@.locals.len() ==> !#[trigger] self@.locals[j].contains_key(variable@),
                *self == *old(self),
            decreases i,
        {
            if self.environments[i - 1].contains(variable) {
                let ghost e = self@;
                proof {
                    lemma_assign_skip(self@, variable@, value@, i as int);
                    let t = Env { globals: e.globals, locals: e.locals.take(i as int) };
                    assert(t.locals.last() == e.locals[i - 1]);
                    assert(t.locals.update(i - 1, e.locals[i - 1].insert(variable@, value@))
                        =~= e.locals.take(i - 1).push(e.locals[i - 1].insert(variable@, value@)));
                }
                self.environments[i - 1].insert(variable, value);
                proof {
                    assert(self@.locals =~= e.locals.take(i - 1).push(e.locals[i - 1].insert(variable@, value@)) + e.locals.skip(i as int));
                }
                return Ok(());
            }
            i = i - 1;
        }
        proof {
            lemma_assign_skip(self@, variable@, value@, 0);
        }
        if self.global_variables.contains(variable) {
            let ghost e = self@;
            self.global_variables.insert(variable, value);
            proof {
                assert(self@.locals =~= e.locals.skip(0));
            }
            Ok(())
        } else {
            Err(())
        }
    }

    /// Binds `variable` to `value` in the current table: the innermost local
    /// table, or the global table where there is none.
    pub fn create_variable(&mut self, variable: &String, value: Value<N>)
        requires
            old(self).wf(),
        ensures
            final(self).wf(),
            final(self)@ == old(self)@.declare(variable@, value@),
    {
        let n = self.environments.len();
        if n == 0 {
            self.global_variables.insert(variable, value);
        } else {
            self.environments[n - 1].insert(variable, value);
            proof {
                assert(self@.locals =~= old(self)@.declare(variable@, value@).locals);
            }
        }
    }
}

} // verus!
