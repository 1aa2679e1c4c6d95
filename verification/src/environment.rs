//! Runtime scopes. Every scope lives in one arena (a `Vec<Environment>`) and
//! is named by its index there; a scope's enclosing scope always has a
//! smaller index.
use vstd::prelude::*;
use crate::interpreter::RuntimeError;
use crate::text::{append_str, owned};
use crate::token::{nil, Literal, Token, Value};

verus! {

/// Index of a scope in the arena.
pub type EnvironmentRef = usize;

/// One scope: named bindings (used for the global scope), indexed local
/// slots (used for every other scope), and the enclosing scope.
pub struct Environment {
    values: Vec<(String, Option<Value>)>,
    local_values: Vec<Option<Value>>,
    enclosing: Option<EnvironmentRef>,
}

/// What a scope holds.
pub struct EnvironmentView {
    /// Named bindings; `None` is a variable declared without a value.
    pub values: Map<Seq<char>, Option<Value>>,
    pub local_values: Seq<Option<Value>>,
    pub enclosing: Option<nat>,
}

/// The bindings a list of (name, value) pairs stands for; later pairs win.
pub open spec fn bindings(pairs: Seq<(String, Option<Value>)>) -> Map<Seq<char>, Option<Value>>
    decreases pairs.len(),
{
    if pairs.len() == 0 {
        Map::empty()
    } else {
        bindings(pairs.drop_last()).insert(pairs.last().0@, pairs.last().1)
    }
}

impl View for Environment {
    type V = EnvironmentView;

    closed spec fn view(&self) -> EnvironmentView {
        EnvironmentView {
            values: bindings(self.values@),
            local_values: self.local_values@,
            enclosing: match self.enclosing {
                Some(e) => Some(e as nat),
                None => None,
            },
        }
    }
}

/// The views of an arena of scopes.
pub open spec fn env_views(envs: Seq<Environment>) -> Seq<EnvironmentView> {
    envs.map_values(|e: Environment| e@)
}

/// Every scope's enclosing scope comes before it in the arena.
pub open spec fn envs_wf(envs: Seq<EnvironmentView>) -> bool {
    forall|i: int|
        0 <= i < envs.len() ==> match (#[trigger] envs[i]).enclosing {
            Some(j) => j < i,
            None => true,
        }
}

/// How many enclosing scopes `env` has.
pub open spec fn depth(envs: Seq<EnvironmentView>, env: nat) -> nat
    decreases env,
{
    if env < envs.len() {
        match envs[env as int].enclosing {
            Some(j) => if j < env { 1 + depth(envs, j) } else { 0 },
            None => 0,
        }
    } else {
        0
    }
}

/// The scope `distance` steps out from `env`.
pub open spec fn ancestor_of(envs: Seq<EnvironmentView>, env: nat, distance: nat) -> nat
    decreases distance,
{
    if distance == 0 {
        env
    } else {
        match envs[env as int].enclosing {
            Some(j) => ancestor_of(envs, j, (distance - 1) as nat),
            None => env,
        }
    }
}

/// Where a name is found by walking out from `env`: the first scope whose
/// named bindings hold it, and what it is bound to.
pub open spec fn lookup(envs: Seq<EnvironmentView>, env: nat, name: Seq<char>) -> Option<(nat, Option<Value>)>
    decreases env,
{
    if env >= envs.len() {
        None
    } else if envs[env as int].values.contains_key(name) {
        Some((env, envs[env as int].values[name]))
    } else {
        match envs[env as int].enclosing {
            Some(j) => if j < env { lookup(envs, j, name) } else { None },
            None => None,
        }
    }
}

/// The value a binding reads as: `nil` for a variable declared without a value.
pub open spec fn read_value(v: Option<Value>) -> Value {
    match v {
        Some(v) => v,
        None => nil(),
    }
}

/// The arena with scope `e`'s named binding of `name` set to `v`.
pub open spec fn bind_in(envs: Seq<EnvironmentView>, e: nat, name: Seq<char>, v: Option<Value>) -> Seq<EnvironmentView> {
    envs.update(e as int, EnvironmentView { values: envs[e as int].values.insert(name, v), ..envs[e as int] })
}

/// The arena with local slot `slot` of scope `a` set to `v`.
pub open spec fn set_local(envs: Seq<EnvironmentView>, a: nat, slot: nat, v: Option<Value>) -> Seq<EnvironmentView> {
    envs.update(a as int, EnvironmentView { local_values: envs[a as int].local_values.update(slot as int, v), ..envs[a as int] })
}

/// `Undefined variable '<name>'.`
pub open spec fn undefined_message(name: Seq<char>) -> Seq<char> {
    "Undefined variable '"@ + name + "'."@
}

fn undefined_variable(name: &Token) -> (e: RuntimeError)
    ensures
        e.token == *name,
        e.message@ == undefined_message(name.lexeme@),
{
    let mut message = owned("Undefined variable '");
    append_str(&mut message, name.lexeme.as_str());
    append_str(&mut message, "'.");
    RuntimeError { token: name.clone(), message }
}

impl Environment {
    /// A scope with no enclosing scope.
    pub fn new() -> (e: Environment)
        ensures
            e@.values == Map::<Seq<char>, Option<Value>>::empty(),
            e@.local_values.len() == 0,
            e@.enclosing is None,
    {
        Environment { values: Vec::new(), local_values: Vec::new(), enclosing: None }
    }

    /// An empty scope inside `enclosing`.
    pub fn from(enclosing: EnvironmentRef) -> (e: Environment)
        ensures
            e@.values == Map::<Seq<char>, Option<Value>>::empty(),
            e@.local_values.len() == 0,
            e@.enclosing == Some(enclosing as nat),
    {
        Environment { values: Vec::new(), local_values: Vec::new(), enclosing: Some(enclosing) }
    }

    pub fn enclosing(&self) -> (r: Option<EnvironmentRef>)
        ensures
            r matches Some(e) ==> self@.enclosing == Some(e as nat),
            r is None ==> self@.enclosing is None,
    {
        self.enclosing
    }

    /// The number of local slots.
    pub fn local_count(&self) -> (n: usize)
        ensures
            n == self@.local_values.len(),
    {
        self.local_values.len()
    }

    /// The value local slot `slot` reads as.
    pub fn local_value(&self, slot: usize) -> (v: Value)
        requires
            slot < self@.local_values.len(),
        ensures
            v == read_value(self@.local_values[slot as int]),
    {
        match &self.local_values[slot] {
            Some(value) => value.clone(),
            None => Value::Literal(Literal::Nil),
        }
    }

    /// Whether `distance` steps out from `env` stay within the chain of scopes.
    pub fn reaches(environments: &Vec<Environment>, environment: EnvironmentRef, distance: usize) -> (r: bool)
        requires
            envs_wf(env_views(environments@)),
            environment < environments@.len(),
        ensures
            r == (distance <= depth(env_views(environments@), environment as nat)),
    {
        let ghost envs = env_views(environments@);
        let mut current = environment;
        let mut i: usize = 0;
        while i < distance
            invariant
                envs == env_views(environments@),
                envs_wf(envs),
                current < environments@.len(),
                i <= distance,
                depth(envs, environment as nat) == i + depth(envs, current as nat),
            decreases distance - i,
        {
            assert(envs[current as int] == environments@[current as int]@);
            match environments[current].enclosing {
                Some(e) => {
                    current = e;
                },
                None => {
                    return false;
                },
            }
            i = i + 1;
        }
        true
    }

    /// The scope `distance` steps out from `environment`.
    pub fn ancestor(environments: &Vec<Environment>, environment: EnvironmentRef, distance: usize) -> (r:
        EnvironmentRef)
        requires
            envs_wf(env_views(environments@)),
            environment < environments@.len(),
            distance <= depth(env_views(environments@), environment as nat),
        ensures
            r == ancestor_of(env_views(environments@), environment as nat, distance as nat),
            r < environments@.len(),
    {
        let ghost envs = env_views(environments@);
        let mut current = environment;
        let mut i: usize = 0;
        while i < distance
            invariant
                envs == env_views(environments@),
                envs_wf(envs),
                current < environments@.len(),
                i <= distance,
                depth(envs, environment as nat) == i + depth(envs, current as nat),
                distance <= depth(envs, environment as nat),
                ancestor_of(envs, environment as nat, distance as nat) == ancestor_of(
                    envs,
                    current as nat,
                    (distance - i) as nat,
                ),
            decreases distance - i,
        {
            assert(envs[current as int] == environments@[current as int]@);
            match environments[current].enclosing {
                Some(e) => {
                    current = e;
                },
                None => {
                    current = current;
                },
            }
            i = i + 1;
        }
        current
    }

    /// Binds `name` in this scope's named bindings (replacing any earlier binding).
    pub fn define(&mut self, name: String, value: Option<Value>)
        ensures
            final(self)@.values == old(self)@.values.insert(name@, value),
            final(self)@.local_values == old(self)@.local_values,
            final(self)@.enclosing == old(self)@.enclosing,
    {
        let mut i = self.values.len();
        while i > 0
            invariant
                i <= self.values@.len(),
                self.values@ == old(self).values@,
                self.local_values@ == old(self).local_values@,
                self.enclosing == old(self).enclosing,
                forall|j: int| i <= j < self.values@.len() ==> (#[trigger] self.values@[j]).0@ != name@,
            decreases i,
        {
            i = i - 1;
            if self.values[i].0 == name {
                proof {
                    lemma_bindings_overwrite(self.values@, i as int, (name, value));
                }
                self.values.set(i, (name, value));
                return;
            }
        }
        self.values.push((name, value));
        assert(self.values@.drop_last() =~= old(self).values@);
    }

    /// Adds a local slot holding `value`.
    pub fn define_local(&mut self, value: Option<Value>)
        ensures
            final(self)@.local_values == old(self)@.local_values.push(value),
            final(self)@.values == old(self)@.values,
            final(self)@.enclosing == old(self)@.enclosing,
    {
        self.local_values.push(value);
    }

    /// Replaces the value of the last local slot.
    pub fn assign_last_local(&mut self, value: Option<Value>)
        requires
            old(self)@.local_values.len() > 0,
        ensures
            final(self)@.local_values == old(self)@.local_values.update(
                old(self)@.local_values.len() - 1,
                value,
            ),
            final(self)@.values == old(self)@.values,
            final(self)@.enclosing == old(self)@.enclosing,
    {
        let last = self.local_values.len() - 1;
        self.local_values.set(last, value);
    }

    /// This scope's own named binding of `name`, if any.
    fn find(&self, name: &String) -> (r: Option<Option<Value>>)
        ensures
            r is Some <==> self@.values.contains_key(name@),
            r matches Some(v) ==> v == self@.values[name@],
    {
        let mut i = self.values.len();
        while i > 0
            invariant
                i <= self.values@.len(),
                forall|j: int| i <= j < self.values@.len() ==> (#[trigger] self.values@[j]).0@ != name@,
            decreases i,
        {
            i = i - 1;
            if self.values[i].0 == *name {
                proof {
                    lemma_bindings_last(self.values@, i as int);
                }
                return Some(self.values[i].1.clone());
            }
        }
        proof {
            lemma_bindings_absent(self.values@, name@);
        }
        None
    }

    /// Reads `name`, walking out from `environment` through the named bindings.
    pub fn get(environments: &Vec<Environment>, environment: EnvironmentRef, name: &Token) -> (r: Result<
        Value,
        RuntimeError,
    >)
        requires
            envs_wf(env_views(environments@)),
            environment < environments@.len(),
        ensures
            match lookup(env_views(environments@), environment as nat, name.lexeme@) {
                Some((_, v)) => r == Ok::<Value, RuntimeError>(read_value(v)),
                None => r matches Err(e) && e.token == *name && e.message@ == undefined_message(name.lexeme@),
            },
    {
        let ghost envs = env_views(environments@);
        let mut current = environment;
        loop
            invariant
                envs == env_views(environments@),
                envs_wf(envs),
                current < environments@.len(),
                lookup(envs, environment as nat, name.lexeme@) == lookup(envs, current as nat, name.lexeme@),
            decreases current,
        {
            assert(envs[current as int] == environments@[current as int]@);
            match environments[current].find(&name.lexeme) {
                Some(Some(value)) => return Ok(value),
                Some(None) => return Ok(Value::Literal(Literal::Nil)),
                None => {},
            }
            match environments[current].enclosing {
                Some(e) => {
                    current = e;
                },
                None => {
                    return Err(undefined_variable(name));
                },
            }
        }
    }

    /// Reads local slot `slot` of the scope `distance` steps out.
    pub fn get_at(
        environments: &Vec<Environment>,
        environment: EnvironmentRef,
        distance: usize,
        slot: usize,
        name: &Token,
    ) -> (r: Result<Value, RuntimeError>)
        requires
            envs_wf(env_views(environments@)),
            environment < environments@.len(),
            distance <= depth(env_views(environments@), environment as nat),
            slot < env_views(environments@)[ancestor_of(env_views(environments@), environment as nat, distance as nat) as int].local_values.len(),
        ensures
            r == Ok::<Value, RuntimeError>(read_value(
                env_views(environments@)[ancestor_of(env_views(environments@), environment as nat, distance as nat) as int].local_values[slot as int],
            )),
    {
        let a = Self::ancestor(environments, environment, distance);
        assert(env_views(environments@)[a as int] == environments@[a as int]@);
        match &environments[a].local_values[slot] {
            Some(value) => Ok(value.clone()),
            None => Ok(Value::Literal(Literal::Nil)),
        }
    }

    /// Replaces this scope's named binding of `name`, if it has one.
    fn replace(&mut self, name: &String, value: Value) -> (found: bool)
        ensures
            found == old(self)@.values.contains_key(name@),
            found ==> final(self)@.values == old(self)@.values.insert(name@, Some(value)),
            !found ==> final(self)@.values == old(self)@.values,
            final(self)@.local_values == old(self)@.local_values,
            final(self)@.enclosing == old(self)@.enclosing,
    {
        match self.find(name) {
            Some(_) => {
                self.define(name.clone(), Some(value));
                true
            },
            None => false,
        }
    }

    /// Assigns to `name` in the first scope, walking out from `environment`,
    /// whose named bindings hold it.
    pub fn assign(environments: &mut Vec<Environment>, environment: EnvironmentRef, name: &Token, value: Value) -> (r:
        Result<(), RuntimeError>)
        requires
            envs_wf(env_views(old(environments)@)),
            environment < old(environments)@.len(),
        ensures
            envs_wf(env_views(final(environments)@)),
            final(environments)@.len() == old(environments)@.len(),
            match lookup(env_views(old(environments)@), environment as nat, name.lexeme@) {
                Some((e, _)) => r is Ok && env_views(final(environments)@) == bind_in(
                    env_views(old(environments)@),
                    e,
                    name.lexeme@,
                    Some(value),
                ),
                None => r matches Err(e) && e.token == *name && e.message@ == undefined_message(name.lexeme@)
                    && env_views(final(environments)@) == env_views(old(environments)@),
            },
    {
        let ghost envs = env_views(environments@);
        let mut current = environment;
        loop
            invariant
                envs == env_views(old(environments)@),
                env_views(environments@) == envs,
                environments@.len() == old(environments)@.len(),
                envs_wf(envs),
                current < environments@.len(),
                lookup(envs, environment as nat, name.lexeme@) == lookup(envs, current as nat, name.lexeme@),
            decreases current,
        {
            assert(envs[current as int] == environments@[current as int]@);
            let ghost before = environments@;
            let mut frame = Environment::new();
            std::mem::swap(&mut frame, &mut environments[current]);
            let found = frame.replace(&name.lexeme, value.clone());
            let next = frame.enclosing;
            std::mem::swap(&mut frame, &mut environments[current]);
            if found {
                proof {
                    assert(env_views(environments@) =~= envs.update(
                        current as int,
                        EnvironmentView { values: envs[current as int].values.insert(name.lexeme@, Some(value)), ..envs[current as int] },
                    ));
                }
                return Ok(());
            }
            proof {
                assert(env_views(environments@) =~= env_views(before));
            }
            match next {
                Some(e) => {
                    current = e;
                },
                None => {
                    return Err(undefined_variable(name));
                },
            }
        }
    }

    /// Replaces local slot `slot` of the scope `distance` steps out.
    pub fn assign_at(environments: &mut Vec<Environment>, environment: EnvironmentRef, distance: usize, slot: usize, value: Value)
        requires
            envs_wf(env_views(old(environments)@)),
            environment < old(environments)@.len(),
            distance <= depth(env_views(old(environments)@), environment as nat),
            slot < env_views(old(environments)@)[ancestor_of(env_views(old(environments)@), environment as nat, distance as nat) as int].local_values.len(),
        ensures
            envs_wf(env_views(final(environments)@)),
            final(environments)@.len() == old(environments)@.len(),
            env_views(final(environments)@) == set_local(
                env_views(old(environments)@),
                ancestor_of(env_views(old(environments)@), environment as nat, distance as nat),
                slot as nat,
                Some(value),
            ),
    {
        let ghost envs = env_views(environments@);
        let a = Self::ancestor(environments, environment, distance);
        assert(envs[a as int] == environments@[a as int]@);
        let mut frame = Environment::new();
        std::mem::swap(&mut frame, &mut environments[a]);
        frame.local_values.set(slot, Some(value));
        std::mem::swap(&mut frame, &mut environments[a]);
        proof {
            assert(env_views(environments@) =~= envs.update(
                a as int,
                EnvironmentView { local_values: envs[a as int].local_values.update(slot as int, Some(value)), ..envs[a as int] },
            ));
        }
    }
}

/// The last pair naming a key decides its binding.
/// Overwriting the last pair of a name rebinds that name and no other.
proof fn lemma_bindings_overwrite(pairs: Seq<(String, Option<Value>)>, i: int, p: (String, Option<Value>))
    requires
        0 <= i < pairs.len(),
        p.0@ == pairs[i].0@,
        forall|j: int| i < j < pairs.len() ==> (#[trigger] pairs[j]).0@ != pairs[i].0@,
    ensures
        bindings(pairs.update(i, p)) == bindings(pairs).insert(p.0@, p.1),
    decreases pairs.len(),
{
    let q = pairs.update(i, p);
    if i == pairs.len() - 1 {
        assert(q.drop_last() =~= pairs.drop_last());
        assert(bindings(q) =~= bindings(pairs).insert(p.0@, p.1));
    } else {
        let d = pairs.drop_last();
        assert forall|j: int| i < j < d.len() implies (#[trigger] d[j]).0@ != d[i].0@ by {
            assert(d[j] == pairs[j]);
        }
        lemma_bindings_overwrite(d, i, p);
        assert(q.drop_last() =~= d.update(i, p));
        assert(pairs.last().0@ != p.0@);
        assert(bindings(q) =~= bindings(pairs).insert(p.0@, p.1));
    }
}

proof fn lemma_bindings_last(pairs: Seq<(String, Option<Value>)>, i: int)
    requires
        0 <= i < pairs.len(),
        forall|j: int| i < j < pairs.len() ==> (#[trigger] pairs[j]).0@ != pairs[i].0@,
    ensures
        bindings(pairs).contains_key(pairs[i].0@),
        bindings(pairs)[pairs[i].0@] == pairs[i].1,
    decreases pairs.len(),
{
    if i < pairs.len() - 1 {
        let p = pairs.drop_last();
        assert forall|j: int| i < j < p.len() implies (#[trigger] p[j]).0@ != p[i].0@ by {
            assert(p[j] == pairs[j]);
        }
        lemma_bindings_last(p, i);
    }
}

/// A key that no pair names is unbound.
proof fn lemma_bindings_absent(pairs: Seq<(String, Option<Value>)>, name: Seq<char>)
    requires
        forall|j: int| 0 <= j < pairs.len() ==> (#[trigger] pairs[j]).0@ != name,
    ensures
        !bindings(pairs).contains_key(name),
    decreases pairs.len(),
{
    if pairs.len() > 0 {
        let p = pairs.drop_last();
        assert forall|j: int| 0 <= j < p.len() implies (#[trigger] p[j]).0@ != name by {
            assert(p[j] == pairs[j]);
        }
        lemma_bindings_absent(p, name);
    }
}


// ----------------------------------------------------------------------
// What a read gives back of a write.

/// After `name` is bound in scope `env`, looking `name` up from `env` finds
/// that binding.
pub proof fn law_lookup_after_define(envs: Seq<EnvironmentView>, env: nat, name: Seq<char>, v: Option<Value>)
    requires
        env < envs.len(),
    ensures
        lookup(bind_in(envs, env, name, v), env, name) == Some((env, v)),
{
}

/// Adding a scope at the end of the arena changes no lookup from a scope
/// already there.
proof fn lemma_lookup_after_push(envs: Seq<EnvironmentView>, x: EnvironmentView, env: nat, name: Seq<char>)
    requires
        env < envs.len(),
    ensures
        lookup(envs.push(x), env, name) == lookup(envs, env, name),
    decreases env,
{
    let pushed = envs.push(x);
    assert(pushed[env as int] == envs[env as int]);
    match envs[env as int].enclosing {
        Some(j) => {
            if j < env {
                lemma_lookup_after_push(envs, x, j, name);
            }
        },
        None => {},
    }
}

/// A new scope with no bindings, inside scope `p` (what `Environment::from`
/// makes), finds every name as `p` does: a lookup from it gives what a
/// lookup from `p` gave, and it is one scope deeper than `p`.
pub proof fn law_lookup_through_new_scope(envs: Seq<EnvironmentView>, p: nat, name: Seq<char>)
    requires
        envs_wf(envs),
        p < envs.len(),
    ensures
        lookup(
            envs.push(EnvironmentView { values: Map::empty(), local_values: Seq::empty(), enclosing: Some(p) }),
            envs.len(),
            name,
        ) == lookup(envs, p, name),
        ancestor_of(
            envs.push(EnvironmentView { values: Map::empty(), local_values: Seq::empty(), enclosing: Some(p) }),
            envs.len(),
            1,
        ) == p,
{
    let x = EnvironmentView { values: Map::empty(), local_values: Seq::empty(), enclosing: Some(p) };
    let pushed = envs.push(x);
    assert(pushed[envs.len() as int] == x);
    assert(!x.values.contains_key(name));
    lemma_lookup_after_push(envs, x, p, name);
    assert(ancestor_of(pushed, p, 0) == p);
}

/// Assigning to `name` where a lookup from `env` finds it makes a later
/// lookup of `name` from `env` find the assigned value, in the same scope.
pub proof fn law_lookup_after_assign(envs: Seq<EnvironmentView>, env: nat, name: Seq<char>, e: nat, v: Option<Value>)
    requires
        envs_wf(envs),
        env < envs.len(),
        lookup(envs, env, name) matches Some((found, _)) && found == e,
    ensures
        lookup(bind_in(envs, e, name, v), env, name) == Some((e, v)),
    decreases env,
{
    lemma_lookup_found(envs, env, name);
    let after = bind_in(envs, e, name, v);
    if env != e {
        assert(after[env as int] == envs[env as int]);
        match envs[env as int].enclosing {
            Some(j) => {
                law_lookup_after_assign(envs, j, name, e, v);
            },
            None => {},
        }
    }
}

/// A lookup finds a scope of the arena, no further out than where it starts,
/// whose named bindings hold the name.
pub proof fn lemma_lookup_found(envs: Seq<EnvironmentView>, env: nat, name: Seq<char>)
    ensures
        lookup(envs, env, name) matches Some((x, v)) ==> x < envs.len() && x <= env
            && envs[x as int].values.contains_key(name) && envs[x as int].values[name] == v,
    decreases env,
{
    if env < envs.len() && !envs[env as int].values.contains_key(name) {
        match envs[env as int].enclosing {
            Some(j) => {
                if j < env {
                    lemma_lookup_found(envs, j, name);
                }
            },
            None => {},
        }
    }
}

/// Binding `name` in any scope leaves the lookup of every other name as it was.
pub proof fn law_lookup_other_name(envs: Seq<EnvironmentView>, e: nat, name: Seq<char>, v: Option<Value>, env: nat, other: Seq<char>)
    requires
        e < envs.len(),
        other != name,
    ensures
        lookup(bind_in(envs, e, name, v), env, other) == lookup(envs, env, other),
    decreases env,
{
    let after = bind_in(envs, e, name, v);
    if env < envs.len() {
        assert(after[env as int].values.contains_key(other) == envs[env as int].values.contains_key(other));
        assert(after[env as int].enclosing == envs[env as int].enclosing);
        if envs[env as int].values.contains_key(other) {
            assert(after[env as int].values[other] == envs[env as int].values[other]);
        } else {
            match envs[env as int].enclosing {
                Some(j) => {
                    if j < env {
                        law_lookup_other_name(envs, e, name, v, j, other);
                    }
                },
                None => {},
            }
        }
    }
}

/// Setting a local slot changes no scope's enclosing scope, so every scope
/// still has the same ancestors.
pub proof fn law_ancestors_after_set_local(envs: Seq<EnvironmentView>, a: nat, slot: nat, v: Option<Value>, env: nat, distance: nat)
    requires
        a < envs.len(),
        env < envs.len(),
        envs_wf(envs),
    ensures
        ancestor_of(set_local(envs, a, slot, v), env, distance) == ancestor_of(envs, env, distance),
        depth(set_local(envs, a, slot, v), env) == depth(envs, env),
        envs_wf(set_local(envs, a, slot, v)),
    decreases env, distance,
{
    let after = set_local(envs, a, slot, v);
    assert(after[env as int].enclosing == envs[env as int].enclosing);
    assert forall|i: int| 0 <= i < after.len() implies match (#[trigger] after[i]).enclosing {
        Some(j) => j < i,
        None => true,
    } by {
        assert(after[i].enclosing == envs[i].enclosing);
    }
    match envs[env as int].enclosing {
        Some(j) => {
            law_ancestors_after_set_local(envs, a, slot, v, j, (distance - 1) as nat);
        },
        None => {},
    }
}

/// Writing local slot `slot` of the scope `distance` steps out from `env`
/// makes a read of that slot from `env` give the written value, and leaves
/// every other slot of every scope as it was.
pub proof fn law_read_after_set_local(envs: Seq<EnvironmentView>, env: nat, distance: nat, slot: nat, v: Option<Value>)
    requires
        envs_wf(envs),
        env < envs.len(),
        distance <= depth(envs, env),
        slot < envs[ancestor_of(envs, env, distance) as int].local_values.len(),
    ensures
        ({
            let a = ancestor_of(envs, env, distance);
            let after = set_local(envs, a, slot, v);
            &&& ancestor_of(after, env, distance) == a
            &&& depth(after, env) == depth(envs, env)
            &&& envs_wf(after)
            &&& after[a as int].local_values[slot as int] == v
            &&& forall|i: int, k: int|
                0 <= i < envs.len() && 0 <= k < envs[i].local_values.len() && !(i == a && k == slot)
                    ==> #[trigger] after[i].local_values[k] == envs[i].local_values[k]
        }),
{
    let a = ancestor_of(envs, env, distance);
    lemma_ancestor_in_arena(envs, env, distance);
    law_ancestors_after_set_local(envs, a, slot, v, env, distance);
}

/// An ancestor of a scope in the arena is in the arena.
pub proof fn lemma_ancestor_in_arena(envs: Seq<EnvironmentView>, env: nat, distance: nat)
    requires
        envs_wf(envs),
        env < envs.len(),
    ensures
        ancestor_of(envs, env, distance) < envs.len(),
        ancestor_of(envs, env, distance) <= env,
    decreases distance,
{
    if distance > 0 {
        match envs[env as int].enclosing {
            Some(j) => {
                lemma_ancestor_in_arena(envs, j, (distance - 1) as nat);
            },
            None => {},
        }
    }
}

} // verus!
