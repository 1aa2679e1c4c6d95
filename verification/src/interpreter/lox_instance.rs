//! Instances of classes.
use vstd::prelude::*;
use crate::interpreter::lox_class::LoxClass;
use crate::interpreter::RuntimeError;
use crate::text::{append_str, owned};
use crate::token::{Token, Value};

verus! {

/// The fields a list of (name, value) pairs stands for; later pairs win.
pub open spec fn fields_of(pairs: Seq<(String, Value)>) -> Map<Seq<char>, Value>
    decreases pairs.len(),
{
    if pairs.len() == 0 {
        Map::empty()
    } else {
        fields_of(pairs.drop_last()).insert(pairs.last().0@, pairs.last().1)
    }
}

/// `Undefined property '<name>'.`
pub open spec fn undefined_property_message(name: Seq<char>) -> Seq<char> {
    "Undefined property '"@ + name + "'."@
}

pub fn undefined_property(name: &Token) -> (e: RuntimeError)
    ensures
        e.token == *name,
        e.message@ == undefined_property_message(name.lexeme@),
{
    let mut message = owned("Undefined property '");
    append_str(&mut message, name.lexeme.as_str());
    append_str(&mut message, "'.");
    RuntimeError { token: name.clone(), message }
}

/// An instance: its class (an index among the interpreter's classes) and its fields.
pub struct LoxInstance {
    klass: usize,
    fields: Vec<(String, Value)>,
}

impl LoxInstance {
    pub fn new(klass: usize) -> (i: Self)
        ensures
            i.klass() == klass,
            i.fields() == Map::<Seq<char>, Value>::empty(),
    {
        LoxInstance { klass, fields: Vec::new() }
    }

    pub closed spec fn klass(&self) -> usize {
        self.klass
    }

    pub closed spec fn fields(&self) -> Map<Seq<char>, Value> {
        fields_of(self.fields@)
    }

    pub fn klass_ref(&self) -> (r: usize)
        ensures
            r == self.klass(),
    {
        self.klass
    }

    /// The name of the instance's class.
    pub fn klass_name<'a>(&self, classes: &'a Vec<LoxClass>) -> (s: &'a String)
        requires
            self.klass() < classes@.len(),
        ensures
            s@ == classes@[self.klass() as int].name_spec(),
    {
        classes[self.klass].name()
    }

    /// The field called `name`.
    pub fn get(&self, name: &Token) -> (r: Result<Value, RuntimeError>)
        ensures
            self.fields().contains_key(name.lexeme@) ==> r == Ok::<Value, RuntimeError>(self.fields()[name.lexeme@]),
            !self.fields().contains_key(name.lexeme@) ==> (r matches Err(e) && e.token == *name
                && e.message@ == undefined_property_message(name.lexeme@)),
    {
        let mut i = self.fields.len();
        while i > 0
            invariant
                i <= self.fields@.len(),
                forall|j: int| i <= j < self.fields@.len() ==> (#[trigger] self.fields@[j]).0@ != name.lexeme@,
            decreases i,
        {
            i = i - 1;
            if self.fields[i].0 == name.lexeme {
                proof {
                    lemma_fields_last(self.fields@, i as int);
                }
                return Ok(self.fields[i].1.clone());
            }
        }
        proof {
            lemma_fields_absent(self.fields@, name.lexeme@);
        }
        Err(undefined_property(name))
    }

    /// Sets the field called `name`.
    pub fn set(&mut self, name: &Token, value: Value)
        ensures
            final(self).fields() == old(self).fields().insert(name.lexeme@, value),
            final(self).klass() == old(self).klass(),
    {
        let mut i = self.fields.len();
        while i > 0
            invariant
                i <= self.fields@.len(),
                self.fields@ == old(self).fields@,
                self.klass == old(self).klass,
                forall|j: int| i <= j < self.fields@.len() ==> (#[trigger] self.fields@[j]).0@ != name.lexeme@,
            decreases i,
        {
            i = i - 1;
            if self.fields[i].0 == name.lexeme {
                let entry = (name.lexeme.clone(), value);
                proof {
                    lemma_fields_overwrite(self.fields@, i as int, entry);
                }
                self.fields.set(i, entry);
                return;
            }
        }
        self.fields.push((name.lexeme.clone(), value));
        assert(self.fields@.drop_last() =~= old(self).fields@);
    }
}

/// Setting a field and then reading it gives the value set; reading any other
/// field gives what it gave before the set (or still finds no such field).
pub proof fn law_get_after_set(before: LoxInstance, after: LoxInstance, name: Seq<char>, value: Value, other: Seq<char>)
    requires
        after.fields() == before.fields().insert(name, value),
    ensures
        after.fields().contains_key(name),
        after.fields()[name] == value,
        other != name ==> (after.fields().contains_key(other) == before.fields().contains_key(other)),
        other != name && before.fields().contains_key(other) ==> after.fields()[other] == before.fields()[other],
{
}

/// Overwriting the last pair of a name sets that field and no other.
proof fn lemma_fields_overwrite(pairs: Seq<(String, Value)>, i: int, p: (String, Value))
    requires
        0 <= i < pairs.len(),
        p.0@ == pairs[i].0@,
        forall|j: int| i < j < pairs.len() ==> (#[trigger] pairs[j]).0@ != pairs[i].0@,
    ensures
        fields_of(pairs.update(i, p)) == fields_of(pairs).insert(p.0@, p.1),
    decreases pairs.len(),
{
    let q = pairs.update(i, p);
    if i == pairs.len() - 1 {
        assert(q.drop_last() =~= pairs.drop_last());
        assert(fields_of(q) =~= fields_of(pairs).insert(p.0@, p.1));
    } else {
        let d = pairs.drop_last();
        assert forall|j: int| i < j < d.len() implies (#[trigger] d[j]).0@ != d[i].0@ by {
            assert(d[j] == pairs[j]);
        }
        lemma_fields_overwrite(d, i, p);
        assert(q.drop_last() =~= d.update(i, p));
        assert(pairs.last().0@ != p.0@);
        assert(fields_of(q) =~= fields_of(pairs).insert(p.0@, p.1));
    }
}

proof fn lemma_fields_last(pairs: Seq<(String, Value)>, i: int)
    requires
        0 <= i < pairs.len(),
        forall|j: int| i < j < pairs.len() ==> (#[trigger] pairs[j]).0@ != pairs[i].0@,
    ensures
        fields_of(pairs).contains_key(pairs[i].0@),
        fields_of(pairs)[pairs[i].0@] == pairs[i].1,
    decreases pairs.len(),
{
    if i < pairs.len() - 1 {
        let p = pairs.drop_last();
        assert forall|j: int| i < j < p.len() implies (#[trigger] p[j]).0@ != p[i].0@ by {
            assert(p[j] == pairs[j]);
        }
        lemma_fields_last(p, i);
    }
}

proof fn lemma_fields_absent(pairs: Seq<(String, Value)>, name: Seq<char>)
    requires
        forall|j: int| 0 <= j < pairs.len() ==> (#[trigger] pairs[j]).0@ != name,
    ensures
        !fields_of(pairs).contains_key(name),
    decreases pairs.len(),
{
    if pairs.len() > 0 {
        let p = pairs.drop_last();
        assert forall|j: int| 0 <= j < p.len() implies (#[trigger] p[j]).0@ != name by {
            assert(p[j] == pairs[j]);
        }
        lemma_fields_absent(p, name);
    }
}

} // verus!
