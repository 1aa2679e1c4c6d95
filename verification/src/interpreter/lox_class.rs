//! Classes and class objects.
use vstd::prelude::*;
use crate::interpreter::lox_function::LoxFunction;
use crate::interpreter::{initialized, Interpreter, RuntimeError};
use crate::numbers::NumberOps;
use crate::text::{concat, owned};
use crate::token::{ClassRef, FunctionRef, Value};

verus! {

/// The map a list of (name, function) pairs stands for; later pairs win.
pub open spec fn members(pairs: Seq<(String, FunctionRef)>) -> Map<Seq<char>, FunctionRef>
    decreases pairs.len(),
{
    if pairs.len() == 0 {
        Map::empty()
    } else {
        members(pairs.drop_last()).insert(pairs.last().0@, pairs.last().1)
    }
}

/// The function a list of pairs binds `name` to.
pub fn find_member(pairs: &Vec<(String, FunctionRef)>, name: &String) -> (r: Option<FunctionRef>)
    ensures
        r is Some <==> members(pairs@).contains_key(name@),
        r matches Some(f) ==> f == members(pairs@)[name@],
{
    let mut i = pairs.len();
    while i > 0
        invariant
            i <= pairs@.len(),
            forall|j: int| i <= j < pairs@.len() ==> (#[trigger] pairs@[j]).0@ != name@,
        decreases i,
    {
        i = i - 1;
        if pairs[i].0 == *name {
            proof {
                lemma_members_last(pairs@, i as int);
            }
            return Some(pairs[i].1);
        }
    }
    proof {
        lemma_members_absent(pairs@, name@);
    }
    None
}

proof fn lemma_members_last(pairs: Seq<(String, FunctionRef)>, i: int)
    requires
        0 <= i < pairs.len(),
        forall|j: int| i < j < pairs.len() ==> (#[trigger] pairs[j]).0@ != pairs[i].0@,
    ensures
        members(pairs).contains_key(pairs[i].0@),
        members(pairs)[pairs[i].0@] == pairs[i].1,
    decreases pairs.len(),
{
    if i < pairs.len() - 1 {
        let p = pairs.drop_last();
        assert forall|j: int| i < j < p.len() implies (#[trigger] p[j]).0@ != p[i].0@ by {
            assert(p[j] == pairs[j]);
        }
        lemma_members_last(p, i);
    }
}

proof fn lemma_members_absent(pairs: Seq<(String, FunctionRef)>, name: Seq<char>)
    requires
        forall|j: int| 0 <= j < pairs.len() ==> (#[trigger] pairs[j]).0@ != name,
    ensures
        !members(pairs).contains_key(name),
    decreases pairs.len(),
{
    if pairs.len() > 0 {
        let p = pairs.drop_last();
        assert forall|j: int| 0 <= j < p.len() implies (#[trigger] p[j]).0@ != name by {
            assert(p[j] == pairs[j]);
        }
        lemma_members_absent(p, name);
    }
}

/// Every class's superclass comes before it.
pub open spec fn classes_wf(classes: Seq<LoxClass>) -> bool {
    forall|i: int|
        0 <= i < classes.len() ==> match (#[trigger] classes[i]).superclass() {
            Some(j) => j < i,
            None => true,
        }
}

/// The method `name` of class `class` or of its nearest superclass that has one.
pub open spec fn class_method(classes: Seq<LoxClass>, class: nat, name: Seq<char>) -> Option<FunctionRef>
    decreases class,
{
    if class >= classes.len() {
        None
    } else if classes[class as int].methods().contains_key(name) {
        Some(classes[class as int].methods()[name])
    } else {
        match classes[class as int].superclass() {
            Some(s) => if (s as nat) < class { class_method(classes, s as nat, name) } else { None },
            None => None,
        }
    }
}

/// The getter `name` of class `class` or of its nearest superclass that has one.
pub open spec fn class_getter(classes: Seq<LoxClass>, class: nat, name: Seq<char>) -> Option<FunctionRef>
    decreases class,
{
    if class >= classes.len() {
        None
    } else if classes[class as int].getters().contains_key(name) {
        Some(classes[class as int].getters()[name])
    } else {
        match classes[class as int].superclass() {
            Some(s) => if (s as nat) < class { class_getter(classes, s as nat, name) } else { None },
            None => None,
        }
    }
}

/// How many arguments constructing an instance of class `class` takes: those
/// of the `init` method it has or inherits, or none.
pub open spec fn constructor_arity(classes: Seq<LoxClass>, functions: Seq<LoxFunction>, class: nat) -> nat {
    match class_method(classes, class, "init"@) {
        Some(f) => if f < functions.len() { functions[f as int].arity_spec() } else { 0 },
        None => 0,
    }
}

/// The method `name` of class `class` or of its nearest superclass that has one.
pub fn find_inherited_method(classes: &Vec<LoxClass>, class: usize, name: &String) -> (r: Option<FunctionRef>)
    requires
        classes_wf(classes@),
        class < classes@.len(),
    ensures
        r == class_method(classes@, class as nat, name@),
{
    let mut current = class;
    loop
        invariant
            classes_wf(classes@),
            current < classes@.len(),
            class_method(classes@, class as nat, name@) == class_method(classes@, current as nat, name@),
        decreases current,
    {
        match classes[current].find_method(name) {
            Some(f) => return Some(f),
            None => {},
        }
        match classes[current].superclass_ref() {
            Some(s) => {
                current = s;
            },
            None => return None,
        }
    }
}

/// The getter `name` of class `class` or of its nearest superclass that has one.
pub fn find_inherited_getter(classes: &Vec<LoxClass>, class: usize, name: &String) -> (r: Option<FunctionRef>)
    requires
        classes_wf(classes@),
        class < classes@.len(),
    ensures
        r == class_getter(classes@, class as nat, name@),
{
    let mut current = class;
    loop
        invariant
            classes_wf(classes@),
            current < classes@.len(),
            class_getter(classes@, class as nat, name@) == class_getter(classes@, current as nat, name@),
        decreases current,
    {
        match classes[current].find_getter(name) {
            Some(f) => return Some(f),
            None => {},
        }
        match classes[current].superclass_ref() {
            Some(s) => {
                current = s;
            },
            None => return None,
        }
    }
}

/// A class: its name, its superclass (an index among the interpreter's
/// classes), its methods and its getters.
pub struct LoxClass {
    name: String,
    superclass: Option<usize>,
    methods: Vec<(String, FunctionRef)>,
    getters: Vec<(String, FunctionRef)>,
}

impl LoxClass {
    pub fn new(
        name: String,
        superclass: Option<usize>,
        methods: Vec<(String, FunctionRef)>,
        getters: Vec<(String, FunctionRef)>,
    ) -> (c: Self)
        ensures
            c.name_spec() == name@,
            c.superclass() == superclass,
            c.methods() == members(methods@),
            c.getters() == members(getters@),
    {
        LoxClass { name, superclass, methods, getters }
    }

    pub closed spec fn name_spec(&self) -> Seq<char> {
        self.name@
    }

    pub closed spec fn superclass(&self) -> Option<usize> {
        self.superclass
    }

    /// The class's own methods (inherited ones not included).
    pub closed spec fn methods(&self) -> Map<Seq<char>, FunctionRef> {
        members(self.methods@)
    }

    /// The class's own getters (inherited ones not included).
    pub closed spec fn getters(&self) -> Map<Seq<char>, FunctionRef> {
        members(self.getters@)
    }

    pub fn name(&self) -> (s: &String)
        ensures
            s@ == self.name_spec(),
    {
        &self.name
    }

    pub fn superclass_ref(&self) -> (r: Option<usize>)
        ensures
            r == self.superclass(),
    {
        self.superclass
    }

    /// The class's own method called `name`.
    pub fn find_method(&self, name: &String) -> (r: Option<FunctionRef>)
        ensures
            r is Some <==> self.methods().contains_key(name@),
            r matches Some(f) ==> f == self.methods()[name@],
    {
        find_member(&self.methods, name)
    }

    /// The class's own getter called `name`.
    pub fn find_getter(&self, name: &String) -> (r: Option<FunctionRef>)
        ensures
            r is Some <==> self.getters().contains_key(name@),
            r matches Some(f) ==> f == self.getters()[name@],
    {
        find_member(&self.getters, name)
    }

    /// How many arguments constructing an instance takes: those of the
    /// `init` method the class has or inherits from `classes`, or none.
    pub fn arity(&self, classes: &Vec<LoxClass>, functions: &Vec<LoxFunction>) -> (n: usize)
        requires
            classes_wf(classes@),
            self.superclass() matches Some(s) ==> s < classes@.len(),
        ensures
            n == if self.methods().contains_key("init"@) {
                let f = self.methods()["init"@];
                if f < functions@.len() { functions@[f as int].arity_spec() } else { 0 }
            } else {
                match self.superclass() {
                    Some(s) => constructor_arity(classes@, functions@, s as nat),
                    None => 0,
                }
            },
    {
        let init = owned("init");
        let found = match self.find_method(&init) {
            Some(f) => Some(f),
            None => match self.superclass {
                Some(s) => find_inherited_method(classes, s, &init),
                None => None,
            },
        };
        match found {
            Some(f) => if f < functions.len() { functions[f].arity() } else { 0 },
            None => 0,
        }
    }

    /// Constructs an instance of class `class` of `interpreter` and runs the
    /// `init` method it has or inherits with `arguments`.
    pub fn call<N: NumberOps>(interpreter: &mut Interpreter, class: usize, arguments: Vec<Value>, numbers: &N) -> (r:
        Result<Value, RuntimeError>)
        requires
            old(interpreter).wf(),
        ensures
            final(interpreter).follows(*old(interpreter)),
            class >= old(interpreter).class_count() ==> (r matches Err(e) && e.message@ == "Invalid class reference."@),
            r matches Ok(v) ==> v == Value::Instance(old(interpreter).instance_count() as usize)
                && final(interpreter).class_of_instance(old(interpreter).instance_count()) == class,
            class < old(interpreter).class_count() && old(interpreter).steps_left() == 0 ==> (r matches Err(e)
                && e.message@ == "Execution step limit reached."@),
            class < old(interpreter).class_count() && old(interpreter).steps_left() > 0 && old(interpreter).method_of(
                class as nat,
                "init"@,
            ) is None ==> {
                &&& r == Ok::<Value, RuntimeError>(Value::Instance(old(interpreter).instance_count() as usize))
                &&& final(interpreter).instance_count() == old(interpreter).instance_count() + 1
                &&& final(interpreter).class_of_instance(old(interpreter).instance_count()) == class
                &&& final(interpreter).fields_of_instance(old(interpreter).instance_count()) == Map::<
                    Seq<char>,
                    Value,
                >::empty()
            },
            class < old(interpreter).class_count() && old(interpreter).steps_left() > 0 ==> match old(
                interpreter,
            ).method_of(class as nat, "init"@) {
                Some(m) => m < old(interpreter).function_count() ==> initialized(
                    numbers,
                    *old(interpreter),
                    class as nat,
                    m as nat,
                    arguments@,
                    *final(interpreter),
                    r,
                ),
                None => true,
            },
    {
        if class >= interpreter.classes.len() {
            return Err(crate::interpreter::internal_error("Invalid class reference."));
        }
        interpreter.instantiate(class, arguments, numbers)
    }
}

/// What a class name evaluates to: the class its instances belong to, and
/// the class (the "metaclass") that holds its static methods.
pub struct ClassObject {
    instance_class: usize,
    metaclass: usize,
}

impl ClassObject {
    pub fn new(instance_class: usize, metaclass: usize) -> (c: Self)
        ensures
            c.instance_class() == instance_class,
            c.metaclass() == metaclass,
    {
        ClassObject { instance_class, metaclass }
    }

    pub closed spec fn instance_class(&self) -> usize {
        self.instance_class
    }

    pub closed spec fn metaclass(&self) -> usize {
        self.metaclass
    }

    pub fn instance_class_ref(&self) -> (r: usize)
        ensures
            r == self.instance_class(),
    {
        self.instance_class
    }

    pub fn metaclass_ref(&self) -> (r: usize)
        ensures
            r == self.metaclass(),
    {
        self.metaclass
    }

    /// The class object's name: that of its instance class.
    pub fn name(&self, classes: &Vec<LoxClass>) -> (s: String)
        requires
            self.instance_class() < classes@.len(),
        ensures
            s@ == classes@[self.instance_class() as int].name_spec(),
    {
        classes[self.instance_class].name().clone()
    }

    /// The static method called `name`.
    pub fn find_static(&self, classes: &Vec<LoxClass>, name: &String) -> (r: Option<FunctionRef>)
        requires
            self.metaclass() < classes@.len(),
        ensures
            r is Some <==> classes@[self.metaclass() as int].methods().contains_key(name@),
            r matches Some(f) ==> f == classes@[self.metaclass() as int].methods()[name@],
    {
        classes[self.metaclass].find_method(name)
    }

    /// How many arguments calling the class object takes.
    pub fn arity(&self, classes: &Vec<LoxClass>, functions: &Vec<LoxFunction>) -> (n: usize)
        requires
            classes_wf(classes@),
            self.instance_class() < classes@.len(),
        ensures
            n == constructor_arity(classes@, functions@, self.instance_class() as nat),
    {
        let init = owned("init");
        match find_inherited_method(classes, self.instance_class, &init) {
            Some(f) => if f < functions.len() { functions[f].arity() } else { 0 },
            None => 0,
        }
    }

    /// Calls class object `class_object` of `interpreter`: constructs an
    /// instance of its instance class.
    pub fn call<N: NumberOps>(
        interpreter: &mut Interpreter,
        class_object: ClassRef,
        arguments: Vec<Value>,
        numbers: &N,
    ) -> (r: Result<Value, RuntimeError>)
        requires
            old(interpreter).wf(),
        ensures
            final(interpreter).follows(*old(interpreter)),
            class_object >= old(interpreter).class_object_count() ==> (r matches Err(e) && e.message@
                == "Invalid class reference."@),
            r matches Ok(v) ==> v == Value::Instance(old(interpreter).instance_count() as usize)
                && final(interpreter).class_of_instance(old(interpreter).instance_count())
                == old(interpreter).instance_class_of(class_object as nat),
            class_object < old(interpreter).class_object_count() && old(interpreter).steps_left() == 0 ==> (r matches Err(
                e,
            ) && e.message@ == "Execution step limit reached."@),
            class_object < old(interpreter).class_object_count() && old(interpreter).steps_left() > 0 && old(
                interpreter,
            ).method_of(old(interpreter).instance_class_of(class_object as nat) as nat, "init"@) is None ==> {
                &&& r == Ok::<Value, RuntimeError>(Value::Instance(old(interpreter).instance_count() as usize))
                &&& final(interpreter).instance_count() == old(interpreter).instance_count() + 1
                &&& final(interpreter).class_of_instance(old(interpreter).instance_count())
                    == old(interpreter).instance_class_of(class_object as nat)
                &&& final(interpreter).fields_of_instance(old(interpreter).instance_count()) == Map::<
                    Seq<char>,
                    Value,
                >::empty()
            },
            class_object < old(interpreter).class_object_count() && old(interpreter).steps_left() > 0 ==> match old(
                interpreter,
            ).method_of(old(interpreter).instance_class_of(class_object as nat) as nat, "init"@) {
                Some(m) => m < old(interpreter).function_count() ==> initialized(
                    numbers,
                    *old(interpreter),
                    old(interpreter).instance_class_of(class_object as nat) as nat,
                    m as nat,
                    arguments@,
                    *final(interpreter),
                    r,
                ),
                None => true,
            },
    {
        if class_object >= interpreter.class_objects.len() {
            return Err(crate::interpreter::internal_error("Invalid class reference."));
        }
        let class = interpreter.class_objects[class_object].instance_class_ref();
        LoxClass::call(interpreter, class, arguments, numbers)
    }
}

/// `<name> metaclass`.
pub fn metaclass_name(name: &String) -> (s: String)
    ensures
        s@ == name@ + " metaclass"@,
{
    let suffix = crate::text::owned(" metaclass");
    concat(name, &suffix)
}

} // verus!
