//! The scoped variable store.
//!
//! Scopes form a stack. An assignment writes the innermost scope; a lookup
//! walks outward from it, so that a definition in an inner scope shadows an
//! outer one and is gone, together with its scope, once that scope is
//! closed.

use crate::statement::{
    clone_optional_text, clone_statements, optional_text, statements_view, Statement,
    StatementView,
};
use crate::text::texts;
use vstd::prelude::*;

verus! {

/// A function that a `fn` statement defined.
#[derive(Debug, PartialEq, Eq)]
pub struct Function {
    pub description: Option<String>,
    pub name: String,
    pub args: Vec<String>,
    pub statements: Vec<Statement>,
}

/// What a [`Function`] is.
pub struct FunctionView {
    pub description: Option<Seq<char>>,
    pub name: Seq<char>,
    pub args: Seq<Seq<char>>,
    pub statements: Seq<StatementView>,
}

/// The value of a variable.
#[derive(Debug, PartialEq, Eq)]
pub enum Value {
    /// A string.
    Str(String),
    /// A list of strings.
    Array(Vec<String>),
    /// A function.
    Function(Function),
}

/// What a [`Value`] is.
pub enum ValueView {
    Str(Seq<char>),
    Array(Seq<Seq<char>>),
    Function(FunctionView),
}

impl View for Function {
    type V = FunctionView;

    open spec fn view(&self) -> FunctionView {
        FunctionView {
            description: optional_text(self.description),
            name: self.name@,
            args: texts(self.args@),
            statements: statements_view(self.statements@),
        }
    }
}

impl View for Value {
    type V = ValueView;

    open spec fn view(&self) -> ValueView {
        match self {
            Value::Str(s) => ValueView::Str(s@),
            Value::Array(list) => ValueView::Array(texts(list@)),
            Value::Function(function) => ValueView::Function(function@),
        }
    }
}

impl Clone for Function {
    fn clone(&self) -> (copy: Self)
        ensures
            copy@ == self@,
    {
        Function {
            description: clone_optional_text(&self.description),
            name: self.name.clone(),
            args: self.args.clone(),
            statements: clone_statements(&self.statements),
        }
    }
}

impl Clone for Value {
    fn clone(&self) -> (copy: Self)
        ensures
            copy@ == self@,
    {
        match self {
            Value::Str(s) => Value::Str(s.clone()),
            Value::Array(list) => Value::Array(list.clone()),
            Value::Function(function) => Value::Function(function.clone()),
        }
    }
}

/// What one scope is: its kind and the variables defined in it.
pub struct ScopeView {
    /// Whether the scope is the frame of a function call.
    pub namespace: bool,
    pub bindings: Map<Seq<char>, ValueView>,
}

/// The value that `name` has in the innermost scope that defines it.
pub open spec fn lookup(scopes: Seq<ScopeView>, name: Seq<char>) -> Option<ValueView>
    decreases scopes.len(),
{
    if scopes.len() == 0 {
        None
    } else if scopes.last().bindings.contains_key(name) {
        Some(scopes.last().bindings[name])
    } else {
        lookup(scopes.drop_last(), name)
    }
}

/// The scopes after `name` has been given `value` in the innermost one.
pub open spec fn assigned(scopes: Seq<ScopeView>, name: Seq<char>, value: ValueView) -> Seq<
    ScopeView,
>
    recommends
        scopes.len() > 0,
{
    scopes.update(
        scopes.len() - 1,
        ScopeView {
            namespace: scopes.last().namespace,
            bindings: scopes.last().bindings.insert(name, value),
        },
    )
}

/// The scopes with a new, empty one as the innermost.
pub open spec fn opened(scopes: Seq<ScopeView>, namespace: bool) -> Seq<ScopeView> {
    scopes.push(ScopeView { namespace, bindings: Map::empty() })
}

/// The string that `name` holds, if it holds one.
pub open spec fn lookup_str(scopes: Seq<ScopeView>, name: Seq<char>) -> Option<Seq<char>> {
    match lookup(scopes, name) {
        Some(ValueView::Str(s)) => Some(s),
        _ => None,
    }
}

/// The list that `name` holds, if it holds one.
pub open spec fn lookup_array(scopes: Seq<ScopeView>, name: Seq<char>) -> Option<Seq<Seq<char>>> {
    match lookup(scopes, name) {
        Some(ValueView::Array(list)) => Some(list),
        _ => None,
    }
}

/// A name reads as the value it was last given.
pub proof fn lemma_lookup_assigned(scopes: Seq<ScopeView>, name: Seq<char>, value: ValueView)
    requires
        scopes.len() > 0,
    ensures
        lookup(assigned(scopes, name, value), name) == Some(value),
{
}

/// An assignment leaves every other name as it was.
pub proof fn lemma_lookup_other(
    scopes: Seq<ScopeView>,
    name: Seq<char>,
    value: ValueView,
    other: Seq<char>,
)
    requires
        scopes.len() > 0,
        other != name,
    ensures
        lookup(assigned(scopes, name, value), other) == lookup(scopes, other),
{
    assert(assigned(scopes, name, value).drop_last() =~= scopes.drop_last());
}

/// Opening a scope changes no variable, and closing it again gives back the
/// scopes as they were, whatever was assigned in between.
pub proof fn lemma_scope_closed(scopes: Seq<ScopeView>, namespace: bool, name: Seq<char>)
    ensures
        lookup(opened(scopes, namespace), name) == lookup(scopes, name),
        opened(scopes, namespace).drop_last() == scopes,
        forall|n: Seq<char>, v: ValueView| #[trigger]
            assigned(opened(scopes, namespace), n, v).drop_last() == scopes,
{
    assert(opened(scopes, namespace).drop_last() =~= scopes);
    assert forall|n: Seq<char>, v: ValueView| #[trigger]
        assigned(opened(scopes, namespace), n, v).drop_last() == scopes by {
        assert(assigned(opened(scopes, namespace), n, v).drop_last() =~= scopes);
    }
}

/// One frame of the store.
struct Scope {
    namespace: bool,
    names: Vec<String>,
    values: Vec<Value>,
}

impl Scope {
    spec fn wf(self) -> bool {
        &&& self.names@.len() == self.values@.len()
        &&& forall|i: int, j: int|
            0 <= i < j < self.names@.len() ==> (#[trigger] self.names@[i])@ != (
            #[trigger] self.names@[j])@
    }

    spec fn defines(self, name: Seq<char>, i: int) -> bool {
        0 <= i < self.names@.len() && self.names@[i]@ == name
    }

    spec fn model(self) -> ScopeView {
        ScopeView {
            namespace: self.namespace,
            bindings: Map::new(
                |name: Seq<char>| exists|i: int| self.defines(name, i),
                |name: Seq<char>| self.values@[choose|i: int| self.defines(name, i)]@,
            ),
        }
    }

    /// With names that differ pairwise, a name is found at one place only.
    proof fn lemma_defined_at(self, name: Seq<char>, i: int)
        requires
            self.wf(),
            self.defines(name, i),
        ensures
            self.model().bindings.contains_key(name),
            self.model().bindings[name] == self.values@[i]@,
    {
        let k = choose|k: int| self.defines(name, k);
        assert(k == i);
    }

    /// Where `name` is defined in the scope.
    fn position(&self, name: &String) -> (at: Option<usize>)
        requires
            self.wf(),
        ensures
            match at {
                Some(i) => self.defines(name@, i as int),
                None => !self.model().bindings.contains_key(name@),
            },
    {
        let mut i: usize = 0;
        while i < self.names.len()
            invariant
                i <= self.names.len(),
                forall|k: int| 0 <= k < i ==> !self.defines(name@, k),
            decreases self.names.len() - i,
        {
            if self.names[i] == *name {
                return Some(i);
            }
            i = i + 1;
        }
        None
    }

    fn set(&mut self, name: &String, value: Value)
        requires
            old(self).wf(),
        ensures
            final(self).wf(),
            final(self).model() == (ScopeView {
                namespace: old(self).model().namespace,
                bindings: old(self).model().bindings.insert(name@, value@),
            }),
    {
        let ghost before = *self;
        let ghost inserted = before.model().bindings.insert(name@, value@);
        match self.position(name) {
            Some(i) => {
                self.values[i] = value;
                proof {
                    let after = *self;
                    assert forall|k: Seq<char>| #[trigger]
                        after.model().bindings.contains_key(k) == inserted.contains_key(k) by {
                        if k == name@ {
                            assert(after.defines(k, i as int));
                        } else if before.model().bindings.contains_key(k) {
                            let j = choose|j: int| before.defines(k, j);
                            assert(after.defines(k, j));
                        } else if after.model().bindings.contains_key(k) {
                            let j = choose|j: int| after.defines(k, j);
                            assert(before.defines(k, j));
                        }
                    }
                    assert forall|k: Seq<char>| #[trigger]
                        inserted.contains_key(k) implies after.model().bindings[k]
                        == inserted[k] by {
                        assert(after.model().bindings.contains_key(k));
                        let j = choose|j: int| after.defines(k, j);
                        after.lemma_defined_at(k, j);
                        if k != name@ {
                            assert(before.defines(k, j));
                            before.lemma_defined_at(k, j);
                        } else {
                            assert(after.defines(k, i as int));
                            after.lemma_defined_at(k, i as int);
                        }
                    }
                    assert(after.model().bindings =~= inserted);
                }
            },
            None => {
                self.names.push(name.clone());
                self.values.push(value);
                proof {
                    let after = *self;
                    let last = before.names@.len() as int;
                    assert forall|i: int, j: int| 0 <= i < j < after.names@.len() implies (
                    #[trigger] after.names@[i])@ != (#[trigger] after.names@[j])@ by {
                        if j == last {
                            assert(!before.defines(name@, i));
                        }
                    }
                    assert forall|k: Seq<char>| #[trigger]
                        after.model().bindings.contains_key(k) == inserted.contains_key(k) by {
                        if k == name@ {
                            assert(after.defines(k, last));
                        } else if before.model().bindings.contains_key(k) {
                            let j = choose|j: int| before.defines(k, j);
                            assert(after.defines(k, j));
                        } else if after.model().bindings.contains_key(k) {
                            let j = choose|j: int| after.defines(k, j);
                            assert(before.defines(k, j));
                        }
                    }
                    assert forall|k: Seq<char>| #[trigger]
                        inserted.contains_key(k) implies after.model().bindings[k]
                        == inserted[k] by {
                        assert(after.model().bindings.contains_key(k));
                        let j = choose|j: int| after.defines(k, j);
                        after.lemma_defined_at(k, j);
                        if k != name@ {
                            assert(before.defines(k, j));
                            before.lemma_defined_at(k, j);
                        } else {
                            assert(after.defines(k, last));
                            after.lemma_defined_at(k, last);
                        }
                    }
                    assert(after.model().bindings =~= inserted);
                }
            },
        }
    }
}

/// The variables of a shell, in nested scopes.
pub struct Variables {
    scopes: Vec<Scope>,
}

impl View for Variables {
    type V = Seq<ScopeView>;

    closed spec fn view(&self) -> Seq<ScopeView> {
        self.scopes@.map_values(|scope: Scope| scope.model())
    }
}

impl Variables {
    /// The invariant of the store: there is a global scope, and a scope
    /// defines no name twice.
    pub closed spec fn wf(&self) -> bool {
        &&& self.scopes@.len() > 0
        &&& forall|i: int| 0 <= i < self.scopes@.len() ==> (#[trigger] self.scopes@[i]).wf()
    }

    /// A well-formed store has at least its global scope.
    pub proof fn lemma_wf_depth(&self)
        requires
            self.wf(),
        ensures
            self@.len() > 0,
    {
    }

    /// A store with an empty global scope.
    pub fn new() -> (store: Variables)
        ensures
            store.wf(),
            store@ == opened(Seq::empty(), false),
    {
        let mut scopes: Vec<Scope> = Vec::new();
        scopes.push(Scope { namespace: false, names: Vec::new(), values: Vec::new() });
        let store = Variables { scopes };
        proof {
            assert(store.scopes@[0].model().bindings =~= Map::empty());
            assert(store@ =~= opened(Seq::empty(), false));
        }
        store
    }

    /// How many scopes are open, the global one included.
    pub fn depth(&self) -> (depth: usize)
        ensures
            depth == self@.len(),
    {
        self.scopes.len()
    }

    /// Whether the innermost scope is the frame of a function call.
    pub fn in_namespace(&self) -> (namespace: bool)
        requires
            self.wf(),
        ensures
            namespace == self@.last().namespace,
    {
        self.scopes[self.scopes.len() - 1].namespace
    }

    /// Opens a scope inside the innermost one. `namespace` says whether it
    /// is the frame of a function call; the executor opens plain scopes
    /// only.
    pub fn new_scope(&mut self, namespace: bool)
        requires
            old(self).wf(),
        ensures
            final(self).wf(),
            final(self)@ == opened(old(self)@, namespace),
    {
        let scope = Scope { namespace, names: Vec::new(), values: Vec::new() };
        proof {
            assert(scope.model().bindings =~= Map::empty());
        }
        self.scopes.push(scope);
        assert(self@ =~= opened(old(self)@, namespace));
    }

    /// Closes the innermost scope; what was defined in it is gone. The
    /// global scope cannot be closed.
    pub fn pop_scope(&mut self)
        requires
            old(self).wf(),
            old(self)@.len() > 1,
        ensures
            final(self).wf(),
            final(self)@ == old(self)@.drop_last(),
    {
        self.scopes.pop();
        assert(self@ =~= old(self)@.drop_last());
    }

    /// Gives `name` the value `value` in the innermost scope.
    pub fn set(&mut self, name: &String, value: Value)
        requires
            old(self).wf(),
        ensures
            final(self).wf(),
            final(self)@ == assigned(old(self)@, name@, value@),
    {
        let mut scope = self.scopes.pop().unwrap();
        scope.set(name, value);
        self.scopes.push(scope);
        assert(self@ =~= assigned(old(self)@, name@, value@));
    }

    /// The value of `name` in the innermost scope that defines it.
    pub fn get(&self, name: &String) -> (value: Option<&Value>)
        requires
            self.wf(),
        ensures
            match value {
                Some(value) => lookup(self@, name@) == Some(value@),
                None => lookup(self@, name@) is None,
            },
    {
        let mut i: usize = self.scopes.len();
        assert(self@.take(i as int) =~= self@);
        while i > 0
            invariant
                i <= self.scopes.len(),
                self.wf(),
                lookup(self@, name@) == lookup(self@.take(i as int), name@),
            decreases i,
        {
            i = i - 1;
            let scope = &self.scopes[i];
            proof {
                assert(self@.take(i + 1).last() == scope.model());
                assert(self@.take(i + 1).drop_last() =~= self@.take(i as int));
            }
            match scope.position(name) {
                Some(at) => {
                    proof {
                        scope.lemma_defined_at(name@, at as int);
                    }
                    return Some(&scope.values[at]);
                },
                None => {},
            }
        }
        None
    }

    /// The string that `name` holds, if it holds one.
    pub fn get_str(&self, name: &String) -> (value: Option<String>)
        requires
            self.wf(),
        ensures
            optional_text(value) == lookup_str(self@, name@),
    {
        match self.get(name) {
            Some(Value::Str(s)) => Some(s.clone()),
            _ => None,
        }
    }

    /// The list that `name` holds, if it holds one.
    pub fn get_array(&self, name: &String) -> (value: Option<Vec<String>>)
        requires
            self.wf(),
        ensures
            crate::statement::optional_texts(value) == lookup_array(self@, name@),
    {
        match self.get(name) {
            Some(Value::Array(list)) => Some(list.clone()),
            _ => None,
        }
    }
}

} // verus!
