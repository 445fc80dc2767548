//! Scoped tracking of type and value names, for telling `Type.method`
//! (a static call) from `value.method` (a method call).
use vstd::prelude::*;
use crate::ast::{Expression, SExpr};
use crate::text::{string_views, text_eq};

verus! {

/// Type names every program can use.
pub open spec fn builtin_type(n: Seq<char>) -> bool {
    n == "i32"@ || n == "i64"@ || n == "f32"@ || n == "f64"@ || n == "bool"@ || n == "Str"@ || n == "String"@ || n == "List"@ || n == "Vec"@ || n == "Dict"@ || n == "HashMap"@ || n == "Box"@ || n == "Option"@ || n == "Result"@ || n == "Path"@
}

/// Value names every program can use.
pub open spec fn builtin_value(n: Seq<char>) -> bool {
    n == "Some"@ || n == "None"@ || n == "Ok"@ || n == "Err"@ || n == "true"@ || n == "false"@
}

/// Whether `name` is a built-in type name.
pub fn is_builtin_type(name: &str) -> (r: bool)
    ensures
        r == builtin_type(name@),
{
    text_eq(name, "i32") || text_eq(name, "i64") || text_eq(name, "f32") || text_eq(name, "f64") || text_eq(name, "bool") || text_eq(name, "Str") || text_eq(name, "String") || text_eq(name, "List") || text_eq(name, "Vec") || text_eq(name, "Dict") || text_eq(name, "HashMap") || text_eq(name, "Box") || text_eq(name, "Option") || text_eq(name, "Result") || text_eq(name, "Path")
}

/// Whether `name` is a built-in value name.
pub fn is_builtin_value(name: &str) -> (r: bool)
    ensures
        r == builtin_value(name@),
{
    text_eq(name, "Some") || text_eq(name, "None") || text_eq(name, "Ok") || text_eq(name, "Err") || text_eq(name, "true") || text_eq(name, "false")
}

pub struct Resolver {
    type_names: Vec<String>,
    scopes: Vec<Vec<String>>,
}

/// Whether `n` is bound in any of the scopes.
pub open spec fn bound_in(scopes: Seq<Seq<Seq<char>>>, n: Seq<char>) -> bool {
    exists|i: int| 0 <= i < scopes.len() && #[trigger] scopes[i].contains(n)
}

/// Whether an expression names a type rather than a value: a declared type
/// name that no scope binds as a value, or a member of such a name.
pub open spec fn static_receiver(types: Seq<Seq<char>>, scopes: Seq<Seq<Seq<char>>>, e: SExpr) -> bool
    decreases e,
{
    match e {
        SExpr::Ident(n) => types.contains(n) && !bound_in(scopes, n),
        SExpr::Member(inner, _) => static_receiver(types, scopes, *inner),
        _ => false,
    }
}

/// The type names `Resolver::new` starts with.
pub open spec fn initial_types() -> Seq<Seq<char>> {
    seq!["i32"@, "i64"@, "f32"@, "f64"@, "bool"@, "Str"@, "List"@, "Dict"@, "Box"@]
}

/// Closing the scope just opened gives back the scopes as they were.
pub proof fn law_leave_undoes_enter(scopes: Seq<Seq<Seq<char>>>)
    requires
        scopes.len() >= 1,
    ensures
        ({
            let opened = scopes.push(Seq::<Seq<char>>::empty());
            (if opened.len() > 1 { opened.drop_last() } else { opened }) == scopes
        }),
{
    assert(scopes.push(Seq::<Seq<char>>::empty()).drop_last() =~= scopes);
}

/// The scopes after `declare_value` of each of `names`, in order.
pub open spec fn declare_values(scopes: Seq<Seq<Seq<char>>>, names: Seq<Seq<char>>) -> Seq<Seq<Seq<char>>>
    decreases names.len(),
{
    if names.len() == 0 || scopes.len() == 0 {
        scopes
    } else {
        declare_values(scopes.update(scopes.len() - 1, scopes.last().push(names[0])), names.drop_first())
    }
}

proof fn lemma_declare_values_outer(scopes: Seq<Seq<Seq<char>>>, names: Seq<Seq<char>>)
    requires
        scopes.len() >= 1,
    ensures
        declare_values(scopes, names).len() == scopes.len(),
        declare_values(scopes, names).drop_last() == scopes.drop_last(),
    decreases names.len(),
{
    if names.len() > 0 {
        let next = scopes.update(scopes.len() - 1, scopes.last().push(names[0]));
        lemma_declare_values_outer(next, names.drop_first());
        assert(next.drop_last() =~= scopes.drop_last());
    }
}

/// Values declared in a scope are gone once it is left: entering a scope,
/// declaring any values in it and leaving it gives back the scopes as they
/// were, so every name resolves as before.
pub proof fn law_scope_values_dropped(types: Seq<Seq<char>>, scopes: Seq<Seq<Seq<char>>>, names: Seq<Seq<char>>, e: SExpr)
    requires
        scopes.len() >= 1,
    ensures
        ({
            let inner = declare_values(scopes.push(Seq::<Seq<char>>::empty()), names);
            let left = if inner.len() > 1 { inner.drop_last() } else { inner };
            left == scopes && static_receiver(types, left, e) == static_receiver(types, scopes, e)
        }),
{
    let opened = scopes.push(Seq::<Seq<char>>::empty());
    lemma_declare_values_outer(opened, names);
    assert(opened.drop_last() =~= scopes);
}

/// A name declared as a value in the innermost scope is no longer a
/// static receiver, whatever types are declared: values shadow types.
pub proof fn law_value_shadows_type(types: Seq<Seq<char>>, scopes: Seq<Seq<Seq<char>>>, n: Seq<char>)
    requires
        scopes.len() >= 1,
    ensures
        !static_receiver(types, scopes.update(scopes.len() - 1, scopes.last().push(n)), SExpr::Ident(n)),
{
    let s2 = scopes.update(scopes.len() - 1, scopes.last().push(n));
    let k = scopes.len() - 1;
    assert(s2[k] == scopes.last().push(n));
    assert(s2[k][s2[k].len() - 1] == n);
    assert(s2[k].contains(n));
    assert(bound_in(s2, n));
}

impl Resolver {
    /// The declared type names.
    pub closed spec fn types(&self) -> Seq<Seq<char>> {
        string_views(self.type_names@)
    }

    /// The value scopes, innermost last.
    pub closed spec fn scopes(&self) -> Seq<Seq<Seq<char>>> {
        self.scopes@.map_values(|s: Vec<String>| string_views(s@))
    }

    pub closed spec fn wf(&self) -> bool {
        self.scopes@.len() >= 1
    }

    /// A well-formed resolver has at least one scope.
    pub proof fn lemma_wf(&self)
        requires
            self.wf(),
        ensures
            self.scopes().len() >= 1,
    {
    }

    fn owned(s: &str) -> (r: String)
        ensures
            r@ == s@,
    {
        s.to_owned()
    }

    /// A resolver that knows the built-in scalar and collection types and has
    /// one empty value scope.
    pub fn new() -> (r: Resolver)
        ensures
            r.wf(),
            r.types() == initial_types(),
            r.scopes() == seq![Seq::<Seq<char>>::empty()],
    {
        let mut type_names: Vec<String> = Vec::new();
        type_names.push(Self::owned("i32"));
        type_names.push(Self::owned("i64"));
        type_names.push(Self::owned("f32"));
        type_names.push(Self::owned("f64"));
        type_names.push(Self::owned("bool"));
        type_names.push(Self::owned("Str"));
        type_names.push(Self::owned("List"));
        type_names.push(Self::owned("Dict"));
        type_names.push(Self::owned("Box"));
        let mut scopes: Vec<Vec<String>> = Vec::new();
        scopes.push(Vec::new());
        let r = Resolver { type_names, scopes };
        proof {
            assert(r.types() =~= initial_types());
            assert(string_views(Seq::<String>::empty()) =~= Seq::<Seq<char>>::empty());
            assert(r.scopes() =~= seq![Seq::<Seq<char>>::empty()]);
        }
        r
    }

    /// Opens an inner value scope.
    pub fn enter_scope(&mut self)
        requires
            old(self).wf(),
        ensures
            final(self).wf(),
            final(self).types() == old(self).types(),
            final(self).scopes() == old(self).scopes().push(Seq::<Seq<char>>::empty()),
    {
        self.scopes.push(Vec::new());
        proof {
            assert(string_views(Seq::<String>::empty()) =~= Seq::<Seq<char>>::empty());
            assert(self.scopes() =~= old(self).scopes().push(Seq::<Seq<char>>::empty()));
        }
    }

    /// Closes the innermost value scope; the outermost one is never closed.
    pub fn leave_scope(&mut self)
        requires
            old(self).wf(),
        ensures
            final(self).wf(),
            final(self).types() == old(self).types(),
            final(self).scopes() == if old(self).scopes().len() > 1 {
                old(self).scopes().drop_last()
            } else {
                old(self).scopes()
            },
    {
        if self.scopes.len() > 1 {
            self.scopes.pop();
            assert(self.scopes() =~= old(self).scopes().drop_last());
        }
    }

    /// Binds `name` as a value in the innermost scope.
    pub fn declare_value(&mut self, name: &str)
        requires
            old(self).wf(),
        ensures
            final(self).wf(),
            final(self).types() == old(self).types(),
            final(self).scopes() == old(self).scopes().update(
                old(self).scopes().len() - 1,
                old(self).scopes().last().push(name@),
            ),
    {
        let mut scope = self.scopes.pop().unwrap();
        let ghost before = string_views(scope@);
        scope.push(Self::owned(name));
        self.scopes.push(scope);
        proof {
            assert(string_views(scope@) =~= before.push(name@));
            assert(self.scopes() =~= old(self).scopes().update(
                old(self).scopes().len() - 1,
                old(self).scopes().last().push(name@),
            ));
        }
    }

    /// Declares `name` as a type name.
    pub fn declare_type(&mut self, name: &str)
        ensures
            final(self).wf() == old(self).wf(),
            final(self).types() == old(self).types().push(name@),
            final(self).scopes() == old(self).scopes(),
    {
        self.type_names.push(Self::owned(name));
        assert(self.types() =~= old(self).types().push(name@));
    }

    fn list_contains(list: &Vec<String>, name: &str) -> (r: bool)
        ensures
            r == string_views(list@).contains(name@),
    {
        let mut i: usize = 0;
        while i < list.len()
            invariant
                0 <= i <= list.len(),
                forall|j: int| 0 <= j < i ==> list@[j]@ != name@,
            decreases list.len() - i,
        {
            if text_eq(list[i].as_str(), name) {
                assert(string_views(list@)[i as int] == name@);
                return true;
            }
            i = i + 1;
        }
        assert(!string_views(list@).contains(name@)) by {
            if string_views(list@).contains(name@) {
                let k = choose|k: int| 0 <= k < string_views(list@).len() && string_views(list@)[k] == name@;
                assert(list@[k]@ == name@);
            }
        }
        false
    }

    fn is_value(&self, name: &str) -> (r: bool)
        ensures
            r == bound_in(self.scopes(), name@),
    {
        let mut i: usize = self.scopes.len();
        while i > 0
            invariant
                0 <= i <= self.scopes.len(),
                forall|j: int| i <= j < self.scopes.len() ==> !(#[trigger] self.scopes()[j]).contains(name@),
            decreases i,
        {
            i = i - 1;
            if Self::list_contains(&self.scopes[i], name) {
                assert(self.scopes()[i as int].contains(name@));
                return true;
            }
        }
        false
    }

    fn is_type_name(&self, name: &str) -> (r: bool)
        ensures
            r == self.types().contains(name@),
    {
        Self::list_contains(&self.type_names, name)
    }

    /// Whether `expr` names a type (see `static_receiver`).
    pub fn is_static_receiver(&self, expr: &Expression) -> (r: bool)
        ensures
            r == static_receiver(self.types(), self.scopes(), expr@),
        decreases expr,
    {
        match expr {
            Expression::Ident(name) => self.is_type_name(name.as_str()) && !self.is_value(name.as_str()),
            Expression::MemberAccess(inner, _) => self.is_static_receiver(inner),
            _ => false,
        }
    }
}

impl Default for Resolver {
    /// The resolver `Resolver::new` builds.
    fn default() -> (r: Resolver)
        ensures
            r.wf(),
            r.types() == initial_types(),
            r.scopes() == seq![Seq::<Seq<char>>::empty()],
    {
        Resolver::new()
    }
}

} // verus!
