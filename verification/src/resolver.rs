//! The lexical-scope resolver: a stack of scopes, each mapping defined names
//! to the span of their first definition.  Defining a name that is visible in
//! any scope on the stack — the innermost or an enclosing one — fails, so
//! shadowing is rejected rather than permitted.

use vstd::prelude::*;
use crate::error::{NameError, NameErrorModel};
use crate::span::Span;

verus! {

/// The map of one scope: every name defined in it, each with the span of its
/// definition.
pub open spec fn scope_map(s: Seq<(String, Span)>) -> Map<Seq<char>, Span>
    decreases s.len(),
{
    if s.len() == 0 {
        Map::empty()
    } else {
        scope_map(s.drop_last()).insert(s.last().0@, s.last().1)
    }
}

/// Each name is defined at most once within one scope.
pub open spec fn scope_wf(s: Seq<(String, Span)>) -> bool {
    forall|a: int, b: int| 0 <= a < b < s.len() ==> (#[trigger] s[a]).0@ != (#[trigger] s[b]).0@
}

/// Walk the scope stack from the innermost (last) scope to the outermost and
/// hand back the span of the first visible definition of `name`, if any.
pub open spec fn lookup(scopes: Seq<Map<Seq<char>, Span>>, name: Seq<char>) -> Option<Span>
    decreases scopes.len(),
{
    if scopes.len() == 0 {
        None
    } else if scopes.last().contains_key(name) {
        Some(scopes.last()[name])
    } else {
        lookup(scopes.drop_last(), name)
    }
}

/// A scope's map holds a name exactly when some entry of the scope bears it.
proof fn lemma_scope_map_contains(s: Seq<(String, Span)>, name: Seq<char>)
    ensures
        scope_map(s).contains_key(name) <==> exists|i: int|
            0 <= i < s.len() && (#[trigger] s[i]).0@ == name,
    decreases s.len(),
{
    if s.len() > 0 {
        lemma_scope_map_contains(s.drop_last(), name);
        if scope_map(s).contains_key(name) && s.last().0@ != name {
            let i = choose|i: int| 0 <= i < s.drop_last().len() && (#[trigger] s.drop_last()[i]).0@
                == name;
            assert(s[i].0@ == name);
        }
        if exists|i: int| 0 <= i < s.len() && (#[trigger] s[i]).0@ == name {
            let i = choose|i: int| 0 <= i < s.len() && (#[trigger] s[i]).0@ == name;
            if i < s.len() - 1 {
                assert(s.drop_last()[i].0@ == name);
            }
        }
    }
}

/// In a well-formed scope the map sends each entry's name to that entry's
/// span.
proof fn lemma_scope_map_at(s: Seq<(String, Span)>, i: int)
    requires
        scope_wf(s),
        0 <= i < s.len(),
    ensures
        scope_map(s).contains_key(s[i].0@),
        scope_map(s)[s[i].0@] == s[i].1,
    decreases s.len(),
{
    if i < s.len() - 1 {
        assert(scope_wf(s.drop_last()));
        assert(s.drop_last()[i] == s[i]);
        lemma_scope_map_at(s.drop_last(), i);
        assert(s[i].0@ != s.last().0@);
    }
}

/// When no scope of the stack holds the name, lookup finds nothing.
proof fn lemma_lookup_none(scopes: Seq<Map<Seq<char>, Span>>, name: Seq<char>)
    requires
        forall|j: int| 0 <= j < scopes.len() ==> !(#[trigger] scopes[j]).contains_key(name),
    ensures
        lookup(scopes, name) is None,
    decreases scopes.len(),
{
    if scopes.len() > 0 {
        assert(forall|j: int|
            0 <= j < scopes.drop_last().len() ==> (#[trigger] scopes.drop_last()[j])
                == scopes[j]);
        lemma_lookup_none(scopes.drop_last(), name);
    }
}

/// When the innermost scope holding the name is the one at index `k`, lookup
/// finds that scope's entry.
proof fn lemma_lookup_at(scopes: Seq<Map<Seq<char>, Span>>, name: Seq<char>, k: int)
    requires
        0 <= k < scopes.len(),
        scopes[k].contains_key(name),
        forall|j: int| k < j < scopes.len() ==> !(#[trigger] scopes[j]).contains_key(name),
    ensures
        lookup(scopes, name) == Some(scopes[k][name]),
    decreases scopes.len(),
{
    if k < scopes.len() - 1 {
        assert(forall|j: int|
            0 <= j < scopes.drop_last().len() ==> (#[trigger] scopes.drop_last()[j])
                == scopes[j]);
        lemma_lookup_at(scopes.drop_last(), name, k);
    }
}

/// True when the string equals the other string.
fn eq_string(a: &String, b: &String) -> (r: bool)
    ensures
        r == (a@ == b@),
{
    a.eq(b)
}

/// The span of `name` in one scope, if the scope defines it.
#[verifier::loop_isolation(false)]
fn scope_get(scope: &Vec<(String, Span)>, name: &String) -> (r: Option<Span>)
    requires
        scope_wf(scope@),
    ensures
        match r {
            Some(sp) => scope_map(scope@).contains_key(name@) && scope_map(scope@)[name@] == sp,
            None => !scope_map(scope@).contains_key(name@),
        },
{
    let n = scope.len();
    let mut k: usize = 0;
    while k < n
        invariant
            k <= n,
            n == scope@.len(),
            forall|m: int| 0 <= m < k ==> (#[trigger] scope@[m]).0@ != name@,
        decreases n - k,
    {
        if eq_string(&scope[k].0, name) {
            proof {
                lemma_scope_map_at(scope@, k as int);
            }
            return Some(scope[k].1);
        }
        k = k + 1;
    }
    proof {
        lemma_scope_map_contains(scope@, name@);
    }
    None
}

/// The resolver: a stack of scopes, never popped below the global scope.
#[derive(Debug)]
pub struct Resolver {
    scopes: Vec<Vec<(String, Span)>>,
}

impl View for Resolver {
    type V = Seq<Map<Seq<char>, Span>>;

    closed spec fn view(&self) -> Seq<Map<Seq<char>, Span>> {
        self.scopes@.map_values(|sc: Vec<(String, Span)>| scope_map(sc@))
    }
}

impl Resolver {
    /// A well-formed resolver: at least the global scope exists, and no scope
    /// defines a name twice.
    pub closed spec fn wf(self) -> bool {
        &&& self.scopes@.len() >= 1
        &&& forall|i: int| 0 <= i < self.scopes@.len() ==> scope_wf((#[trigger] self.scopes@[i])@)
    }

    /// A fresh resolver: one empty global scope.
    pub fn new() -> (r: Self)
        ensures
            r.wf(),
            r@ == seq![Map::<Seq<char>, Span>::empty()],
    {
        let mut scopes: Vec<Vec<(String, Span)>> = Vec::new();
        scopes.push(Vec::new());
        let r = Resolver { scopes };
        proof {
            assert(r@ =~= seq![Map::<Seq<char>, Span>::empty()]);
        }
        r
    }

    /// Enter a nested lexical region: push an empty scope.
    pub fn push_scope(&mut self)
        requires
            old(self).wf(),
        ensures
            final(self).wf(),
            final(self)@ == old(self)@.push(Map::<Seq<char>, Span>::empty()),
    {
        let ghost prev = self@;
        self.scopes.push(Vec::new());
        proof {
            assert(self@ =~= prev.push(Map::<Seq<char>, Span>::empty()));
        }
    }

    /// Leave a nested lexical region: pop the innermost scope, and with it
    /// every definition made there.  With only the global scope left this is
    /// a no-op.
    pub fn pop_scope(&mut self)
        requires
            old(self).wf(),
        ensures
            final(self).wf(),
            final(self)@ == (if old(self)@.len() > 1 {
                old(self)@.drop_last()
            } else {
                old(self)@
            }),
    {
        let ghost prev = self@;
        if self.scopes.len() > 1 {
            self.scopes.pop();
            proof {
                assert(self@ =~= prev.drop_last());
            }
        }
    }

    /// Register `name` in the innermost scope.  The definition fails exactly
    /// when the name is already visible in any scope on the stack; the error
    /// then carries the name, the span of that first visible definition, and
    /// the span of the rejected one, and the resolver is left unchanged.
    #[verifier::loop_isolation(false)]
    pub fn define(&mut self, name: &str, span: Span) -> (r: Result<(), NameError>)
        requires
            old(self).wf(),
        ensures
            final(self).wf(),
            match lookup(old(self)@, name@) {
                Some(first) => ({
                    &&& r matches Err(e) && e@ == (NameErrorModel { name: name@, first, second: span })
                    &&& final(self)@ == old(self)@
                }),
                None => ({
                    &&& r is Ok
                    &&& final(self)@ == old(self)@.update(
                        old(self)@.len() - 1,
                        old(self)@.last().insert(name@, span),
                    )
                }),
            },
    {
        let ghost prev = self@;
        let ghost prev_scopes = self.scopes@;
        let name_s: String = name.to_owned();
        let depth = self.scopes.len();
        let mut k = depth;
        while k > 0
            invariant
                k <= depth,
                forall|j: int| k <= j < depth ==> !(#[trigger] self@[j]).contains_key(name@),
            decreases k,
        {
            k = k - 1;
            match scope_get(&self.scopes[k], &name_s) {
                Some(first) => {
                    proof {
                        lemma_lookup_at(self@, name@, k as int);
                    }
                    return Err(NameError { name: name_s, first, second: span });
                },
                None => {},
            }
        }
        proof {
            lemma_lookup_none(self@, name@);
            lemma_scope_map_contains(self.scopes@.last()@, name@);
        }
        let mut scope = match self.scopes.pop() {
            Some(s) => s,
            None => {
                // unreachable: a well-formed resolver always has a scope
                Vec::new()
            },
        };
        scope.push((name_s, span));
        self.scopes.push(scope);
        proof {
            assert(self.scopes@.len() == prev_scopes.len());
            assert(self.scopes@.last()@ == prev_scopes.last()@.push((name_s, span)));
            assert(prev_scopes.last()@.push((name_s, span)).drop_last() =~= prev_scopes.last()@);
            assert(scope_map(self.scopes@.last()@) == scope_map(prev_scopes.last()@).insert(
                name@,
                span,
            ));
            assert(self@ =~= prev.update(prev.len() - 1, prev.last().insert(name@, span)));
        }
        Ok(())
    }

    /// True when `name` is visible in some scope on the stack; the resolver
    /// is left untouched.
    #[verifier::loop_isolation(false)]
    pub fn is_defined(&self, name: &str) -> (r: bool)
        requires
            self.wf(),
        ensures
            r == (lookup(self@, name@) is Some),
    {
        let name_s: String = name.to_owned();
        let depth = self.scopes.len();
        let mut k = depth;
        while k > 0
            invariant
                k <= depth,
                forall|j: int| k <= j < depth ==> !(#[trigger] self@[j]).contains_key(name@),
            decreases k,
        {
            k = k - 1;
            match scope_get(&self.scopes[k], &name_s) {
                Some(_) => {
                    proof {
                        lemma_lookup_at(self@, name@, k as int);
                    }
                    return true;
                },
                None => {},
            }
        }
        proof {
            lemma_lookup_none(self@, name@);
        }
        false
    }
}

// ---------------------------------------------------------------------------
// Laws of the scope stack
// ---------------------------------------------------------------------------
/// After a successful definition the name is visible with exactly the span
/// that was supplied.
pub proof fn lemma_define_records_span(
    scopes: Seq<Map<Seq<char>, Span>>,
    name: Seq<char>,
    sp: Span,
)
    requires
        scopes.len() >= 1,
    ensures
        lookup(scopes.update(scopes.len() - 1, scopes.last().insert(name, sp)), name) == Some(sp),
{
    let s2 = scopes.update(scopes.len() - 1, scopes.last().insert(name, sp));
    assert(s2.last() == scopes.last().insert(name, sp));
}

/// Defining one name never disturbs what lookup finds for any other name:
/// however many unrelated definitions come in between, the span recorded for
/// a name stays the span of its first definition.
pub proof fn lemma_unrelated_define_preserves_lookup(
    scopes: Seq<Map<Seq<char>, Span>>,
    defined: Seq<char>,
    sp: Span,
    name: Seq<char>,
)
    requires
        scopes.len() >= 1,
        defined != name,
    ensures
        lookup(scopes.update(scopes.len() - 1, scopes.last().insert(defined, sp)), name) == lookup(
            scopes,
            name,
        ),
{
    let s2 = scopes.update(scopes.len() - 1, scopes.last().insert(defined, sp));
    assert(s2.last() == scopes.last().insert(defined, sp));
    assert(s2.drop_last() =~= scopes.drop_last());
}

/// The scope stack after a run of further successful definitions, each made
/// in the innermost scope — the shape `define` gives the stack on success.
pub open spec fn apply_defines(
    scopes: Seq<Map<Seq<char>, Span>>,
    defs: Seq<(Seq<char>, Span)>,
) -> Seq<Map<Seq<char>, Span>>
    decreases defs.len(),
{
    if defs.len() == 0 {
        scopes
    } else {
        let prev = apply_defines(scopes, defs.drop_last());
        prev.update(prev.len() - 1, prev.last().insert(defs.last().0, defs.last().1))
    }
}

proof fn lemma_apply_defines_len(scopes: Seq<Map<Seq<char>, Span>>, defs: Seq<(Seq<char>, Span)>)
    requires
        scopes.len() >= 1,
    ensures
        apply_defines(scopes, defs).len() == scopes.len(),
    decreases defs.len(),
{
    if defs.len() > 0 {
        lemma_apply_defines_len(scopes, defs.drop_last());
    }
}

/// Once a name is defined with some span, that span is what every later
/// conflict reports as the first definition, no matter how many definitions
/// of other names come in between.
pub proof fn lemma_first_definition_span_is_stable(
    scopes: Seq<Map<Seq<char>, Span>>,
    name: Seq<char>,
    sp: Span,
    others: Seq<(Seq<char>, Span)>,
)
    requires
        scopes.len() >= 1,
        forall|i: int| 0 <= i < others.len() ==> (#[trigger] others[i]).0 != name,
    ensures
        lookup(
            apply_defines(
                scopes.update(scopes.len() - 1, scopes.last().insert(name, sp)),
                others,
            ),
            name,
        ) == Some(sp),
    decreases others.len(),
{
    let base = scopes.update(scopes.len() - 1, scopes.last().insert(name, sp));
    if others.len() == 0 {
        lemma_define_records_span(scopes, name, sp);
    } else {
        lemma_first_definition_span_is_stable(scopes, name, sp, others.drop_last());
        let prev = apply_defines(base, others.drop_last());
        lemma_apply_defines_len(base, others.drop_last());
        lemma_unrelated_define_preserves_lookup(prev, others.last().0, others.last().1, name);
    }
}

/// Entering a nested scope hides nothing: every name visible outside is
/// still visible, with the same first-definition span — which is why
/// defining it again in the nested scope (shadowing) is rejected.
pub proof fn lemma_push_scope_preserves_lookup(scopes: Seq<Map<Seq<char>, Span>>, name: Seq<char>)
    ensures
        lookup(scopes.push(Map::empty()), name) == lookup(scopes, name),
{
    assert(scopes.push(Map::empty()).drop_last() =~= scopes);
}

/// Leaving a nested scope restores exactly the visibility there was before
/// entering it: a name defined only in the popped scope can be defined
/// freely again.
pub proof fn lemma_pop_scope_restores_lookup(
    scopes: Seq<Map<Seq<char>, Span>>,
    inner: Map<Seq<char>, Span>,
    name: Seq<char>,
)
    ensures
        lookup(scopes.push(inner).drop_last(), name) == lookup(scopes, name),
{
    assert(scopes.push(inner).drop_last() =~= scopes);
}

} // verus!
