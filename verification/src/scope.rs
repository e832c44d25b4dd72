//! The scope validator: walks a term carrying the set of currently bound
//! names and reports the first unbound variable, in depth-first,
//! left-to-right order.

use crate::term::Expr;
use crate::term::Term;
use vstd::prelude::*;

verus! {

/// The set of names that a stack of bound names stands for.
spec fn names_set(s: Seq<String>) -> Set<Seq<char>> {
    Set::new(|n: Seq<char>| exists|i: int| 0 <= i < s.len() && s[i]@ == n)
}

/// The first unbound variable of `t` in depth-first, left-to-right order,
/// given the names bound around `t`; `None` when every variable is bound.
pub open spec fn first_unbound(t: Term, bound: Set<Seq<char>>) -> Option<Seq<char>>
    decreases t,
{
    match t {
        Term::Application(f, a) => match first_unbound(*f, bound) {
            Option::Some(n) => Option::Some(n),
            Option::None => first_unbound(*a, bound),
        },
        Term::Lambda(p, b) => first_unbound(*b, bound.insert(p)),
        Term::Name(n) => if bound.contains(n) {
            Option::None
        } else {
            Option::Some(n)
        },
    }
}

/// Whether every variable of `t` is bound, either by an enclosing binder of
/// `t` itself or by a name of `bound`.
pub open spec fn all_bound(t: Term, bound: Set<Seq<char>>) -> bool
    decreases t,
{
    match t {
        Term::Application(f, a) => all_bound(*f, bound) && all_bound(*a, bound),
        Term::Lambda(p, b) => all_bound(*b, bound.insert(p)),
        Term::Name(n) => bound.contains(n),
    }
}

/// The scope validator finds no unbound variable exactly in the terms whose
/// every variable has an enclosing binder of a matching name on its path to
/// the root.
pub proof fn lemma_first_unbound_iff_all_bound(t: Term, bound: Set<Seq<char>>)
    ensures
        (first_unbound(t, bound) is None) <==> all_bound(t, bound),
    decreases t,
{
    match t {
        Term::Application(f, a) => {
            lemma_first_unbound_iff_all_bound(*f, bound);
            lemma_first_unbound_iff_all_bound(*a, bound);
        }
        Term::Lambda(p, b) => {
            lemma_first_unbound_iff_all_bound(*b, bound.insert(p));
        }
        Term::Name(_) => {}
    }
}

/// The verdict of the scope validator: the name of the first unbound
/// variable found.
#[derive(Debug, PartialEq, Eq)]
pub struct UnboundVariable {
    pub name: String,
}

/// Pushing a name onto the stack adds exactly that name to the set it
/// stands for.
proof fn lemma_names_set_push(s: Seq<String>, x: String)
    ensures
        names_set(s.push(x)) =~= names_set(s).insert(x@),
{
    assert forall|n: Seq<char>| names_set(s.push(x)).contains(n) implies names_set(s).insert(
        x@,
    ).contains(n) by {
        let i = choose|i: int| 0 <= i < s.push(x).len() && s.push(x)[i]@ == n;
        if i < s.len() {
            assert(s[i]@ == n);
        }
    };
    assert forall|n: Seq<char>| names_set(s).insert(x@).contains(n) implies names_set(
        s.push(x),
    ).contains(n) by {
        if n == x@ {
            assert(s.push(x)[s.len() as int]@ == n);
        } else {
            let i = choose|i: int| 0 <= i < s.len() && s[i]@ == n;
            assert(s.push(x)[i]@ == n);
        }
    };
}

/// Whether `name` is on the stack of bound names.
fn is_bound(names: &Vec<String>, name: &String) -> (r: bool)
    ensures
        r == names_set(names@).contains(name@),
{
    let mut i: usize = 0;
    while i < names.len()
        invariant
            i <= names.len(),
            forall|j: int| 0 <= j < i ==> names@[j]@ != name@,
        decreases names.len() - i,
    {
        if names[i] == *name {
            proof {
                assert(names@[i as int]@ == name@);
            }
            return true;
        }
        i = i + 1;
    }
    false
}

impl Expr {
    /// Helper function for has_unbound
    fn has_unbound_r(&self, names: &mut Vec<String>) -> (r: Result<(), UnboundVariable>)
        ensures
            match first_unbound(self@, names_set(old(names)@)) {
                Option::None => r is Ok && final(names)@ == old(names)@,
                Option::Some(n) => r matches Err(e) && e.name@ == n,
            },
        decreases self,
    {
        match self {
            Expr::Application(a, b) => {
                let r1 = a.has_unbound_r(names);
                match r1 {
                    Err(e) => Err(e),
                    Ok(()) => b.has_unbound_r(names),
                }
            }
            Expr::Lambda(name, val) => {
                let ghost pre = names@;
                let shadow = is_bound(names, name);
                if !shadow {
                    names.push(name.clone());
                }
                proof {
                    if shadow {
                        assert(names_set(pre).insert(name@) =~= names_set(pre));
                    } else {
                        lemma_names_set_push(pre, names@.last());
                    }
                    assert(names_set(names@) == names_set(pre).insert(name@));
                }
                let r1 = val.has_unbound_r(names);
                match r1 {
                    Err(e) => Err(e),
                    Ok(()) => {
                        if !shadow {
                            let _ = names.pop();
                        }
                        proof {
                            assert(names@ =~= pre);
                        }
                        Ok(())
                    }
                }
            }
            Expr::Name(name) => {
                if is_bound(names, name) {
                    Ok(())
                } else {
                    Err(UnboundVariable { name: name.clone() })
                }
            }
        }
    }

    /// Checks if an expression has any unbound variables
    pub fn has_unbound(&self) -> (r: Result<(), UnboundVariable>)
        ensures
            match first_unbound(self@, Set::empty()) {
                Option::None => r is Ok,
                Option::Some(n) => r matches Err(e) && e.name@ == n,
            },
    {
        let mut x: Vec<String> = Vec::new();
        proof {
            assert(names_set(x@) =~= Set::<Seq<char>>::empty());
        }
        self.has_unbound_r(&mut x)
    }
}

} // verus!
