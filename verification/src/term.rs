//! The term model: the expression tree, its mathematical view, and the
//! renderer that prints a term in a minimally parenthesized textual form.

use vstd::prelude::*;
use vstd::string::StringExecFns;

verus! {

/// Mathematical model of a lambda term: the shape of an [`Expr`] with every
/// name taken as its sequence of characters.
pub ghost enum Term {
    Application(Box<Term>, Box<Term>),
    Lambda(Seq<char>, Box<Term>),
    Name(Seq<char>),
}

/// Type for arbitrary lambda expression
#[derive(Debug, PartialEq, Eq)]
pub enum Expr {
    Application(Box<Expr>, Box<Expr>),
    Lambda(String, Box<Expr>),
    Name(String),
}

/// The [`Term`] that an [`Expr`] stands for.
pub open spec fn term_of(e: Expr) -> Term
    decreases e,
{
    match e {
        Expr::Application(f, a) => Term::Application(Box::new(term_of(*f)), Box::new(term_of(*a))),
        Expr::Lambda(p, b) => Term::Lambda(p@, Box::new(term_of(*b))),
        Expr::Name(n) => Term::Name(n@),
    }
}

impl View for Expr {
    type V = Term;

    open spec fn view(&self) -> Term {
        term_of(*self)
    }
}

impl Clone for Expr {
    /// A deep structural copy: substitution inserts the same value at several
    /// occurrence sites, and each site must own its copy.
    fn clone(&self) -> (r: Self)
        ensures
            r@ == self@,
        decreases self,
    {
        match self {
            Expr::Application(f, a) => Expr::Application(
                Box::new((**f).clone()),
                Box::new((**a).clone()),
            ),
            Expr::Lambda(p, b) => Expr::Lambda(p.clone(), Box::new((**b).clone())),
            Expr::Name(n) => Expr::Name(n.clone()),
        }
    }
}

/// Precedence of each term shape: names bind tightest, then applications,
/// then abstractions.
pub open spec fn spec_precedence(t: Term) -> u8 {
    match t {
        Term::Application(_, _) => 1u8,
        Term::Lambda(_, _) => 0u8,
        Term::Name(_) => 2u8,
    }
}

/// The canonical textual form of a term: a variable is never parenthesized,
/// the function side of an application is parenthesized only when it is an
/// abstraction, and the argument side is parenthesized unless it is a bare
/// variable.
pub open spec fn render_spec(t: Term) -> Seq<char>
    decreases t,
{
    match t {
        Term::Application(f, a) => {
            let left = if *f is Lambda {
                "("@ + render_spec(*f) + ") "@
            } else {
                render_spec(*f) + " "@
            };
            let right = if *a is Name {
                render_spec(*a)
            } else {
                "("@ + render_spec(*a) + ")"@
            };
            left + right
        }
        Term::Lambda(p, b) => "λ "@ + p + " . "@ + render_spec(*b),
        Term::Name(n) => n,
    }
}

impl Expr {
    /// returns precedence of operator
    #[allow(unused)]
    fn precedence(&self) -> (r: u8)
        ensures
            r == spec_precedence(self@),
    {
        match self {
            Expr::Application(_, _) => 1,
            Expr::Lambda(_, _) => 0,
            Expr::Name(_) => 2,
        }
    }

    /// returns true if expression is just a name
    fn is_name(&self) -> (r: bool)
        ensures
            r == (self@ is Name),
    {
        if let Expr::Name(_) = self {
            true
        } else {
            false
        }
    }

    /// returns true if expression is an application
    #[allow(unused)]
    fn is_application(&self) -> (r: bool)
        ensures
            r == (self@ is Application),
    {
        if let Expr::Application(_, _) = self {
            true
        } else {
            false
        }
    }

    /// returns true if expression is a lambda abstraction
    fn is_lambda(&self) -> (r: bool)
        ensures
            r == (self@ is Lambda),
    {
        if let Expr::Lambda(_, _) = self {
            true
        } else {
            false
        }
    }

    /// Renders the canonical textual form of the term.
    pub fn render(&self) -> (r: String)
        ensures
            r@ == render_spec(self@),
        decreases self,
    {
        match self {
            Expr::Application(f, a) => {
                let mut s = if f.is_lambda() {
                    let mut s = String::from_str("(");
                    s.append(f.render().as_str());
                    s.append(") ");
                    s
                } else {
                    let mut s = f.render();
                    s.append(" ");
                    s
                };
                if a.is_name() {
                    s.append(a.render().as_str());
                } else {
                    s.append("(");
                    s.append(a.render().as_str());
                    s.append(")");
                }
                proof {
                    assert(s@ =~= render_spec(self@));
                }
                s
            }
            Expr::Lambda(p, b) => {
                let mut s = String::from_str("λ ");
                s.append(p.as_str());
                s.append(" . ");
                s.append(b.render().as_str());
                proof {
                    assert(s@ =~= render_spec(self@));
                }
                s
            }
            Expr::Name(n) => n.clone(),
        }
    }
}

} // verus!
