//! The reduction engine: capture-prone substitution and the leftmost-outermost
//! reduction loop to weak head normal form.

use crate::term::Expr;
use crate::term::Term;
use vstd::prelude::*;

verus! {

/// Capture-prone substitution: every occurrence of `name` in `t` that no
/// binder of the same name shadows is replaced by `v`. Free variables of `v`
/// are not renamed, so a binder of `t` may capture them.
pub open spec fn subst(t: Term, name: Seq<char>, v: Term) -> Term
    decreases t,
{
    match t {
        Term::Application(f, a) => Term::Application(
            Box::new(subst(*f, name, v)),
            Box::new(subst(*a, name, v)),
        ),
        Term::Lambda(p, b) => {
            if p == name {
                t
            } else {
                Term::Lambda(p, Box::new(subst(*b, name, v)))
            }
        }
        Term::Name(n) => {
            if n == name {
                v
            } else {
                t
            }
        }
    }
}

/// Whether `name` occurs free in `t`: at some leaf `Name(name)` with no
/// enclosing binder of the same name.
pub open spec fn free_in(t: Term, name: Seq<char>) -> bool
    decreases t,
{
    match t {
        Term::Application(f, a) => free_in(*f, name) || free_in(*a, name),
        Term::Lambda(p, b) => p != name && free_in(*b, name),
        Term::Name(n) => n == name,
    }
}

/// One step of leftmost-outermost reduction at the head: a redex at the root
/// rewrites by substitution, otherwise the step happens in the function
/// position of the root application. A term that is not an application, or an
/// application whose spine ends in a bare name, is left unchanged.
pub open spec fn head_step(t: Term) -> Term
    decreases t,
{
    match t {
        Term::Application(f, a) => {
            match *f {
                Term::Lambda(p, b) => subst(*b, p, *a),
                _ => Term::Application(Box::new(head_step(*f)), a),
            }
        }
        _ => t,
    }
}

/// `n` head-reduction steps from `t`.
pub open spec fn head_iter(n: nat, t: Term) -> Term
    decreases n,
{
    if n == 0 {
        t
    } else {
        head_step(head_iter((n - 1) as nat, t))
    }
}

/// Whether head reduction starting from `t` ever leaves the application
/// shape, that is, reaches weak head normal form.
pub open spec fn reaches_whnf(t: Term) -> bool {
    exists|n: nat| !(#[trigger] head_iter(n, t) is Application)
}

/// The term that a reduction configuration stands for: a head `t` under a
/// stack of pending arguments, the innermost argument last.
spec fn spine(t: Term, args: Seq<Term>) -> Term
    decreases args.len(),
{
    if args.len() == 0 {
        t
    } else {
        Term::Application(Box::new(spine(t, args.drop_first())), Box::new(args.first()))
    }
}

/// The views of a stack of expressions.
spec fn terms_of(s: Seq<Expr>) -> Seq<Term> {
    s.map_values(|e: Expr| e@)
}

/// A head step of the stepped term is the stepped term of a head step.
proof fn lemma_iter_front(t: Term, n: nat)
    ensures
        head_iter(n, head_step(t)) == head_iter(n + 1, t),
    decreases n,
{
    if n == 0 {
        assert(head_iter(0, head_step(t)) == head_step(t));
        assert(head_iter(1, t) == head_step(head_iter(0, t)));
    } else {
        lemma_iter_front(t, (n - 1) as nat);
    }
}

/// Iterating `k` steps and then `m` steps is iterating `k + m` steps.
proof fn lemma_iter_add(t: Term, k: nat, m: nat)
    ensures
        head_iter(m, head_iter(k, t)) == head_iter(k + m, t),
    decreases m,
{
    if m > 0 {
        lemma_iter_add(t, k, (m - 1) as nat);
    }
}

/// A fixed point of the head step stays fixed under iteration.
proof fn lemma_fixpoint(t: Term, n: nat)
    requires
        head_step(t) == t,
    ensures
        head_iter(n, t) == t,
    decreases n,
{
    if n > 0 {
        lemma_fixpoint(t, (n - 1) as nat);
    }
}

/// Once head reduction has left the application shape, later iterates are
/// the same term.
proof fn lemma_iter_stable(t: Term, n: nat, m: nat)
    requires
        !(head_iter(n, t) is Application),
        n <= m,
    ensures
        head_iter(m, t) == head_iter(n, t),
    decreases m,
{
    if m > n {
        lemma_iter_stable(t, n, (m - 1) as nat);
    }
}

/// Every iterate of a term that reaches weak head normal form reaches it too.
proof fn lemma_reaches_iter(t: Term, k: nat)
    requires
        reaches_whnf(t),
    ensures
        reaches_whnf(head_iter(k, t)),
{
    let n = choose|n: nat| !(#[trigger] head_iter(n, t) is Application);
    if n <= k {
        lemma_iter_stable(t, n, k);
        assert(!(head_iter(0, head_iter(k, t)) is Application));
    } else {
        lemma_iter_add(t, k, (n - k) as nat);
        assert(!(head_iter((n - k) as nat, head_iter(k, t)) is Application));
    }
}

/// Pushing an argument onto the stack peels the argument off an application
/// at the head.
proof fn lemma_spine_push(f: Term, a: Term, args: Seq<Term>)
    ensures
        spine(f, args.push(a)) == spine(
            Term::Application(Box::new(f), Box::new(a)),
            args,
        ),
    decreases args.len(),
{
    if args.len() == 0 {
        assert(args.push(a).drop_first() =~= Seq::<Term>::empty());
    } else {
        assert(args.push(a).drop_first() =~= args.drop_first().push(a));
        lemma_spine_push(f, a, args.drop_first());
    }
}

/// A configuration with pending arguments stands for an application.
proof fn lemma_spine_app(t: Term, args: Seq<Term>)
    requires
        args.len() > 0,
    ensures
        spine(t, args) is Application,
{
}

/// What one head step does to a configuration whose head is not an
/// application: an abstraction consumes the innermost pending argument by
/// substitution; a bare name leaves the whole spine fixed.
proof fn lemma_spine_step(t: Term, args: Seq<Term>)
    requires
        args.len() > 0,
        !(t is Application),
    ensures
        t matches Term::Lambda(p, b) ==> head_step(spine(t, args)) == spine(
            subst(*b, p, args.last()),
            args.drop_last(),
        ),
        t is Name ==> head_step(spine(t, args)) == spine(t, args),
    decreases args.len(),
{
    if args.len() == 1 {
        assert(spine(t, args.drop_first()) == t);
        if let Term::Lambda(p, b) = t {
            assert(args.drop_last() =~= Seq::<Term>::empty());
            assert(args.first() == args.last());
        }
    } else {
        lemma_spine_step(t, args.drop_first());
        lemma_spine_app(t, args.drop_first());
        assert(args.drop_first().last() == args.last());
        if let Term::Lambda(p, b) = t {
            let s = subst(*b, p, args.last());
            assert(args.drop_first().drop_last() =~= args.drop_last().drop_first());
            assert(args.drop_last().first() == args.first());
            assert(head_step(spine(t, args)) == Term::Application(
                Box::new(spine(s, args.drop_first().drop_last())),
                Box::new(args.first()),
            ));
            assert(spine(s, args.drop_last()) == Term::Application(
                Box::new(spine(s, args.drop_last().drop_first())),
                Box::new(args.drop_last().first()),
            ));
        }
    }
}

/// Whether `n` is the first iterate at which `t` is in weak head normal form.
spec fn is_first_whnf(t: Term, n: nat) -> bool {
    &&& !(head_iter(n, t) is Application)
    &&& forall|m: nat| m < n ==> #[trigger] head_iter(m, t) is Application
}

/// The number of head steps a term needs to reach weak head normal form;
/// meaningful only when it does reach one.
spec fn whnf_dist(t: Term) -> nat {
    choose|n: nat| is_first_whnf(t, n)
}

/// Among the iterates in weak head normal form there is a first one.
proof fn lemma_exists_first(t: Term, n: nat)
    requires
        !(head_iter(n, t) is Application),
    ensures
        exists|k: nat| is_first_whnf(t, k),
    decreases n,
{
    if forall|m: nat| m < n ==> #[trigger] head_iter(m, t) is Application {
        assert(is_first_whnf(t, n));
    } else {
        let m = choose|m: nat| m < n && !(#[trigger] head_iter(m, t) is Application);
        lemma_exists_first(t, m);
    }
}

/// For a term that reaches weak head normal form, `whnf_dist` is the first
/// iterate in that form.
proof fn lemma_whnf_dist(t: Term)
    requires
        reaches_whnf(t),
    ensures
        is_first_whnf(t, whnf_dist(t)),
{
    let n = choose|n: nat| !(#[trigger] head_iter(n, t) is Application);
    lemma_exists_first(t, n);
}

/// One head step on an application brings the term one step closer to its
/// weak head normal form.
proof fn lemma_dist_step(t: Term)
    requires
        reaches_whnf(t),
        t is Application,
    ensures
        reaches_whnf(head_step(t)),
        whnf_dist(t) >= 1,
        whnf_dist(head_step(t)) == whnf_dist(t) - 1,
{
    lemma_whnf_dist(t);
    let d = whnf_dist(t);
    assert(head_iter(0, t) == t);
    assert(d >= 1);
    assert forall|m: nat| true implies head_iter(m, head_step(t)) == head_iter(
        m + 1,
        t,
    ) by {
        lemma_iter_front(t, m);
    }
    assert(!(head_iter((d - 1) as nat, head_step(t)) is Application));
    assert forall|m: nat| m < d - 1 implies #[trigger] head_iter(
        m,
        head_step(t),
    ) is Application by {
        assert(head_iter(m + 1, t) is Application);
    }
    assert(is_first_whnf(head_step(t), (d - 1) as nat));
    lemma_whnf_dist(head_step(t));
    let d2 = whnf_dist(head_step(t));
    if d2 < d - 1 {
        assert(head_iter(d2, head_step(t)) is Application);
    }
    if d2 > d - 1 {
        assert(head_iter((d - 1) as nat, head_step(t)) is Application);
    }
}

impl Expr {
    /// Performs one B-reduction according to the reduction rules
    pub fn reduce(expr: Expr, name: &String, value: &Expr) -> (r: Expr)
        ensures
            r@ == subst(expr@, name@, value@),
        decreases expr,
    {
        match expr {
            Expr::Lambda(a, b) => {
                if a == *name {
                    Expr::Lambda(a, b)
                } else {
                    Expr::Lambda(a, Box::new(Self::reduce(*b, name, value)))
                }
            }
            Expr::Name(a) => {
                if a == *name {
                    value.clone()
                } else {
                    Expr::Name(a)
                }
            }
            Expr::Application(f, a) => Expr::Application(
                Box::new(Self::reduce(*f, name, value)),
                Box::new(Self::reduce(*a, name, value)),
            ),
        }
    }

    /// Continually B-reduces whilst the outermost expression is an application
    ///
    /// Leftmost-outermost reduction to weak head normal form: a redex at the
    /// head is rewritten by substituting the argument unevaluated (call by
    /// name), and reduction never descends into an abstraction's body. Head
    /// reduction runs forever on a term with no weak head normal form, and a
    /// verified function must terminate, so the caller must show that the
    /// term reaches one; [`Expr::try_evaluate`] bounds the number of steps
    /// instead and accepts every term.
    #[verifier::loop_isolation(false)]
    pub fn evaluate(expr: Expr) -> (r: Expr)
        requires
            reaches_whnf(expr@),
        ensures
            !(r@ is Application),
            exists|n: nat| r@ == #[trigger] head_iter(n, expr@),
    {
        let ghost t0 = expr@;
        let ghost mut steps: nat = 0;
        let mut t = expr;
        let mut args: Vec<Expr> = Vec::new();
        proof {
            assert(terms_of(args@) =~= Seq::<Term>::empty());
        }
        loop
            invariant
                reaches_whnf(t0),
                spine(t@, terms_of(args@)) == head_iter(steps, t0),
            decreases whnf_dist(spine(t@, terms_of(args@))), t,
        {
            match t {
                Expr::Application(f, a) => {
                    let ghost pre = terms_of(args@);
                    let ghost fv = f@;
                    let ghost av = a@;
                    proof {
                        lemma_spine_push(fv, av, pre);
                    }
                    args.push(*a);
                    t = *f;
                    proof {
                        assert(terms_of(args@) =~= pre.push(av));
                    }
                }
                Expr::Lambda(p, b) => {
                    let ghost pre = terms_of(args@);
                    let ghost pv = p@;
                    let ghost bv = b@;
                    if args.len() > 0 {
                        let a = args.pop().unwrap();
                        let ghost av = a@;
                        let red = Expr::reduce(*b, &p, &a);
                        proof {
                            let s = spine(Term::Lambda(pv, Box::new(bv)), pre);
                            assert(av == pre.last());
                            assert(terms_of(args@) =~= pre.drop_last());
                            lemma_spine_step(Term::Lambda(pv, Box::new(bv)), pre);
                            lemma_spine_app(Term::Lambda(pv, Box::new(bv)), pre);
                            lemma_reaches_iter(t0, steps);
                            lemma_dist_step(s);
                            steps = steps + 1;
                        }
                        t = red;
                    } else {
                        let res = Expr::Lambda(p, b);
                        proof {
                            assert(res@ == head_iter(steps, t0));
                            assert(exists|n: nat| res@ == #[trigger] head_iter(n, t0));
                        }
                        return res;
                    }
                }
                Expr::Name(n) => {
                    if args.len() > 0 {
                        proof {
                            let s = spine(Term::Name(n@), terms_of(args@));
                            lemma_spine_step(Term::Name(n@), terms_of(args@));
                            lemma_spine_app(Term::Name(n@), terms_of(args@));
                            lemma_reaches_iter(t0, steps);
                            let m = choose|m: nat|
                                !(#[trigger] head_iter(m, s) is Application);
                            lemma_fixpoint(s, m);
                            assert(false);
                        }
                        // a spine stuck on a bare name never leaves the
                        // application shape, so the precondition rules this
                        // configuration out
                        t = Expr::Name(n);
                    } else {
                        let res = Expr::Name(n);
                        proof {
                            assert(res@ == head_iter(steps, t0));
                            assert(exists|m: nat| res@ == #[trigger] head_iter(m, t0));
                        }
                        return res;
                    }
                }
            }
        }
    }

    /// Reduces as [`Expr::evaluate`] does, but performs at most `fuel`
    /// B-reduction steps, so it terminates on every term. `None` means the
    /// term is still an application after `fuel` head steps.
    #[verifier::loop_isolation(false)]
    pub fn try_evaluate(expr: Expr, fuel: u64) -> (r: Option<Expr>)
        ensures
            match r {
                Some(v) => !(v@ is Application) && exists|n: nat|
                    n <= fuel && v@ == #[trigger] head_iter(n, expr@),
                None => head_iter(fuel as nat, expr@) is Application,
            },
    {
        let ghost t0 = expr@;
        let ghost mut steps: nat = 0;
        let mut left: u64 = fuel;
        let mut t = expr;
        let mut args: Vec<Expr> = Vec::new();
        proof {
            assert(terms_of(args@) =~= Seq::<Term>::empty());
        }
        loop
            invariant
                spine(t@, terms_of(args@)) == head_iter(steps, t0),
                steps + left == fuel,
            decreases left, t,
        {
            match t {
                Expr::Application(f, a) => {
                    let ghost pre = terms_of(args@);
                    let ghost fv = f@;
                    let ghost av = a@;
                    proof {
                        lemma_spine_push(fv, av, pre);
                    }
                    args.push(*a);
                    t = *f;
                    proof {
                        assert(terms_of(args@) =~= pre.push(av));
                    }
                }
                Expr::Lambda(p, b) => {
                    let ghost pre = terms_of(args@);
                    let ghost pv = p@;
                    let ghost bv = b@;
                    if args.len() == 0 {
                        let res = Expr::Lambda(p, b);
                        proof {
                            assert(res@ == head_iter(steps, t0));
                            assert(exists|n: nat| n <= fuel && res@ == #[trigger] head_iter(n, t0));
                        }
                        return Some(res);
                    } else if left == 0 {
                        proof {
                            lemma_spine_app(Term::Lambda(pv, Box::new(bv)), pre);
                        }
                        return None;
                    } else {
                        let a = args.pop().unwrap();
                        let ghost av = a@;
                        let red = Expr::reduce(*b, &p, &a);
                        proof {
                            assert(av == pre.last());
                            assert(terms_of(args@) =~= pre.drop_last());
                            lemma_spine_step(Term::Lambda(pv, Box::new(bv)), pre);
                            steps = steps + 1;
                        }
                        left = left - 1;
                        t = red;
                    }
                }
                Expr::Name(n) => {
                    if args.len() == 0 {
                        let res = Expr::Name(n);
                        proof {
                            assert(res@ == head_iter(steps, t0));
                            assert(exists|m: nat| m <= fuel && res@ == #[trigger] head_iter(m, t0));
                        }
                        return Some(res);
                    } else {
                        proof {
                            let s = spine(Term::Name(n@), terms_of(args@));
                            lemma_spine_step(Term::Name(n@), terms_of(args@));
                            lemma_spine_app(Term::Name(n@), terms_of(args@));
                            lemma_iter_add(t0, steps, (fuel - steps) as nat);
                            lemma_fixpoint(s, (fuel - steps) as nat);
                        }
                        return None;
                    }
                }
            }
        }
    }
}

/// Identity substitution: substituting for a name that does not occur free in
/// a term leaves the term unchanged.
pub proof fn lemma_subst_absent(t: Term, name: Seq<char>, v: Term)
    requires
        !free_in(t, name),
    ensures
        subst(t, name, v) == t,
    decreases t,
{
    match t {
        Term::Application(f, a) => {
            lemma_subst_absent(*f, name, v);
            lemma_subst_absent(*a, name, v);
        }
        Term::Lambda(p, b) => {
            if p != name {
                lemma_subst_absent(*b, name, v);
            }
        }
        Term::Name(_) => {}
    }
}

/// Shadowing: substitution for a name stops at a binder of that very name,
/// so the whole abstraction comes back unchanged, whatever the body and the
/// value are.
pub proof fn lemma_subst_shadowed(x: Seq<char>, b: Term, v: Term)
    ensures
        subst(Term::Lambda(x, Box::new(b)), x, v) == Term::Lambda(x, Box::new(b)),
{
}

/// A term that is not an application is its own weak head normal form: head
/// reduction leaves it unchanged, however many steps are taken. In particular
/// reduction never rewrites under a binder.
pub proof fn lemma_whnf_unchanged(t: Term, n: nat)
    requires
        !(t is Application),
    ensures
        head_iter(n, t) == t,
{
    lemma_fixpoint(t, n);
}

/// Call by name: applying an abstraction whose body is some other bare name
/// discards the argument after a single step, whatever the argument is; the
/// argument itself is never reduced.
pub proof fn lemma_call_by_name(p: Seq<char>, z: Seq<char>, a: Term, n: nat)
    requires
        z != p,
        n >= 1,
    ensures
        head_iter(
            n,
            Term::Application(
                Box::new(Term::Lambda(p, Box::new(Term::Name(z)))),
                Box::new(a),
            ),
        ) == Term::Name(z),
{
    let t = Term::Application(
        Box::new(Term::Lambda(p, Box::new(Term::Name(z)))),
        Box::new(a),
    );
    assert(head_step(t) == Term::Name(z));
    lemma_iter_front(t, (n - 1) as nat);
    lemma_fixpoint(Term::Name(z), (n - 1) as nat);
}

} // verus!
