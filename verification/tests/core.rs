use lambda_eval::scope::UnboundVariable;
use lambda_eval::term::Expr;

fn name(s: &str) -> Expr {
    Expr::Name(String::from(s))
}

fn lam(p: &str, b: Expr) -> Expr {
    Expr::Lambda(String::from(p), Box::new(b))
}

fn app(f: Expr, a: Expr) -> Expr {
    Expr::Application(Box::new(f), Box::new(a))
}

#[test]
fn identity_application_reduces_to_argument() {
    // (λ x . x) y  ⇒  y
    let t = app(lam("x", name("x")), name("y"));
    assert_eq!(Expr::evaluate(t), name("y"));
}

#[test]
fn multi_step_reduction_selects_first_argument() {
    // (λ x . λ y . x) a b  ⇒  a
    let t = app(app(lam("x", lam("y", name("x"))), name("a")), name("b"));
    assert_eq!(Expr::evaluate(t), name("a"));
}

#[test]
fn no_reduction_under_a_binder() {
    // λ x . (λ y . y) z is already in weak head normal form: the inner redex stays.
    let t = lam("x", app(lam("y", name("y")), name("z")));
    let expected = lam("x", app(lam("y", name("y")), name("z")));
    assert_eq!(Expr::evaluate(t), expected);
}

#[test]
fn call_by_name_discards_a_divergent_argument() {
    // (λ x . z) Ω  ⇒  z, although Ω itself has no normal form.
    let omega = app(
        lam("w", app(name("w"), name("w"))),
        lam("w", app(name("w"), name("w"))),
    );
    let t = app(lam("x", name("z")), omega);
    assert_eq!(Expr::evaluate(t), name("z"));
}

#[test]
fn unbound_detection_reports_the_leftmost_name() {
    let t = app(name("x"), name("y"));
    assert_eq!(
        t.has_unbound(),
        Err(UnboundVariable {
            name: String::from("x"),
        })
    );
}

#[test]
fn unbound_detection_accepts_closed_terms() {
    // λ x . x x
    let t = lam("x", app(name("x"), name("x")));
    assert_eq!(t.has_unbound(), Ok(()));
}

#[test]
fn unbound_detection_handles_shadowing() {
    // λ x . λ x . x
    let t = lam("x", lam("x", name("x")));
    assert_eq!(t.has_unbound(), Ok(()));
    // λ x . (λ x . x) x
    let t = lam("x", app(lam("x", name("x")), name("x")));
    assert_eq!(t.has_unbound(), Ok(()));
}

#[test]
fn unbound_detection_sees_past_a_sibling_binder() {
    // λ x . (λ y . y) y: the inner binder does not bind the second y.
    let t = lam("x", app(lam("y", name("y")), name("y")));
    assert_eq!(
        t.has_unbound(),
        Err(UnboundVariable {
            name: String::from("y"),
        })
    );
}

#[test]
fn reduce_replaces_free_occurrences() {
    let t = app(name("x"), lam("y", name("x")));
    let r = Expr::reduce(t, &String::from("x"), &name("v"));
    assert_eq!(r, app(name("v"), lam("y", name("v"))));
}

#[test]
fn reduce_ignores_a_term_without_the_name() {
    // Substitution for a name that does not occur free is a no-op.
    let t = lam("y", app(name("y"), name("z")));
    let r = Expr::reduce(t.clone(), &String::from("x"), &name("v"));
    assert_eq!(r, t);
}

#[test]
fn reduce_stops_at_a_shadowing_binder() {
    // (λ x . x y)[x := v] is unchanged: the binder shadows the name.
    let t = lam("x", app(name("x"), name("y")));
    let r = Expr::reduce(t.clone(), &String::from("x"), &name("v"));
    assert_eq!(r, t);
}

#[test]
fn reduce_duplicates_the_value() {
    // Both occurrences receive their own copy.
    let t = app(name("x"), name("x"));
    let v = lam("y", name("y"));
    let r = Expr::reduce(t, &String::from("x"), &v);
    assert_eq!(r, app(lam("y", name("y")), lam("y", name("y"))));
}

#[test]
fn reduce_does_not_rename_captured_names() {
    // Known limitation: (λ y . x)[x := y] captures the inserted y.
    let t = lam("y", name("x"));
    let r = Expr::reduce(t, &String::from("x"), &name("y"));
    assert_eq!(r, lam("y", name("y")));
}

#[test]
fn try_evaluate_finishes_with_enough_fuel() {
    let t = app(lam("x", name("x")), name("y"));
    assert_eq!(Expr::try_evaluate(t, 1), Some(name("y")));
}

#[test]
fn try_evaluate_needs_no_fuel_for_a_normal_form() {
    assert_eq!(Expr::try_evaluate(name("x"), 0), Some(name("x")));
    let t = lam("x", name("x"));
    assert_eq!(Expr::try_evaluate(t.clone(), 0), Some(t));
}

#[test]
fn try_evaluate_runs_out_of_fuel_on_a_redex() {
    let t = app(lam("x", name("x")), name("y"));
    assert_eq!(Expr::try_evaluate(t, 0), None);
}

#[test]
fn try_evaluate_gives_up_on_a_divergent_term() {
    let omega = app(
        lam("w", app(name("w"), name("w"))),
        lam("w", app(name("w"), name("w"))),
    );
    assert_eq!(Expr::try_evaluate(omega, 50), None);
}

#[test]
fn render_never_parenthesizes_names() {
    assert_eq!(name("x").render(), "x");
    assert_eq!(app(name("x"), name("y")).render(), "x y");
}

#[test]
fn render_left_associates_applications() {
    let t = app(app(name("x"), name("y")), name("z"));
    assert_eq!(t.render(), "x y z");
    let t = app(name("x"), app(name("y"), name("z")));
    assert_eq!(t.render(), "x (y z)");
}

#[test]
fn render_parenthesizes_an_applied_abstraction() {
    let t = app(lam("x", name("x")), name("y"));
    assert_eq!(t.render(), "(λ x . x) y");
}

#[test]
fn render_lets_an_abstraction_body_extend_right() {
    let t = lam("x", app(name("x"), name("y")));
    assert_eq!(t.render(), "λ x . x y");
    let t = lam("x", app(app(name("x"), name("z")), lam("y", app(name("x"), name("y")))));
    assert_eq!(t.render(), "λ x . x z (λ y . x y)");
}
