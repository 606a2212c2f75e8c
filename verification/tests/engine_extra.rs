use lambubu::env::EnvSource;
use lambubu::env::MutableTermEnvironment;
use lambubu::env::TermEnvironment;
use lambubu::env::standard_environment;
use lambubu::BruijnLevelsTerm;
use lambubu::ChurchEnvironment;
use lambubu::CompoundEnvironment;
use lambubu::RegistryEnvironment;
use lambubu::Term;

fn id() -> Term {
    Term::abs("x", Term::var("x"))
}

#[test]
fn display_variable() {
    assert_eq!(Term::var("x").display_string(), "x");
}

#[test]
fn display_abstraction() {
    assert_eq!(id().display_string(), "λx.x");
}

#[test]
fn display_application() {
    let t = Term::app(Term::var("f"), Term::var("x"));
    assert_eq!(t.display_string(), "(f x)");
}

#[test]
fn display_nested() {
    let t = Term::abs("f", Term::app(Term::var("f"), id()));
    assert_eq!(t.display_string(), "λf.(f λx.x)");
}

#[test]
fn is_value_distinguishes_applications() {
    assert!(Term::var("x").is_value());
    assert!(id().is_value());
    assert!(!Term::app(Term::var("f"), Term::var("x")).is_value());
}

#[test]
fn level_is_value_distinguishes_applications() {
    let v = BruijnLevelsTerm::Var(0, "x".into());
    assert!(v.is_value());
    let a = BruijnLevelsTerm::Apply(
        Box::new(BruijnLevelsTerm::Var(0, "f".into())),
        Box::new(BruijnLevelsTerm::Var(1, "x".into())),
    );
    assert!(!a.is_value());
}

#[test]
fn level_equivalent_same_term() {
    assert!(id().level_equivalent(&id()));
}

#[test]
fn level_equivalent_carries_names() {
    // The level form retains original names, so renaming the binder
    // changes it.
    let other = Term::abs("y", Term::var("y"));
    assert!(!id().level_equivalent(&other));
}

#[test]
fn level_equivalent_differs_on_structure() {
    let t = Term::app(id(), id());
    assert!(!id().level_equivalent(&t));
}

#[test]
fn level_substitute_hits_level() {
    let t = BruijnLevelsTerm::Var(3, "x".into());
    let r = t.substitute(3, BruijnLevelsTerm::Var(0, "a".into()));
    assert_eq!(r, BruijnLevelsTerm::Var(0, "a".into()));
    let t2 = BruijnLevelsTerm::Var(3, "x".into());
    let r2 = t2.substitute(2, BruijnLevelsTerm::Var(0, "a".into()));
    assert_eq!(r2, BruijnLevelsTerm::Var(3, "x".into()));
}

#[test]
fn normalize_k_combinator() {
    let term = Term::app(
        Term::app(
            Term::abs("x", Term::abs("y", Term::var("x"))),
            Term::var("a"),
        ),
        Term::var("b"),
    );
    assert_eq!(term.reduce_to_normal_form(10), Some(Term::var("a")));
}

#[test]
fn normalize_gives_up_on_self_application() {
    let dup = Term::abs("x", Term::app(Term::var("x"), Term::var("x")));
    let omega = Term::app(dup.clone(), dup);
    assert_eq!(omega.reduce_to_normal_form(25), None);
}

#[test]
fn church_zero_shape() {
    let env = ChurchEnvironment;
    assert_eq!(env.zero(), Term::abs("f", Term::abs("x", Term::var("x"))));
    assert_eq!(env.bool_false(), env.zero());
}

#[test]
fn church_true_shape() {
    let env = ChurchEnvironment;
    assert_eq!(
        env.bool_true(),
        Term::abs("a", Term::abs("b", Term::var("a")))
    );
}

#[test]
fn church_numeral_shapes() {
    let env = ChurchEnvironment;
    let one = Term::abs(
        "f",
        Term::abs("x", Term::app(Term::var("f"), Term::var("x"))),
    );
    // Zero and one share the numeral shape in this environment; the
    // dedicated zero combinator differs.
    assert_eq!(env.numeral(0), one);
    assert_eq!(env.numeral(1), one);
    let three = Term::abs(
        "f",
        Term::abs(
            "x",
            Term::app(
                Term::var("f"),
                Term::app(
                    Term::var("f"),
                    Term::app(Term::var("f"), Term::var("x")),
                ),
            ),
        ),
    );
    assert_eq!(env.numeral(3), three);
}

#[test]
fn church_succ_of_one_normalizes_to_two() {
    let env = ChurchEnvironment;
    let term = Term::app(env.succ(), env.numeral(1));
    let two = env.numeral(2);
    assert_eq!(term.reduce_to_normal_form(100), Some(two));
}

#[test]
fn church_resolves_combinator_names() {
    let env = ChurchEnvironment;
    assert_eq!(env.resolve_term("ADD"), Some(env.add()));
    assert_eq!(env.resolve_term("SUCC"), Some(env.succ()));
    assert_eq!(env.resolve_term("IF"), Some(env.branch()));
    assert_eq!(env.resolve_term("BRANCH"), Some(env.branch()));
    assert_eq!(env.resolve_term("ZERO"), Some(env.zero()));
    assert_eq!(env.resolve_term("0"), Some(env.zero()));
    assert_eq!(env.resolve_term("FALSE"), Some(env.zero()));
    assert_eq!(env.resolve_term("F"), Some(env.zero()));
    assert_eq!(env.resolve_term("TRUE"), Some(env.bool_true()));
    assert_eq!(env.resolve_term("T"), Some(env.bool_true()));
}

#[test]
fn church_resolves_numerals() {
    let env = ChurchEnvironment;
    assert_eq!(env.resolve_term("7"), Some(env.numeral(7)));
    assert_eq!(env.resolve_term("+7"), Some(env.numeral(7)));
    assert_eq!(env.resolve_term("007"), Some(env.numeral(7)));
    assert_eq!(env.resolve_term("12"), Some(env.numeral(12)));
}

#[test]
fn church_rejects_non_numerals() {
    let env = ChurchEnvironment;
    assert_eq!(env.resolve_term(""), None);
    assert_eq!(env.resolve_term("+"), None);
    assert_eq!(env.resolve_term("abc"), None);
    assert_eq!(env.resolve_term("1a"), None);
    assert_eq!(env.resolve_term("4294967296"), None);
    assert_eq!(env.resolve_term("λ"), None);
}

#[test]
fn registry_empty_resolves_nothing() {
    let reg = RegistryEnvironment::new();
    assert_eq!(reg.resolve_term("ANY"), None);
}

#[test]
fn registry_add_then_resolve() {
    let mut reg = RegistryEnvironment::new();
    reg.add_term(String::from("ID"), id());
    assert_eq!(reg.resolve_term("ID"), Some(id()));
    assert_eq!(reg.resolve_term("OTHER"), None);
}

#[test]
fn registry_later_definition_shadows() {
    let mut reg = RegistryEnvironment::new();
    reg.add_term(String::from("K"), Term::var("first"));
    reg.add_term(String::from("K"), Term::var("second"));
    assert_eq!(reg.resolve_term("K"), Some(Term::var("second")));
}

#[test]
fn compound_own_definitions_take_priority() {
    let mut env = CompoundEnvironment::new(vec![EnvSource::Church(ChurchEnvironment)]);
    assert_eq!(env.resolve_term("TRUE"), Some(ChurchEnvironment.bool_true()));
    env.add_term(String::from("TRUE"), Term::var("mine"));
    assert_eq!(env.resolve_term("TRUE"), Some(Term::var("mine")));
}

#[test]
fn compound_queries_sources_in_order() {
    let mut first = RegistryEnvironment::new();
    first.add_term(String::from("N"), Term::var("first"));
    let mut second = RegistryEnvironment::new();
    second.add_term(String::from("N"), Term::var("second"));
    second.add_term(String::from("M"), Term::var("only"));
    let env = CompoundEnvironment::new(vec![
        EnvSource::Registry(first),
        EnvSource::Registry(second),
    ]);
    assert_eq!(env.resolve_term("N"), Some(Term::var("first")));
    assert_eq!(env.resolve_term("M"), Some(Term::var("only")));
    assert_eq!(env.resolve_term("P"), None);
}

#[test]
fn compound_decompose_returns_sources() {
    let env = CompoundEnvironment::new(vec![EnvSource::Church(ChurchEnvironment)]);
    let sources = env.decompose();
    assert_eq!(sources.len(), 1);
}

#[test]
fn standard_environment_resolves_church_names() {
    let env = standard_environment();
    assert_eq!(env.resolve_term("SUCC"), Some(ChurchEnvironment.succ()));
    assert_eq!(env.resolve_term("3"), Some(ChurchEnvironment.numeral(3)));
    assert_eq!(env.resolve_term("NOPE"), None);
}

#[test]
fn free_variable_test_respects_shadowing() {
    let t = Term::abs("x", Term::var("x"));
    assert!(!t.is_free_variable("x"));
    let open = Term::abs("y", Term::var("x"));
    assert!(open.is_free_variable("x"));
    let apply = Term::app(Term::var("x"), Term::var("y"));
    assert!(apply.is_free_variable("x"));
    assert!(apply.is_free_variable("y"));
    assert!(!apply.is_free_variable("z"));
}

#[test]
fn normal_form_detects_redex_under_binder() {
    let inner_redex = Term::abs("z", Term::app(id(), Term::var("a")));
    assert!(!inner_redex.is_normal_form());
    let normal = Term::abs("z", Term::app(Term::var("z"), Term::var("a")));
    assert!(normal.is_normal_form());
}
