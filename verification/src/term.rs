//! Named-variable lambda terms: the surface representation built by
//! callers, with free-variable analysis, capture-avoiding substitution
//! and four single-step reduction strategies.

use vstd::prelude::*;

verus! {

/// The mathematical model of a named term: names are character
/// sequences, structure is the same three-way split as the
/// executable type.
pub enum SpecTerm {
    Var(Seq<char>),
    Abs(Seq<char>, Box<SpecTerm>),
    Apply(Box<SpecTerm>, Box<SpecTerm>),
}

/// Number of nodes in a term; the measure for recursion over terms
/// that rebuilds a body before descending into it.
pub open spec fn term_size(t: SpecTerm) -> nat
    decreases t,
{
    match t {
        SpecTerm::Var(_) => 1,
        SpecTerm::Abs(_, body) => 1 + term_size(*body),
        SpecTerm::Apply(t1, t2) => 1 + term_size(*t1) + term_size(*t2),
    }
}

/// `x` occurs free in `t`: at a variable exactly on a name match,
/// never under a binder of the same name (shadowing), and in either
/// side of an application.
pub open spec fn free_in(t: SpecTerm, x: Seq<char>) -> bool
    decreases t,
{
    match t {
        SpecTerm::Var(v) => v == x,
        SpecTerm::Abs(v, body) => v != x && free_in(*body, x),
        SpecTerm::Apply(t1, t2) => free_in(*t1, x) || free_in(*t2, x),
    }
}

/// `t` with every free occurrence of `from` renamed to `to`.
/// Occurrences bound by an inner binder named `from` are left alone.
pub open spec fn renamed_free(t: SpecTerm, from: Seq<char>, to: Seq<char>) -> SpecTerm
    decreases t,
{
    match t {
        SpecTerm::Var(v) => if v == from {
            SpecTerm::Var(to)
        } else {
            t
        },
        SpecTerm::Abs(v, body) => if v == from {
            t
        } else {
            SpecTerm::Abs(v, Box::new(renamed_free(*body, from, to)))
        },
        SpecTerm::Apply(t1, t2) => SpecTerm::Apply(
            Box::new(renamed_free(*t1, from, to)),
            Box::new(renamed_free(*t2, from, to)),
        ),
    }
}

/// `base` with `k` terminal marker characters appended: the candidates
/// tried, in order, when a binder has to be renamed.
pub open spec fn primed(base: Seq<char>, k: nat) -> Seq<char>
    decreases k,
{
    if k == 0 {
        base
    } else {
        primed(base, (k - 1) as nat).push('\'')
    }
}

/// Candidate name `f` is unusable as a replacement binder: it is free
/// in the replacement `r` or in the body `b`, or it is the substituted
/// variable `x` itself.
pub open spec fn collides(f: Seq<char>, x: Seq<char>, r: SpecTerm, b: SpecTerm) -> bool {
    free_in(r, f) || free_in(b, f) || f == x
}

/// The `k`-th candidate replacement for binder `v` is acceptable.
pub open spec fn fresh_ok(v: Seq<char>, x: Seq<char>, r: SpecTerm, b: SpecTerm, k: nat) -> bool {
    !collides(primed(v, k), x, r, b)
}

/// The number of marker characters the fresh-name search appends: the
/// least `k` whose candidate is acceptable.
pub open spec fn fresh_index(v: Seq<char>, x: Seq<char>, r: SpecTerm, b: SpecTerm) -> nat {
    choose|k: nat| fresh_ok(v, x, r, b, k) && forall|j: nat| j < k ==> !fresh_ok(v, x, r, b, j)
}

/// The deterministic fresh name chosen when binder `v` would capture a
/// free variable of the replacement `r`.
pub open spec fn fresh_name(v: Seq<char>, x: Seq<char>, r: SpecTerm, b: SpecTerm) -> Seq<char> {
    primed(v, fresh_index(v, x, r, b))
}

/// `t` with every free occurrence of `x` replaced by `r`, renaming a
/// binder (deterministically, by appending marker characters) whenever
/// it would capture a free variable of `r`.
pub open spec fn substituted(t: SpecTerm, x: Seq<char>, r: SpecTerm) -> SpecTerm
    decreases term_size(t),
        via substituted_decreases
{
    match t {
        SpecTerm::Var(v) => if v == x {
            r
        } else {
            t
        },
        SpecTerm::Abs(v, body) => if v == x {
            t
        } else if free_in(r, v) {
            let f = fresh_name(v, x, r, *body);
            SpecTerm::Abs(f, Box::new(substituted(renamed_free(*body, v, f), x, r)))
        } else {
            SpecTerm::Abs(v, Box::new(substituted(*body, x, r)))
        },
        SpecTerm::Apply(t1, t2) => SpecTerm::Apply(
            Box::new(substituted(*t1, x, r)),
            Box::new(substituted(*t2, x, r)),
        ),
    }
}

#[via_fn]
proof fn substituted_decreases(t: SpecTerm, x: Seq<char>, r: SpecTerm) {
    match t {
        SpecTerm::Abs(v, body) => {
            if v != x && free_in(r, v) {
                lemma_renamed_size(*body, v, fresh_name(v, x, r, *body));
            }
        },
        _ => {},
    }
}

/// Renaming never changes the shape of a term, only names at its
/// leaves, so its size is preserved.
proof fn lemma_renamed_size(t: SpecTerm, from: Seq<char>, to: Seq<char>)
    ensures
        term_size(renamed_free(t, from, to)) == term_size(t),
    decreases t,
{
    match t {
        SpecTerm::Var(_) => {},
        SpecTerm::Abs(v, body) => {
            if v != from {
                lemma_renamed_size(*body, from, to);
            }
        },
        SpecTerm::Apply(t1, t2) => {
            lemma_renamed_size(*t1, from, to);
            lemma_renamed_size(*t2, from, to);
        },
    }
}

/// Renaming a variable that does not occur free is the identity.
proof fn lemma_renamed_id(t: SpecTerm, from: Seq<char>, to: Seq<char>)
    requires
        !free_in(t, from),
    ensures
        renamed_free(t, from, to) == t,
    decreases t,
{
    match t {
        SpecTerm::Var(_) => {},
        SpecTerm::Abs(v, body) => {
            if v != from {
                lemma_renamed_id(*body, from, to);
            }
        },
        SpecTerm::Apply(t1, t2) => {
            lemma_renamed_id(*t1, from, to);
            lemma_renamed_id(*t2, from, to);
        },
    }
}

/// The longest name that could occur free in `t`; any strictly longer
/// name is certainly not free in it.
pub open spec fn max_free_len(t: SpecTerm) -> nat
    decreases t,
{
    match t {
        SpecTerm::Var(v) => v.len(),
        SpecTerm::Abs(_, body) => max_free_len(*body),
        SpecTerm::Apply(t1, t2) => if max_free_len(*t1) >= max_free_len(*t2) {
            max_free_len(*t1)
        } else {
            max_free_len(*t2)
        },
    }
}

proof fn lemma_free_name_len(t: SpecTerm, y: Seq<char>)
    requires
        free_in(t, y),
    ensures
        y.len() <= max_free_len(t),
    decreases t,
{
    match t {
        SpecTerm::Var(_) => {},
        SpecTerm::Abs(v, body) => {
            lemma_free_name_len(*body, y);
        },
        SpecTerm::Apply(t1, t2) => {
            if free_in(*t1, y) {
                lemma_free_name_len(*t1, y);
            } else {
                lemma_free_name_len(*t2, y);
            }
        },
    }
}

proof fn lemma_primed_len(base: Seq<char>, k: nat)
    ensures
        primed(base, k).len() == base.len() + k,
    decreases k,
{
    if k > 0 {
        lemma_primed_len(base, (k - 1) as nat);
    }
}

/// From any acceptable candidate index, a least acceptable one exists.
proof fn lemma_fresh_least(v: Seq<char>, x: Seq<char>, r: SpecTerm, b: SpecTerm, n: nat)
    requires
        fresh_ok(v, x, r, b, n),
    ensures
        exists|k: nat|
            fresh_ok(v, x, r, b, k) && (forall|j: nat| j < k ==> !fresh_ok(v, x, r, b, j)),
    decreases n,
{
    if exists|j: nat| j < n && fresh_ok(v, x, r, b, j) {
        let j = choose|j: nat| j < n && fresh_ok(v, x, r, b, j);
        lemma_fresh_least(v, x, r, b, j);
    } else {
        assert(fresh_ok(v, x, r, b, n) && (forall|j: nat| j < n ==> !fresh_ok(v, x, r, b, j)));
    }
}

/// A candidate longer than every name free in the replacement or the
/// body, and longer than the substituted variable, is acceptable; the
/// fresh-name search therefore never runs past this index.
proof fn lemma_fresh_ok_at_bound(v: Seq<char>, x: Seq<char>, r: SpecTerm, b: SpecTerm)
    ensures
        fresh_ok(v, x, r, b, max_free_len(r) + max_free_len(b) + x.len() + 1),
{
    let k0 = max_free_len(r) + max_free_len(b) + x.len() + 1;
    lemma_primed_len(v, k0);
    assert(!free_in(r, primed(v, k0))) by {
        if free_in(r, primed(v, k0)) {
            lemma_free_name_len(r, primed(v, k0));
        }
    }
    assert(!free_in(b, primed(v, k0))) by {
        if free_in(b, primed(v, k0)) {
            lemma_free_name_len(b, primed(v, k0));
        }
    }
    assert(primed(v, k0) != x) by {
        assert(primed(v, k0).len() > x.len());
    }
}

/// The fresh-name search is well defined: its index is acceptable, it
/// is the least acceptable one, and when the binder itself collides
/// with a free variable of the replacement the chosen name differs
/// from the binder.
proof fn lemma_fresh_index_props(v: Seq<char>, x: Seq<char>, r: SpecTerm, b: SpecTerm)
    ensures
        fresh_ok(v, x, r, b, fresh_index(v, x, r, b)),
        forall|j: nat| j < fresh_index(v, x, r, b) ==> !fresh_ok(v, x, r, b, j),
        free_in(r, v) ==> fresh_index(v, x, r, b) >= 1 && fresh_name(v, x, r, b) != v,
{
    let k0 = max_free_len(r) + max_free_len(b) + x.len() + 1;
    lemma_fresh_ok_at_bound(v, x, r, b);
    lemma_fresh_least(v, x, r, b, k0);
    let fi = fresh_index(v, x, r, b);
    assert(fresh_ok(v, x, r, b, fi) && (forall|j: nat| j < fi ==> !fresh_ok(v, x, r, b, j)));
    if free_in(r, v) {
        assert(primed(v, 0) == v);
        assert(!fresh_ok(v, x, r, b, 0));
        lemma_primed_len(v, fi);
    }
}

/// Renaming to a name `to` that `y` differs from neither adds nor
/// removes free occurrences of `y`, except that `from` itself is no
/// longer free.
proof fn lemma_renamed_preserves_free(b: SpecTerm, from: Seq<char>, to: Seq<char>, y: Seq<char>)
    requires
        y != to,
    ensures
        free_in(renamed_free(b, from, to), y) == (y != from && free_in(b, y)),
    decreases b,
{
    match b {
        SpecTerm::Var(_) => {},
        SpecTerm::Abs(v, body) => {
            if v != from {
                lemma_renamed_preserves_free(*body, from, to, y);
            }
        },
        SpecTerm::Apply(t1, t2) => {
            lemma_renamed_preserves_free(*t1, from, to, y);
            lemma_renamed_preserves_free(*t2, from, to, y);
        },
    }
}

/// The free variables of a substitution result, exactly: `y` is free
/// in `t` with `x` substituted by `r` when either `y` was already free
/// in `t` and is not `x`, or `x` was free in `t` (so `r` was inserted)
/// and `y` is free in `r`. In particular no free variable of `r` is
/// ever captured by a binder of `t`.
pub proof fn lemma_substituted_free_vars(t: SpecTerm, x: Seq<char>, r: SpecTerm, y: Seq<char>)
    ensures
        free_in(substituted(t, x, r), y) == ((free_in(t, y) && y != x) || (free_in(t, x)
            && free_in(r, y))),
    decreases term_size(t),
{
    match t {
        SpecTerm::Var(_) => {},
        SpecTerm::Abs(v, body) => {
            if v == x {
            } else if free_in(r, v) {
                let f = fresh_name(v, x, r, *body);
                lemma_fresh_index_props(v, x, r, *body);
                lemma_renamed_size(*body, v, f);
                let rb = renamed_free(*body, v, f);
                lemma_substituted_free_vars(rb, x, r, y);
                lemma_renamed_preserves_free(*body, v, f, x);
                if y != f {
                    lemma_renamed_preserves_free(*body, v, f, y);
                }
            } else {
                lemma_substituted_free_vars(*body, x, r, y);
            }
        },
        SpecTerm::Apply(t1, t2) => {
            lemma_substituted_free_vars(*t1, x, r, y);
            lemma_substituted_free_vars(*t2, x, r, y);
        },
    }
}

/// Capture avoidance: a variable free in the replacement `r`, which is
/// actually inserted because `x` occurs free in `t`, stays free in the
/// result — no binder of `t` captures it.
pub proof fn lemma_substitute_capture_avoiding(t: SpecTerm, x: Seq<char>, r: SpecTerm, y: Seq<char>)
    requires
        free_in(t, x),
        free_in(r, y),
    ensures
        free_in(substituted(t, x, r), y),
{
    lemma_substituted_free_vars(t, x, r, y);
}

/// Substituting for `x` in the bare variable `x` yields the
/// replacement itself.
pub proof fn lemma_substitute_var_hit(x: Seq<char>, r: SpecTerm)
    ensures
        substituted(SpecTerm::Var(x), x, r) == r,
{
}

/// Substituting for `x` in a different variable `y` changes nothing.
pub proof fn lemma_substitute_var_miss(y: Seq<char>, x: Seq<char>, r: SpecTerm)
    requires
        y != x,
    ensures
        substituted(SpecTerm::Var(y), x, r) == SpecTerm::Var(y),
{
}

/// Substituting for `x` under a binder named `x` is a no-op: the
/// binder shadows the substituted variable.
pub proof fn lemma_substitute_shadowed(x: Seq<char>, body: SpecTerm, r: SpecTerm)
    ensures
        substituted(SpecTerm::Abs(x, Box::new(body)), x, r) == SpecTerm::Abs(x, Box::new(body)),
{
}

/// A value: an irreducible head form, i.e. a variable or an
/// abstraction. An application is never a value.
pub open spec fn value_form(t: SpecTerm) -> bool {
    match t {
        SpecTerm::Var(_) => true,
        SpecTerm::Abs(_, _) => true,
        SpecTerm::Apply(_, _) => false,
    }
}

/// Full beta-normal form: no redex anywhere, including under binders.
pub open spec fn normal_form(t: SpecTerm) -> bool
    decreases t,
{
    match t {
        SpecTerm::Var(_) => true,
        SpecTerm::Abs(_, body) => normal_form(*body),
        SpecTerm::Apply(t1, t2) => !(*t1 is Abs) && normal_form(*t1) && normal_form(*t2),
    }
}

/// One call-by-name step: fires the outermost-leftmost redex at the
/// head position only, substituting the argument unevaluated; never
/// descends under a binder or into an argument.
pub open spec fn step_by_name(t: SpecTerm) -> SpecTerm
    decreases t,
{
    match t {
        SpecTerm::Apply(t1, t2) => match *t1 {
            SpecTerm::Abs(v, body) => substituted(*body, v, *t2),
            other => SpecTerm::Apply(Box::new(step_by_name(other)), t2),
        },
        _ => t,
    }
}

/// One normal-order step: the outermost-leftmost redex fires first;
/// once the head cannot fire, the step descends into the function
/// side, then the argument side, and under binders.
pub open spec fn step_normal_order(t: SpecTerm) -> SpecTerm
    decreases t,
{
    match t {
        SpecTerm::Apply(t1, t2) => match *t1 {
            SpecTerm::Abs(v, body) => substituted(*body, v, *t2),
            other => if !normal_form(other) {
                SpecTerm::Apply(Box::new(step_normal_order(other)), t2)
            } else {
                SpecTerm::Apply(Box::new(other), Box::new(step_normal_order(*t2)))
            },
        },
        SpecTerm::Abs(v, body) => SpecTerm::Abs(v, Box::new(step_normal_order(*body))),
        other => other,
    }
}

/// One call-by-value step: a redex fires only when its argument is
/// already a value; otherwise the argument is reduced first. Never
/// descends under a binder.
pub open spec fn step_by_value(t: SpecTerm) -> SpecTerm
    decreases t,
{
    match t {
        SpecTerm::Apply(t1, t2) => match *t1 {
            SpecTerm::Abs(v, body) => if value_form(*t2) {
                substituted(*body, v, *t2)
            } else {
                SpecTerm::Apply(
                    Box::new(SpecTerm::Abs(v, body)),
                    Box::new(step_by_value(*t2)),
                )
            },
            other => SpecTerm::Apply(Box::new(step_by_value(other)), t2),
        },
        _ => t,
    }
}

/// One applicative-order step: both subterms of an application are
/// fully reduced before their combination fires; descends under
/// binders.
pub open spec fn step_applicative_order(t: SpecTerm) -> SpecTerm
    decreases t,
{
    match t {
        SpecTerm::Apply(t1, t2) => if !normal_form(*t1) {
            SpecTerm::Apply(Box::new(step_applicative_order(*t1)), t2)
        } else if !normal_form(*t2) {
            SpecTerm::Apply(t1, Box::new(step_applicative_order(*t2)))
        } else {
            match *t1 {
                SpecTerm::Abs(v, body) => substituted(*body, v, *t2),
                _ => t,
            }
        },
        SpecTerm::Abs(v, body) => SpecTerm::Abs(v, Box::new(step_applicative_order(*body))),
        other => other,
    }
}

/// A term in normal form has no redex under any strategy's rule:
/// every stepping function returns it unchanged.
pub proof fn lemma_normal_form_steps_are_identity(t: SpecTerm)
    requires
        normal_form(t),
    ensures
        step_by_name(t) == t,
        step_normal_order(t) == t,
        step_by_value(t) == t,
        step_applicative_order(t) == t,
    decreases t,
{
    match t {
        SpecTerm::Var(_) => {},
        SpecTerm::Abs(_, body) => {
            lemma_normal_form_steps_are_identity(*body);
        },
        SpecTerm::Apply(t1, t2) => {
            lemma_normal_form_steps_are_identity(*t1);
            lemma_normal_form_steps_are_identity(*t2);
        },
    }
}

/// A named term. Variables are plain identifiers; terms are immutable
/// once built, and every operation returns a brand-new term.
#[derive(Debug)]
pub enum Term {
    Var(String),
    Abs(String, Box<Term>),
    Apply(Box<Term>, Box<Term>),
}

impl View for Term {
    type V = SpecTerm;

    open spec fn view(&self) -> SpecTerm
        decreases self,
    {
        match self {
            Term::Var(v) => SpecTerm::Var(v@),
            Term::Abs(v, body) => SpecTerm::Abs(v@, Box::new((**body)@)),
            Term::Apply(t1, t2) => SpecTerm::Apply(Box::new((**t1)@), Box::new((**t2)@)),
        }
    }
}

impl DeepView for Term {
    type V = SpecTerm;

    open spec fn deep_view(&self) -> SpecTerm {
        self@
    }
}

/// Relies on str's PartialEq: string slices compare equal exactly when
/// their character sequences are equal.
#[verifier::external_body]
pub(crate) fn str_eq(a: &str, b: &str) -> (r: bool)
    ensures
        r == (a@ == b@),
{
    a == b
}

/// The executable form of `collides`, used by the fresh-name search.
fn collides_exec(f: &str, what: &str, with: &Term, body: &Term) -> (r: bool)
    ensures
        r == collides(f@, what@, with@, body@),
{
    with.is_free_variable(f) || body.is_free_variable(f) || str_eq(f, what)
}

impl Term {
    /// Builds a variable from its name.
    pub fn var(s: &str) -> (r: Term)
        ensures
            r@ == SpecTerm::Var(s@),
    {
        Term::Var(s.to_owned())
    }

    /// Builds an abstraction binding `v` over `body`.
    pub fn abs(v: &str, body: Term) -> (r: Term)
        ensures
            r@ == SpecTerm::Abs(v@, Box::new(body@)),
    {
        Term::Abs(v.to_owned(), Box::new(body))
    }

    /// Builds an application of `t1` to `t2`.
    pub fn app(t1: Term, t2: Term) -> (r: Term)
        ensures
            r@ == SpecTerm::Apply(Box::new(t1@), Box::new(t2@)),
    {
        Term::Apply(Box::new(t1), Box::new(t2))
    }

    /// Does `what` occur free in this term?
    pub fn is_free_variable(&self, what: &str) -> (r: bool)
        ensures
            r == free_in(self@, what@),
        decreases self,
    {
        match self {
            Term::Var(v) => str_eq(v.as_str(), what),
            Term::Abs(v, body) => body.is_free_variable(what) && !str_eq(v.as_str(), what),
            Term::Apply(t1, t2) => t1.is_free_variable(what) || t2.is_free_variable(what),
        }
    }

    /// Renames every free occurrence of `from` to `to`, leaving
    /// occurrences bound by an inner binder named `from` untouched.
    fn rename_free(self, from: &str, to: &str) -> (r: Term)
        ensures
            r@ == renamed_free(self@, from@, to@),
        decreases self,
    {
        if self.is_free_variable(from) {
            match self {
                Term::Var(_) => Term::Var(to.to_owned()),
                Term::Abs(v, body) => Term::Abs(v, Box::new((*body).rename_free(from, to))),
                Term::Apply(t1, t2) => Term::Apply(
                    Box::new((*t1).rename_free(from, to)),
                    Box::new((*t2).rename_free(from, to)),
                ),
            }
        } else {
            proof {
                lemma_renamed_id(self@, from@, to@);
            }
            self
        }
    }

    /// Replaces every free occurrence of `what` by `with`, renaming
    /// binders on demand so that no free variable of `with` is
    /// captured.
    #[verifier::loop_isolation(false)]
    pub fn substitute(self, what: &str, with: Term) -> (r: Term)
        ensures
            r@ == substituted(self@, what@, with@),
        decreases term_size(self@),
    {
        match self {
            Term::Var(name) => {
                if str_eq(name.as_str(), what) {
                    with
                } else {
                    Term::Var(name)
                }
            },
            Term::Abs(variable, body) => {
                if str_eq(variable.as_str(), what) {
                    Term::Abs(variable, body)
                } else {
                    let ghost v = variable@;
                    let ghost b = body@;
                    let (name, new_body): (String, Term) = if with.is_free_variable(
                        variable.as_str(),
                    ) {
                        let mut fresh: String = variable.clone();
                        let ghost mut k: nat = 0;
                        let ghost bound = max_free_len(with@) + max_free_len(b) + what@.len()
                            + 1;
                        proof {
                            lemma_fresh_ok_at_bound(v, what@, with@, b);
                        }
                        while collides_exec(fresh.as_str(), what, &with, &body)
                            invariant
                                fresh@ == primed(v, k),
                                forall|j: nat| j < k ==> !fresh_ok(v, what@, with@, b, j),
                                fresh_ok(v, what@, with@, b, bound),
                                k <= bound,
                            decreases bound - k,
                        {
                            proof {
                                assert(!fresh_ok(v, what@, with@, b, k));
                                assert(k < bound);
                            }
                            fresh.append("'");
                            proof {
                                reveal_strlit("'");
                                k = k + 1;
                                assert(fresh@ =~= primed(v, k));
                            }
                        }
                        proof {
                            assert(fresh_ok(v, what@, with@, b, k));
                            lemma_fresh_index_props(v, what@, with@, b);
                            let fi = fresh_index(v, what@, with@, b);
                            assert(k == fi) by {
                                if k < fi {
                                    assert(!fresh_ok(v, what@, with@, b, k));
                                } else if fi < k {
                                    assert(!fresh_ok(v, what@, with@, b, fi));
                                }
                            }
                        }
                        let renamed = (*body).rename_free(variable.as_str(), fresh.as_str());
                        (fresh, renamed)
                    } else {
                        (variable, *body)
                    };
                    proof {
                        lemma_renamed_size(b, v, fresh_name(v, what@, with@, b));
                    }
                    Term::Abs(name, Box::new(new_body.substitute(what, with)))
                }
            },
            Term::Apply(t1, t2) => Term::Apply(
                Box::new((*t1).substitute(what, with.clone())),
                Box::new((*t2).substitute(what, with)),
            ),
        }
    }
}

impl Term {
    /// Is this term a value, i.e. a variable or an abstraction?
    pub fn is_value(&self) -> (r: bool)
        ensures
            r == value_form(self@),
    {
        match self {
            Term::Var(_) => true,
            Term::Abs(_, _) => true,
            Term::Apply(_, _) => false,
        }
    }

    /// Is this term in full beta-normal form?
    pub fn is_normal_form(&self) -> (r: bool)
        ensures
            r == normal_form(self@),
        decreases self,
    {
        match self {
            Term::Var(_) => true,
            Term::Abs(_, body) => body.is_normal_form(),
            Term::Apply(t1, t2) => match &**t1 {
                Term::Abs(_, _) => {
                    proof {
                        assert(self@ is Apply);
                        assert((**t1)@ is Abs);
                    }
                    false
                },
                _ => {
                    proof {
                        assert(!((**t1)@ is Abs));
                    }
                    t1.is_normal_form() && t2.is_normal_form()
                },
            },
        }
    }

    /// One call-by-name step; returns the term unchanged when no head
    /// redex exists.
    pub fn reduce_step_call_by_name(self) -> (r: Self)
        ensures
            r@ == step_by_name(self@),
        decreases self,
    {
        let ghost s = self@;
        match self {
            Term::Apply(t1, t2) => {
                let ghost t1v = (*t1)@;
                let ghost t2v = (*t2)@;
                proof {
                    assert(s == SpecTerm::Apply(Box::new(t1v), Box::new(t2v)));
                }
                match *t1 {
                    Term::Abs(var, body) => {
                        proof {
                            assert(t1v == SpecTerm::Abs(var@, Box::new((*body)@)));
                            assert(step_by_name(s) == substituted((*body)@, var@, t2v));
                        }
                        (*body).substitute(var.as_str(), *t2)
                    },
                    other => {
                        proof {
                            assert(!(other@ is Abs));
                        }
                        Term::Apply(Box::new(other.reduce_step_call_by_name()), t2)
                    },
                }
            },
            other => {
                proof {
                    assert(!(other@ is Apply));
                }
                other
            },
        }
    }

    /// One normal-order step; returns the term unchanged when it is in
    /// normal form.
    pub fn reduce_step_normal_order(self) -> (r: Self)
        ensures
            r@ == step_normal_order(self@),
        decreases self,
    {
        let ghost s = self@;
        match self {
            Term::Apply(t1, t2) => {
                let ghost t1v = (*t1)@;
                let ghost t2v = (*t2)@;
                proof {
                    assert(s == SpecTerm::Apply(Box::new(t1v), Box::new(t2v)));
                }
                match *t1 {
                    Term::Abs(name, body) => {
                        proof {
                            assert(t1v == SpecTerm::Abs(name@, Box::new((*body)@)));
                        }
                        (*body).substitute(name.as_str(), *t2)
                    },
                    other => {
                        proof {
                            assert(!(other@ is Abs));
                        }
                        if !other.is_normal_form() {
                            Term::Apply(Box::new(other.reduce_step_normal_order()), t2)
                        } else {
                            Term::Apply(
                                Box::new(other),
                                Box::new((*t2).reduce_step_normal_order()),
                            )
                        }
                    },
                }
            },
            Term::Abs(name, body) => Term::Abs(
                name,
                Box::new((*body).reduce_step_normal_order()),
            ),
            other => {
                proof {
                    assert(other@ is Var);
                }
                other
            },
        }
    }

    /// One call-by-value step; returns the term unchanged when no
    /// redex with a value argument is reachable.
    pub fn reduce_step_call_by_value(self) -> (r: Self)
        ensures
            r@ == step_by_value(self@),
        decreases self,
    {
        let ghost s = self@;
        match self {
            Term::Apply(t1, t2) => {
                let ghost t1v = (*t1)@;
                let ghost t2v = (*t2)@;
                proof {
                    assert(s == SpecTerm::Apply(Box::new(t1v), Box::new(t2v)));
                }
                match *t1 {
                    Term::Abs(t1_name, t1_body) => {
                        proof {
                            assert(t1v == SpecTerm::Abs(t1_name@, Box::new((*t1_body)@)));
                        }
                        if t2.is_value() {
                            (*t1_body).substitute(t1_name.as_str(), *t2)
                        } else {
                            Term::Apply(
                                Box::new(Term::Abs(t1_name, t1_body)),
                                Box::new((*t2).reduce_step_call_by_value()),
                            )
                        }
                    },
                    other => {
                        proof {
                            assert(!(other@ is Abs));
                        }
                        Term::Apply(Box::new(other.reduce_step_call_by_value()), t2)
                    },
                }
            },
            other => {
                proof {
                    assert(!(other@ is Apply));
                }
                other
            },
        }
    }

    /// One applicative-order step; returns the term unchanged when it
    /// is in normal form.
    pub fn reduce_step_applicative_order(self) -> (r: Self)
        ensures
            r@ == step_applicative_order(self@),
        decreases self,
    {
        match self {
            Term::Apply(t1, t2) => if !t1.is_normal_form() {
                Term::Apply(Box::new((*t1).reduce_step_applicative_order()), t2)
            } else if !t2.is_normal_form() {
                Term::Apply(t1, Box::new((*t2).reduce_step_applicative_order()))
            } else {
                match *t1 {
                    Term::Abs(name, body) => (*body).substitute(name.as_str(), *t2),
                    other => Term::Apply(Box::new(other), t2),
                }
            },
            Term::Abs(name, body) => Term::Abs(
                name,
                Box::new((*body).reduce_step_applicative_order()),
            ),
            other => other,
        }
    }
}

/// `t` after `n` normal-order steps.
pub open spec fn iterated_normal_order(t: SpecTerm, n: nat) -> SpecTerm
    decreases n,
{
    if n == 0 {
        t
    } else {
        step_normal_order(iterated_normal_order(t, (n - 1) as nat))
    }
}

impl Term {
    /// Drives normal-order reduction to full normal form, giving up
    /// after `max_steps` steps: the caller bounds the work, since a
    /// term may have no normal form at all.
    #[verifier::loop_isolation(false)]
    pub fn reduce_to_normal_form(self, max_steps: usize) -> (r: Option<Term>)
        ensures
            r matches Some(u) ==> exists|n: nat|
                n <= max_steps && normal_form(#[trigger] iterated_normal_order(self@, n)) && u@
                    == iterated_normal_order(self@, n),
            r is None ==> forall|n: nat|
                n <= max_steps ==> !normal_form(#[trigger] iterated_normal_order(self@, n)),
    {
        let ghost t0 = self@;
        let mut t = self;
        let mut steps: usize = 0;
        while !t.is_normal_form()
            invariant
                steps <= max_steps,
                t@ == iterated_normal_order(t0, steps as nat),
                forall|m: nat|
                    m < steps ==> !normal_form(#[trigger] iterated_normal_order(t0, m)),
            decreases max_steps - steps,
        {
            if steps >= max_steps {
                return None;
            }
            t = t.reduce_step_normal_order();
            steps = steps + 1;
        }
        Some(t)
    }
}

/// The canonical textual form of a term: a variable prints as its
/// name, an abstraction as the binder symbol, the variable name, a
/// dot and the body, an application as the parenthesized pair of its
/// two sides separated by a space.
pub open spec fn rendered(t: SpecTerm) -> Seq<char>
    decreases t,
{
    match t {
        SpecTerm::Var(v) => v,
        SpecTerm::Abs(v, body) => seq!['λ'] + v + seq!['.'] + rendered(*body),
        SpecTerm::Apply(t1, t2) => seq!['('] + rendered(*t1) + seq![' '] + rendered(*t2) + seq![
            ')',
        ],
    }
}

impl Term {
    /// The canonical textual form of this term.
    pub fn display_string(&self) -> (r: String)
        ensures
            r@ == rendered(self@),
        decreases self,
    {
        proof {
            reveal_strlit("λ");
            reveal_strlit(".");
            reveal_strlit("(");
            reveal_strlit(" ");
            reveal_strlit(")");
        }
        match self {
            Term::Var(v) => v.clone(),
            Term::Abs(v, body) => {
                let mut out = String::new();
                out.append("λ");
                out.append(v.as_str());
                out.append(".");
                let inner = body.display_string();
                out.append(inner.as_str());
                proof {
                    assert(out@ =~= rendered(self@));
                }
                out
            },
            Term::Apply(t1, t2) => {
                let mut out = String::new();
                out.append("(");
                let left = t1.display_string();
                out.append(left.as_str());
                out.append(" ");
                let right = t2.display_string();
                out.append(right.as_str());
                out.append(")");
                proof {
                    assert(out@ =~= rendered(self@));
                }
                out
            },
        }
    }
}

impl PartialEq for Term {
    /// Syntactic equality: two terms are equal exactly when they model
    /// the same term, names included.
    fn eq(&self, other: &Term) -> (r: bool)
        decreases self,
    {
        match (self, other) {
            (Term::Var(v1), Term::Var(v2)) => str_eq(v1.as_str(), v2.as_str()),
            (Term::Abs(v1, b1), Term::Abs(v2, b2)) => str_eq(v1.as_str(), v2.as_str()) && **b1
                == **b2,
            (Term::Apply(a1, b1), Term::Apply(a2, b2)) => **a1 == **a2 && **b1 == **b2,
            _ => {
                proof {
                    assert(self@ != other@);
                }
                false
            },
        }
    }
}

impl Eq for Term {

}

impl vstd::std_specs::cmp::PartialEqSpecImpl for Term {
    open spec fn obeys_eq_spec() -> bool {
        true
    }

    open spec fn eq_spec(&self, other: &Term) -> bool {
        self@ == other@
    }
}

impl Clone for Term {
    /// A deep copy: the copy and the original model the same term.
    fn clone(&self) -> (r: Self)
        ensures
            r@ == self@,
        decreases self,
    {
        match self {
            Term::Var(v) => Term::Var(v.clone()),
            Term::Abs(v, body) => Term::Abs(v.clone(), Box::new((**body).clone())),
            Term::Apply(t1, t2) => Term::Apply(
                Box::new((**t1).clone()),
                Box::new((**t2).clone()),
            ),
        }
    }
}

} // verus!
