//! De Bruijn level terms: an alpha-invariant representation in which
//! every binder carries the nesting depth at which it was introduced
//! and every variable carries the level of its binder. Substitution
//! here never renames, because levels are numeric and collision-free
//! by construction. Original names are retained on every node so the
//! conversion back to named form is lossless.

use vstd::prelude::*;

use crate::term::str_eq;
use crate::term::SpecTerm;
use crate::term::Term;

verus! {

/// The mathematical model of a level term: levels are unbounded
/// naturals, names are character sequences.
pub enum SpecLevelTerm {
    Var(nat, Seq<char>),
    Abs(nat, Box<SpecLevelTerm>, Seq<char>),
    Apply(Box<SpecLevelTerm>, Box<SpecLevelTerm>),
}

/// A level term. `Var(level, name)` refers to the binder introduced
/// at `level`; `Abs(level, body, name)` introduces that level; the
/// names are those of the named term it was converted from.
#[derive(Debug)]
pub enum BruijnLevelsTerm {
    Var(u16, String),
    Abs(u16, Box<BruijnLevelsTerm>, String),
    Apply(Box<BruijnLevelsTerm>, Box<BruijnLevelsTerm>),
}

impl View for BruijnLevelsTerm {
    type V = SpecLevelTerm;

    open spec fn view(&self) -> SpecLevelTerm
        decreases self,
    {
        match self {
            BruijnLevelsTerm::Var(l, n) => SpecLevelTerm::Var(*l as nat, n@),
            BruijnLevelsTerm::Abs(l, body, n) => SpecLevelTerm::Abs(
                *l as nat,
                Box::new((**body)@),
                n@,
            ),
            BruijnLevelsTerm::Apply(t1, t2) => SpecLevelTerm::Apply(
                Box::new((**t1)@),
                Box::new((**t2)@),
            ),
        }
    }
}

/// `t` with every variable at level `what` replaced by `r`. Levels
/// cannot collide, so no renaming is ever needed.
pub open spec fn level_substituted(t: SpecLevelTerm, what: nat, r: SpecLevelTerm) -> SpecLevelTerm
    decreases t,
{
    match t {
        SpecLevelTerm::Var(l, _) => if l == what {
            r
        } else {
            t
        },
        SpecLevelTerm::Abs(l, body, n) => SpecLevelTerm::Abs(
            l,
            Box::new(level_substituted(*body, what, r)),
            n,
        ),
        SpecLevelTerm::Apply(t1, t2) => SpecLevelTerm::Apply(
            Box::new(level_substituted(*t1, what, r)),
            Box::new(level_substituted(*t2, what, r)),
        ),
    }
}

/// A value: a variable or an abstraction; an application is never a
/// value.
pub open spec fn level_value_form(t: SpecLevelTerm) -> bool {
    match t {
        SpecLevelTerm::Var(_, _) => true,
        SpecLevelTerm::Abs(_, _, _) => true,
        SpecLevelTerm::Apply(_, _) => false,
    }
}

/// Full beta-normal form: no redex anywhere, including under binders.
pub open spec fn level_normal_form(t: SpecLevelTerm) -> bool
    decreases t,
{
    match t {
        SpecLevelTerm::Var(_, _) => true,
        SpecLevelTerm::Abs(_, body, _) => level_normal_form(*body),
        SpecLevelTerm::Apply(t1, t2) => !(*t1 is Abs) && level_normal_form(*t1)
            && level_normal_form(*t2),
    }
}

/// One call-by-name step on level terms; mirrors the named strategy
/// with level equality in place of name equality.
pub open spec fn level_step_by_name(t: SpecLevelTerm) -> SpecLevelTerm
    decreases t,
{
    match t {
        SpecLevelTerm::Apply(t1, t2) => match *t1 {
            SpecLevelTerm::Abs(l, body, _) => level_substituted(*body, l, *t2),
            other => SpecLevelTerm::Apply(Box::new(level_step_by_name(other)), t2),
        },
        _ => t,
    }
}

/// One normal-order step on level terms.
pub open spec fn level_step_normal_order(t: SpecLevelTerm) -> SpecLevelTerm
    decreases t,
{
    match t {
        SpecLevelTerm::Apply(t1, t2) => match *t1 {
            SpecLevelTerm::Abs(l, body, _) => level_substituted(*body, l, *t2),
            other => if !level_normal_form(other) {
                SpecLevelTerm::Apply(Box::new(level_step_normal_order(other)), t2)
            } else {
                SpecLevelTerm::Apply(Box::new(other), Box::new(level_step_normal_order(*t2)))
            },
        },
        SpecLevelTerm::Abs(l, body, n) => SpecLevelTerm::Abs(
            l,
            Box::new(level_step_normal_order(*body)),
            n,
        ),
        other => other,
    }
}

/// One call-by-value step on level terms.
pub open spec fn level_step_by_value(t: SpecLevelTerm) -> SpecLevelTerm
    decreases t,
{
    match t {
        SpecLevelTerm::Apply(t1, t2) => match *t1 {
            SpecLevelTerm::Abs(l, body, n) => if level_value_form(*t2) {
                level_substituted(*body, l, *t2)
            } else {
                SpecLevelTerm::Apply(
                    Box::new(SpecLevelTerm::Abs(l, body, n)),
                    Box::new(level_step_by_value(*t2)),
                )
            },
            other => SpecLevelTerm::Apply(Box::new(level_step_by_value(other)), t2),
        },
        _ => t,
    }
}

/// One applicative-order step on level terms.
pub open spec fn level_step_applicative_order(t: SpecLevelTerm) -> SpecLevelTerm
    decreases t,
{
    match t {
        SpecLevelTerm::Apply(t1, t2) => if !level_normal_form(*t1) {
            SpecLevelTerm::Apply(Box::new(level_step_applicative_order(*t1)), t2)
        } else if !level_normal_form(*t2) {
            SpecLevelTerm::Apply(t1, Box::new(level_step_applicative_order(*t2)))
        } else {
            match *t1 {
                SpecLevelTerm::Abs(l, body, _) => level_substituted(*body, l, *t2),
                _ => t,
            }
        },
        SpecLevelTerm::Abs(l, body, n) => SpecLevelTerm::Abs(
            l,
            Box::new(level_step_applicative_order(*body)),
            n,
        ),
        other => other,
    }
}

impl BruijnLevelsTerm {
    /// Replaces every variable at level `what` by `with`; no renaming
    /// is ever needed on this representation.
    pub fn substitute(self, what: u16, with: BruijnLevelsTerm) -> (r: Self)
        ensures
            r@ == level_substituted(self@, what as nat, with@),
        decreases self,
    {
        match self {
            BruijnLevelsTerm::Var(l, n) => if l == what {
                with
            } else {
                BruijnLevelsTerm::Var(l, n)
            },
            BruijnLevelsTerm::Abs(l, body, n) => BruijnLevelsTerm::Abs(
                l,
                Box::new((*body).substitute(what, with)),
                n,
            ),
            BruijnLevelsTerm::Apply(t1, t2) => BruijnLevelsTerm::Apply(
                Box::new((*t1).substitute(what, with.clone())),
                Box::new((*t2).substitute(what, with)),
            ),
        }
    }

    /// Is this term a value, i.e. a variable or an abstraction?
    pub fn is_value(&self) -> (r: bool)
        ensures
            r == level_value_form(self@),
    {
        match self {
            BruijnLevelsTerm::Var(_, _) => true,
            BruijnLevelsTerm::Abs(_, _, _) => true,
            BruijnLevelsTerm::Apply(_, _) => false,
        }
    }

    /// Is this term in full beta-normal form?
    pub fn is_normal_form(&self) -> (r: bool)
        ensures
            r == level_normal_form(self@),
        decreases self,
    {
        match self {
            BruijnLevelsTerm::Var(_, _) => true,
            BruijnLevelsTerm::Abs(_, body, _) => body.is_normal_form(),
            BruijnLevelsTerm::Apply(t1, t2) => match &**t1 {
                BruijnLevelsTerm::Abs(_, _, _) => {
                    proof {
                        assert((**t1)@ is Abs);
                    }
                    false
                },
                _ => {
                    proof {
                        assert(!((**t1)@ is Abs));
                    }
                    t1.is_normal_form() && t2.is_normal_form()
                },
            },
        }
    }

    /// One call-by-name step; returns the term unchanged when no head
    /// redex exists.
    pub fn reduce_step_call_by_name(self) -> (r: Self)
        ensures
            r@ == level_step_by_name(self@),
        decreases self,
    {
        let ghost s = self@;
        match self {
            BruijnLevelsTerm::Apply(t1, t2) => {
                let ghost t1v = (*t1)@;
                let ghost t2v = (*t2)@;
                proof {
                    assert(s == SpecLevelTerm::Apply(Box::new(t1v), Box::new(t2v)));
                }
                match *t1 {
                    BruijnLevelsTerm::Abs(l, body, n) => {
                        proof {
                            assert(t1v == SpecLevelTerm::Abs(l as nat, Box::new((*body)@), n@));
                        }
                        (*body).substitute(l, *t2)
                    },
                    other => {
                        proof {
                            assert(!(other@ is Abs));
                        }
                        BruijnLevelsTerm::Apply(
                            Box::new(other.reduce_step_call_by_name()),
                            t2,
                        )
                    },
                }
            },
            other => {
                proof {
                    assert(!(other@ is Apply));
                }
                other
            },
        }
    }

    /// One normal-order step; returns the term unchanged when it is
    /// in normal form.
    pub fn reduce_step_normal_order(self) -> (r: Self)
        ensures
            r@ == level_step_normal_order(self@),
        decreases self,
    {
        let ghost s = self@;
        match self {
            BruijnLevelsTerm::Apply(t1, t2) => {
                let ghost t1v = (*t1)@;
                let ghost t2v = (*t2)@;
                proof {
                    assert(s == SpecLevelTerm::Apply(Box::new(t1v), Box::new(t2v)));
                }
                match *t1 {
                    BruijnLevelsTerm::Abs(l, body, n) => {
                        proof {
                            assert(t1v == SpecLevelTerm::Abs(l as nat, Box::new((*body)@), n@));
                        }
                        (*body).substitute(l, *t2)
                    },
                    other => {
                        proof {
                            assert(!(other@ is Abs));
                        }
                        if !other.is_normal_form() {
                            BruijnLevelsTerm::Apply(
                                Box::new(other.reduce_step_normal_order()),
                                t2,
                            )
                        } else {
                            BruijnLevelsTerm::Apply(
                                Box::new(other),
                                Box::new((*t2).reduce_step_normal_order()),
                            )
                        }
                    },
                }
            },
            BruijnLevelsTerm::Abs(l, body, n) => BruijnLevelsTerm::Abs(
                l,
                Box::new((*body).reduce_step_normal_order()),
                n,
            ),
            other => {
                proof {
                    assert(other@ is Var);
                }
                other
            },
        }
    }

    /// One call-by-value step; returns the term unchanged when no
    /// redex with a value argument is reachable.
    pub fn reduce_step_call_by_value(self) -> (r: Self)
        ensures
            r@ == level_step_by_value(self@),
        decreases self,
    {
        let ghost s = self@;
        match self {
            BruijnLevelsTerm::Apply(t1, t2) => {
                let ghost t1v = (*t1)@;
                let ghost t2v = (*t2)@;
                proof {
                    assert(s == SpecLevelTerm::Apply(Box::new(t1v), Box::new(t2v)));
                }
                match *t1 {
                    BruijnLevelsTerm::Abs(l, body, n) => {
                        proof {
                            assert(t1v == SpecLevelTerm::Abs(l as nat, Box::new((*body)@), n@));
                        }
                        if t2.is_value() {
                            (*body).substitute(l, *t2)
                        } else {
                            BruijnLevelsTerm::Apply(
                                Box::new(BruijnLevelsTerm::Abs(l, body, n)),
                                Box::new((*t2).reduce_step_call_by_value()),
                            )
                        }
                    },
                    other => {
                        proof {
                            assert(!(other@ is Abs));
                        }
                        BruijnLevelsTerm::Apply(
                            Box::new(other.reduce_step_call_by_value()),
                            t2,
                        )
                    },
                }
            },
            other => {
                proof {
                    assert(!(other@ is Apply));
                }
                other
            },
        }
    }

    /// One applicative-order step; returns the term unchanged when it
    /// is in normal form.
    pub fn reduce_step_applicative_order(self) -> (r: Self)
        ensures
            r@ == level_step_applicative_order(self@),
        decreases self,
    {
        let ghost s = self@;
        match self {
            BruijnLevelsTerm::Apply(t1, t2) => {
                let ghost t1v = (*t1)@;
                let ghost t2v = (*t2)@;
                proof {
                    assert(s == SpecLevelTerm::Apply(Box::new(t1v), Box::new(t2v)));
                }
                if !t1.is_normal_form() {
                    BruijnLevelsTerm::Apply(
                        Box::new((*t1).reduce_step_applicative_order()),
                        t2,
                    )
                } else if !t2.is_normal_form() {
                    BruijnLevelsTerm::Apply(
                        t1,
                        Box::new((*t2).reduce_step_applicative_order()),
                    )
                } else {
                    match *t1 {
                        BruijnLevelsTerm::Abs(l, body, n) => {
                            proof {
                                assert(t1v == SpecLevelTerm::Abs(
                                    l as nat,
                                    Box::new((*body)@),
                                    n@,
                                ));
                            }
                            (*body).substitute(l, *t2)
                        },
                        other => {
                            proof {
                                assert(!(other@ is Abs));
                            }
                            BruijnLevelsTerm::Apply(Box::new(other), t2)
                        },
                    }
                }
            },
            BruijnLevelsTerm::Abs(l, body, n) => BruijnLevelsTerm::Abs(
                l,
                Box::new((*body).reduce_step_applicative_order()),
                n,
            ),
            other => {
                proof {
                    assert(other@ is Var);
                }
                other
            },
        }
    }
}

/// The named term a level term converts back to: a structural map
/// that uses the retained original names and drops the levels.
pub open spec fn to_named(t: SpecLevelTerm) -> SpecTerm
    decreases t,
{
    match t {
        SpecLevelTerm::Var(_, n) => SpecTerm::Var(n),
        SpecLevelTerm::Abs(_, body, n) => SpecTerm::Abs(n, Box::new(to_named(*body))),
        SpecLevelTerm::Apply(t1, t2) => SpecTerm::Apply(
            Box::new(to_named(*t1)),
            Box::new(to_named(*t2)),
        ),
    }
}

/// Every free variable of `t` is bound by `dom`: the variables a
/// conversion at that scope can resolve.
pub open spec fn in_scope(t: SpecTerm, dom: Set<Seq<char>>) -> bool
    decreases t,
{
    match t {
        SpecTerm::Var(v) => dom.contains(v),
        SpecTerm::Abs(v, body) => in_scope(*body, dom.insert(v)),
        SpecTerm::Apply(t1, t2) => in_scope(*t1, dom) && in_scope(*t2, dom),
    }
}

/// The deepest binder nesting in `t`: the number of levels a
/// conversion starting at some depth will consume.
pub open spec fn nesting_depth(t: SpecTerm) -> nat
    decreases t,
{
    match t {
        SpecTerm::Var(_) => 0,
        SpecTerm::Abs(_, body) => 1 + nesting_depth(*body),
        SpecTerm::Apply(t1, t2) => if nesting_depth(*t1) >= nesting_depth(*t2) {
            nesting_depth(*t1)
        } else {
            nesting_depth(*t2)
        },
    }
}

/// The level term for `t` under `scope` (mapping each visible name to
/// the level of its binder) at binder depth `depth`: each binder is
/// tagged with the current depth and its body converted one deeper.
pub open spec fn leveled(t: SpecTerm, scope: Map<Seq<char>, nat>, depth: nat) -> SpecLevelTerm
    decreases t,
{
    match t {
        SpecTerm::Var(v) => SpecLevelTerm::Var(scope[v], v),
        SpecTerm::Abs(v, body) => SpecLevelTerm::Abs(
            depth,
            Box::new(leveled(*body, scope.insert(v, depth), depth + 1)),
            v,
        ),
        SpecTerm::Apply(t1, t2) => SpecLevelTerm::Apply(
            Box::new(leveled(*t1, scope, depth)),
            Box::new(leveled(*t2, scope, depth)),
        ),
    }
}

/// The free variables of `t` in first-discovery order of a
/// depth-first walk: `bound` is the stack of enclosing binder names,
/// `acc` what was already discovered.
pub open spec fn free_list(t: SpecTerm, bound: Seq<Seq<char>>, acc: Seq<Seq<char>>) -> Seq<
    Seq<char>,
>
    decreases t,
{
    match t {
        SpecTerm::Var(v) => if bound.contains(v) || acc.contains(v) {
            acc
        } else {
            acc.push(v)
        },
        SpecTerm::Abs(v, body) => free_list(*body, bound.push(v), acc),
        SpecTerm::Apply(t1, t2) => free_list(*t2, bound, free_list(*t1, bound, acc)),
    }
}

/// The scope that numbers the names of `names` by their position:
/// name `i` gets level `i`.
pub open spec fn list_levels(names: Seq<Seq<char>>) -> Map<Seq<char>, nat>
    decreases names.len(),
{
    if names.len() == 0 {
        Map::empty()
    } else {
        list_levels(names.drop_last()).insert(names.last(), (names.len() - 1) as nat)
    }
}

/// The free variables of `t`, outside any binder, in first-discovery
/// order.
pub open spec fn free_names(t: SpecTerm) -> Seq<Seq<char>> {
    free_list(t, Seq::empty(), Seq::empty())
}

/// The level term of the open-term conversion: free variables get
/// levels below the bound ones, which start at the number of free
/// variables.
pub open spec fn open_leveled(t: SpecTerm) -> SpecLevelTerm {
    leveled(t, list_levels(free_names(t)), free_names(t).len())
}

/// Converting a named term to levels and back reconstructs it
/// exactly, whatever scope and depth the conversion ran at: the
/// original names are retained on every node and the conversion never
/// renames.
pub proof fn lemma_level_round_trip(t: SpecTerm, scope: Map<Seq<char>, nat>, depth: nat)
    ensures
        to_named(leveled(t, scope, depth)) == t,
    decreases t,
{
    match t {
        SpecTerm::Var(_) => {},
        SpecTerm::Abs(v, body) => {
            lemma_level_round_trip(*body, scope.insert(v, depth), depth + 1);
        },
        SpecTerm::Apply(t1, t2) => {
            lemma_level_round_trip(*t1, scope, depth);
            lemma_level_round_trip(*t2, scope, depth);
        },
    }
}

/// The open-term conversion round-trips: converting any named term to
/// its level form and back yields a syntactically identical term.
pub proof fn lemma_open_round_trip(t: SpecTerm)
    ensures
        to_named(open_leveled(t)) == t,
{
    lemma_level_round_trip(t, list_levels(free_names(t)), free_names(t).len());
}

impl BruijnLevelsTerm {
    /// The named term this level term converts back to, using the
    /// retained original names.
    pub fn to_term(&self) -> (r: Term)
        ensures
            r@ == to_named(self@),
        decreases self,
    {
        match self {
            BruijnLevelsTerm::Var(_, n) => Term::Var(n.clone()),
            BruijnLevelsTerm::Abs(_, body, n) => Term::Abs(
                n.clone(),
                Box::new(body.to_term()),
            ),
            BruijnLevelsTerm::Apply(t1, t2) => Term::Apply(
                Box::new(t1.to_term()),
                Box::new(t2.to_term()),
            ),
        }
    }
}

/// The scope a binding stack denotes: later bindings shadow earlier
/// ones with the same name.
pub open spec fn scope_map(s: Seq<(String, u16)>) -> Map<Seq<char>, nat>
    decreases s.len(),
{
    if s.len() == 0 {
        Map::empty()
    } else {
        scope_map(s.drop_last()).insert(s.last().0@, s.last().1 as nat)
    }
}

/// A binding whose name matches, with nothing matching after it, is
/// the one the scope resolves to.
proof fn lemma_scope_map_at(s: Seq<(String, u16)>, k: Seq<char>, i: int)
    requires
        0 <= i < s.len(),
        s[i].0@ == k,
        forall|j: int| i < j < s.len() ==> s[j].0@ != k,
    ensures
        scope_map(s).dom().contains(k),
        scope_map(s)[k] == s[i].1 as nat,
    decreases s.len(),
{
    if i == s.len() - 1 {
    } else {
        assert(s.drop_last()[i] == s[i]);
        assert(forall|j: int| i < j < s.drop_last().len() ==> s.drop_last()[j] == s[j]);
        lemma_scope_map_at(s.drop_last(), k, i);
    }
}

/// A name that no binding carries is not in the scope.
proof fn lemma_scope_map_absent(s: Seq<(String, u16)>, k: Seq<char>)
    requires
        forall|j: int| 0 <= j < s.len() ==> s[j].0@ != k,
    ensures
        !scope_map(s).dom().contains(k),
    decreases s.len(),
{
    if s.len() > 0 {
        assert(forall|j: int| 0 <= j < s.drop_last().len() ==> s.drop_last()[j] == s[j]);
        lemma_scope_map_absent(s.drop_last(), k);
    }
}

/// The level bound to `name`, scanning the stack from its most recent
/// binding down.
fn lookup_level(scope: &Vec<(String, u16)>, name: &str) -> (r: Option<u16>)
    ensures
        match r {
            Some(l) => scope_map(scope@).dom().contains(name@) && scope_map(scope@)[name@]
                == l as nat,
            None => !scope_map(scope@).dom().contains(name@),
        },
{
    let mut i: usize = scope.len();
    while i > 0
        invariant
            i <= scope@.len(),
            forall|j: int| i <= j < scope@.len() ==> scope@[j].0@ != name@,
        decreases i,
    {
        i = i - 1;
        if str_eq(scope[i].0.as_str(), name) {
            proof {
                lemma_scope_map_at(scope@, name@, i as int);
            }
            return Some(scope[i].1);
        }
    }
    proof {
        lemma_scope_map_absent(scope@, name@);
    }
    None
}

/// The level term for `term` under the bindings of `scope`, at binder
/// depth `depth`; the binding stack is restored before returning.
fn level_term(term: &Term, scope: &mut Vec<(String, u16)>, depth: u16) -> (r: BruijnLevelsTerm)
    requires
        in_scope(term@, scope_map(old(scope)@).dom()),
        depth + nesting_depth(term@) <= u16::MAX,
    ensures
        final(scope)@ == old(scope)@,
        r@ == leveled(term@, scope_map(old(scope)@), depth as nat),
    decreases term,
{
    match term {
        Term::Var(v) => match lookup_level(scope, v.as_str()) {
            Some(l) => BruijnLevelsTerm::Var(l, v.clone()),
            None => {
                proof {
                    assert(false);
                }
                BruijnLevelsTerm::Var(0, v.clone())
            },
        },
        Term::Abs(v, body) => {
            let ghost s0 = scope@;
            scope.push((v.clone(), depth));
            proof {
                assert(scope@.drop_last() =~= s0);
                assert(scope_map(scope@) =~= scope_map(s0).insert(v@, depth as nat));
            }
            let converted = level_term(body, scope, depth + 1);
            let _ = scope.pop();
            proof {
                assert(scope@ =~= s0);
            }
            BruijnLevelsTerm::Abs(depth, Box::new(converted), v.clone())
        },
        Term::Apply(t1, t2) => {
            let a = level_term(t1, scope, depth);
            let b = level_term(t2, scope, depth);
            BruijnLevelsTerm::Apply(Box::new(a), Box::new(b))
        },
    }
}

/// The name sequences of a vector of names.
pub open spec fn names_of(s: Seq<String>) -> Seq<Seq<char>> {
    s.map_values(|n: String| n@)
}

/// Does `name` occur in `names`?
fn contains_name(names: &Vec<String>, name: &str) -> (r: bool)
    ensures
        r == names_of(names@).contains(name@),
{
    let mut i: usize = 0;
    while i < names.len()
        invariant
            i <= names@.len(),
            forall|j: int| 0 <= j < i ==> names_of(names@)[j] != name@,
        decreases names@.len() - i,
    {
        if str_eq(names[i].as_str(), name) {
            proof {
                assert(names_of(names@)[i as int] == name@);
            }
            return true;
        }
        i = i + 1;
    }
    false
}

/// Collects the free variables of `term` in first-discovery order
/// onto `free`, skipping names bound by the stack `bound`, which is
/// restored before returning.
fn collect_free_vars(term: &Term, bound: &mut Vec<String>, free: &mut Vec<String>)
    ensures
        final(bound)@ == old(bound)@,
        names_of(final(free)@) == free_list(term@, names_of(old(bound)@), names_of(old(free)@)),
    decreases term,
{
    match term {
        Term::Var(v) => {
            if !contains_name(bound, v.as_str()) && !contains_name(free, v.as_str()) {
                let ghost f0 = free@;
                free.push(v.clone());
                proof {
                    assert(names_of(free@) =~= names_of(f0).push(v@));
                }
            }
        },
        Term::Abs(v, body) => {
            let ghost b0 = bound@;
            bound.push(v.clone());
            proof {
                assert(names_of(bound@) =~= names_of(b0).push(v@));
            }
            collect_free_vars(body, bound, free);
            let _ = bound.pop();
            proof {
                assert(bound@ =~= b0);
            }
        },
        Term::Apply(t1, t2) => {
            collect_free_vars(t1, bound, free);
            collect_free_vars(t2, bound, free);
        },
    }
}

/// A term stays in scope when the scope only grows.
proof fn lemma_in_scope_widen(t: SpecTerm, s1: Set<Seq<char>>, s2: Set<Seq<char>>)
    requires
        in_scope(t, s1),
        s1.subset_of(s2),
    ensures
        in_scope(t, s2),
    decreases t,
{
    match t {
        SpecTerm::Var(_) => {},
        SpecTerm::Abs(v, body) => {
            lemma_in_scope_widen(*body, s1.insert(v), s2.insert(v));
        },
        SpecTerm::Apply(t1, t2) => {
            lemma_in_scope_widen(*t1, s1, s2);
            lemma_in_scope_widen(*t2, s1, s2);
        },
    }
}

/// The free-variable walk only appends: everything already discovered
/// stays discovered.
proof fn lemma_free_list_extends(t: SpecTerm, bound: Seq<Seq<char>>, acc: Seq<Seq<char>>)
    ensures
        forall|x: Seq<char>| acc.contains(x) ==> #[trigger] free_list(t, bound, acc).contains(x),
    decreases t,
{
    match t {
        SpecTerm::Var(v) => {
            if !(bound.contains(v) || acc.contains(v)) {
                assert forall|x: Seq<char>| acc.contains(x) implies #[trigger] acc.push(
                    v,
                ).contains(x) by {
                    let i = choose|i: int| 0 <= i < acc.len() && acc[i] == x;
                    assert(acc.push(v)[i] == x);
                }
            }
        },
        SpecTerm::Abs(v, body) => {
            lemma_free_list_extends(*body, bound.push(v), acc);
            assert forall|x: Seq<char>| acc.contains(x) implies #[trigger] free_list(
                t,
                bound,
                acc,
            ).contains(x) by {
                assert(free_list(*body, bound.push(v), acc).contains(x));
            }
        },
        SpecTerm::Apply(t1, t2) => {
            lemma_free_list_extends(*t1, bound, acc);
            lemma_free_list_extends(*t2, bound, free_list(*t1, bound, acc));
            assert forall|x: Seq<char>| acc.contains(x) implies #[trigger] free_list(
                t,
                bound,
                acc,
            ).contains(x) by {
                assert(free_list(*t1, bound, acc).contains(x));
                assert(free_list(*t2, bound, free_list(*t1, bound, acc)).contains(x));
            }
        },
    }
}

/// Pushing a name onto a binder stack adds exactly that name to the
/// set of names in force.
proof fn lemma_push_to_set(bound: Seq<Seq<char>>, v: Seq<char>)
    ensures
        bound.push(v).to_set() =~= bound.to_set().insert(v),
{
    assert forall|x: Seq<char>| bound.push(v).contains(x) implies bound.contains(x) || x
        == v by {
        let i = choose|i: int| 0 <= i < bound.push(v).len() && bound.push(v)[i] == x;
        if i < bound.len() {
            assert(bound[i] == x);
        }
    }
    assert forall|x: Seq<char>| bound.contains(x) implies #[trigger] bound.push(v).contains(
        x,
    ) by {
        let i = choose|i: int| 0 <= i < bound.len() && bound[i] == x;
        assert(bound.push(v)[i] == x);
    }
    assert(bound.push(v).contains(v)) by {
        assert(bound.push(v)[bound.len() as int] == v);
    }
}

/// Every variable of `t` is covered by what the free-variable walk
/// discovers together with the binders in force.
proof fn lemma_free_list_in_scope(t: SpecTerm, bound: Seq<Seq<char>>, acc: Seq<Seq<char>>)
    ensures
        in_scope(t, free_list(t, bound, acc).to_set().union(bound.to_set())),
    decreases t,
{
    let dom = free_list(t, bound, acc).to_set().union(bound.to_set());
    match t {
        SpecTerm::Var(v) => {
            if bound.contains(v) {
                assert(bound.to_set().contains(v));
            } else if acc.contains(v) {
                assert(free_list(t, bound, acc).contains(v));
                assert(free_list(t, bound, acc).to_set().contains(v));
            } else {
                assert(free_list(t, bound, acc) == acc.push(v));
                assert(acc.push(v).contains(v)) by {
                    assert(acc.push(v)[acc.len() as int] == v);
                }
                assert(free_list(t, bound, acc).to_set().contains(v));
            }
        },
        SpecTerm::Abs(v, body) => {
            lemma_free_list_in_scope(*body, bound.push(v), acc);
            let inner = free_list(*body, bound.push(v), acc).to_set().union(
                bound.push(v).to_set(),
            );
            lemma_push_to_set(bound, v);
            lemma_in_scope_widen(*body, inner, dom.insert(v));
        },
        SpecTerm::Apply(t1, t2) => {
            let fl1 = free_list(*t1, bound, acc);
            let fl = free_list(*t2, bound, fl1);
            lemma_free_list_in_scope(*t1, bound, acc);
            lemma_free_list_extends(*t2, bound, fl1);
            assert(fl1.to_set().union(bound.to_set()).subset_of(dom)) by {
                assert(forall|x: Seq<char>| fl1.contains(x) ==> #[trigger] fl.contains(x));
            }
            lemma_in_scope_widen(*t1, fl1.to_set().union(bound.to_set()), dom);
            lemma_free_list_in_scope(*t2, bound, fl1);
        },
    }
}

/// The free-variable walk of a term whose variables are all bound
/// discovers nothing new.
proof fn lemma_closed_free_list(t: SpecTerm, bound: Seq<Seq<char>>, acc: Seq<Seq<char>>)
    requires
        in_scope(t, bound.to_set()),
    ensures
        free_list(t, bound, acc) == acc,
    decreases t,
{
    match t {
        SpecTerm::Var(v) => {
            assert(bound.to_set().contains(v));
            assert(bound.contains(v));
        },
        SpecTerm::Abs(v, body) => {
            lemma_push_to_set(bound, v);
            lemma_closed_free_list(*body, bound.push(v), acc);
        },
        SpecTerm::Apply(t1, t2) => {
            lemma_closed_free_list(*t1, bound, acc);
            lemma_closed_free_list(*t2, bound, acc);
        },
    }
}

/// On a closed term the two conversion entry points agree: there are
/// no free variables to number, so the open-term conversion assigns
/// the same levels as the closed-term one.
pub proof fn lemma_closed_conversions_agree(t: SpecTerm)
    requires
        in_scope(t, Set::empty()),
    ensures
        open_leveled(t) == leveled(t, Map::empty(), 0),
{
    assert(Seq::<Seq<char>>::empty().to_set() =~= Set::<Seq<char>>::empty());
    lemma_closed_free_list(t, Seq::empty(), Seq::empty());
    assert(free_names(t) == Seq::<Seq<char>>::empty());
    assert(list_levels(free_names(t)) == Map::<Seq<char>, nat>::empty());
}

/// A scope numbering a list of names binds exactly those names.
proof fn lemma_list_levels_dom(names: Seq<Seq<char>>, k: Seq<char>)
    ensures
        list_levels(names).dom().contains(k) == names.contains(k),
    decreases names.len(),
{
    if names.len() > 0 {
        lemma_list_levels_dom(names.drop_last(), k);
        if names.contains(k) && k != names.last() {
            let i = choose|i: int| 0 <= i < names.len() && names[i] == k;
            assert(names.drop_last()[i] == k);
        }
        if names.drop_last().contains(k) {
            let i = choose|i: int| 0 <= i < names.drop_last().len() && names.drop_last()[i] == k;
            assert(names[i] == k);
        }
    }
}

impl BruijnLevelsTerm {
    /// Converts a possibly open named term: its free variables are
    /// collected in first-occurrence order and given the levels below
    /// the bound ones, which start at the number of free variables.
    pub fn from_open_term(term: Term) -> (r: BruijnLevelsTerm)
        requires
            free_names(term@).len() + nesting_depth(term@) <= u16::MAX,
        ensures
            r@ == open_leveled(term@),
    {
        let mut bound: Vec<String> = Vec::new();
        let mut free: Vec<String> = Vec::new();
        collect_free_vars(&term, &mut bound, &mut free);
        proof {
            assert(names_of(Seq::<String>::empty()) =~= Seq::<Seq<char>>::empty());
            assert(names_of(free@) == free_names(term@));
        }
        let ghost fl = free_names(term@);
        let mut scope: Vec<(String, u16)> = Vec::new();
        let mut i: usize = 0;
        while i < free.len()
            invariant
                i <= free@.len(),
                free@.len() <= u16::MAX,
                names_of(free@) == fl,
                scope@.len() == i,
                scope_map(scope@) == list_levels(fl.take(i as int)),
                forall|j: int| 0 <= j < i ==> (#[trigger] scope@[j]).0@ == fl[j],
            decreases free@.len() - i,
        {
            let ghost s0 = scope@;
            scope.push((free[i].clone(), i as u16));
            i = i + 1;
            proof {
                assert(scope@.drop_last() =~= s0);
                assert(fl.take(i as int).drop_last() =~= fl.take(i - 1));
                assert(scope_map(scope@) =~= list_levels(fl.take(i as int)));
            }
        }
        proof {
            assert(fl.take(fl.len() as int) =~= fl);
            assert(scope_map(scope@) == list_levels(fl));
            lemma_free_list_in_scope(term@, Seq::empty(), Seq::empty());
            assert(Seq::<Seq<char>>::empty().to_set() =~= Set::empty());
            assert(fl.to_set().union(Set::empty()) =~= fl.to_set());
            assert forall|x: Seq<char>| fl.to_set().contains(x) implies #[trigger] list_levels(
                fl,
            ).dom().contains(x) by {
                lemma_list_levels_dom(fl, x);
            }
            lemma_in_scope_widen(term@, fl.to_set(), list_levels(fl).dom());
        }
        level_term(&term, &mut scope, free.len() as u16)
    }

    /// Converts a closed named term, assigning level 0 to the
    /// outermost binder; every variable must resolve to an enclosing
    /// binder, so open terms must use the open-term entry point.
    pub fn from_closed_term(term: Term) -> (r: BruijnLevelsTerm)
        requires
            in_scope(term@, Set::empty()),
            nesting_depth(term@) <= u16::MAX,
        ensures
            r@ == leveled(term@, Map::empty(), 0),
    {
        let mut scope: Vec<(String, u16)> = Vec::new();
        level_term(&term, &mut scope, 0)
    }
}

impl PartialEq for BruijnLevelsTerm {
    /// Structural equality, levels and retained names included: two
    /// level terms are equal exactly when they model the same term.
    fn eq(&self, other: &BruijnLevelsTerm) -> (r: bool)
        decreases self,
    {
        match (self, other) {
            (BruijnLevelsTerm::Var(l1, n1), BruijnLevelsTerm::Var(l2, n2)) => *l1 == *l2
                && str_eq(n1.as_str(), n2.as_str()),
            (BruijnLevelsTerm::Abs(l1, b1, n1), BruijnLevelsTerm::Abs(l2, b2, n2)) => *l1 == *l2
                && str_eq(n1.as_str(), n2.as_str()) && **b1 == **b2,
            (BruijnLevelsTerm::Apply(a1, b1), BruijnLevelsTerm::Apply(a2, b2)) => **a1 == **a2
                && **b1 == **b2,
            _ => {
                proof {
                    assert(self@ != other@);
                }
                false
            },
        }
    }
}

impl Eq for BruijnLevelsTerm {

}

impl vstd::std_specs::cmp::PartialEqSpecImpl for BruijnLevelsTerm {
    open spec fn obeys_eq_spec() -> bool {
        true
    }

    open spec fn eq_spec(&self, other: &BruijnLevelsTerm) -> bool {
        self@ == other@
    }
}

impl Term {
    /// Alpha-sensitive comparison through the level representation,
    /// as the engine defines it: both operands are converted by the
    /// open-term entry point and their level forms compared
    /// structurally, retained names included.
    pub fn level_equivalent(&self, other: &Term) -> (r: bool)
        requires
            free_names(self@).len() + nesting_depth(self@) <= u16::MAX,
            free_names(other@).len() + nesting_depth(other@) <= u16::MAX,
        ensures
            r == (open_leveled(self@) == open_leveled(other@)),
    {
        let a = BruijnLevelsTerm::from_open_term(self.clone());
        let b = BruijnLevelsTerm::from_open_term(other.clone());
        a == b
    }
}

impl Clone for BruijnLevelsTerm {
    /// A deep copy: the copy and the original model the same term.
    fn clone(&self) -> (r: Self)
        ensures
            r@ == self@,
        decreases self,
    {
        match self {
            BruijnLevelsTerm::Var(l, n) => BruijnLevelsTerm::Var(*l, n.clone()),
            BruijnLevelsTerm::Abs(l, body, n) => BruijnLevelsTerm::Abs(
                *l,
                Box::new((**body).clone()),
                n.clone(),
            ),
            BruijnLevelsTerm::Apply(t1, t2) => BruijnLevelsTerm::Apply(
                Box::new((**t1).clone()),
                Box::new((**t2).clone()),
            ),
        }
    }
}

} // verus!
