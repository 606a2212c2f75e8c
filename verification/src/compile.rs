//! The definition compiler: it turns surface syntax into terms,
//! resolving macro names through a pluggable environment, and
//! processes whole inputs in which each non-blank line is either a
//! definition (a macro name, an equals sign and a term) or a term.

use vstd::prelude::*;

use crate::env::MutableTermEnvironment;
use crate::env::TermEnvironment;
use crate::parse::chars_to_string;
use crate::parse::is_macro_char;
use crate::parse::is_macro_char_exec;
use crate::parse::parse_term_at;
use crate::parse::parse_term_exec;
use crate::parse::parsed_entry;
use crate::parse::scan_macro;
use crate::parse::scan_macro_exec;
use crate::parse::skip_ws;
use crate::parse::skip_ws_exec;
use crate::parse::to_chars;
use crate::parse::RawTerm;
use crate::parse::SpecRawTerm;
use crate::term::SpecTerm;
use crate::term::Term;

verus! {

/// Why a compilation failed: the input is not well-formed syntax, a
/// macro name resolves to nothing, or a definition stands where a
/// term was expected.
#[derive(Debug, Clone, PartialEq, Eq)]
pub enum CompilationError {
    InvalidSyntax,
    UnknownMacros { macro_name: String },
    UnexpectedDefinition,
}

/// What a name resolves to under an environment extended by the
/// definitions already compiled: the definitions shadow the
/// environment.
pub open spec fn overlay_resolve<E: TermEnvironment>(
    env: &E,
    defs: Map<Seq<char>, SpecTerm>,
    name: Seq<char>,
) -> Option<SpecTerm> {
    if defs.dom().contains(name) {
        Some(defs[name])
    } else {
        env.resolve_model(name)
    }
}

/// The term a parse tree compiles to under an environment and the
/// definitions made so far; nothing, when some macro name in it
/// resolves to nothing.
pub open spec fn resolved_raw<E: TermEnvironment>(
    raw: SpecRawTerm,
    env: &E,
    defs: Map<Seq<char>, SpecTerm>,
) -> Option<SpecTerm>
    decreases raw,
{
    match raw {
        SpecRawTerm::Var(n) => Some(SpecTerm::Var(n)),
        SpecRawTerm::Macro(n) => overlay_resolve(env, defs, n),
        SpecRawTerm::Abs(n, b) => match resolved_raw(*b, env, defs) {
            Some(t) => Some(SpecTerm::Abs(n, Box::new(t))),
            None => None,
        },
        SpecRawTerm::Apply(a, b) => match (resolved_raw(*a, env, defs), resolved_raw(
            *b,
            env,
            defs,
        )) {
            (Some(x), Some(y)) => Some(SpecTerm::Apply(Box::new(x), Box::new(y))),
            _ => None,
        },
    }
}

/// Two environment-and-definition pairs that resolve every name
/// alike compile every tree alike.
proof fn lemma_resolved_congruent<E1: TermEnvironment, E2: TermEnvironment>(
    raw: SpecRawTerm,
    env1: &E1,
    defs1: Map<Seq<char>, SpecTerm>,
    env2: &E2,
    defs2: Map<Seq<char>, SpecTerm>,
)
    requires
        forall|n: Seq<char>| #[trigger] overlay_resolve(env1, defs1, n) == overlay_resolve(
            env2,
            defs2,
            n,
        ),
    ensures
        resolved_raw(raw, env1, defs1) == resolved_raw(raw, env2, defs2),
    decreases raw,
{
    match raw {
        SpecRawTerm::Var(_) => {},
        SpecRawTerm::Macro(_) => {},
        SpecRawTerm::Abs(_, b) => {
            lemma_resolved_congruent(*b, env1, defs1, env2, defs2);
        },
        SpecRawTerm::Apply(a, b) => {
            lemma_resolved_congruent(*a, env1, defs1, env2, defs2);
            lemma_resolved_congruent(*b, env1, defs1, env2, defs2);
        },
    }
}

/// Resolves every macro name of `raw` through `env`, reporting the
/// first name (in depth-first order) that resolves to nothing.
fn resolve_raw_exec<E: TermEnvironment>(raw: RawTerm, env: &E) -> (r: Result<
    Term,
    CompilationError,
>)
    ensures
        r is Ok == resolved_raw(raw@, env, Map::empty()) is Some,
        r matches Ok(t) ==> resolved_raw(raw@, env, Map::empty()) matches Some(m) && t@ == m,
        r matches Err(e) ==> e matches CompilationError::UnknownMacros { macro_name } && env
            .resolve_model(macro_name@) is None,
    decreases raw,
{
    match raw {
        RawTerm::Var(n) => Ok(Term::Var(n)),
        RawTerm::Macro(n) => match env.resolve_term(n.as_str()) {
            Some(t) => Ok(t),
            None => Err(CompilationError::UnknownMacros { macro_name: n }),
        },
        RawTerm::Abs(n, b) => match resolve_raw_exec(*b, env) {
            Ok(t) => Ok(Term::Abs(n, Box::new(t))),
            Err(e) => Err(e),
        },
        RawTerm::Apply(a, b) => match resolve_raw_exec(*a, env) {
            Ok(x) => match resolve_raw_exec(*b, env) {
                Ok(y) => Ok(Term::Apply(Box::new(x), Box::new(y))),
                Err(e) => Err(e),
            },
            Err(e) => Err(e),
        },
    }
}

/// The definition a line holds, if it is one: a macro name, an
/// equals sign and a term, with nothing but whitespace left over.
pub open spec fn parsed_definition(line: Seq<char>) -> Option<(Seq<char>, SpecRawTerm)> {
    let p = skip_ws(line, 0);
    if 0 <= p < line.len() && is_macro_char(line[p]) {
        let ne = scan_macro(line, p + 1);
        if p + 1 <= ne <= line.len() {
            let q = skip_ws(line, ne);
            if ne <= q < line.len() && line[q] == '=' {
                match parse_term_at(line, q + 1) {
                    Some((t, e)) => if 0 <= e <= line.len() && skip_ws(line, e) == line.len() {
                        Some((line.subrange(p, ne), t))
                    } else {
                        None
                    },
                    None => None,
                }
            } else {
                None
            }
        } else {
            None
        }
    } else {
        None
    }
}

/// The definition the line holds, as `parsed_definition` describes
/// it.
fn parse_definition_exec(v: &Vec<char>) -> (r: Option<(String, RawTerm)>)
    ensures
        match r {
            Some(p) => parsed_definition(v@) matches Some(sp) && sp.0 == p.0@ && sp.1 == p.1@,
            None => parsed_definition(v@) is None,
        },
{
    let p = skip_ws_exec(v, 0);
    if p < v.len() && is_macro_char_exec(v[p]) {
        let ne = scan_macro_exec(v, p + 1);
        let q = skip_ws_exec(v, ne);
        if q < v.len() && v[q] == '=' {
            match parse_term_exec(v, q + 1) {
                Some((t, e)) => {
                    let rest = skip_ws_exec(v, e);
                    if rest >= v.len() {
                        Some((chars_to_string(v, p, ne), t))
                    } else {
                        None
                    }
                },
                None => None,
            }
        } else {
            None
        }
    } else {
        None
    }
}

/// Compiles the text of one term against an environment: macro names
/// resolve through it, a definition is rejected, and ill-formed
/// syntax is reported rather than compiled.
pub fn compile_term<E: TermEnvironment>(input: &str, env: &E) -> (r: Result<
    Term,
    CompilationError,
>)
    ensures
        r is Ok == (parsed_definition(input@) is None && (parsed_entry(input@) matches Some(raw)
            && resolved_raw(raw, env, Map::empty()) is Some)),
        r matches Ok(t) ==> parsed_entry(input@) matches Some(raw) && resolved_raw(
            raw,
            env,
            Map::empty(),
        ) matches Some(m) && t@ == m,
        r == Err::<Term, CompilationError>(CompilationError::UnexpectedDefinition)
            <==> parsed_definition(input@) is Some,
        r == Err::<Term, CompilationError>(CompilationError::InvalidSyntax)
            <==> parsed_definition(input@) is None && parsed_entry(input@) is None,
{
    let v = to_chars(input);
    if parse_definition_exec(&v).is_some() {
        return Err(CompilationError::UnexpectedDefinition);
    }
    match parse_term_exec(&v, 0) {
        Some((raw, end)) => {
            let rest = skip_ws_exec(&v, end);
            if rest < v.len() {
                Err(CompilationError::InvalidSyntax)
            } else {
                resolve_raw_exec(raw, env)
            }
        },
        None => Err(CompilationError::InvalidSyntax),
    }
}

/// The position of the end of the line starting at `pos`: the next
/// line break, or the end of the input.
pub open spec fn line_end(s: Seq<char>, pos: int) -> int
    decreases s.len() - pos,
{
    if 0 <= pos < s.len() && s[pos] != '\n' {
        line_end(s, pos + 1)
    } else {
        pos
    }
}

proof fn lemma_line_end_bounds(s: Seq<char>, pos: int)
    requires
        0 <= pos,
    ensures
        pos <= line_end(s, pos),
        pos <= s.len() ==> line_end(s, pos) <= s.len(),
    decreases s.len() - pos,
{
    if pos < s.len() && s[pos] != '\n' {
        lemma_line_end_bounds(s, pos + 1);
    }
}

/// The lines of the input from `pos` on, without their line breaks.
pub open spec fn lines_from(s: Seq<char>, pos: int) -> Seq<Seq<char>>
    decreases s.len() - pos,
        via lines_from_decreases
{
    if pos < 0 || pos >= s.len() {
        Seq::empty()
    } else {
        let e = line_end(s, pos);
        if e < s.len() {
            seq![s.subrange(pos, e)] + lines_from(s, e + 1)
        } else {
            seq![s.subrange(pos, e)]
        }
    }
}

#[via_fn]
proof fn lines_from_decreases(s: Seq<char>, pos: int) {
    if 0 <= pos < s.len() {
        lemma_line_end_bounds(s, pos);
    }
}

/// A line holds nothing but whitespace.
pub open spec fn blank_line(line: Seq<char>) -> bool {
    skip_ws(line, 0) == line.len()
}

/// What compiling a list of lines yields, against an environment and
/// the definitions made so far: the terms of the non-definition
/// lines and the final definitions, or nothing when a line is
/// ill-formed or a macro name resolves to nothing. A definition
/// takes effect for every later line.
pub open spec fn file_outcome<E: TermEnvironment>(
    lines: Seq<Seq<char>>,
    env: &E,
    defs: Map<Seq<char>, SpecTerm>,
    acc: Seq<SpecTerm>,
) -> Option<(Seq<SpecTerm>, Map<Seq<char>, SpecTerm>)>
    decreases lines.len(),
{
    if lines.len() == 0 {
        Some((acc, defs))
    } else {
        let line = lines[0];
        if blank_line(line) {
            file_outcome(lines.drop_first(), env, defs, acc)
        } else {
            match parsed_definition(line) {
                Some((name, raw)) => match resolved_raw(raw, env, defs) {
                    Some(t) => file_outcome(lines.drop_first(), env, defs.insert(name, t), acc),
                    None => None,
                },
                None => match parsed_entry(line) {
                    Some(raw) => match resolved_raw(raw, env, defs) {
                        Some(t) => file_outcome(lines.drop_first(), env, defs, acc.push(t)),
                        None => None,
                    },
                    None => None,
                },
            }
        }
    }
}

/// The characters of `v` between `from` and `to`, as their own
/// vector.
fn sub_chars(v: &Vec<char>, from: usize, to: usize) -> (r: Vec<char>)
    requires
        from <= to <= v@.len(),
    ensures
        r@ == v@.subrange(from as int, to as int),
{
    let mut out: Vec<char> = Vec::new();
    let mut i = from;
    while i < to
        invariant
            from <= i <= to <= v@.len(),
            out@ =~= v@.subrange(from as int, i as int),
        decreases to - i,
    {
        out.push(v[i]);
        i = i + 1;
    }
    proof {
        assert(out@ =~= v@.subrange(from as int, to as int));
    }
    out
}

#[verifier::loop_isolation(false)]
fn line_end_exec(v: &Vec<char>, pos: usize) -> (r: usize)
    requires
        pos <= v@.len(),
    ensures
        r as int == line_end(v@, pos as int),
        pos <= r <= v@.len(),
{
    proof {
        lemma_line_end_bounds(v@, pos as int);
    }
    let mut i = pos;
    while i < v.len() && v[i] != '\n'
        invariant
            pos <= i <= v@.len(),
            line_end(v@, pos as int) == line_end(v@, i as int),
        decreases v@.len() - i,
    {
        i = i + 1;
    }
    i
}

/// Compiles a whole input against a mutable environment: each
/// non-blank line is either a definition, which is compiled and
/// added to the environment for the lines after it, or a term, which
/// is compiled and collected. The first ill-formed line or unknown
/// macro name stops the compilation.
#[verifier::loop_isolation(false)]
pub fn compile_file<E: MutableTermEnvironment>(input: &str, env: &mut E) -> (r: Result<
    Vec<Term>,
    CompilationError,
>)
    ensures
        r is Ok == file_outcome(
            lines_from(input@, 0),
            old(env),
            Map::empty(),
            Seq::empty(),
        ) is Some,
        r matches Ok(ts) ==> file_outcome(lines_from(input@, 0), old(env), Map::empty(), Seq::empty())
            matches Some(o) && ts.deep_view() == o.0 && (forall|n: Seq<char>|
            #[trigger] final(env).resolve_model(n) == overlay_resolve(old(env), o.1, n)),
{
    let ghost env0 = *env;
    let v = to_chars(input);
    let mut result: Vec<Term> = Vec::new();
    let ghost mut defs: Map<Seq<char>, SpecTerm> = Map::empty();
    proof {
        assert(result.deep_view() =~= Seq::<SpecTerm>::empty());
    }
    let mut pos: usize = 0;
    while pos < v.len()
        invariant
            pos <= v@.len(),
            file_outcome(lines_from(v@, 0), &env0, Map::empty(), Seq::empty()) == file_outcome(
                lines_from(v@, pos as int),
                &env0,
                defs,
                result.deep_view(),
            ),
            forall|n: Seq<char>| #[trigger] env.resolve_model(n) == overlay_resolve(
                &env0,
                defs,
                n,
            ),
        decreases v@.len() - pos,
    {
        let e = line_end_exec(&v, pos);
        let line = sub_chars(&v, pos, e);
        let ghost rest = if e < v@.len() {
            lines_from(v@, e + 1)
        } else {
            Seq::<Seq<char>>::empty()
        };
        proof {
            assert(lines_from(v@, pos as int) =~= seq![line@] + rest);
            assert((seq![line@] + rest).drop_first() =~= rest);
            assert((seq![line@] + rest)[0] == line@);
        }
        let blank_here = skip_ws_exec(&line, 0);
        if blank_here < line.len() {
            match parse_definition_exec(&line) {
                Some((name, raw)) => {
                    match resolve_raw_exec(raw, env) {
                        Ok(t) => {
                            proof {
                                lemma_resolved_congruent(raw@, env, Map::empty(), &env0, defs);
                            }
                            let ghost tv = t@;
                            let ghost namev = name@;
                            env.add_term(name, t);
                            proof {
                                defs = defs.insert(namev, tv);
                            }
                        },
                        Err(err) => {
                            proof {
                                lemma_resolved_congruent(raw@, env, Map::empty(), &env0, defs);
                            }
                            return Err(err);
                        },
                    }
                },
                None => {
                    match parse_term_exec(&line, 0) {
                        Some((raw, end)) => {
                            let after = skip_ws_exec(&line, end);
                            if after < line.len() {
                                proof {
                                    assert(parsed_entry(line@) is None);
                                }
                                return Err(CompilationError::InvalidSyntax);
                            }
                            match resolve_raw_exec(raw, env) {
                                Ok(t) => {
                                    proof {
                                        lemma_resolved_congruent(
                                            raw@,
                                            env,
                                            Map::empty(),
                                            &env0,
                                            defs,
                                        );
                                    }
                                    let ghost before = result.deep_view();
                                    let ghost tv = t@;
                                    result.push(t);
                                    proof {
                                        assert(result.deep_view() =~= before.push(tv));
                                    }
                                },
                                Err(err) => {
                                    proof {
                                        lemma_resolved_congruent(
                                            raw@,
                                            env,
                                            Map::empty(),
                                            &env0,
                                            defs,
                                        );
                                    }
                                    return Err(err);
                                },
                            }
                        },
                        None => {
                            return Err(CompilationError::InvalidSyntax);
                        },
                    }
                },
            }
        }
        pos = if e < v.len() {
            e + 1
        } else {
            v.len()
        };
    }
    proof {
        assert(lines_from(v@, pos as int) =~= Seq::<Seq<char>>::empty());
    }
    Ok(result)
}

} // verus!
