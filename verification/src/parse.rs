//! The surface syntax of terms: a backslash (or the binder symbol)
//! introduces an abstraction, parentheses group a left-associative
//! application, lower-case words are variables and upper-case words
//! or numerals are macro names for the definition compiler.

use vstd::prelude::*;

use crate::term::SpecTerm;
use crate::term::Term;
use vstd::string::StrSliceExecFns;

verus! {

/// A parse tree before macro resolution: like a term, but a macro
/// name is still a reference to be resolved.
pub enum SpecRawTerm {
    Var(Seq<char>),
    Macro(Seq<char>),
    Abs(Seq<char>, Box<SpecRawTerm>),
    Apply(Box<SpecRawTerm>, Box<SpecRawTerm>),
}

/// The executable parse tree.
pub enum RawTerm {
    Var(String),
    Macro(String),
    Abs(String, Box<RawTerm>),
    Apply(Box<RawTerm>, Box<RawTerm>),
}

impl View for RawTerm {
    type V = SpecRawTerm;

    open spec fn view(&self) -> SpecRawTerm
        decreases self,
    {
        match self {
            RawTerm::Var(n) => SpecRawTerm::Var(n@),
            RawTerm::Macro(n) => SpecRawTerm::Macro(n@),
            RawTerm::Abs(n, b) => SpecRawTerm::Abs(n@, Box::new((**b)@)),
            RawTerm::Apply(a, b) => SpecRawTerm::Apply(Box::new((**a)@), Box::new((**b)@)),
        }
    }
}

/// Whitespace between tokens.
pub open spec fn is_ws(c: char) -> bool {
    c == ' ' || c == '\t' || c == '\r' || c == '\n'
}

/// The first character of a variable name.
pub open spec fn is_lower(c: char) -> bool {
    'a' <= c <= 'z'
}

/// A character a variable name may continue with: letters and the
/// terminal marker the renamer appends.
pub open spec fn is_var_char(c: char) -> bool {
    is_lower(c) || c == '\''
}

/// A character of a macro name: upper-case letters and digits.
pub open spec fn is_macro_char(c: char) -> bool {
    ('A' <= c <= 'Z') || ('0' <= c <= '9')
}

/// A character that introduces an abstraction.
pub open spec fn is_binder(c: char) -> bool {
    c == '\\' || c == 'λ'
}

/// The first position at or after `pos` that does not hold
/// whitespace.
pub open spec fn skip_ws(s: Seq<char>, pos: int) -> int
    decreases s.len() - pos,
{
    if 0 <= pos < s.len() && is_ws(s[pos]) {
        skip_ws(s, pos + 1)
    } else {
        pos
    }
}

/// The end of a run of variable-name characters starting at `pos`.
pub open spec fn scan_var(s: Seq<char>, pos: int) -> int
    decreases s.len() - pos,
{
    if 0 <= pos < s.len() && is_var_char(s[pos]) {
        scan_var(s, pos + 1)
    } else {
        pos
    }
}

/// The end of a run of macro-name characters starting at `pos`.
pub open spec fn scan_macro(s: Seq<char>, pos: int) -> int
    decreases s.len() - pos,
{
    if 0 <= pos < s.len() && is_macro_char(s[pos]) {
        scan_macro(s, pos + 1)
    } else {
        pos
    }
}

pub(crate) proof fn lemma_skip_ws_bounds(s: Seq<char>, pos: int)
    requires
        0 <= pos,
    ensures
        pos <= skip_ws(s, pos),
        pos <= s.len() ==> skip_ws(s, pos) <= s.len(),
    decreases s.len() - pos,
{
    if pos < s.len() && is_ws(s[pos]) {
        lemma_skip_ws_bounds(s, pos + 1);
    }
}

proof fn lemma_scan_var_bounds(s: Seq<char>, pos: int)
    requires
        0 <= pos,
    ensures
        pos <= scan_var(s, pos),
        pos <= s.len() ==> scan_var(s, pos) <= s.len(),
    decreases s.len() - pos,
{
    if pos < s.len() && is_var_char(s[pos]) {
        lemma_scan_var_bounds(s, pos + 1);
    }
}

pub(crate) proof fn lemma_scan_macro_bounds(s: Seq<char>, pos: int)
    requires
        0 <= pos,
    ensures
        pos <= scan_macro(s, pos),
        pos <= s.len() ==> scan_macro(s, pos) <= s.len(),
    decreases s.len() - pos,
{
    if pos < s.len() && is_macro_char(s[pos]) {
        lemma_scan_macro_bounds(s, pos + 1);
    }
}

/// One term starting at `pos` (after optional whitespace): an
/// abstraction, a parenthesized application, a variable or a macro
/// name. Returns the tree and the position just past it.
pub open spec fn parse_term_at(s: Seq<char>, pos: int) -> Option<(SpecRawTerm, int)>
    decreases s.len() - pos, 0int,
        via parse_term_at_decreases
{
    let p = skip_ws(s, pos);
    if pos < 0 || p >= s.len() || p < pos {
        None
    } else if is_binder(s[p]) {
        if p + 1 < s.len() && is_lower(s[p + 1]) {
            let name_end = scan_var(s, p + 2);
            if name_end < s.len() && s[name_end] == '.' {
                match parse_term_at(s, name_end + 1) {
                    Some((body, body_end)) => Some(
                        (SpecRawTerm::Abs(s.subrange(p + 1, name_end), Box::new(body)), body_end),
                    ),
                    None => None,
                }
            } else {
                None
            }
        } else {
            None
        }
    } else if s[p] == '(' {
        match parse_term_at(s, p + 1) {
            Some((first, first_end)) => if p + 1 < first_end && first_end <= s.len() {
                parse_more_items(s, first_end, first)
            } else {
                None
            },
            None => None,
        }
    } else if is_lower(s[p]) {
        let end = scan_var(s, p + 1);
        Some((SpecRawTerm::Var(s.subrange(p, end)), end))
    } else if is_macro_char(s[p]) {
        let end = scan_macro(s, p + 1);
        Some((SpecRawTerm::Macro(s.subrange(p, end)), end))
    } else {
        None
    }
}

/// The rest of a parenthesized application after its first item:
/// either the closing parenthesis, or one more item folded onto the
/// left-associative application.
pub open spec fn parse_more_items(s: Seq<char>, pos: int, acc: SpecRawTerm) -> Option<
    (SpecRawTerm, int),
>
    decreases s.len() - pos, 1int,
        via parse_more_items_decreases
{
    let q = skip_ws(s, pos);
    if pos < 0 || q >= s.len() || q < pos {
        None
    } else if s[q] == ')' {
        Some((acc, q + 1))
    } else {
        match parse_term_at(s, q) {
            Some((item, item_end)) => if q < item_end && item_end <= s.len() {
                parse_more_items(s, item_end, SpecRawTerm::Apply(Box::new(acc), Box::new(item)))
            } else {
                None
            },
            None => None,
        }
    }
}

#[via_fn]
proof fn parse_term_at_decreases(s: Seq<char>, pos: int) {
    if pos >= 0 {
        lemma_skip_ws_bounds(s, pos);
        let p = skip_ws(s, pos);
        if p < s.len() && p >= pos {
            if is_binder(s[p]) && p + 1 < s.len() && is_lower(s[p + 1]) {
                lemma_scan_var_bounds(s, p + 2);
            }
        }
    }
}

/// A successful parse always makes progress and never runs past the
/// end of the input.
proof fn lemma_more_items_bounds(s: Seq<char>, pos: int, acc: SpecRawTerm)
    requires
        0 <= pos,
    ensures
        parse_more_items(s, pos, acc) matches Some(r) ==> pos < r.1 <= s.len(),
    decreases s.len() - pos, 1int,
{
    lemma_skip_ws_bounds(s, pos);
    let q = skip_ws(s, pos);
    if q < s.len() && q >= pos && s[q] != ')' {
        lemma_parse_bounds(s, q);
        match parse_term_at(s, q) {
            Some((item, item_end)) => {
                if q < item_end && item_end <= s.len() {
                    lemma_more_items_bounds(
                        s,
                        item_end,
                        SpecRawTerm::Apply(Box::new(acc), Box::new(item)),
                    );
                }
            },
            None => {},
        }
    }
}

proof fn lemma_parse_bounds(s: Seq<char>, pos: int)
    requires
        0 <= pos,
    ensures
        parse_term_at(s, pos) matches Some(r) ==> pos < r.1 <= s.len(),
    decreases s.len() - pos, 0int,
{
    lemma_skip_ws_bounds(s, pos);
    let p = skip_ws(s, pos);
    if p < s.len() && p >= pos {
        if is_binder(s[p]) {
            if p + 1 < s.len() && is_lower(s[p + 1]) {
                lemma_scan_var_bounds(s, p + 2);
                let name_end = scan_var(s, p + 2);
                if name_end < s.len() && s[name_end] == '.' {
                    lemma_parse_bounds(s, name_end + 1);
                }
            }
        } else if s[p] == '(' {
            match parse_term_at(s, p + 1) {
                Some((first, first_end)) => {
                    if p + 1 < first_end && first_end <= s.len() {
                        lemma_more_items_bounds(s, first_end, first);
                    }
                },
                None => {},
            }
        } else if is_lower(s[p]) {
            lemma_scan_var_bounds(s, p + 1);
        } else if is_macro_char(s[p]) {
            lemma_scan_macro_bounds(s, p + 1);
        }
    }
}

#[via_fn]
proof fn parse_more_items_decreases(s: Seq<char>, pos: int, acc: SpecRawTerm) {
    if pos >= 0 {
        lemma_skip_ws_bounds(s, pos);
    }
}

/// Relies on String::push: appends exactly one character.
#[verifier::external_body]
fn push_char(s: &mut String, c: char)
    ensures
        final(s)@ == old(s)@.push(c),
{
    s.push(c)
}

/// The characters of a string slice, one by one.
pub(crate) fn to_chars(s: &str) -> (r: Vec<char>)
    ensures
        r@ == s@,
{
    let n = s.unicode_len();
    let mut v: Vec<char> = Vec::new();
    let mut i: usize = 0;
    while i < n
        invariant
            i <= n,
            n == s@.len(),
            v@ =~= s@.take(i as int),
        decreases n - i,
    {
        v.push(s.get_char(i));
        i = i + 1;
    }
    proof {
        assert(s@.take(n as int) =~= s@);
    }
    v
}

/// The string holding the characters of `v` between `from` and `to`.
pub(crate) fn chars_to_string(v: &Vec<char>, from: usize, to: usize) -> (r: String)
    requires
        from <= to <= v@.len(),
    ensures
        r@ == v@.subrange(from as int, to as int),
{
    let mut s = String::new();
    let mut i = from;
    while i < to
        invariant
            from <= i <= to <= v@.len(),
            s@ =~= v@.subrange(from as int, i as int),
        decreases to - i,
    {
        push_char(&mut s, v[i]);
        i = i + 1;
    }
    proof {
        assert(s@ =~= v@.subrange(from as int, to as int));
    }
    s
}

fn is_ws_char(c: char) -> (r: bool)
    ensures
        r == is_ws(c),
{
    c == ' ' || c == '\t' || c == '\r' || c == '\n'
}

fn is_lower_char(c: char) -> (r: bool)
    ensures
        r == is_lower(c),
{
    'a' <= c && c <= 'z'
}

fn is_var_char_exec(c: char) -> (r: bool)
    ensures
        r == is_var_char(c),
{
    is_lower_char(c) || c == '\''
}

pub(crate) fn is_macro_char_exec(c: char) -> (r: bool)
    ensures
        r == is_macro_char(c),
{
    ('A' <= c && c <= 'Z') || ('0' <= c && c <= '9')
}

fn is_binder_char(c: char) -> (r: bool)
    ensures
        r == is_binder(c),
{
    c == '\\' || c == 'λ'
}

#[verifier::loop_isolation(false)]
pub(crate) fn skip_ws_exec(v: &Vec<char>, pos: usize) -> (r: usize)
    requires
        pos <= v@.len(),
    ensures
        r as int == skip_ws(v@, pos as int),
        pos <= r <= v@.len(),
{
    proof {
        lemma_skip_ws_bounds(v@, pos as int);
    }
    let mut i = pos;
    while i < v.len() && is_ws_char(v[i])
        invariant
            pos <= i <= v@.len(),
            skip_ws(v@, pos as int) == skip_ws(v@, i as int),
        decreases v@.len() - i,
    {
        i = i + 1;
    }
    i
}

#[verifier::loop_isolation(false)]
fn scan_var_exec(v: &Vec<char>, pos: usize) -> (r: usize)
    requires
        pos <= v@.len(),
    ensures
        r as int == scan_var(v@, pos as int),
        pos <= r <= v@.len(),
{
    proof {
        lemma_scan_var_bounds(v@, pos as int);
    }
    let mut i = pos;
    while i < v.len() && is_var_char_exec(v[i])
        invariant
            pos <= i <= v@.len(),
            scan_var(v@, pos as int) == scan_var(v@, i as int),
        decreases v@.len() - i,
    {
        i = i + 1;
    }
    i
}

#[verifier::loop_isolation(false)]
pub(crate) fn scan_macro_exec(v: &Vec<char>, pos: usize) -> (r: usize)
    requires
        pos <= v@.len(),
    ensures
        r as int == scan_macro(v@, pos as int),
        pos <= r <= v@.len(),
{
    proof {
        lemma_scan_macro_bounds(v@, pos as int);
    }
    let mut i = pos;
    while i < v.len() && is_macro_char_exec(v[i])
        invariant
            pos <= i <= v@.len(),
            scan_macro(v@, pos as int) == scan_macro(v@, i as int),
        decreases v@.len() - i,
    {
        i = i + 1;
    }
    i
}

/// One term starting at `pos`, as `parse_term_at` describes it.
pub(crate) fn parse_term_exec(v: &Vec<char>, pos: usize) -> (r: Option<(RawTerm, usize)>)
    requires
        pos <= v@.len(),
    ensures
        match r {
            Some(p) => parse_term_at(v@, pos as int) matches Some(sr) && sr.0 == p.0@ && sr.1
                == p.1 as int && pos < p.1 <= v@.len(),
            None => parse_term_at(v@, pos as int) is None,
        },
    decreases v@.len() - pos, 0int,
{
    proof {
        lemma_parse_bounds(v@, pos as int);
    }
    let p = skip_ws_exec(v, pos);
    if p >= v.len() {
        None
    } else if is_binder_char(v[p]) {
        if p + 1 < v.len() && is_lower_char(v[p + 1]) {
            let name_end = scan_var_exec(v, p + 2);
            if name_end < v.len() && v[name_end] == '.' {
                match parse_term_exec(v, name_end + 1) {
                    Some((body, body_end)) => {
                        let name = chars_to_string(v, p + 1, name_end);
                        Some((RawTerm::Abs(name, Box::new(body)), body_end))
                    },
                    None => None,
                }
            } else {
                None
            }
        } else {
            None
        }
    } else if v[p] == '(' {
        match parse_term_exec(v, p + 1) {
            Some((first, first_end)) => parse_more_items_exec(v, first_end, first),
            None => None,
        }
    } else if is_lower_char(v[p]) {
        let end = scan_var_exec(v, p + 1);
        Some((RawTerm::Var(chars_to_string(v, p, end)), end))
    } else if is_macro_char_exec(v[p]) {
        let end = scan_macro_exec(v, p + 1);
        Some((RawTerm::Macro(chars_to_string(v, p, end)), end))
    } else {
        None
    }
}

/// The rest of a parenthesized application, as `parse_more_items`
/// describes it.
fn parse_more_items_exec(v: &Vec<char>, pos: usize, acc: RawTerm) -> (r: Option<(RawTerm, usize)>)
    requires
        pos <= v@.len(),
    ensures
        match r {
            Some(p) => parse_more_items(v@, pos as int, acc@) matches Some(sr) && sr.0 == p.0@
                && sr.1 == p.1 as int && pos < p.1 <= v@.len(),
            None => parse_more_items(v@, pos as int, acc@) is None,
        },
    decreases v@.len() - pos, 1int,
{
    proof {
        lemma_more_items_bounds(v@, pos as int, acc@);
    }
    let q = skip_ws_exec(v, pos);
    if q >= v.len() {
        None
    } else if v[q] == ')' {
        Some((acc, q + 1))
    } else {
        match parse_term_exec(v, q) {
            Some((item, item_end)) => parse_more_items_exec(
                v,
                item_end,
                RawTerm::Apply(Box::new(acc), Box::new(item)),
            ),
            None => None,
        }
    }
}

/// The parse of a whole input: one term, with nothing but whitespace
/// after it.
pub open spec fn parsed_entry(s: Seq<char>) -> Option<SpecRawTerm> {
    match parse_term_at(s, 0) {
        Some((t, e)) => if 0 <= e <= s.len() && skip_ws(s, e) == s.len() {
            Some(t)
        } else {
            None
        },
        None => None,
    }
}

/// The tree mentions no macro name: it is a plain term.
pub open spec fn macro_free(raw: SpecRawTerm) -> bool
    decreases raw,
{
    match raw {
        SpecRawTerm::Var(_) => true,
        SpecRawTerm::Macro(_) => false,
        SpecRawTerm::Abs(_, b) => macro_free(*b),
        SpecRawTerm::Apply(a, b) => macro_free(*a) && macro_free(*b),
    }
}

/// The term a macro-free tree denotes.
pub open spec fn raw_to_term(raw: SpecRawTerm) -> SpecTerm
    decreases raw,
{
    match raw {
        SpecRawTerm::Var(n) => SpecTerm::Var(n),
        SpecRawTerm::Macro(n) => SpecTerm::Var(n),
        SpecRawTerm::Abs(n, b) => SpecTerm::Abs(n, Box::new(raw_to_term(*b))),
        SpecRawTerm::Apply(a, b) => SpecTerm::Apply(
            Box::new(raw_to_term(*a)),
            Box::new(raw_to_term(*b)),
        ),
    }
}

/// The plain term of a macro-free tree; a macro name is a syntax
/// error at this entry point.
pub(crate) fn raw_term_exec(raw: RawTerm) -> (r: Result<Term, ()>)
    ensures
        r is Ok == macro_free(raw@),
        r matches Ok(t) ==> t@ == raw_to_term(raw@),
    decreases raw,
{
    match raw {
        RawTerm::Var(n) => Ok(Term::Var(n)),
        RawTerm::Macro(_) => Err(()),
        RawTerm::Abs(n, b) => match raw_term_exec(*b) {
            Ok(t) => Ok(Term::Abs(n, Box::new(t))),
            Err(e) => Err(e),
        },
        RawTerm::Apply(a, b) => match raw_term_exec(*a) {
            Ok(x) => match raw_term_exec(*b) {
                Ok(y) => Ok(Term::Apply(Box::new(x), Box::new(y))),
                Err(e) => Err(e),
            },
            Err(e) => Err(e),
        },
    }
}

/// Parses the text of one plain term: an abstraction, a variable or
/// a parenthesized application, with no macro names.
pub fn parse_term(input: &str) -> (r: Result<Term, ()>)
    ensures
        r is Ok == (parsed_entry(input@) matches Some(raw) && macro_free(raw)),
        r matches Ok(t) ==> parsed_entry(input@) matches Some(raw) && t@ == raw_to_term(raw),
{
    let v = to_chars(input);
    match parse_term_exec(&v, 0) {
        Some((raw, end)) => {
            let rest = skip_ws_exec(&v, end);
            if rest < v.len() {
                Err(())
            } else {
                raw_term_exec(raw)
            }
        },
        None => Err(()),
    }
}

} // verus!
