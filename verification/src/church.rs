//! Predefined Church-encoded terms: booleans, numerals and a few
//! arithmetic combinators, exposed as an environment that resolves
//! their conventional names.

use vstd::prelude::*;

use crate::env::TermEnvironment;
use crate::term::SpecTerm;
use crate::term::str_eq;
use crate::term::Term;

verus! {

/// The Church zero, which is also the Church false: a function that
/// drops its first argument.
pub open spec fn church_zero() -> SpecTerm {
    SpecTerm::Abs(
        "f"@,
        Box::new(SpecTerm::Abs("x"@, Box::new(SpecTerm::Var("x"@)))),
    )
}

/// The Church true: a function that keeps its first argument.
pub open spec fn church_true() -> SpecTerm {
    SpecTerm::Abs(
        "a"@,
        Box::new(SpecTerm::Abs("b"@, Box::new(SpecTerm::Var("a"@)))),
    )
}

/// The body of the Church numeral for `n`: `f` applied `n` times to
/// `x`, except that zero shares the shape of one.
pub open spec fn church_body(n: nat) -> SpecTerm
    decreases n,
{
    if n <= 1 {
        SpecTerm::Apply(Box::new(SpecTerm::Var("f"@)), Box::new(SpecTerm::Var("x"@)))
    } else {
        SpecTerm::Apply(Box::new(SpecTerm::Var("f"@)), Box::new(church_body((n - 1) as nat)))
    }
}

/// The Church numeral for `n`, as this environment builds it.
pub open spec fn church_numeral(n: nat) -> SpecTerm {
    SpecTerm::Abs("f"@, Box::new(SpecTerm::Abs("x"@, Box::new(church_body(n)))))
}

/// The successor combinator on Church numerals.
pub open spec fn church_succ() -> SpecTerm {
    SpecTerm::Abs(
        "n"@,
        Box::new(
            SpecTerm::Abs(
                "f"@,
                Box::new(
                    SpecTerm::Abs(
                        "x"@,
                        Box::new(
                            SpecTerm::Apply(
                                Box::new(SpecTerm::Var("f"@)),
                                Box::new(
                                    SpecTerm::Apply(
                                        Box::new(
                                            SpecTerm::Apply(
                                                Box::new(SpecTerm::Var("n"@)),
                                                Box::new(SpecTerm::Var("f"@)),
                                            ),
                                        ),
                                        Box::new(SpecTerm::Var("x"@)),
                                    ),
                                ),
                            ),
                        ),
                    ),
                ),
            ),
        ),
    )
}

/// The branch combinator: applies a Church boolean to the two
/// alternatives.
pub open spec fn church_branch() -> SpecTerm {
    SpecTerm::Abs(
        "f"@,
        Box::new(
            SpecTerm::Abs(
                "a"@,
                Box::new(
                    SpecTerm::Abs(
                        "b"@,
                        Box::new(
                            SpecTerm::Apply(
                                Box::new(
                                    SpecTerm::Apply(
                                        Box::new(SpecTerm::Var("f"@)),
                                        Box::new(SpecTerm::Var("a"@)),
                                    ),
                                ),
                                Box::new(SpecTerm::Var("b"@)),
                            ),
                        ),
                    ),
                ),
            ),
        ),
    )
}

/// The addition combinator on Church numerals.
pub open spec fn church_add() -> SpecTerm {
    SpecTerm::Abs(
        "m"@,
        Box::new(
            SpecTerm::Abs(
                "n"@,
                Box::new(
                    SpecTerm::Abs(
                        "f"@,
                        Box::new(
                            SpecTerm::Abs(
                                "x"@,
                                Box::new(
                                    SpecTerm::Apply(
                                        Box::new(
                                            SpecTerm::Apply(
                                                Box::new(SpecTerm::Var("n"@)),
                                                Box::new(SpecTerm::Var("f"@)),
                                            ),
                                        ),
                                        Box::new(
                                            SpecTerm::Apply(
                                                Box::new(
                                                    SpecTerm::Apply(
                                                        Box::new(SpecTerm::Var("m"@)),
                                                        Box::new(SpecTerm::Var("f"@)),
                                                    ),
                                                ),
                                                Box::new(SpecTerm::Var("x"@)),
                                            ),
                                        ),
                                    ),
                                ),
                            ),
                        ),
                    ),
                ),
            ),
        ),
    )
}

/// Is `c` a decimal digit?
pub open spec fn is_dec_digit(c: char) -> bool {
    48 <= c as int <= 57
}

/// Every character of `s` is a decimal digit.
pub open spec fn all_digits(s: Seq<char>) -> bool {
    forall|i: int| 0 <= i < s.len() ==> is_dec_digit(#[trigger] s[i])
}

/// The decimal value of a digit sequence.
pub open spec fn dec_value(s: Seq<char>) -> nat
    decreases s.len(),
{
    if s.len() == 0 {
        0
    } else {
        dec_value(s.drop_last()) * 10 + (s.last() as int - 48) as nat
    }
}

/// The digits of a numeral text, with an optional leading plus sign
/// stripped.
pub open spec fn digits_part(s: Seq<char>) -> Seq<char> {
    if s.len() > 0 && s[0] == '+' {
        s.skip(1)
    } else {
        s
    }
}

/// `s` is a numeral a 32-bit unsigned number can hold: at least one
/// digit after the optional sign, only digits, and a value in range.
pub open spec fn u32_parseable(s: Seq<char>) -> bool {
    &&& digits_part(s).len() > 0
    &&& all_digits(digits_part(s))
    &&& dec_value(digits_part(s)) <= u32::MAX
}

/// Extending a digit prefix by one digit multiplies its value by ten
/// and adds the digit.
proof fn lemma_dec_value_extend(s: Seq<char>, j: int)
    requires
        0 <= j < s.len(),
    ensures
        dec_value(s.take(j + 1)) == dec_value(s.take(j)) * 10 + (s[j] as int - 48) as nat,
{
    assert(s.take(j + 1).drop_last() =~= s.take(j));
    assert(s.take(j + 1).last() == s[j]);
}

/// A digit sequence is worth at least any of its prefixes.
proof fn lemma_dec_value_monotone(s: Seq<char>, j: int)
    requires
        0 <= j <= s.len(),
        all_digits(s),
    ensures
        dec_value(s.take(j)) <= dec_value(s),
    decreases s.len() - j,
{
    if j == s.len() {
        assert(s.take(j) =~= s);
    } else {
        lemma_dec_value_extend(s, j);
        assert(dec_value(s.take(j)) <= dec_value(s.take(j + 1)));
        lemma_dec_value_monotone(s, j + 1);
    }
}

/// The environment of predefined Church-encoded terms.
#[derive(Clone, Debug)]
pub struct ChurchEnvironment;

/// What the Church environment resolves: the conventional names of
/// its combinators, and any numeral a 32-bit number can hold.
pub open spec fn church_resolve(name: Seq<char>) -> Option<SpecTerm> {
    if name == "ADD"@ {
        Some(church_add())
    } else if name == "SUCC"@ {
        Some(church_succ())
    } else if name == "IF"@ || name == "BRANCH"@ {
        Some(church_branch())
    } else if name == "ZERO"@ || name == "0"@ {
        Some(church_zero())
    } else if name == "FALSE"@ || name == "F"@ {
        Some(church_zero())
    } else if name == "TRUE"@ || name == "T"@ {
        Some(church_true())
    } else if u32_parseable(name) {
        Some(church_numeral(dec_value(digits_part(name))))
    } else {
        None
    }
}

/// Parses a decimal numeral with an optional leading plus sign into a
/// 32-bit unsigned number; rejects anything else, overflow included.
fn parse_u32(s: &str) -> (r: Option<u32>)
    ensures
        r is Some == u32_parseable(s@),
        r matches Some(v) ==> v as nat == dec_value(digits_part(s@)),
{
    if !s.is_ascii() {
        proof {
            let sv = s@;
            let part = digits_part(sv);
            if u32_parseable(sv) {
                assert forall|i: int| 0 <= i < sv.len() implies '\0' <= #[trigger] sv[i]
                    <= '\u{7f}' by {
                    if sv.len() > 0 && sv[0] == '+' {
                        if i > 0 {
                            assert(sv[i] == part[i - 1]);
                            assert(is_dec_digit(part[i - 1]));
                        }
                    } else {
                        assert(sv[i] == part[i]);
                        assert(is_dec_digit(part[i]));
                    }
                }
                assert(vstd::utf8::is_ascii_chars(sv));
                assert(false);
            }
        }
        return None;
    }
    let n = s.unicode_len();
    let mut i: usize = 0;
    if n > 0 && s.get_ascii(0) == 43 {
        i = 1;
    }
    let ghost part = digits_part(s@);
    let start: usize = i;
    proof {
        assert(part =~= s@.skip(start as int));
    }
    if i >= n {
        proof {
            assert(part.len() == 0);
        }
        return None;
    }
    let mut acc: u32 = 0;
    while i < n
        invariant
            start <= i <= n,
            n == s@.len(),
            s.is_ascii(),
            part == digits_part(s@),
            part == s@.skip(start as int),
            start <= 1,
            n > start,
            all_digits(part.take(i - start)),
            acc as nat == dec_value(part.take(i - start)),
        decreases n - i,
    {
        let d = s.get_ascii(i);
        proof {
            assert(part[i - start] == s@[i as int]);
        }
        if d < 48 || d > 57 {
            proof {
                assert(s@[i as int] as u8 == d);
                assert(s@[i as int] <= '\u{7f}');
                assert(s@[i as int] as int == d as int);
                assert(!is_dec_digit(part[i - start]));
                assert(!all_digits(part));
                assert(!u32_parseable(s@));
            }
            return None;
        }
        let ghost prev = acc as nat;
        let next = match acc.checked_mul(10) {
            Some(m) => m.checked_add((d - 48) as u32),
            None => None,
        };
        match next {
            Some(v) => {
                acc = v;
            },
            None => {
                proof {
                    lemma_dec_value_extend(part, i - start);
                    assert(dec_value(part.take(i - start + 1)) > u32::MAX);
                    if all_digits(part) {
                        lemma_dec_value_monotone(part, i - start + 1);
                        assert(dec_value(part) > u32::MAX);
                    }
                    assert(!u32_parseable(s@));
                }
                return None;
            },
        }
        i = i + 1;
        proof {
            lemma_dec_value_extend(part, i - start - 1);
            assert(part.take(i - start).drop_last() =~= part.take(i - start - 1));
        }
    }
    proof {
        assert(part.take(n - start as int) =~= part);
        assert(u32_parseable(s@));
    }
    Some(acc)
}

impl ChurchEnvironment {
    /// The Church zero, also used as the Church false.
    pub fn zero(&self) -> (r: Term)
        ensures
            r@ == church_zero(),
    {
        Term::abs("f", Term::abs("x", Term::var("x")))
    }

    /// The Church false, which is the Church zero.
    pub fn bool_false(&self) -> (r: Term)
        ensures
            r@ == church_zero(),
    {
        self.zero()
    }

    /// The Church true.
    pub fn bool_true(&self) -> (r: Term)
        ensures
            r@ == church_true(),
    {
        Term::abs("a", Term::abs("b", Term::var("a")))
    }

    /// The Church numeral for `number`.
    pub fn numeral(&self, number: u32) -> (r: Term)
        ensures
            r@ == church_numeral(number as nat),
    {
        let mut num = Term::app(Term::var("f"), Term::var("x"));
        let mut i: u32 = 1;
        while i < number
            invariant
                1 <= i,
                i <= number || (number <= 1 && i == 1),
                num@ == church_body(i as nat),
            decreases number - i,
        {
            num = Term::app(Term::var("f"), num);
            i = i + 1;
        }
        proof {
            assert(num@ == church_body(number as nat));
        }
        Term::abs("f", Term::abs("x", num))
    }

    /// The successor combinator on Church numerals.
    pub fn succ(&self) -> (r: Term)
        ensures
            r@ == church_succ(),
    {
        Term::abs(
            "n",
            Term::abs(
                "f",
                Term::abs(
                    "x",
                    Term::app(
                        Term::var("f"),
                        Term::app(Term::app(Term::var("n"), Term::var("f")), Term::var("x")),
                    ),
                ),
            ),
        )
    }

    /// The branch combinator.
    pub fn branch(&self) -> (r: Term)
        ensures
            r@ == church_branch(),
    {
        Term::abs(
            "f",
            Term::abs(
                "a",
                Term::abs(
                    "b",
                    Term::app(Term::app(Term::var("f"), Term::var("a")), Term::var("b")),
                ),
            ),
        )
    }

    /// The addition combinator on Church numerals.
    pub fn add(&self) -> (r: Term)
        ensures
            r@ == church_add(),
    {
        Term::abs(
            "m",
            Term::abs(
                "n",
                Term::abs(
                    "f",
                    Term::abs(
                        "x",
                        Term::app(
                            Term::app(Term::var("n"), Term::var("f")),
                            Term::app(
                                Term::app(Term::var("m"), Term::var("f")),
                                Term::var("x"),
                            ),
                        ),
                    ),
                ),
            ),
        )
    }
}

impl TermEnvironment for ChurchEnvironment {
    open spec fn resolve_model(&self, name: Seq<char>) -> Option<SpecTerm> {
        church_resolve(name)
    }

    fn resolve_term(&self, name: &str) -> (r: Option<Term>) {
        if str_eq(name, "ADD") {
            Some(self.add())
        } else if str_eq(name, "SUCC") {
            Some(self.succ())
        } else if str_eq(name, "IF") || str_eq(name, "BRANCH") {
            Some(self.branch())
        } else if str_eq(name, "ZERO") || str_eq(name, "0") {
            Some(self.zero())
        } else if str_eq(name, "FALSE") || str_eq(name, "F") {
            Some(self.bool_false())
        } else if str_eq(name, "TRUE") || str_eq(name, "T") {
            Some(self.bool_true())
        } else {
            match parse_u32(name) {
                Some(v) => Some(self.numeral(v)),
                None => None,
            }
        }
    }
}

} // verus!
