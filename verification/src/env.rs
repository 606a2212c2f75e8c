//! Pluggable name resolution: a term environment maps a symbolic name
//! to a term. A registry holds explicit definitions; a compound
//! environment queries its own definitions first and then a list of
//! sources in priority order.

use vstd::prelude::*;

use crate::church::ChurchEnvironment;
use crate::church::church_resolve;
use crate::term::SpecTerm;
use crate::term::str_eq;
use crate::term::Term;

verus! {

/// A capability that resolves a symbolic name to a term.
pub trait TermEnvironment: Sized {
    /// What this environment resolves each name to.
    spec fn resolve_model(&self, name: Seq<char>) -> Option<SpecTerm>;

    /// The term this environment binds `name` to, if any.
    fn resolve_term(&self, name: &str) -> (r: Option<Term>)
        ensures
            r is Some == self.resolve_model(name@) is Some,
            r matches Some(t) ==> self.resolve_model(name@) matches Some(m) && t@ == m,
    ;
}

/// An environment that can also learn new definitions.
pub trait MutableTermEnvironment: TermEnvironment {
    /// Binds `name` to `term`, shadowing any earlier binding.
    fn add_term(&mut self, name: String, term: Term)
        ensures
            forall|n: Seq<char>|
                #[trigger] final(self).resolve_model(n) == if n == name@ {
                    Some(term@)
                } else {
                    old(self).resolve_model(n)
                },
    ;
}

/// The bindings a definition list denotes: later definitions shadow
/// earlier ones with the same name.
pub open spec fn terms_map(s: Seq<(String, Term)>) -> Map<Seq<char>, SpecTerm>
    decreases s.len(),
{
    if s.len() == 0 {
        Map::empty()
    } else {
        terms_map(s.drop_last()).insert(s.last().0@, s.last().1@)
    }
}

/// A definition whose name matches, with nothing matching after it,
/// is the one the map resolves to.
proof fn lemma_terms_map_at(s: Seq<(String, Term)>, k: Seq<char>, i: int)
    requires
        0 <= i < s.len(),
        s[i].0@ == k,
        forall|j: int| i < j < s.len() ==> s[j].0@ != k,
    ensures
        terms_map(s).dom().contains(k),
        terms_map(s)[k] == s[i].1@,
    decreases s.len(),
{
    if i < s.len() - 1 {
        assert(s.drop_last()[i] == s[i]);
        assert(forall|j: int| i < j < s.drop_last().len() ==> s.drop_last()[j] == s[j]);
        lemma_terms_map_at(s.drop_last(), k, i);
    }
}

/// A name that no definition carries is not in the map.
proof fn lemma_terms_map_absent(s: Seq<(String, Term)>, k: Seq<char>)
    requires
        forall|j: int| 0 <= j < s.len() ==> s[j].0@ != k,
    ensures
        !terms_map(s).dom().contains(k),
    decreases s.len(),
{
    if s.len() > 0 {
        assert(forall|j: int| 0 <= j < s.drop_last().len() ==> s.drop_last()[j] == s[j]);
        lemma_terms_map_absent(s.drop_last(), k);
    }
}

/// The definition bound to `name` in `defs`, scanning from the most
/// recent definition down.
fn lookup_term(defs: &Vec<(String, Term)>, name: &str) -> (r: Option<Term>)
    ensures
        r is Some == terms_map(defs@).dom().contains(name@),
        r matches Some(t) ==> terms_map(defs@).dom().contains(name@) && t@ == terms_map(
            defs@,
        )[name@],
{
    let mut i: usize = defs.len();
    while i > 0
        invariant
            i <= defs@.len(),
            forall|j: int| i <= j < defs@.len() ==> defs@[j].0@ != name@,
        decreases i,
    {
        i = i - 1;
        if str_eq(defs[i].0.as_str(), name) {
            proof {
                lemma_terms_map_at(defs@, name@, i as int);
            }
            return Some(defs[i].1.clone());
        }
    }
    proof {
        lemma_terms_map_absent(defs@, name@);
    }
    None
}

/// An environment backed by an explicit list of definitions.
#[derive(Clone, Debug)]
pub struct RegistryEnvironment {
    defs: Vec<(String, Term)>,
}

impl Default for RegistryEnvironment {
    /// The empty registry.
    fn default() -> (r: Self)
        ensures
            forall|n: Seq<char>| #[trigger] r.resolve_model(n) is None,
    {
        RegistryEnvironment { defs: Vec::new() }
    }
}

impl RegistryEnvironment {
    /// An empty registry: it resolves nothing.
    pub fn new() -> (r: Self)
        ensures
            forall|n: Seq<char>| #[trigger] r.resolve_model(n) is None,
    {
        RegistryEnvironment { defs: Vec::new() }
    }
}

impl TermEnvironment for RegistryEnvironment {
    closed spec fn resolve_model(&self, name: Seq<char>) -> Option<SpecTerm> {
        if terms_map(self.defs@).dom().contains(name) {
            Some(terms_map(self.defs@)[name])
        } else {
            None
        }
    }

    fn resolve_term(&self, name: &str) -> (r: Option<Term>) {
        lookup_term(&self.defs, name)
    }
}

impl MutableTermEnvironment for RegistryEnvironment {
    fn add_term(&mut self, name: String, term: Term) {
        let ghost d0 = self.defs@;
        self.defs.push((name, term));
        proof {
            assert(self.defs@.drop_last() =~= d0);
        }
    }
}

/// One source a compound environment can query.
pub enum EnvSource {
    Registry(RegistryEnvironment),
    Church(ChurchEnvironment),
}

impl TermEnvironment for EnvSource {
    open spec fn resolve_model(&self, name: Seq<char>) -> Option<SpecTerm> {
        match self {
            EnvSource::Registry(e) => e.resolve_model(name),
            EnvSource::Church(e) => e.resolve_model(name),
        }
    }

    fn resolve_term(&self, name: &str) -> (r: Option<Term>) {
        match self {
            EnvSource::Registry(e) => e.resolve_term(name),
            EnvSource::Church(e) => e.resolve_term(name),
        }
    }
}

/// What a list of sources resolves: the first source that knows the
/// name wins.
pub open spec fn sources_resolve(envs: Seq<EnvSource>, name: Seq<char>) -> Option<SpecTerm>
    decreases envs.len(),
{
    if envs.len() == 0 {
        None
    } else {
        match envs[0].resolve_model(name) {
            Some(m) => Some(m),
            None => sources_resolve(envs.drop_first(), name),
        }
    }
}

/// An environment composed of explicit definitions, which take
/// priority, and a list of further sources queried in order.
pub struct CompoundEnvironment {
    envs: Vec<EnvSource>,
    defs: Vec<(String, Term)>,
}

impl Default for CompoundEnvironment {
    /// A compound environment with no sources and no definitions: it
    /// resolves nothing.
    fn default() -> (r: Self)
        ensures
            r.sources() == Seq::<EnvSource>::empty(),
            forall|n: Seq<char>| #[trigger] r.resolve_model(n) is None,
    {
        CompoundEnvironment { envs: Vec::new(), defs: Vec::new() }
    }
}

impl CompoundEnvironment {
    /// The sources this environment queries after its own
    /// definitions.
    pub closed spec fn sources(&self) -> Seq<EnvSource> {
        self.envs@
    }

    /// A compound environment over the given sources, with no
    /// definitions of its own yet.
    pub fn new(envs: Vec<EnvSource>) -> (r: Self)
        ensures
            r.sources() == envs@,
            forall|n: Seq<char>| #[trigger] r.resolve_model(n) == sources_resolve(envs@, n),
    {
        CompoundEnvironment { envs, defs: Vec::new() }
    }

    /// Gives the sources back, dropping the explicit definitions.
    pub fn decompose(self) -> (r: Vec<EnvSource>)
        ensures
            r@ == self.sources(),
    {
        self.envs
    }
}

impl TermEnvironment for CompoundEnvironment {
    closed spec fn resolve_model(&self, name: Seq<char>) -> Option<SpecTerm> {
        if terms_map(self.defs@).dom().contains(name) {
            Some(terms_map(self.defs@)[name])
        } else {
            sources_resolve(self.envs@, name)
        }
    }

    #[verifier::loop_isolation(false)]
    fn resolve_term(&self, name: &str) -> (r: Option<Term>) {
        match lookup_term(&self.defs, name) {
            Some(t) => Some(t),
            None => {
                let mut i: usize = 0;
                proof {
                    assert(self.envs@.skip(0) =~= self.envs@);
                }
                while i < self.envs.len()
                    invariant
                        i <= self.envs@.len(),
                        sources_resolve(self.envs@, name@) == sources_resolve(
                            self.envs@.skip(i as int),
                            name@,
                        ),
                    decreases self.envs@.len() - i,
                {
                    let found = self.envs[i].resolve_term(name);
                    proof {
                        assert(self.envs@.skip(i as int)[0] == self.envs@[i as int]);
                        assert(self.envs@.skip(i as int).drop_first() =~= self.envs@.skip(
                            i + 1,
                        ));
                    }
                    if found.is_some() {
                        return found;
                    }
                    i = i + 1;
                }
                proof {
                    assert(self.envs@.skip(self.envs@.len() as int).len() == 0);
                }
                None
            },
        }
    }
}

impl MutableTermEnvironment for CompoundEnvironment {
    fn add_term(&mut self, name: String, term: Term) {
        let ghost d0 = self.defs@;
        self.defs.push((name, term));
        proof {
            assert(self.defs@.drop_last() =~= d0);
        }
    }
}

/// The standard environment: the Church-encoded predefined terms.
pub fn standard_environment() -> (r: CompoundEnvironment)
    ensures
        forall|n: Seq<char>| #[trigger] r.resolve_model(n) == church_resolve(n),
{
    let mut envs: Vec<EnvSource> = Vec::new();
    envs.push(EnvSource::Church(ChurchEnvironment));
    let ghost e = envs@;
    proof {
        assert(e.drop_first() =~= Seq::<EnvSource>::empty());
        assert forall|n: Seq<char>| #[trigger] sources_resolve(e, n) == church_resolve(n) by {
            assert(e[0] == EnvSource::Church(ChurchEnvironment));
            assert(e.drop_first().len() == 0);
            assert(sources_resolve(e.drop_first(), n) is None);
        }
    }
    CompoundEnvironment::new(envs)
}

} // verus!
