//! The rule store: an immutable mapping from rule name to rule body, built
//! once from the configuration source, plus the error taxonomy shared by the
//! whole library.

use vstd::prelude::*;
use crate::identifier::{has_whitespace, Identifier};

verus! {

/// One configuration entry: the rules this rule requires, in declaration
/// order, and the named actions it performs, in declaration order.
#[derive(Debug)]
pub struct RuleBody {
    pub deps: Vec<Identifier>,
    pub actions: Vec<Identifier>,
}

/// The mathematical model of a rule body: both lists as sequences of names.
pub struct RuleView {
    pub deps: Seq<Seq<char>>,
    pub actions: Seq<Seq<char>>,
}

/// The names of a sequence of identifiers.
pub open spec fn name_seq(s: Seq<Identifier>) -> Seq<Seq<char>> {
    s.map_values(|id: Identifier| id@)
}

/// The texts of a sequence of strings.
pub open spec fn text_seq(s: Seq<String>) -> Seq<Seq<char>> {
    s.map_values(|t: String| t@)
}

impl View for RuleBody {
    type V = RuleView;

    open spec fn view(&self) -> RuleView {
        RuleView { deps: name_seq(self.deps@), actions: name_seq(self.actions@) }
    }
}

/// A failure while an action collaborator was performing one action: a
/// message describing the failure and an optional chained cause.
#[derive(Debug, PartialEq)]
pub struct ActionError {
    pub message: String,
    pub cause: Option<Box<ActionError>>,
}

/// Every failure the library reports, surfaced uniformly to the caller.
#[derive(Debug, PartialEq)]
pub enum ConfigError {
    /// A candidate rule or action name contains whitespace; carries the
    /// offending text.
    InvalidIdentifier(String),
    /// The configuration document is malformed; carries the loader's
    /// diagnostic.
    ParseError(String),
    /// A referenced name, as a root request or as a `deps` entry, has no
    /// entry in the rule store.
    UnknownRule(Identifier),
    /// The dependency graph rooted at the requested rule contains a cycle;
    /// carries the cyclic path, whose first and last names coincide.
    DependencyCycle(Vec<Identifier>),
    /// An action failed during orchestration; carries the rule owning the
    /// failed action and the collaborator's underlying error.
    FailedToPerform { rule: Identifier, err: ActionError },
}

/// One raw configuration entry as the loader hands it over, before any
/// validation: the rule's name, its dependency names and its action names.
#[derive(Debug)]
pub struct RawRule {
    pub name: String,
    pub deps: Vec<String>,
    pub actions: Vec<String>,
}

/// True when no listed text contains whitespace.
pub open spec fn all_valid(names: Seq<Seq<char>>) -> bool {
    forall|i: int| 0 <= i < names.len() ==> !has_whitespace(#[trigger] names[i])
}

/// True when a raw entry carries no whitespace in its name, its dependency
/// names or its action names.
pub open spec fn raw_valid(e: RawRule) -> bool {
    &&& !has_whitespace(e.name@)
    &&& all_valid(text_seq(e.deps@))
    &&& all_valid(text_seq(e.actions@))
}

/// True when no two raw entries share a rule name.
pub open spec fn raw_names_distinct(s: Seq<RawRule>) -> bool {
    forall|i: int, j: int| 0 <= i < j < s.len() ==> (#[trigger] s[i].name@) != (#[trigger] s[j].name@)
}

/// True when the text `t` occurs in `s` as a rule name, a dependency name or
/// an action name.
pub open spec fn appears_in(s: Seq<RawRule>, t: Seq<char>) -> bool {
    exists|i: int| 0 <= i < s.len() && {
        ||| (#[trigger] s[i]).name@ == t
        ||| text_seq(s[i].deps@).contains(t)
        ||| text_seq(s[i].actions@).contains(t)
    }
}

/// The immutable rule store: a mapping from rule name to rule body, built
/// once by [`Config::init`] and read-only thereafter.
#[derive(Debug)]
pub struct Config {
    rules: Vec<(Identifier, RuleBody)>,
}

/// The mapping that a sequence of store entries denotes, later entries
/// taking precedence (the store keeps its keys distinct, so precedence never
/// actually decides).
pub open spec fn store_view(s: Seq<(Identifier, RuleBody)>) -> Map<Seq<char>, RuleView>
    decreases s.len(),
{
    if s.len() == 0 {
        Map::empty()
    } else {
        store_view(s.drop_last()).insert(s.last().0@, s.last().1@)
    }
}

/// True when no two store entries share a name.
pub open spec fn keys_distinct(s: Seq<(Identifier, RuleBody)>) -> bool {
    forall|i: int, j: int| 0 <= i < j < s.len() ==> (#[trigger] s[i].0@) != (#[trigger] s[j].0@)
}

impl View for Config {
    type V = Map<Seq<char>, RuleView>;

    closed spec fn view(&self) -> Map<Seq<char>, RuleView> {
        store_view(self.rules@)
    }
}

pub(crate) proof fn lemma_store_view_contains(s: Seq<(Identifier, RuleBody)>, k: Seq<char>)
    ensures
        store_view(s).contains_key(k) <==> exists|i: int| 0 <= i < s.len() && (#[trigger] s[i].0@) == k,
    decreases s.len(),
{
    if s.len() == 0 {
    } else {
        lemma_store_view_contains(s.drop_last(), k);
        if s.last().0@ == k {
            assert(s[s.len() - 1].0@ == k);
        } else {
            if store_view(s).contains_key(k) {
                let i = choose|i: int| 0 <= i < s.drop_last().len() && (#[trigger] s.drop_last()[i].0@) == k;
                assert(s[i].0@ == k);
            }
            if exists|i: int| 0 <= i < s.len() && (#[trigger] s[i].0@) == k {
                let i = choose|i: int| 0 <= i < s.len() && (#[trigger] s[i].0@) == k;
                assert(i < s.len() - 1);
                assert(s.drop_last()[i].0@ == k);
            }
        }
    }
}

pub(crate) proof fn lemma_store_dom_bound(s: Seq<(Identifier, RuleBody)>)
    ensures
        store_view(s).dom().finite(),
        store_view(s).dom().len() <= s.len(),
    decreases s.len(),
{
    if s.len() == 0 {
        assert(store_view(s).dom() =~= Set::<Seq<char>>::empty());
    } else {
        lemma_store_dom_bound(s.drop_last());
        assert(store_view(s).dom() =~= store_view(s.drop_last()).dom().insert(s.last().0@));
    }
}

pub(crate) proof fn lemma_store_view_index(s: Seq<(Identifier, RuleBody)>, i: int)
    requires
        keys_distinct(s),
        0 <= i < s.len(),
    ensures
        store_view(s).contains_key(s[i].0@),
        store_view(s)[s[i].0@] == s[i].1@,
    decreases s.len(),
{
    if i == s.len() - 1 {
    } else {
        assert(keys_distinct(s.drop_last())) by {
            assert(forall|x: int, y: int|
                0 <= x < y < s.drop_last().len() ==> (#[trigger] s.drop_last()[x].0@)
                    != (#[trigger] s.drop_last()[y].0@)) by {
                assert(forall|x: int| 0 <= x < s.drop_last().len() ==> #[trigger] s.drop_last()[x] == s[x]);
            }
        }
        lemma_store_view_index(s.drop_last(), i);
        assert(s.drop_last()[i] == s[i]);
        assert(s.last().0@ != s[i].0@);
    }
}

impl Config {
    #[verifier::type_invariant]
    spec fn store_inv(&self) -> bool {
        keys_distinct(self.rules@)
    }

    /// The stored entries, in insertion order.
    pub(crate) closed spec fn entries(&self) -> Seq<(Identifier, RuleBody)> {
        self.rules@
    }

    /// The store's mapping has finitely many keys, no more than the store
    /// has entries.
    pub(crate) proof fn lemma_dom_bound(&self)
        ensures
            self@.dom().finite(),
            self@.dom().len() <= self.entries().len(),
    {
        lemma_store_dom_bound(self.rules@);
    }

    /// Builds the rule store from the raw entries the configuration loader
    /// produced.  Every name — rule names, dependency names, action names —
    /// is validated to be whitespace-free, and rule names must be distinct;
    /// the store succeeds exactly on such input and then models the entries
    /// as a mapping.
    pub fn init(entries: Vec<RawRule>) -> (r: Result<Config, ConfigError>)
        ensures
            match r {
                Ok(c) => {
                    &&& forall|i: int| 0 <= i < entries@.len() ==> raw_valid(#[trigger] entries@[i])
                    &&& raw_names_distinct(entries@)
                    &&& forall|i: int| 0 <= i < entries@.len() ==> {
                        &&& c@.contains_key((#[trigger] entries@[i]).name@)
                        &&& c@[entries@[i].name@].deps == text_seq(entries@[i].deps@)
                        &&& c@[entries@[i].name@].actions == text_seq(entries@[i].actions@)
                    }
                    &&& forall|k: Seq<char>| c@.contains_key(k)
                        ==> exists|i: int| 0 <= i < entries@.len() && (#[trigger] entries@[i].name@) == k
                },
                Err(ConfigError::InvalidIdentifier(t)) => has_whitespace(t@) && appears_in(entries@, t@),
                Err(ConfigError::ParseError(_)) => !raw_names_distinct(entries@),
                Err(_) => false,
            },
            (forall|i: int| 0 <= i < entries@.len() ==> raw_valid(#[trigger] entries@[i]))
                && raw_names_distinct(entries@) ==> r is Ok,
    {
        let mut rules: Vec<(Identifier, RuleBody)> = Vec::new();
        let n = entries.len();
        let mut i: usize = 0;
        while i < n
            invariant
                n == entries@.len(),
                i <= n,
                rules@.len() == i,
                forall|x: int| 0 <= x < i ==> raw_valid(#[trigger] entries@[x]),
                forall|x: int, y: int| 0 <= x < y < i
                    ==> (#[trigger] entries@[x].name@) != (#[trigger] entries@[y].name@),
                forall|x: int| 0 <= x < i ==> (#[trigger] rules@[x].0@) == entries@[x].name@,
                forall|x: int| 0 <= x < i ==> name_seq((#[trigger] rules@[x].1).deps@)
                    == text_seq(entries@[x].deps@),
                forall|x: int| 0 <= x < i ==> name_seq((#[trigger] rules@[x].1).actions@)
                    == text_seq(entries@[x].actions@),
            decreases n - i,
        {
            let name = match Identifier::new(entries[i].name.clone()) {
                Ok(id) => id,
                Err(t) => {
                    return Err(ConfigError::InvalidIdentifier(t));
                },
            };
            if store_has_name(&rules, &name) {
                return Err(ConfigError::ParseError(String::from_str("duplicate rule name")));
            }
            let deps = match validate_names(&entries[i].deps) {
                Ok(ids) => ids,
                Err(t) => {
                    return Err(ConfigError::InvalidIdentifier(t));
                },
            };
            let actions = match validate_names(&entries[i].actions) {
                Ok(ids) => ids,
                Err(t) => {
                    return Err(ConfigError::InvalidIdentifier(t));
                },
            };
            proof {
                assert(name@ == entries@[i as int].name@);
                assert forall|x: int| 0 <= x < i implies (#[trigger] entries@[x].name@)
                    != entries@[i as int].name@ by {
                    assert(rules@[x].0@ == entries@[x].name@);
                }
            }
            rules.push((name, RuleBody { deps, actions }));
            i = i + 1;
        }
        let c = Config { rules };
        proof {
            assert(keys_distinct(c.rules@));
            assert forall|x: int| 0 <= x < entries@.len() implies {
                &&& c@.contains_key((#[trigger] entries@[x]).name@)
                &&& c@[entries@[x].name@].deps == text_seq(entries@[x].deps@)
                &&& c@[entries@[x].name@].actions == text_seq(entries@[x].actions@)
            } by {
                lemma_store_view_index(c.rules@, x);
            }
            assert forall|k: Seq<char>| c@.contains_key(k) implies exists|x: int|
                0 <= x < entries@.len() && (#[trigger] entries@[x].name@) == k by {
                lemma_store_view_contains(c.rules@, k);
                let x = choose|x: int| 0 <= x < c.rules@.len() && (#[trigger] c.rules@[x].0@) == k;
                assert(entries@[x].name@ == k);
            }
        }
        Ok(c)
    }

    /// The single existence check: the body of `ident`'s rule, or
    /// `UnknownRule` if the store has no such rule.
    pub(crate) fn try_get_rule(&self, ident: &Identifier) -> (r: Result<&RuleBody, ConfigError>)
        ensures
            match r {
                Ok(body) => self@.contains_key(ident@) && body@ == self@[ident@],
                Err(e) => !self@.contains_key(ident@) && match e {
                    ConfigError::UnknownRule(id) => id@ == ident@,
                    _ => false,
                },
            },
    {
        proof {
            use_type_invariant(&*self);
        }
        let n = self.rules.len();
        let mut i: usize = 0;
        while i < n
            invariant
                n == self.rules@.len(),
                i <= n,
                keys_distinct(self.rules@),
                forall|j: int| 0 <= j < i ==> (#[trigger] self.rules@[j].0@) != ident@,
            decreases n - i,
        {
            if self.rules[i].0 == *ident {
                proof {
                    lemma_store_view_index(self.rules@, i as int);
                }
                return Ok(&self.rules[i].1);
            }
            i = i + 1;
        }
        proof {
            lemma_store_view_contains(self.rules@, ident@);
        }
        Err(ConfigError::UnknownRule(ident.clone()))
    }

    /// The declared dependencies of `ident`'s rule, in declaration order, or
    /// `UnknownRule` if the store has no such rule.
    pub fn try_get_rule_deps_conf(&self, ident: &Identifier) -> (r: Result<&Vec<Identifier>, ConfigError>)
        ensures
            match r {
                Ok(deps) => self@.contains_key(ident@) && name_seq(deps@) == self@[ident@].deps,
                Err(e) => !self@.contains_key(ident@) && match e {
                    ConfigError::UnknownRule(id) => id@ == ident@,
                    _ => false,
                },
            },
    {
        match self.try_get_rule(ident) {
            Ok(body) => Ok(&body.deps),
            Err(e) => Err(e),
        }
    }

    /// The file name of the configuration document for one distribution:
    /// `dotm-<distro>.yaml`.  The caller joins it onto the dotfiles
    /// directory.
    pub fn config_file_name(distro_id: &str) -> (r: String)
        ensures
            r@ == "dotm-"@ + distro_id@ + ".yaml"@,
    {
        let mut s = String::from_str("dotm-");
        s.append(distro_id);
        s.append(".yaml");
        proof {
            assert(s@ =~= "dotm-"@ + distro_id@ + ".yaml"@);
        }
        s
    }

}

/// True when some store entry carries the given name.
fn store_has_name(rules: &Vec<(Identifier, RuleBody)>, name: &Identifier) -> (r: bool)
    ensures
        r == exists|i: int| 0 <= i < rules@.len() && (#[trigger] rules@[i].0@) == name@,
{
    let n = rules.len();
    let mut i: usize = 0;
    while i < n
        invariant
            n == rules@.len(),
            i <= n,
            forall|j: int| 0 <= j < i ==> (#[trigger] rules@[j].0@) != name@,
        decreases n - i,
    {
        if rules[i].0 == *name {
            return true;
        }
        i = i + 1;
    }
    false
}

/// Validates a list of raw names, turning each into an [`Identifier`]; on
/// the first whitespace-carrying name, hands that text back.
fn validate_names(names: &Vec<String>) -> (r: Result<Vec<Identifier>, String>)
    ensures
        match r {
            Ok(ids) => all_valid(text_seq(names@)) && name_seq(ids@) == text_seq(names@),
            Err(t) => has_whitespace(t@) && text_seq(names@).contains(t@),
        },
{
    let n = names.len();
    let mut ids: Vec<Identifier> = Vec::new();
    let mut i: usize = 0;
    while i < n
        invariant
            n == names@.len(),
            i <= n,
            ids@.len() == i,
            forall|j: int| 0 <= j < i ==> !has_whitespace(#[trigger] text_seq(names@)[j]),
            forall|j: int| 0 <= j < i ==> (#[trigger] ids@[j]@) == names@[j]@,
        decreases n - i,
    {
        match Identifier::new(names[i].clone()) {
            Ok(id) => {
                ids.push(id);
            },
            Err(t) => {
                assert(text_seq(names@)[i as int] == t@);
                return Err(t);
            },
        }
        i = i + 1;
    }
    proof {
        assert(name_seq(ids@) =~= text_seq(names@));
    }
    Ok(ids)
}

} // verus!
