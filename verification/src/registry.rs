//! Named agent kinds and the registry that holds them.
//!
//! A host builds an [`AgentBlueprint`] that bundles a tool provider and
//! registers it in an [`AgentRegistry`]; agents are later spawned by kind name.
use crate::text::{push_str, str_seq_views, string_from};
use std::sync::Arc;
use vstd::prelude::*;

verus! {

/// Another handle on the value behind `a`: `Arc::clone` makes a new pointer
/// to the same allocation, so the value seen through it is `a`'s.
#[verifier::external_body]
fn share<T>(a: &Arc<T>) -> (res: Arc<T>)
    ensures
        res == *a,
{
    Arc::clone(a)
}

/// Why an agent kind could not be used.
#[derive(Debug)]
pub enum AgentBlueprintError {
    /// No kind of that name is registered.
    NotFound(String),
    /// The kind's agent could not be built.
    BuildFailed { kind: String, reason: String },
}

/// The text of an `AgentBlueprintError`.
pub open spec fn blueprint_error_text(e: AgentBlueprintError) -> Seq<char> {
    match e {
        AgentBlueprintError::NotFound(name) => "agent kind '"@ + name@ + "' not registered"@,
        AgentBlueprintError::BuildFailed { kind, reason } => "kind '"@ + kind@
            + "' failed to build: "@ + reason@,
    }
}

impl AgentBlueprintError {
    /// The error's message.
    pub fn message(&self) -> (r: String)
        ensures
            r@ == blueprint_error_text(*self),
    {
        let mut out = String::new();
        match self {
            AgentBlueprintError::NotFound(name) => {
                push_str(&mut out, "agent kind '");
                push_str(&mut out, name.as_str());
                push_str(&mut out, "' not registered");
            },
            AgentBlueprintError::BuildFailed { kind, reason } => {
                push_str(&mut out, "kind '");
                push_str(&mut out, kind.as_str());
                push_str(&mut out, "' failed to build: ");
                push_str(&mut out, reason.as_str());
            },
        }
        out
    }
}

/// A named kind of agent that bundles a tool provider `P`.
pub struct AgentBlueprint<P> {
    /// Machine-readable identifier (e.g. "coder").
    pub name: String,
    /// Human-readable label.
    pub display_name: String,
    /// Resolves tool names to implementations.
    pub tool_provider: P,
    /// The prompt identity agents of this kind start with, if any.
    pub default_identity: Option<String>,
}

impl<P> AgentBlueprint<P> {
    /// A kind with the given names and tool provider, and no default identity.
    pub fn new(name: &str, display_name: &str, tool_provider: P) -> (r: Self)
        ensures
            r.name@ == name@,
            r.display_name@ == display_name@,
            r.tool_provider == tool_provider,
            r.default_identity is None,
    {
        AgentBlueprint {
            name: string_from(name),
            display_name: string_from(display_name),
            tool_provider,
            default_identity: None,
        }
    }

    /// This kind with `identity` as its default prompt identity.
    pub fn with_identity(self, identity: &str) -> (r: Self)
        ensures
            r.name == self.name,
            r.display_name == self.display_name,
            r.tool_provider == self.tool_provider,
            r.default_identity matches Some(s) && s@ == identity@,
    {
        let mut r = self;
        r.default_identity = Some(string_from(identity));
        r
    }
}

/// The identity of the built-in generic coder.
pub open spec fn coder_identity() -> Seq<char> {
    "You are a helpful coding assistant. You can read, write, and edit files, run shell commands, and fetch web content."@
}

/// The built-in generic "coder" kind, with the given tool provider (the
/// primitive tools: shell, file reading, writing and editing, search, web
/// fetch).
pub fn coder_kind<P>(tool_provider: P) -> (r: Arc<AgentBlueprint<P>>)
    ensures
        r.name@ == "coder"@,
        r.display_name@ == "Generic Coder"@,
        r.tool_provider == tool_provider,
        r.default_identity matches Some(s) && s@ == coder_identity(),
{
    let blueprint = AgentBlueprint::new("coder", "Generic Coder", tool_provider).with_identity(
        "You are a helpful coding assistant. You can read, write, and edit files, run shell commands, and fetch web content.",
    );
    Arc::new(blueprint)
}

/// Whether some entry of `s` is filed under `k`.
pub open spec fn has_key<P>(s: Seq<(String, Arc<AgentBlueprint<P>>)>, k: Seq<char>) -> bool {
    exists|i: int| 0 <= i < s.len() && #[trigger] s[i].0@ == k
}

/// The entries' keys are distinct, and each entry is filed under its kind's name.
pub open spec fn entries_ok<P>(s: Seq<(String, Arc<AgentBlueprint<P>>)>) -> bool {
    &&& forall|i: int, j: int|
        0 <= i < s.len() && 0 <= j < s.len() && i != j ==> #[trigger] s[i].0@ != #[trigger] s[j].0@
    &&& forall|i: int| 0 <= i < s.len() ==> #[trigger] s[i].0@ == s[i].1.name@
}

/// The kinds of `s` by name.
pub open spec fn entries_map<P>(s: Seq<(String, Arc<AgentBlueprint<P>>)>) -> Map<
    Seq<char>,
    AgentBlueprint<P>,
> {
    Map::new(
        |k: Seq<char>| has_key(s, k),
        |k: Seq<char>| *s[choose|i: int| 0 <= i < s.len() && #[trigger] s[i].0@ == k].1,
    )
}

/// In well-formed entries, the kind filed under `s[i].0` is `s[i].1`.
proof fn lemma_entry_lookup<P>(s: Seq<(String, Arc<AgentBlueprint<P>>)>, i: int)
    requires
        entries_ok(s),
        0 <= i < s.len(),
    ensures
        entries_map(s).dom().contains(s[i].0@),
        entries_map(s)[s[i].0@] == *s[i].1,
{
    let k = s[i].0@;
    assert(has_key(s, k));
    let j = choose|j: int| 0 <= j < s.len() && #[trigger] s[j].0@ == k;
    assert(s[j].0@ == k);
    assert(j == i);
}

/// Where `name` is filed in `kinds`, if it is.
fn position<P>(kinds: &Vec<(String, Arc<AgentBlueprint<P>>)>, name: &String) -> (r: Option<usize>)
    ensures
        match r {
            Some(i) => i < kinds@.len() && kinds@[i as int].0@ == name@,
            None => !has_key(kinds@, name@),
        },
{
    let mut i: usize = 0;
    while i < kinds.len()
        invariant
            i <= kinds@.len(),
            forall|j: int| 0 <= j < i ==> #[trigger] kinds@[j].0@ != name@,
        decreases kinds.len() - i,
    {
        if kinds[i].0 == *name {
            return Some(i);
        }
        i = i + 1;
    }
    None
}

/// Registered agent kinds, by name. The kinds are held as a list with at
/// most one entry per name, whose view is the map by name: vstd specifies
/// `HashMap` lookups only for keys whose hashing it models, which `String`
/// keys are not.
pub struct AgentRegistry<P> {
    kinds: Vec<(String, Arc<AgentBlueprint<P>>)>,
}

impl<P> View for AgentRegistry<P> {
    type V = Map<Seq<char>, AgentBlueprint<P>>;

    /// The registered kinds by name.
    closed spec fn view(&self) -> Map<Seq<char>, AgentBlueprint<P>> {
        entries_map(self.kinds@)
    }
}

/// The registry after registering `kind`: it is filed under its name,
/// replacing any kind of that name.
pub open spec fn spec_register<P>(m: Map<Seq<char>, AgentBlueprint<P>>, kind: AgentBlueprint<P>) -> Map<
    Seq<char>,
    AgentBlueprint<P>,
> {
    m.insert(kind.name@, kind)
}

/// What a lookup of `name` gives.
pub open spec fn spec_lookup<P>(m: Map<Seq<char>, AgentBlueprint<P>>, name: Seq<char>) -> Option<
    AgentBlueprint<P>,
> {
    if m.dom().contains(name) {
        Some(m[name])
    } else {
        None
    }
}

impl<P> AgentRegistry<P> {
    #[verifier::type_invariant]
    closed spec fn well_formed(self) -> bool {
        entries_ok(self.kinds@)
    }

    /// An empty registry.
    pub fn new() -> (r: Self)
        ensures
            r@ == Map::<Seq<char>, AgentBlueprint<P>>::empty(),
    {
        let r = AgentRegistry { kinds: Vec::new() };
        assert(r@ =~= Map::<Seq<char>, AgentBlueprint<P>>::empty());
        r
    }

    /// Registers `kind` under its name, replacing any kind of that name.
    pub fn register(&mut self, kind: Arc<AgentBlueprint<P>>)
        ensures
            final(self)@ == spec_register(old(self)@, *kind),
    {
        proof {
            use_type_invariant(&*self);
        }
        let ghost old_s = self.kinds@;
        let name = kind.name.clone();
        let found = position(&self.kinds, &name);
        let ghost new_s: Seq<(String, Arc<AgentBlueprint<P>>)>;
        if let Some(i) = found {
            let mut kinds = Vec::new();
            std::mem::swap(&mut kinds, &mut self.kinds);
            kinds.set(i, (name, kind));
            proof {
                new_s = kinds@;
                assert(old_s[i as int].0@ == kind.name@);
                assert(new_s == old_s.update(i as int, new_s[i as int]));
                assert(entries_ok(new_s));
                lemma_entry_lookup(new_s, i as int);
                assert forall|k: Seq<char>| #[trigger]
                    entries_map(new_s).dom().contains(k) == spec_register(
                        entries_map(old_s),
                        *kind,
                    ).dom().contains(k) by {
                    if k != kind.name@ {
                        if has_key(new_s, k) {
                            let j = choose|j: int| 0 <= j < new_s.len() && #[trigger] new_s[j].0@ == k;
                            assert(old_s[j].0@ == k);
                        }
                        if has_key(old_s, k) {
                            let j = choose|j: int| 0 <= j < old_s.len() && #[trigger] old_s[j].0@ == k;
                            assert(new_s[j].0@ == k);
                        }
                    }
                }
                assert forall|k: Seq<char>| #[trigger]
                    entries_map(new_s).dom().contains(k) implies entries_map(new_s)[k]
                    == spec_register(entries_map(old_s), *kind)[k] by {
                    if k != kind.name@ {
                        let j = choose|j: int| 0 <= j < new_s.len() && #[trigger] new_s[j].0@ == k;
                        assert(old_s[j].0@ == k);
                        lemma_entry_lookup(new_s, j);
                        lemma_entry_lookup(old_s, j);
                    }
                }
                assert(entries_map(new_s) =~= spec_register(entries_map(old_s), *kind));
            }
            self.kinds = kinds;
        } else {
            let mut kinds = Vec::new();
            std::mem::swap(&mut kinds, &mut self.kinds);
            kinds.push((name, kind));
            proof {
                new_s = kinds@;
                assert(new_s == old_s.push(new_s[old_s.len() as int]));
                assert(entries_ok(new_s));
                lemma_entry_lookup(new_s, old_s.len() as int);
                assert forall|k: Seq<char>| #[trigger]
                    entries_map(new_s).dom().contains(k) == spec_register(
                        entries_map(old_s),
                        *kind,
                    ).dom().contains(k) by {
                    if k != kind.name@ {
                        if has_key(new_s, k) {
                            let j = choose|j: int| 0 <= j < new_s.len() && #[trigger] new_s[j].0@ == k;
                            assert(old_s[j].0@ == k);
                        }
                        if has_key(old_s, k) {
                            let j = choose|j: int| 0 <= j < old_s.len() && #[trigger] old_s[j].0@ == k;
                            assert(new_s[j].0@ == k);
                        }
                    }
                }
                assert forall|k: Seq<char>| #[trigger]
                    entries_map(new_s).dom().contains(k) implies entries_map(new_s)[k]
                    == spec_register(entries_map(old_s), *kind)[k] by {
                    if k != kind.name@ {
                        let j = choose|j: int| 0 <= j < new_s.len() && #[trigger] new_s[j].0@ == k;
                        assert(old_s[j].0@ == k);
                        lemma_entry_lookup(new_s, j);
                        lemma_entry_lookup(old_s, j);
                    }
                }
                assert(entries_map(new_s) =~= spec_register(entries_map(old_s), *kind));
            }
            self.kinds = kinds;
        }
    }

    /// Removes the kind named `name`, if there is one.
    pub fn unregister(&mut self, name: &str)
        ensures
            final(self)@ == old(self)@.remove(name@),
    {
        proof {
            use_type_invariant(&*self);
        }
        let ghost old_s = self.kinds@;
        let key = string_from(name);
        match position(&self.kinds, &key) {
            Some(i) => {
                let mut kinds = Vec::new();
                std::mem::swap(&mut kinds, &mut self.kinds);
                kinds.remove(i);
                proof {
                    let new_s = kinds@;
                    assert(new_s == old_s.remove(i as int));
                    assert forall|a: int, b: int|
                        0 <= a < new_s.len() && 0 <= b < new_s.len() && a != b implies #[trigger] new_s[a].0@
                        != #[trigger] new_s[b].0@ by {
                        let oa = if a < i { a } else { a + 1 };
                        let ob = if b < i { b } else { b + 1 };
                        assert(new_s[a] == old_s[oa]);
                        assert(new_s[b] == old_s[ob]);
                    }
                    assert forall|a: int| 0 <= a < new_s.len() implies #[trigger] new_s[a].0@
                        == new_s[a].1.name@ by {
                        let oa = if a < i { a } else { a + 1 };
                        assert(new_s[a] == old_s[oa]);
                    }
                    assert(entries_ok(new_s));
                    assert forall|k: Seq<char>| #[trigger]
                        entries_map(new_s).dom().contains(k) == entries_map(old_s).remove(
                            name@,
                        ).dom().contains(k) by {
                        if has_key(new_s, k) {
                            let j = choose|j: int| 0 <= j < new_s.len() && #[trigger] new_s[j].0@ == k;
                            let oj = if j < i { j } else { j + 1 };
                            assert(old_s[oj].0@ == k);
                            assert(oj != i);
                        }
                        if has_key(old_s, k) && k != name@ {
                            let j = choose|j: int| 0 <= j < old_s.len() && #[trigger] old_s[j].0@ == k;
                            assert(j != i);
                            let nj = if j < i { j } else { j - 1 };
                            assert(new_s[nj].0@ == k);
                        }
                    }
                    assert forall|k: Seq<char>| #[trigger]
                        entries_map(new_s).dom().contains(k) implies entries_map(new_s)[k]
                        == entries_map(old_s).remove(name@)[k] by {
                        let j = choose|j: int| 0 <= j < new_s.len() && #[trigger] new_s[j].0@ == k;
                        let oj = if j < i { j } else { j + 1 };
                        assert(new_s[j] == old_s[oj]);
                        lemma_entry_lookup(new_s, j);
                        lemma_entry_lookup(old_s, oj);
                    }
                    assert(entries_map(new_s) =~= entries_map(old_s).remove(name@));
                }
                self.kinds = kinds;
            },
            None => {
                assert(entries_map(old_s) =~= entries_map(old_s).remove(name@));
            },
        }
    }

    /// The names of the registered kinds, each once.
    pub fn list(&self) -> (r: Vec<String>)
        ensures
            str_seq_views(r@).no_duplicates(),
            str_seq_views(r@).to_set() == self@.dom(),
    {
        proof {
            use_type_invariant(self);
        }
        let mut out: Vec<String> = Vec::new();
        let mut i: usize = 0;
        while i < self.kinds.len()
            invariant
                entries_ok(self.kinds@),
                i <= self.kinds@.len(),
                out@.len() == i,
                forall|j: int| 0 <= j < i ==> #[trigger] out@[j]@ == self.kinds@[j].0@,
            decreases self.kinds.len() - i,
        {
            out.push(self.kinds[i].0.clone());
            i = i + 1;
        }
        proof {
            let v = str_seq_views(out@);
            let s = self.kinds@;
            assert forall|a: int, b: int| 0 <= a < v.len() && 0 <= b < v.len() && a != b implies v[a]
                != v[b] by {
                assert(v[a] == s[a].0@);
                assert(v[b] == s[b].0@);
            }
            assert forall|k: Seq<char>| #[trigger] v.to_set().contains(k) == entries_map(s).dom().contains(
                k,
            ) by {
                if v.to_set().contains(k) {
                    let j = choose|j: int| 0 <= j < v.len() && v[j] == k;
                    assert(s[j].0@ == k);
                }
                if has_key(s, k) {
                    let j = choose|j: int| 0 <= j < s.len() && #[trigger] s[j].0@ == k;
                    assert(v[j] == k);
                    assert(v.contains(k));
                }
            }
            assert(v.to_set() =~= entries_map(s).dom());
        }
        out
    }

    /// The kind named `name`, if one is registered.
    pub fn get(&self, name: &str) -> (r: Option<Arc<AgentBlueprint<P>>>)
        ensures
            match r {
                Some(b) => spec_lookup(self@, name@) == Some(*b),
                None => spec_lookup(self@, name@) is None,
            },
    {
        proof {
            use_type_invariant(self);
        }
        let key = string_from(name);
        match position(&self.kinds, &key) {
            Some(i) => {
                proof {
                    lemma_entry_lookup(self.kinds@, i as int);
                }
                Some(share(&self.kinds[i].1))
            },
            None => None,
        }
    }
}

impl<P> Default for AgentRegistry<P> {
    /// An empty registry.
    fn default() -> (r: Self)
        ensures
            r@ == Map::<Seq<char>, AgentBlueprint<P>>::empty(),
    {
        Self::new()
    }
}

/// Looking up a kind right after registering it gives that kind.
pub proof fn law_lookup_after_register<P>(m: Map<Seq<char>, AgentBlueprint<P>>, kind: AgentBlueprint<P>)
    ensures
        spec_lookup(spec_register(m, kind), kind.name@) == Some(kind),
{
}

/// Registering a kind leaves the lookup of every other name as it was.
pub proof fn law_register_keeps_others<P>(
    m: Map<Seq<char>, AgentBlueprint<P>>,
    kind: AgentBlueprint<P>,
    name: Seq<char>,
)
    requires
        name != kind.name@,
    ensures
        spec_lookup(spec_register(m, kind), name) == spec_lookup(m, name),
{
}

/// After unregistering a name, nothing is found under it, and the other
/// names are found as before.
pub proof fn law_lookup_after_unregister<P>(
    m: Map<Seq<char>, AgentBlueprint<P>>,
    removed: Seq<char>,
    name: Seq<char>,
)
    ensures
        spec_lookup(m.remove(removed), removed) is None,
        name != removed ==> spec_lookup(m.remove(removed), name) == spec_lookup(m, name),
{
}

/// Registering a kind and then unregistering its name leaves the registry as
/// it was, when no kind of that name was registered before.
pub proof fn law_unregister_undoes_register<P>(m: Map<Seq<char>, AgentBlueprint<P>>, kind: AgentBlueprint<P>)
    requires
        !m.dom().contains(kind.name@),
    ensures
        spec_register(m, kind).remove(kind.name@) == m,
{
    assert(spec_register(m, kind).remove(kind.name@) =~= m);
}

/// The names listed after registering a kind are the names listed before,
/// with the kind's name added.
pub proof fn law_names_after_register<P>(m: Map<Seq<char>, AgentBlueprint<P>>, kind: AgentBlueprint<P>)
    ensures
        spec_register(m, kind).dom() == m.dom().insert(kind.name@),
{
    assert(spec_register(m, kind).dom() =~= m.dom().insert(kind.name@));
}

} // verus!
