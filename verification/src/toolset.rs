//! The set of tools an agent may call, each filed under its name; a name can
//! be registered once only.
use crate::text::{push_str, str_seq_views, string_from};
use vstd::prelude::*;

verus! {

/// A tool ready to be registered: its name and the rest of it (definition,
/// implementation and effects).
pub struct ToolRegistration<T> {
    pub name: String,
    pub tool: T,
}

/// Why a tool operation failed.
#[derive(Debug)]
pub enum ToolError {
    /// Registering the tools failed.
    RegistryError { message: String },
}

/// The message for a name that is already taken.
pub open spec fn duplicate_message(name: Seq<char>) -> Seq<char> {
    "Tool '"@ + name + "' is already registered"@
}

/// Whether some registration of `s` has the name `k`.
pub open spec fn has_name<T>(s: Seq<ToolRegistration<T>>, k: Seq<char>) -> bool {
    exists|i: int| 0 <= i < s.len() && #[trigger] s[i].name@ == k
}

/// The registrations' names are distinct.
pub open spec fn names_distinct<T>(s: Seq<ToolRegistration<T>>) -> bool {
    forall|i: int, j: int|
        0 <= i < s.len() && 0 <= j < s.len() && i != j ==> #[trigger] s[i].name@ != #[trigger] s[j].name@
}

/// The tools of `s` by name.
pub open spec fn tools_map<T>(s: Seq<ToolRegistration<T>>) -> Map<Seq<char>, T> {
    Map::new(
        |k: Seq<char>| has_name(s, k),
        |k: Seq<char>| s[choose|i: int| 0 <= i < s.len() && #[trigger] s[i].name@ == k].tool,
    )
}

proof fn lemma_tool_lookup<T>(s: Seq<ToolRegistration<T>>, i: int)
    requires
        names_distinct(s),
        0 <= i < s.len(),
    ensures
        tools_map(s).dom().contains(s[i].name@),
        tools_map(s)[s[i].name@] == s[i].tool,
{
    let k = s[i].name@;
    assert(has_name(s, k));
    let j = choose|j: int| 0 <= j < s.len() && #[trigger] s[j].name@ == k;
    assert(s[j].name@ == k);
}

/// The tools an agent may call, by name. The tools are held as a list with
/// at most one entry per name, whose view is the map by name: vstd specifies
/// `HashMap` lookups only for keys whose hashing it models, which `String`
/// keys are not.
pub struct Toolset<T> {
    tools: Vec<ToolRegistration<T>>,
}

impl<T> View for Toolset<T> {
    type V = Map<Seq<char>, T>;

    /// The registered tools by name.
    closed spec fn view(&self) -> Map<Seq<char>, T> {
        tools_map(self.tools@)
    }
}

/// The names a list of registrations carries, in order.
pub open spec fn registration_names<T>(regs: Seq<ToolRegistration<T>>) -> Seq<Seq<char>> {
    regs.map_values(|r: ToolRegistration<T>| r.name@)
}

/// The toolset after registering `regs` one by one from `m`, stopping at the
/// first name already taken: the tools registered, and the name that
/// stopped it, if any.
pub open spec fn spec_register_all<T>(m: Map<Seq<char>, T>, regs: Seq<ToolRegistration<T>>) -> (
    Map<Seq<char>, T>,
    Option<Seq<char>>,
)
    decreases regs.len(),
{
    if regs.len() == 0 {
        (m, None)
    } else if m.dom().contains(regs[0].name@) {
        (m, Some(regs[0].name@))
    } else {
        spec_register_all(m.insert(regs[0].name@, regs[0].tool), regs.drop_first())
    }
}

/// The positions of the calls that name a tool of `m`, in order.
pub open spec fn runnable_calls<T>(m: Map<Seq<char>, T>, names: Seq<Seq<char>>) -> Seq<int>
    decreases names.len(),
{
    if names.len() == 0 {
        Seq::empty()
    } else {
        let prev = runnable_calls(m, names.drop_last());
        if m.dom().contains(names.last()) {
            prev.push(names.len() - 1)
        } else {
            prev
        }
    }
}

/// The result of one tool call as the model receives it.
pub struct ToolResult {
    /// The call it answers.
    pub tool_use_id: String,
    /// What the tool returned, or the error message.
    pub content: String,
    /// Whether the call failed.
    pub is_error: bool,
}

/// How running one tool call ended.
pub enum CallOutcome {
    /// The input did not validate; the message says why.
    Invalid(String),
    /// The tool ran and gave a result.
    Finished(ToolResult),
    /// The tool failed or ran out of time; the message says why.
    Failed(String),
}

/// The result reported for the call `call_id`: the tool's own result
/// answering that call, or an error result carrying the message of a
/// rejected input, a failure or a timeout.
pub fn call_result(call_id: &str, outcome: CallOutcome) -> (r: ToolResult)
    ensures
        r.tool_use_id@ == call_id@,
        match outcome {
            CallOutcome::Invalid(m) => r.content@ == m@ && r.is_error,
            CallOutcome::Finished(t) => r.content@ == t.content@ && r.is_error == t.is_error,
            CallOutcome::Failed(m) => r.content@ == m@ && r.is_error,
        },
{
    match outcome {
        CallOutcome::Invalid(m) => ToolResult { tool_use_id: string_from(call_id), content: m, is_error: true },
        CallOutcome::Finished(t) => ToolResult {
            tool_use_id: string_from(call_id),
            content: t.content,
            is_error: t.is_error,
        },
        CallOutcome::Failed(m) => ToolResult { tool_use_id: string_from(call_id), content: m, is_error: true },
    }
}

impl<T> Toolset<T> {
    #[verifier::type_invariant]
    closed spec fn well_formed(self) -> bool {
        names_distinct(self.tools@)
    }

    /// An empty toolset.
    pub fn new() -> (r: Self)
        ensures
            r@ == Map::<Seq<char>, T>::empty(),
    {
        let r = Toolset { tools: Vec::new() };
        assert(r@ =~= Map::<Seq<char>, T>::empty());
        r
    }

    /// Whether a tool named `name` is registered.
    pub fn contains(&self, name: &str) -> (r: bool)
        ensures
            r == self@.dom().contains(name@),
    {
        proof {
            use_type_invariant(self);
        }
        let key = string_from(name);
        let mut i: usize = 0;
        while i < self.tools.len()
            invariant
                i <= self.tools@.len(),
                names_distinct(self.tools@),
                key@ == name@,
                forall|j: int| 0 <= j < i ==> #[trigger] self.tools@[j].name@ != name@,
            decreases self.tools.len() - i,
        {
            if self.tools[i].name == key {
                proof {
                    lemma_tool_lookup(self.tools@, i as int);
                }
                return true;
            }
            i = i + 1;
        }
        false
    }

    /// The tool named `name`, if one is registered.
    pub fn get(&self, name: &str) -> (r: Option<&T>)
        ensures
            match r {
                Some(t) => self@.dom().contains(name@) && self@[name@] == *t,
                None => !self@.dom().contains(name@),
            },
    {
        proof {
            use_type_invariant(self);
        }
        let key = string_from(name);
        let mut i: usize = 0;
        while i < self.tools.len()
            invariant
                i <= self.tools@.len(),
                names_distinct(self.tools@),
                key@ == name@,
                forall|j: int| 0 <= j < i ==> #[trigger] self.tools@[j].name@ != name@,
            decreases self.tools.len() - i,
        {
            if self.tools[i].name == key {
                proof {
                    lemma_tool_lookup(self.tools@, i as int);
                }
                return Some(&self.tools[i].tool);
            }
            i = i + 1;
        }
        None
    }

    /// The names of the registered tools, in the order they were registered.
    pub closed spec fn names(&self) -> Seq<Seq<char>> {
        registration_names(self.tools@)
    }

    /// The registered tools, one for each name: `names()` lists each
    /// registered name once, and the `i`-th tool is the one filed under the
    /// `i`-th name.
    pub fn tools(&self) -> (r: Vec<&T>)
        ensures
            r@.len() == self.names().len(),
            self.names().no_duplicates(),
            self.names().to_set() == self@.dom(),
            forall|i: int| 0 <= i < r@.len() ==> *r@[i] == self@[#[trigger] self.names()[i]],
    {
        proof {
            use_type_invariant(self);
        }
        let ghost s = self.tools@;
        let mut r: Vec<&T> = Vec::new();
        let mut i: usize = 0;
        while i < self.tools.len()
            invariant
                i <= s.len(),
                s == self.tools@,
                names_distinct(s),
                r@.len() == i,
                forall|k: int| 0 <= k < i ==> *r@[k] == #[trigger] s[k].tool,
            decreases self.tools.len() - i,
        {
            r.push(&self.tools[i].tool);
            i = i + 1;
        }
        proof {
            let names = registration_names(s);
            assert forall|k: int| 0 <= k < r@.len() implies *r@[k] == self@[#[trigger] names[k]] by {
                lemma_tool_lookup(s, k);
            }
            assert forall|a: int, b: int| 0 <= a < names.len() && 0 <= b < names.len() && a != b implies names[a]
                != names[b] by {
                assert(names[a] == s[a].name@);
                assert(names[b] == s[b].name@);
            }
            assert forall|k: Seq<char>| #[trigger] names.to_set().contains(k) == self@.dom().contains(k) by {
                if names.to_set().contains(k) {
                    let j = choose|j: int| 0 <= j < names.len() && names[j] == k;
                    lemma_tool_lookup(s, j);
                }
                if self@.dom().contains(k) {
                    let j = choose|j: int| 0 <= j < s.len() && #[trigger] s[j].name@ == k;
                    assert(names[j] == k);
                }
            }
            assert(names.to_set() =~= self@.dom());
        }
        r
    }

    /// Which of the calls run, by position, in order: those that name a
    /// registered tool. A call naming no registered tool is skipped and gets
    /// no response.
    pub fn calls_to_run(&self, call_names: &Vec<String>) -> (r: Vec<usize>)
        ensures
            r@.map_values(|i: usize| i as int) == runnable_calls(self@, str_seq_views(call_names@)),
    {
        let ghost all = str_seq_views(call_names@);
        let mut r: Vec<usize> = Vec::new();
        let mut i: usize = 0;
        assert(r@.map_values(|i: usize| i as int) =~= runnable_calls(self@, all.take(0)));
        while i < call_names.len()
            invariant
                i <= call_names@.len(),
                all == str_seq_views(call_names@),
                r@.map_values(|i: usize| i as int) == runnable_calls(self@, all.take(i as int)),
            decreases call_names.len() - i,
        {
            let ghost before = r@.map_values(|i: usize| i as int);
            assert(all.take(i as int + 1).drop_last() =~= all.take(i as int));
            assert(all.take(i as int + 1).last() == call_names@[i as int]@);
            if self.contains(call_names[i].as_str()) {
                r.push(i);
                assert(r@.map_values(|i: usize| i as int) =~= before.push(i as int));
            }
            i = i + 1;
        }
        assert(all.take(call_names@.len() as int) =~= all);
        r
    }

    /// Registers a tool under its name; fails, changing nothing, when the
    /// name is taken.
    pub fn register(&mut self, registration: ToolRegistration<T>) -> (r: Result<(), ToolError>)
        ensures
            old(self)@.dom().contains(registration.name@) ==> final(self)@ == old(self)@ && (
            r matches Err(ToolError::RegistryError { message }) && message@ == duplicate_message(
                registration.name@,
            )),
            !old(self)@.dom().contains(registration.name@) ==> final(self)@ == old(self)@.insert(
                registration.name@,
                registration.tool,
            ) && r is Ok,
    {
        proof {
            use_type_invariant(&*self);
        }
        if self.contains(registration.name.as_str()) {
            let mut message = String::new();
            push_str(&mut message, "Tool '");
            push_str(&mut message, registration.name.as_str());
            push_str(&mut message, "' is already registered");
            return Err(ToolError::RegistryError { message });
        }
        let ghost old_s = self.tools@;
        let ghost reg = registration;
        let mut tools = Vec::new();
        std::mem::swap(&mut tools, &mut self.tools);
        tools.push(registration);
        proof {
            let new_s = tools@;
            assert(new_s == old_s.push(reg));
            assert(!has_name(old_s, reg.name@));
            assert forall|a: int, b: int|
                0 <= a < new_s.len() && 0 <= b < new_s.len() && a != b implies #[trigger] new_s[a].name@
                != #[trigger] new_s[b].name@ by {
                if a == old_s.len() {
                    assert(old_s[b].name@ != reg.name@);
                } else if b == old_s.len() {
                    assert(old_s[a].name@ != reg.name@);
                }
            }
            lemma_tool_lookup(new_s, old_s.len() as int);
            assert forall|k: Seq<char>| #[trigger]
                tools_map(new_s).dom().contains(k) == tools_map(old_s).insert(
                    reg.name@,
                    reg.tool,
                ).dom().contains(k) by {
                if k != reg.name@ {
                    if has_name(new_s, k) {
                        let j = choose|j: int| 0 <= j < new_s.len() && #[trigger] new_s[j].name@ == k;
                        assert(old_s[j].name@ == k);
                    }
                    if has_name(old_s, k) {
                        let j = choose|j: int| 0 <= j < old_s.len() && #[trigger] old_s[j].name@ == k;
                        assert(new_s[j].name@ == k);
                    }
                }
            }
            assert forall|k: Seq<char>| #[trigger]
                tools_map(new_s).dom().contains(k) implies tools_map(new_s)[k] == tools_map(
                old_s,
            ).insert(reg.name@, reg.tool)[k] by {
                if k != reg.name@ {
                    let j = choose|j: int| 0 <= j < new_s.len() && #[trigger] new_s[j].name@ == k;
                    assert(old_s[j].name@ == k);
                    lemma_tool_lookup(new_s, j);
                    lemma_tool_lookup(old_s, j);
                }
            }
            assert(tools_map(new_s) =~= tools_map(old_s).insert(reg.name@, reg.tool));
        }
        self.tools = tools;
        Ok(())
    }

    /// Registers the tools in order, stopping at the first name already
    /// taken (the ones before it stay registered).
    pub fn register_all(&mut self, registrations: Vec<ToolRegistration<T>>) -> (r: Result<
        (),
        ToolError,
    >)
        ensures
            final(self)@ == spec_register_all(old(self)@, registrations@).0,
            match spec_register_all(old(self)@, registrations@).1 {
                None => r is Ok,
                Some(name) => r matches Err(ToolError::RegistryError { message }) && message@
                    == duplicate_message(name),
            },
    {
        let ghost all = registrations@;
        let ghost m0 = self@;
        let count = registrations.len();
        assert(all.len() == count);
        assert(all.skip(0) =~= all);
        let mut regs = registrations;
        let mut done: usize = 0;
        while regs.len() > 0
            invariant
                m0 == old(self)@,
                all == registrations@,
                all.len() <= usize::MAX,
                done + regs@.len() == all.len(),
                regs@ == all.skip(done as int),
                spec_register_all(m0, all) == spec_register_all(self@, all.skip(done as int)),
            decreases regs.len(),
        {
            let ghost rest = all.skip(done as int);
            let reg = regs.remove(0);
            assert(reg == rest[0]);
            assert(rest.drop_first() =~= all.skip(done as int + 1));
            let ghost before = self@;
            match self.register(reg) {
                Ok(()) => {
                    assert(!before.dom().contains(rest[0].name@));
                },
                Err(e) => {
                    assert(before.dom().contains(rest[0].name@));
                    assert(spec_register_all(before, rest) == (before, Some(rest[0].name@)));
                    return Err(e);
                },
            }
            done = done + 1;
            assert(regs@ =~= all.skip(done as int));
        }
        assert(all.skip(done as int) =~= Seq::<ToolRegistration<T>>::empty());
        Ok(())
    }
}

impl<T> Default for Toolset<T> {
    /// An empty toolset.
    fn default() -> (r: Self)
        ensures
            r@ == Map::<Seq<char>, T>::empty(),
    {
        Self::new()
    }
}

/// Registering tools whose names are distinct and all free succeeds, and
/// afterwards every one of them is found under its name.
pub proof fn law_register_all_fresh<T>(m: Map<Seq<char>, T>, regs: Seq<ToolRegistration<T>>)
    requires
        names_distinct(regs),
        forall|i: int| 0 <= i < regs.len() ==> !m.dom().contains(#[trigger] regs[i].name@),
    ensures
        spec_register_all(m, regs).1 is None,
        spec_register_all(m, regs).0.dom() == m.dom().union(registration_names(regs).to_set()),
        forall|i: int| 0 <= i < regs.len() ==> #[trigger] spec_register_all(m, regs).0[regs[i].name@]
            == regs[i].tool,
    decreases regs.len(),
{
    if regs.len() == 0 {
        assert(registration_names(regs).to_set() =~= Set::<Seq<char>>::empty());
        assert(m.dom().union(Set::<Seq<char>>::empty()) =~= m.dom());
    } else {
        let first = regs[0];
        let rest = regs.drop_first();
        let m1 = m.insert(first.name@, first.tool);
        assert forall|a: int, b: int|
            0 <= a < rest.len() && 0 <= b < rest.len() && a != b implies #[trigger] rest[a].name@
            != #[trigger] rest[b].name@ by {
            assert(rest[a] == regs[a + 1]);
            assert(rest[b] == regs[b + 1]);
        }
        assert forall|i: int| 0 <= i < rest.len() implies !m1.dom().contains(#[trigger] rest[i].name@) by {
            assert(rest[i] == regs[i + 1]);
            assert(regs[0].name@ != regs[i + 1].name@);
        }
        law_register_all_fresh(m1, rest);
        assert(!m.dom().contains(regs[0].name@));
        assert(spec_register_all(m, regs) == spec_register_all(m1, rest));
        let names = registration_names(regs);
        assert(names.to_set() =~= registration_names(rest).to_set().insert(first.name@)) by {
            assert forall|k: Seq<char>| #[trigger] names.to_set().contains(k) implies registration_names(
                rest,
            ).to_set().insert(first.name@).contains(k) by {
                let j = choose|j: int| 0 <= j < names.len() && names[j] == k;
                if j > 0 {
                    assert(registration_names(rest)[j - 1] == k);
                }
            }
            assert forall|k: Seq<char>| #[trigger] registration_names(rest).to_set().insert(
                first.name@,
            ).contains(k) implies names.to_set().contains(k) by {
                if k == first.name@ {
                    assert(names[0] == k);
                } else {
                    let j = choose|j: int|
                        0 <= j < registration_names(rest).len() && registration_names(rest)[j] == k;
                    assert(names[j + 1] == k);
                }
            }
        }
        assert(spec_register_all(m, regs).0.dom() =~= m.dom().union(names.to_set()));
        assert forall|i: int| 0 <= i < regs.len() implies #[trigger] spec_register_all(m, regs).0[
            regs[i].name@
        ] == regs[i].tool by {
            if i > 0 {
                assert(rest[i - 1] == regs[i]);
                assert(spec_register_all(m1, rest).0[rest[i - 1].name@] == rest[i - 1].tool);
            } else {
                assert(m1.dom().contains(first.name@) && m1[first.name@] == first.tool);
                assert(!registration_names(rest).to_set().contains(first.name@)) by {
                    if registration_names(rest).to_set().contains(first.name@) {
                        let j = choose|j: int|
                            0 <= j < registration_names(rest).len() && registration_names(rest)[j]
                                == first.name@;
                        assert(regs[j + 1].name@ == regs[0].name@);
                    }
                }
                lemma_register_all_keeps(m1, rest, first.name@);
                assert(regs[0] == first);
            }
        }
    }
}

/// Registering tools never changes the tool found under a name none of them
/// has.
proof fn lemma_register_all_keeps<T>(m: Map<Seq<char>, T>, regs: Seq<ToolRegistration<T>>, k: Seq<char>)
    requires
        m.dom().contains(k),
        !registration_names(regs).to_set().contains(k),
    ensures
        spec_register_all(m, regs).0.dom().contains(k),
        spec_register_all(m, regs).0[k] == m[k],
    decreases regs.len(),
{
    if regs.len() > 0 && !m.dom().contains(regs[0].name@) {
        let rest = regs.drop_first();
        assert(registration_names(regs)[0] == regs[0].name@);
        if regs[0].name@ == k {
            assert(registration_names(regs).to_set().contains(k));
        }
        assert forall|j: int| 0 <= j < registration_names(rest).len() implies registration_names(
            rest,
        )[j] != k by {
            assert(registration_names(rest)[j] == registration_names(regs)[j + 1]);
        }
        lemma_register_all_keeps(m.insert(regs[0].name@, regs[0].tool), rest, k);
    }
}

} // verus!
