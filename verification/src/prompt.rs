//! The system prompt, assembled from layers in a fixed order: the agent's
//! identity, an extra section, then guidance on tool use. The tools' schemas
//! are not part of it.
use crate::text::{push_char, push_str, string_from};
use vstd::prelude::*;

verus! {

/// The guidance `build_tooluse_guidance` installs.
pub open spec fn standard_tooluse_guidance() -> Seq<char> {
    "## Tool usage\nUse tools to complete the task. When operations are independent, you should return multiple tool calls in a single response. For example, when creating multiple entities or linking several isolated knowledge entries, issue all tool calls together in one reply rather than one at a time.\nTool calls within a single reply execute in parallel, which greatly reduces round-trip time.\n\n## Task completion\nWhen all tasks are complete, output your final text directly — a response with no tool calls signals task completion. No additional termination action is needed.\nThe `attempt_complete` tool is **deprecated (legacy)**; the new flow does not require calling it. If called, it will still be processed normally.\n"@
}

/// A layer as it appears in the prompt: nothing when empty, else its text
/// and a line break.
pub open spec fn layer(s: Seq<char>) -> Seq<char> {
    if s.len() == 0 {
        Seq::empty()
    } else {
        s + "\n"@
    }
}

/// The prompt made of the three layers.
pub open spec fn prompt_text(identity: Seq<char>, extra: Seq<char>, guidance: Seq<char>) -> Seq<char> {
    layer(identity) + layer(extra) + layer(guidance)
}

/// Builds the system prompt layer by layer; unset layers are empty.
pub struct SystemPromptBuilder {
    identity: String,
    tooluse_guidance: String,
    extra_section: String,
}

impl View for SystemPromptBuilder {
    /// The identity, the extra section and the tool-use guidance.
    type V = (Seq<char>, Seq<char>, Seq<char>);

    closed spec fn view(&self) -> (Seq<char>, Seq<char>, Seq<char>) {
        (self.identity@, self.extra_section@, self.tooluse_guidance@)
    }
}

impl Default for SystemPromptBuilder {
    /// A builder with every layer empty.
    fn default() -> (r: Self)
        ensures
            r@ == (Seq::<char>::empty(), Seq::<char>::empty(), Seq::<char>::empty()),
    {
        SystemPromptBuilder {
            identity: String::new(),
            tooluse_guidance: String::new(),
            extra_section: String::new(),
        }
    }
}

impl SystemPromptBuilder {
    /// Sets the agent's identity (its role).
    pub fn with_identity(self, identity: &str) -> (r: Self)
        ensures
            r@ == (identity@, self@.1, self@.2),
    {
        let mut r = self;
        r.identity = string_from(identity);
        r
    }

    /// Sets the extra section.
    pub fn with_extra_section(self, section: &str) -> (r: Self)
        ensures
            r@ == (self@.0, section@, self@.2),
    {
        let mut r = self;
        r.extra_section = string_from(section);
        r
    }

    /// Sets the tool-use guidance.
    pub fn with_tooluse_guidance(self, guidance: &str) -> (r: Self)
        ensures
            r@ == (self@.0, self@.1, guidance@),
    {
        let mut r = self;
        r.tooluse_guidance = string_from(guidance);
        r
    }

    /// Sets the tool-use guidance to the standard text.
    pub fn build_tooluse_guidance(self) -> (r: Self)
        ensures
            r@ == (self@.0, self@.1, standard_tooluse_guidance()),
    {
        let mut r = self;
        r.tooluse_guidance = string_from(
            "## Tool usage\nUse tools to complete the task. When operations are independent, you should return multiple tool calls in a single response. For example, when creating multiple entities or linking several isolated knowledge entries, issue all tool calls together in one reply rather than one at a time.\nTool calls within a single reply execute in parallel, which greatly reduces round-trip time.\n\n## Task completion\nWhen all tasks are complete, output your final text directly — a response with no tool calls signals task completion. No additional termination action is needed.\nThe `attempt_complete` tool is **deprecated (legacy)**; the new flow does not require calling it. If called, it will still be processed normally.\n",
        );
        r
    }

    /// The prompt: each non-empty layer followed by a line break, identity
    /// first, then the extra section, then the tool-use guidance.
    pub fn parse(self) -> (r: String)
        ensures
            r@ == prompt_text(self@.0, self@.1, self@.2),
    {
        let mut out = String::new();
        if !self.identity.as_str().is_empty() {
            push_str(&mut out, self.identity.as_str());
            push_char(&mut out, '\n');
        }
        let ghost a = out@;
        if !self.extra_section.as_str().is_empty() {
            push_str(&mut out, self.extra_section.as_str());
            push_char(&mut out, '\n');
        }
        let ghost b = out@;
        if !self.tooluse_guidance.as_str().is_empty() {
            push_str(&mut out, self.tooluse_guidance.as_str());
            push_char(&mut out, '\n');
        }
        proof {
            reveal_strlit("\n");
            assert(a =~= layer(self@.0));
            assert(b =~= layer(self@.0) + layer(self@.1));
            assert(out@ =~= prompt_text(self@.0, self@.1, self@.2));
        }
        out
    }
}

/// A builder with no layer set gives an empty prompt.
pub proof fn law_empty_builder_gives_empty_prompt()
    ensures
        prompt_text(Seq::empty(), Seq::empty(), Seq::empty()) == Seq::<char>::empty(),
{
    assert(prompt_text(Seq::empty(), Seq::empty(), Seq::empty()) =~= Seq::<char>::empty());
}

} // verus!
