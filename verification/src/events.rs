//! Agent events as server-sent events: each event of the agent a client
//! follows becomes a frame with an event type and a data line.
use crate::text::{decimal, digit_char, push_decimal, push_str, string_from};
use vstd::prelude::*;

verus! {

/// What an agent reports while it works. Payloads that are JSON documents
/// of their own (a message, a tool's input, a content kind, a stop reason)
/// are carried as their JSON text.
#[derive(Debug, Clone)]
pub enum AgentEvent {
    TextDelta(String),
    ThinkingDelta(String),
    UsageUpdate { input_tokens: u64, output_tokens: u64 },
    StreamStart { message_json: String },
    ContentBlockStart { index: u64, kind_json: String },
    ContentBlockStop { index: u64 },
    StreamDelta { stop_reason_json: String },
    LlmResponse(String),
    Thinking(String),
    Requesting,
    ToolCall { name: String, input_json: String },
    ToolResult { ok: bool, content: String },
    Done,
    Error(String),
}

/// The lower-case hexadecimal digit of `d` (`0 <= d < 16`).
pub open spec fn hex_digit(d: int) -> char {
    if d < 10 {
        digit_char(d)
    } else if d == 10 {
        'a'
    } else if d == 11 {
        'b'
    } else if d == 12 {
        'c'
    } else if d == 13 {
        'd'
    } else if d == 14 {
        'e'
    } else {
        'f'
    }
}

/// How one character is written inside a JSON string: `"` and `\` behind a
/// backslash; backspace, tab, line feed, form feed and carriage return as
/// their two-character escapes; any other character below U+0020 as
/// `\u00` and two lower-case hex digits; every other character as it is.
pub open spec fn json_char_escape(c: char) -> Seq<char> {
    let u = c as u32;
    if c == '"' {
        seq!['\\', '"']
    } else if c == '\\' {
        seq!['\\', '\\']
    } else if u == 0x08 {
        seq!['\\', 'b']
    } else if u == 0x09 {
        seq!['\\', 't']
    } else if u == 0x0A {
        seq!['\\', 'n']
    } else if u == 0x0C {
        seq!['\\', 'f']
    } else if u == 0x0D {
        seq!['\\', 'r']
    } else if u < 0x20 {
        seq!['\\', 'u', '0', '0', hex_digit((u / 16) as int), hex_digit((u % 16) as int)]
    } else {
        seq![c]
    }
}

/// The characters of `s`, each escaped for a JSON string.
pub open spec fn json_escape(s: Seq<char>) -> Seq<char>
    decreases s.len(),
{
    if s.len() == 0 {
        Seq::empty()
    } else {
        json_escape(s.drop_last()) + json_char_escape(s.last())
    }
}

/// The JSON text of the string `s`: its escaped characters between quotes.
pub open spec fn json_string(s: Seq<char>) -> Seq<char> {
    seq!['"'] + json_escape(s) + seq!['"']
}

/// `s` as a JSON string, by `serde_json::to_string`. Trusted: the result is
/// `s` between double quotes with each character escaped as
/// `json_char_escape` says, which is what serde_json's compact formatter
/// writes (its escape table and `write_char_escape`). Serializing a `str`
/// cannot fail, so the empty fallback is never taken.
#[verifier::external_body]
fn json_quote(s: &str) -> (r: String)
    ensures
        r@ == json_string(s@),
{
    serde_json::to_string(s).unwrap_or_default()
}

/// The JSON text of a boolean.
pub open spec fn json_bool(b: bool) -> Seq<char> {
    if b {
        "true"@
    } else {
        "false"@
    }
}

/// The SSE frame (event type, data) for an event. The data of a JSON object
/// lists its keys in sorted order, as `serde_json` writes a map built from
/// them while its `preserve_order` feature is off (the feature is not
/// enabled here; with it, keys would keep the order they were inserted in).
pub open spec fn spec_frame(e: AgentEvent) -> (Seq<char>, Seq<char>) {
    match e {
        AgentEvent::TextDelta(t) => ("text_delta"@, t@),
        AgentEvent::ThinkingDelta(t) => ("thinking_delta"@, t@),
        AgentEvent::UsageUpdate { input_tokens, output_tokens } => (
            "usage_update"@,
            "{\"input_tokens\":"@ + decimal(input_tokens as nat) + ",\"output_tokens\":"@ + decimal(
                output_tokens as nat,
            ) + "}"@,
        ),
        AgentEvent::StreamStart { message_json } => ("stream_start"@, message_json@),
        AgentEvent::ContentBlockStart { index, kind_json } => (
            "content_block_start"@,
            "{\"index\":"@ + decimal(index as nat) + ",\"kind\":"@ + kind_json@ + "}"@,
        ),
        AgentEvent::ContentBlockStop { index } => (
            "content_block_stop"@,
            "{\"index\":"@ + decimal(index as nat) + "}"@,
        ),
        AgentEvent::StreamDelta { stop_reason_json } => (
            "stream_delta"@,
            "{\"stop_reason\":"@ + stop_reason_json@ + "}"@,
        ),
        AgentEvent::LlmResponse(t) => ("llm_response"@, t@),
        AgentEvent::Thinking(t) => ("thinking"@, t@),
        AgentEvent::Requesting => ("requesting"@, Seq::empty()),
        AgentEvent::ToolCall { name, input_json } => (
            "tool_call"@,
            "{\"input\":"@ + input_json@ + ",\"name\":"@ + json_string(name@) + "}"@,
        ),
        AgentEvent::ToolResult { ok, content } => (
            "tool_result"@,
            "{\"content\":"@ + json_string(content@) + ",\"ok\":"@ + json_bool(ok) + "}"@,
        ),
        AgentEvent::Done => ("done"@, Seq::empty()),
        AgentEvent::Error(m) => ("error"@, m@),
    }
}

/// The SSE frame (event type, data) for an event.
pub fn event_frame(e: &AgentEvent) -> (r: (String, String))
    ensures
        (r.0@, r.1@) == spec_frame(*e),
{
    let mut data = String::new();
    let kind = match e {
        AgentEvent::TextDelta(t) => {
            push_str(&mut data, t.as_str());
            "text_delta"
        },
        AgentEvent::ThinkingDelta(t) => {
            push_str(&mut data, t.as_str());
            "thinking_delta"
        },
        AgentEvent::UsageUpdate { input_tokens, output_tokens } => {
            push_str(&mut data, "{\"input_tokens\":");
            push_decimal(&mut data, *input_tokens);
            push_str(&mut data, ",\"output_tokens\":");
            push_decimal(&mut data, *output_tokens);
            push_str(&mut data, "}");
            "usage_update"
        },
        AgentEvent::StreamStart { message_json } => {
            push_str(&mut data, message_json.as_str());
            "stream_start"
        },
        AgentEvent::ContentBlockStart { index, kind_json } => {
            push_str(&mut data, "{\"index\":");
            push_decimal(&mut data, *index);
            push_str(&mut data, ",\"kind\":");
            push_str(&mut data, kind_json.as_str());
            push_str(&mut data, "}");
            "content_block_start"
        },
        AgentEvent::ContentBlockStop { index } => {
            push_str(&mut data, "{\"index\":");
            push_decimal(&mut data, *index);
            push_str(&mut data, "}");
            "content_block_stop"
        },
        AgentEvent::StreamDelta { stop_reason_json } => {
            push_str(&mut data, "{\"stop_reason\":");
            push_str(&mut data, stop_reason_json.as_str());
            push_str(&mut data, "}");
            "stream_delta"
        },
        AgentEvent::LlmResponse(t) => {
            push_str(&mut data, t.as_str());
            "llm_response"
        },
        AgentEvent::Thinking(t) => {
            push_str(&mut data, t.as_str());
            "thinking"
        },
        AgentEvent::Requesting => "requesting",
        AgentEvent::ToolCall { name, input_json } => {
            push_str(&mut data, "{\"input\":");
            push_str(&mut data, input_json.as_str());
            push_str(&mut data, ",\"name\":");
            push_str(&mut data, json_quote(name.as_str()).as_str());
            push_str(&mut data, "}");
            "tool_call"
        },
        AgentEvent::ToolResult { ok, content } => {
            push_str(&mut data, "{\"content\":");
            push_str(&mut data, json_quote(content.as_str()).as_str());
            push_str(&mut data, ",\"ok\":");
            if *ok {
                push_str(&mut data, "true");
            } else {
                push_str(&mut data, "false");
            }
            push_str(&mut data, "}");
            "tool_result"
        },
        AgentEvent::Done => "done",
        AgentEvent::Error(m) => {
            push_str(&mut data, m.as_str());
            "error"
        },
    };
    proof {
        assert(data@ =~= spec_frame(*e).1);
    }
    (string_from(kind), data)
}

/// The frame for an event on the shared bus, if it concerns the followed
/// agent: events of other agents are dropped.
pub fn frame_for(followed: u128, source: u128, e: &AgentEvent) -> (r: Option<(String, String)>)
    ensures
        followed != source ==> r is None,
        followed == source ==> (r matches Some(f) && (f.0@, f.1@) == spec_frame(*e)),
{
    if followed != source {
        None
    } else {
        Some(event_frame(e))
    }
}

/// The one-line summary a follower prints for an agent event: text deltas
/// as they come (thinking dimmed), the other known events tagged and on a
/// line of their own; `None` for the events shown by their debug form.
pub open spec fn spec_event_line(e: AgentEvent) -> Option<Seq<char>> {
    match e {
        AgentEvent::TextDelta(t) => Some(t@),
        AgentEvent::ThinkingDelta(t) => Some("\u{1b}[2m"@ + t@ + "\u{1b}[0m"@),
        AgentEvent::LlmResponse(s) => Some("[llm] "@ + s@ + "\n"@),
        AgentEvent::Thinking(s) => Some("[think] "@ + s@ + "\n"@),
        AgentEvent::ToolCall { name, input_json } => Some(
            "[tool] "@ + name@ + " "@ + input_json@ + "\n"@,
        ),
        AgentEvent::ToolResult { ok, content } => Some(
            "[result ok="@ + json_bool(ok) + "] "@ + content@ + "\n"@,
        ),
        AgentEvent::Requesting => Some("[requesting]\n"@),
        AgentEvent::Done => Some("[done]\n"@),
        AgentEvent::Error(e) => Some("[error] "@ + e@ + "\n"@),
        _ => None,
    }
}

/// The summary a follower prints for an agent event, if it has one.
pub fn event_line(e: &AgentEvent) -> (r: Option<String>)
    ensures
        match r {
            Some(s) => spec_event_line(*e) == Some(s@),
            None => spec_event_line(*e) is None,
        },
{
    let mut out = String::new();
    match e {
        AgentEvent::TextDelta(t) => {
            push_str(&mut out, t.as_str());
        },
        AgentEvent::ThinkingDelta(t) => {
            push_str(&mut out, "\u{1b}[2m");
            push_str(&mut out, t.as_str());
            push_str(&mut out, "\u{1b}[0m");
        },
        AgentEvent::LlmResponse(s) => {
            push_str(&mut out, "[llm] ");
            push_str(&mut out, s.as_str());
            push_str(&mut out, "\n");
        },
        AgentEvent::Thinking(s) => {
            push_str(&mut out, "[think] ");
            push_str(&mut out, s.as_str());
            push_str(&mut out, "\n");
        },
        AgentEvent::ToolCall { name, input_json } => {
            push_str(&mut out, "[tool] ");
            push_str(&mut out, name.as_str());
            push_str(&mut out, " ");
            push_str(&mut out, input_json.as_str());
            push_str(&mut out, "\n");
        },
        AgentEvent::ToolResult { ok, content } => {
            push_str(&mut out, "[result ok=");
            if *ok {
                push_str(&mut out, "true");
            } else {
                push_str(&mut out, "false");
            }
            push_str(&mut out, "] ");
            push_str(&mut out, content.as_str());
            push_str(&mut out, "\n");
        },
        AgentEvent::Requesting => {
            push_str(&mut out, "[requesting]\n");
        },
        AgentEvent::Done => {
            push_str(&mut out, "[done]\n");
        },
        AgentEvent::Error(m) => {
            push_str(&mut out, "[error] ");
            push_str(&mut out, m.as_str());
            push_str(&mut out, "\n");
        },
        _ => {
            return None;
        },
    }
    proof {
        assert(Some(out@) == spec_event_line(*e));
    }
    Some(out)
}

/// What the runtime reports about its agents. An agent is named by its
/// 128-bit id; lifecycle statuses are carried as their debug text.
#[derive(Debug, Clone)]
pub enum ProcessEvent {
    /// An event of a running agent.
    Agent { agent_id: u128, event: AgentEvent },
    /// An agent's lifecycle status changed.
    StateChanged { agent_id: u128, new_status: String },
    /// An agent's process ended.
    ProcessExited { agent_id: u128, status: String },
}

/// The agent a process event is about.
pub open spec fn event_agent(e: ProcessEvent) -> u128 {
    match e {
        ProcessEvent::Agent { agent_id, .. } => agent_id,
        ProcessEvent::StateChanged { agent_id, .. } => agent_id,
        ProcessEvent::ProcessExited { agent_id, .. } => agent_id,
    }
}

/// Whether a process event concerns the agent `id`.
pub fn event_concerns(e: &ProcessEvent, id: u128) -> (r: bool)
    ensures
        r == (event_agent(*e) == id),
{
    match e {
        ProcessEvent::Agent { agent_id, .. } => *agent_id == id,
        ProcessEvent::StateChanged { agent_id, .. } => *agent_id == id,
        ProcessEvent::ProcessExited { agent_id, .. } => *agent_id == id,
    }
}

/// The summary a follower prints for a process event, if it has one.
pub open spec fn spec_process_line(e: ProcessEvent) -> Option<Seq<char>> {
    match e {
        ProcessEvent::StateChanged { new_status, .. } => Some("[state] "@ + new_status@ + "\n"@),
        ProcessEvent::ProcessExited { status, .. } => Some("[exited] "@ + status@ + "\n"@),
        ProcessEvent::Agent { event, .. } => spec_event_line(event),
    }
}

/// The summary a follower prints for a process event; `None` for agent
/// events shown by their debug form.
pub fn process_line(e: &ProcessEvent) -> (r: Option<String>)
    ensures
        match r {
            Some(s) => spec_process_line(*e) == Some(s@),
            None => spec_process_line(*e) is None,
        },
{
    match e {
        ProcessEvent::StateChanged { new_status, .. } => {
            let mut out = string_from("[state] ");
            push_str(&mut out, new_status.as_str());
            push_str(&mut out, "\n");
            Some(out)
        },
        ProcessEvent::ProcessExited { status, .. } => {
            let mut out = string_from("[exited] ");
            push_str(&mut out, status.as_str());
            push_str(&mut out, "\n");
            Some(out)
        },
        ProcessEvent::Agent { event, .. } => event_line(event),
    }
}

/// What a follower of agent `id` does with an event from the stream.
#[derive(Debug, Clone, Copy, PartialEq, Eq, Structural)]
pub enum FollowStep {
    /// The event is about another agent.
    Skip,
    /// Show the event and keep following.
    Show,
    /// Show the event and stop: the followed agent has exited.
    ShowAndStop,
}

/// The step a follower of agent `id` takes for an event.
pub fn follow_step(e: &ProcessEvent, id: u128) -> (r: FollowStep)
    ensures
        event_agent(*e) != id ==> r == FollowStep::Skip,
        event_agent(*e) == id && e is ProcessExited ==> r == FollowStep::ShowAndStop,
        event_agent(*e) == id && !(e is ProcessExited) ==> r == FollowStep::Show,
{
    if !event_concerns(e, id) {
        FollowStep::Skip
    } else {
        match e {
            ProcessEvent::ProcessExited { .. } => FollowStep::ShowAndStop,
            _ => FollowStep::Show,
        }
    }
}

} // verus!
