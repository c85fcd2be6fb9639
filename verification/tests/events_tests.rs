use agentik::events::{
    event_concerns, event_frame, event_line, follow_step, frame_for, process_line, AgentEvent, FollowStep,
    ProcessEvent,
};

fn frame(e: AgentEvent) -> (String, String) {
    event_frame(&e)
}

#[test]
fn text_events_carry_their_text() {
    assert_eq!(frame(AgentEvent::TextDelta("hi".to_string())), ("text_delta".to_string(), "hi".to_string()));
    assert_eq!(frame(AgentEvent::ThinkingDelta("hm".to_string())).0, "thinking_delta");
    assert_eq!(frame(AgentEvent::LlmResponse("r".to_string())).0, "llm_response");
    assert_eq!(frame(AgentEvent::Thinking("t".to_string())).0, "thinking");
    assert_eq!(frame(AgentEvent::Error("bad".to_string())), ("error".to_string(), "bad".to_string()));
    assert_eq!(frame(AgentEvent::Requesting), ("requesting".to_string(), String::new()));
    assert_eq!(frame(AgentEvent::Done), ("done".to_string(), String::new()));
}

#[test]
fn structured_events_are_json_objects() {
    assert_eq!(
        frame(AgentEvent::UsageUpdate { input_tokens: 5, output_tokens: 70 }).1,
        "{\"input_tokens\":5,\"output_tokens\":70}"
    );
    assert_eq!(
        frame(AgentEvent::ContentBlockStart { index: 2, kind_json: "\"text\"".to_string() }).1,
        "{\"index\":2,\"kind\":\"text\"}"
    );
    assert_eq!(frame(AgentEvent::ContentBlockStop { index: 0 }).1, "{\"index\":0}");
    assert_eq!(
        frame(AgentEvent::StreamDelta { stop_reason_json: "\"end_turn\"".to_string() }).1,
        "{\"stop_reason\":\"end_turn\"}"
    );
    assert_eq!(frame(AgentEvent::StreamStart { message_json: "{}".to_string() }).1, "{}");
}

#[test]
fn tool_events_quote_their_text() {
    let (kind, data) = frame(AgentEvent::ToolCall { name: "ba\"sh".to_string(), input_json: "{\"cmd\":\"ls\"}".to_string() });
    assert_eq!(kind, "tool_call");
    assert_eq!(data, "{\"input\":{\"cmd\":\"ls\"},\"name\":\"ba\\\"sh\"}");
    let (kind, data) = frame(AgentEvent::ToolResult { ok: true, content: "a\nb".to_string() });
    assert_eq!(kind, "tool_result");
    assert_eq!(data, "{\"content\":\"a\\nb\",\"ok\":true}");
    assert_eq!(
        frame(AgentEvent::ToolResult { ok: false, content: "x".to_string() }).1,
        "{\"content\":\"x\",\"ok\":false}"
    );
}

#[test]
fn only_the_followed_agent_is_framed() {
    let e = AgentEvent::Done;
    assert!(frame_for(1, 2, &e).is_none());
    assert_eq!(frame_for(7, 7, &e).unwrap().0, "done");
}

#[test]
fn frames_match_serde_json_objects() {
    let mut m = serde_json::Map::new();
    m.insert("ok".to_string(), serde_json::Value::Bool(true));
    m.insert("content".to_string(), serde_json::Value::String("q\"t".to_string()));
    let v = serde_json::Value::Object(m);
    assert_eq!(frame(AgentEvent::ToolResult { ok: true, content: "q\"t".to_string() }).1, v.to_string());
}


#[test]
fn follower_lines() {
    assert_eq!(event_line(&AgentEvent::TextDelta("ab".to_string())).unwrap(), "ab");
    assert_eq!(event_line(&AgentEvent::ThinkingDelta("hm".to_string())).unwrap(), "\x1b[2mhm\x1b[0m");
    assert_eq!(event_line(&AgentEvent::LlmResponse("r".to_string())).unwrap(), "[llm] r\n");
    assert_eq!(event_line(&AgentEvent::Thinking("t".to_string())).unwrap(), "[think] t\n");
    assert_eq!(
        event_line(&AgentEvent::ToolCall { name: "bash".to_string(), input_json: "{\"c\":1}".to_string() }).unwrap(),
        "[tool] bash {\"c\":1}\n"
    );
    assert_eq!(
        event_line(&AgentEvent::ToolResult { ok: false, content: "no".to_string() }).unwrap(),
        "[result ok=false] no\n"
    );
    assert_eq!(event_line(&AgentEvent::Requesting).unwrap(), "[requesting]\n");
    assert_eq!(event_line(&AgentEvent::Done).unwrap(), "[done]\n");
    assert_eq!(event_line(&AgentEvent::Error("e".to_string())).unwrap(), "[error] e\n");
    assert!(event_line(&AgentEvent::ContentBlockStop { index: 1 }).is_none());
}

#[test]
fn process_events_for_a_follower() {
    let exit = ProcessEvent::ProcessExited { agent_id: 9, status: "Completed".to_string() };
    let state = ProcessEvent::StateChanged { agent_id: 9, new_status: "Running".to_string() };
    let other = ProcessEvent::Agent { agent_id: 3, event: AgentEvent::Done };
    assert!(event_concerns(&exit, 9));
    assert!(!event_concerns(&other, 9));
    assert_eq!(follow_step(&other, 9), FollowStep::Skip);
    assert_eq!(follow_step(&state, 9), FollowStep::Show);
    assert_eq!(follow_step(&exit, 9), FollowStep::ShowAndStop);
    assert_eq!(follow_step(&exit, 8), FollowStep::Skip);
    assert_eq!(process_line(&state).unwrap(), "[state] Running\n");
    assert_eq!(process_line(&exit).unwrap(), "[exited] Completed\n");
    assert_eq!(process_line(&other).unwrap(), "[done]\n");
}

#[test]
fn tool_text_is_escaped_like_json_strings() {
    let content = "tab\there \\ back\u{8}\u{c}\r\u{1}\u{1f} é";
    let data = frame(AgentEvent::ToolResult { ok: false, content: content.to_string() }).1;
    assert_eq!(data, "{\"content\":\"tab\\there \\\\ back\\b\\f\\r\\u0001\\u001f é\",\"ok\":false}");
    assert_eq!(data, format!("{{\"content\":{},\"ok\":false}}", serde_json::to_string(content).unwrap()));
}
