use agentik::prompt::SystemPromptBuilder;
use agentik::registry::{AgentBlueprint, AgentBlueprintError, AgentRegistry};
use agentik::runtime::{RuntimeConfig, RuntimeError};
use agentik::storage::AgentSnapshotStorageError;
use agentik::toolset::{call_result, CallOutcome, ToolError, ToolRegistration, ToolResult, Toolset};
use std::sync::Arc;

fn kind(name: &str, tools: u32) -> Arc<AgentBlueprint<u32>> {
    Arc::new(AgentBlueprint::new(name, "Display", tools))
}

#[test]
fn blueprint_identity() {
    let b = AgentBlueprint::new("coder", "Generic Coder", ()).with_identity("You help.");
    assert_eq!(b.name, "coder");
    assert_eq!(b.display_name, "Generic Coder");
    assert_eq!(b.default_identity.as_deref(), Some("You help."));
    assert!(AgentBlueprint::new("x", "y", ()).default_identity.is_none());
}

#[test]
fn registry_register_get_replace_unregister() {
    let mut reg: AgentRegistry<u32> = AgentRegistry::new();
    assert!(reg.get("coder").is_none());
    reg.register(kind("coder", 1));
    reg.register(kind("writer", 2));
    assert_eq!(reg.get("coder").unwrap().tool_provider, 1);
    // Registering the same name again replaces the kind.
    reg.register(kind("coder", 3));
    assert_eq!(reg.get("coder").unwrap().tool_provider, 3);
    let mut names = reg.list();
    names.sort();
    assert_eq!(names, vec!["coder", "writer"]);
    reg.unregister("coder");
    assert!(reg.get("coder").is_none());
    assert_eq!(reg.list(), vec!["writer"]);
    // Unregistering an unknown name changes nothing.
    reg.unregister("nobody");
    assert_eq!(reg.list(), vec!["writer"]);
}

#[test]
fn registry_default_is_empty() {
    let reg: AgentRegistry<u32> = AgentRegistry::default();
    assert!(reg.list().is_empty());
}

#[test]
fn blueprint_error_messages() {
    assert_eq!(
        AgentBlueprintError::NotFound("coder".to_string()).message(),
        "agent kind 'coder' not registered"
    );
    let e = AgentBlueprintError::BuildFailed { kind: "coder".to_string(), reason: "no pool".to_string() };
    assert_eq!(e.message(), "kind 'coder' failed to build: no pool");
}

#[test]
fn prompt_layers_in_order() {
    let p = SystemPromptBuilder::default()
        .with_tooluse_guidance("G")
        .with_extra_section("E")
        .with_identity("I")
        .parse();
    assert_eq!(p, "I\nE\nG\n");
    assert_eq!(SystemPromptBuilder::default().parse(), "");
    assert_eq!(SystemPromptBuilder::default().with_extra_section("only").parse(), "only\n");
}

#[test]
fn standard_tool_guidance() {
    let p = SystemPromptBuilder::default().build_tooluse_guidance().parse();
    assert!(p.starts_with("## Tool usage\nUse tools to complete the task."));
    assert!(p.contains("## Task completion\n"));
    assert!(p.ends_with("it will still be processed normally.\n\n"));
}

#[test]
fn toolset_rejects_duplicate_names() {
    let mut ts: Toolset<u8> = Toolset::new();
    assert!(ts.register(ToolRegistration { name: "bash".to_string(), tool: 1 }).is_ok());
    assert!(ts.contains("bash"));
    assert!(!ts.contains("read"));
    match ts.register(ToolRegistration { name: "bash".to_string(), tool: 2 }) {
        Err(ToolError::RegistryError { message }) => {
            assert_eq!(message, "Tool 'bash' is already registered")
        }
        Ok(()) => panic!("duplicate accepted"),
    }
    assert_eq!(ts.get("bash"), Some(&1));
}

#[test]
fn toolset_register_all_stops_at_first_duplicate() {
    let mut ts: Toolset<u8> = Toolset::default();
    let regs = vec![
        ToolRegistration { name: "a".to_string(), tool: 1 },
        ToolRegistration { name: "b".to_string(), tool: 2 },
        ToolRegistration { name: "a".to_string(), tool: 3 },
        ToolRegistration { name: "c".to_string(), tool: 4 },
    ];
    assert!(ts.register_all(regs).is_err());
    assert!(ts.contains("a") && ts.contains("b"));
    assert!(!ts.contains("c"));
    assert_eq!(ts.get("a"), Some(&1));
    let fresh = vec![ToolRegistration { name: "c".to_string(), tool: 5 }];
    assert!(ts.register_all(fresh).is_ok());
    assert_eq!(ts.get("c"), Some(&5));
}

#[test]
fn runtime_config_and_errors() {
    let c: RuntimeConfig<String> = RuntimeConfig::headless();
    assert!(c.model_config.is_none());
    let c = c.with_model_config("pool".to_string());
    assert_eq!(c.model_config.as_deref(), Some("pool"));
    let d: RuntimeConfig<u8> = RuntimeConfig::default();
    assert!(d.model_config.is_none());
    assert_eq!(RuntimeError::Process("boom".to_string()).message(), "process manager error: boom");
    assert_eq!(AgentSnapshotStorageError::Other("disk".to_string()).message(), "snapshot storage error");
}

#[test]
fn built_in_coder_kind() {
    let k = agentik::registry::coder_kind(7u8);
    assert_eq!(k.name, "coder");
    assert_eq!(k.display_name, "Generic Coder");
    assert_eq!(k.tool_provider, 7);
    assert_eq!(
        k.default_identity.as_deref(),
        Some("You are a helpful coding assistant. You can read, write, and edit files, run shell commands, and fetch web content.")
    );
}

#[test]
fn toolset_lists_each_registered_tool_once() {
    let mut ts: Toolset<u8> = Toolset::new();
    assert!(ts.tools().is_empty());
    ts.register_all(vec![
        ToolRegistration { name: "read".to_string(), tool: 1 },
        ToolRegistration { name: "write".to_string(), tool: 2 },
    ])
    .unwrap();
    let mut listed: Vec<u8> = ts.tools().into_iter().copied().collect();
    listed.sort();
    assert_eq!(listed, vec![1, 2]);
}

#[test]
fn only_calls_to_registered_tools_run() {
    let mut ts: Toolset<u8> = Toolset::new();
    ts.register(ToolRegistration { name: "bash".to_string(), tool: 1 }).unwrap();
    ts.register(ToolRegistration { name: "read".to_string(), tool: 2 }).unwrap();
    let calls = vec!["read".to_string(), "nope".to_string(), "bash".to_string(), "read".to_string()];
    assert_eq!(ts.calls_to_run(&calls), vec![0, 2, 3]);
    assert!(ts.calls_to_run(&vec![]).is_empty());
}

#[test]
fn call_results_answer_their_call() {
    let ok = call_result(
        "call-1",
        CallOutcome::Finished(ToolResult { tool_use_id: String::new(), content: "done".to_string(), is_error: false }),
    );
    assert_eq!((ok.tool_use_id.as_str(), ok.content.as_str(), ok.is_error), ("call-1", "done", false));
    let bad = call_result("call-2", CallOutcome::Invalid("missing field `command`".to_string()));
    assert_eq!((bad.tool_use_id.as_str(), bad.content.as_str(), bad.is_error), ("call-2", "missing field `command`", true));
    let failed = call_result("call-3", CallOutcome::Failed("timed out".to_string()));
    assert_eq!((failed.tool_use_id.as_str(), failed.content.as_str(), failed.is_error), ("call-3", "timed out", true));
}
