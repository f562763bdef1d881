use nexus_os::agent::{
    agent_messages, approved_action, classify_log, kill_report, submitted_line, system_prompt, AgentMessage,
    AgentOutput, Approved, LogStyle,
};
use nexus_os::agent::{approve_pending, deny_pending, receive_message, PendingAction};

fn output(message: &str, action: &str, target: Option<usize>) -> AgentOutput {
    AgentOutput { message: message.to_string(), action: action.to_string(), target }
}

#[test]
fn kill_is_proposed_for_approval() {
    let msgs = agent_messages(output("Stopping it.", "KILL_PID", Some(42)));
    assert_eq!(
        msgs,
        vec![
            AgentMessage::Log("[Agent] Stopping it.".to_string()),
            AgentMessage::ProposedAction {
                action: "KILL_PID".to_string(),
                target: Some(42),
                description: "The AI wants to execute KILL_PID on target Some(42)".to_string(),
            },
        ]
    );
}

#[test]
fn stats_are_proposed_for_approval() {
    let msgs = agent_messages(output("Here.", "GET_STATS", None));
    assert_eq!(msgs[1], AgentMessage::ProposedAction {
        action: "GET_STATS".to_string(),
        target: None,
        description: "The AI wants to execute GET_STATS on target None".to_string(),
    });
}

#[test]
fn other_actions_only_log() {
    assert_eq!(agent_messages(output("Hi", "NONE", None)), vec![AgentMessage::Log("[Agent] Hi".to_string())]);
    assert_eq!(agent_messages(output("Hi", "kill_pid", Some(1))).len(), 1);
}

#[test]
fn log_styles() {
    assert_eq!(classify_log("> ls"), LogStyle::Command);
    assert_eq!(classify_log("[Agent] ok"), LogStyle::Agent);
    assert_eq!(classify_log("[Agent Error] bad"), LogStyle::Error);
    assert_eq!(classify_log("[Warning] x"), LogStyle::Error);
    assert_eq!(classify_log("[System Error] y"), LogStyle::Error);
    assert_eq!(classify_log("[System] fine"), LogStyle::Plain);
}

#[test]
fn submitted_lines() {
    assert_eq!(submitted_line("   "), None);
    assert_eq!(submitted_line(" kill 5 "), Some(">  kill 5 ".to_string()));
}

#[test]
fn approvals() {
    assert_eq!(approved_action("KILL_PID", Some(7)), Approved::KillProcess(7));
    assert_eq!(approved_action("KILL_PID", None), Approved::Nothing);
    assert_eq!(approved_action("GET_STATS", Some(7)), Approved::ReportStats);
    assert_eq!(approved_action("NONE", None), Approved::Nothing);
    assert_eq!(kill_report(123, true), "[System] Sent SIGKILL to PID 123");
    assert_eq!(kill_report(9, false), "[System] Failed: PID 9 not found");
}

#[test]
fn prompt_embeds_the_request() {
    let p = system_prompt("free memory");
    assert!(p.starts_with("You are NexusOS, an advanced agentic operating system.\nYou MUST respond"));
    assert!(p.ends_with("- 'NONE': If no action is needed, set target to null.\nUser request: 'free memory'"));
}

#[test]
fn messages_go_to_the_log_or_await_approval() {
    let mut logs: Vec<String> = vec!["[System] ready".to_string()];
    let mut pending: Option<PendingAction> = None;
    receive_message(&mut logs, &mut pending, AgentMessage::Log("[Agent] hi".to_string()));
    assert_eq!(logs, vec!["[System] ready".to_string(), "[Agent] hi".to_string()]);
    assert_eq!(pending, None);
    let first = AgentMessage::ProposedAction {
        action: "GET_STATS".to_string(),
        target: None,
        description: "d1".to_string(),
    };
    receive_message(&mut logs, &mut pending, first);
    let second = AgentMessage::ProposedAction {
        action: "KILL_PID".to_string(),
        target: Some(7),
        description: "d2".to_string(),
    };
    receive_message(&mut logs, &mut pending, second);
    assert_eq!(logs.len(), 2);
    assert_eq!(
        pending,
        Some(PendingAction { action: "KILL_PID".to_string(), target: Some(7), description: "d2".to_string() })
    );
}

#[test]
fn deny_and_approve_drop_the_pending_action() {
    let mut logs: Vec<String> = vec![];
    let mut pending = Some(PendingAction { action: "KILL_PID".to_string(), target: Some(42), description: String::new() });
    deny_pending(&mut logs, &mut pending);
    assert_eq!(logs, vec!["[Security] Action blocked by User.".to_string()]);
    assert_eq!(pending, None);
    let mut pending = Some(PendingAction { action: "KILL_PID".to_string(), target: Some(42), description: String::new() });
    assert_eq!(approve_pending(&mut pending), Approved::KillProcess(42));
    assert_eq!(pending, None);
    let mut pending = Some(PendingAction { action: "GET_STATS".to_string(), target: None, description: String::new() });
    assert_eq!(approve_pending(&mut pending), Approved::ReportStats);
    assert_eq!(approve_pending(&mut pending), Approved::Nothing);
}
