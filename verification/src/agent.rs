//! The desktop's agent terminal: the request sent to the language model, what
//! its structured answer turns into, how log lines are shown, and which
//! approved action runs.
use vstd::prelude::*;
use vstd::string::*;
use crate::text::{chars_equal, chars_of, decimal, decimal_string, trim, trimmed};

verus! {

/// The structured answer of the model.
#[derive(Debug, Clone, PartialEq, Eq)]
pub struct AgentOutput {
    pub message: String,
    pub action: String,
    pub target: Option<usize>,
}

/// What the agent loop hands to the window.
#[derive(Debug, Clone, PartialEq, Eq)]
pub enum AgentMessage {
    /// A line for the terminal.
    Log(String),
    /// An action that needs the user's approval.
    ProposedAction { action: String, target: Option<usize>, description: String },
}

/// The model of a message.
pub enum AgentNote {
    Log(Seq<char>),
    Proposed { action: Seq<char>, target: Option<usize>, description: Seq<char> },
}

impl View for AgentMessage {
    type V = AgentNote;

    open spec fn view(&self) -> AgentNote {
        match self {
            AgentMessage::Log(s) => AgentNote::Log(s@),
            AgentMessage::ProposedAction { action, target, description } => AgentNote::Proposed {
                action: action@,
                target: *target,
                description: description@,
            },
        }
    }
}

/// How a terminal line is shown.
#[derive(Debug, Clone, Copy, PartialEq, Eq)]
pub enum LogStyle {
    /// What the user typed.
    Command,
    /// What the agent said.
    Agent,
    /// An error or a warning.
    Error,
    /// Anything else.
    Plain,
}

/// An action the user approved, as far as the window needs to run it.
#[derive(Debug, Clone, Copy, PartialEq, Eq)]
pub enum Approved {
    /// End the process with this id.
    KillProcess(usize),
    /// Report CPU and memory use.
    ReportStats,
    /// Nothing to run.
    Nothing,
}

pub const KILL_PID: &'static str = "KILL_PID";

pub const GET_STATS: &'static str = "GET_STATS";

pub const PROMPT_HEAD: &'static str = "You are NexusOS, an advanced agentic operating system.\nYou MUST respond in strict JSON format with exactly three fields: 'message' (string), 'action' (string), 'target' (integer or null).\nAVAILABLE ACTIONS:\n- 'KILL_PID': Set target to the process ID you want to kill.\n- 'GET_STATS': Set target to null.\n- 'NONE': If no action is needed, set target to null.\nUser request: '";

/// `Debug`'s text for an optional number.
pub open spec fn debug_option(t: Option<usize>) -> Seq<char> {
    match t {
        Some(n) => "Some("@ + decimal(n as nat) + ")"@,
        None => "None"@,
    }
}

/// The action is one that needs the user's approval.
pub open spec fn needs_approval(action: Seq<char>) -> bool {
    action == KILL_PID@ || action == GET_STATS@
}

/// What the model's answer turns into: its message for the terminal, then
/// the action it proposes when that is one the user can approve.
pub open spec fn agent_notes(message: Seq<char>, action: Seq<char>, target: Option<usize>) -> Seq<AgentNote> {
    let log = AgentNote::Log("[Agent] "@ + message);
    if needs_approval(action) {
        seq![
            log,
            AgentNote::Proposed {
                action,
                target,
                description: "The AI wants to execute "@ + action + " on target "@ + debug_option(target),
            },
        ]
    } else {
        seq![log]
    }
}

/// `s` is exactly `lit`.
pub fn same_text(s: &str, lit: &str) -> (b: bool)
    ensures
        b == (s@ == lit@),
{
    chars_equal(&chars_of(s), &chars_of(lit))
}

/// `s` begins with `lit`.
pub fn begins_with(s: &str, lit: &str) -> (b: bool)
    ensures
        b == crate::text::starts_with(s@, lit@),
{
    crate::text::has_prefix(&chars_of(s), &chars_of(lit))
}

/// The text `Debug` writes for an optional number.
pub fn debug_option_text(t: Option<usize>) -> (s: String)
    ensures
        s@ == debug_option(t),
{
    match t {
        Some(n) => {
            let mut s = "Some(".to_owned();
            s.append(decimal_string(n as u64).as_str());
            s.append(")");
            s
        },
        None => "None".to_owned(),
    }
}

/// The request sent to the model for the user's message.
pub fn system_prompt(user_msg: &str) -> (s: String)
    ensures
        s@ == PROMPT_HEAD@ + user_msg@ + "'"@,
{
    let mut s = PROMPT_HEAD.to_owned();
    s.append(user_msg);
    s.append("'");
    s
}

/// What the model's answer turns into.
pub fn agent_messages(out: AgentOutput) -> (r: Vec<AgentMessage>)
    ensures
        r@.map_values(|m: AgentMessage| m@) == agent_notes(out.message@, out.action@, out.target),
{
    let mut log = "[Agent] ".to_owned();
    log.append(out.message.as_str());
    let mut r: Vec<AgentMessage> = Vec::new();
    r.push(AgentMessage::Log(log));
    if same_text(out.action.as_str(), KILL_PID) || same_text(out.action.as_str(), GET_STATS) {
        let mut description = "The AI wants to execute ".to_owned();
        description.append(out.action.as_str());
        description.append(" on target ");
        description.append(debug_option_text(out.target).as_str());
        r.push(AgentMessage::ProposedAction { action: out.action, target: out.target, description });
    }
    assert(r@.map_values(|m: AgentMessage| m@) =~= agent_notes(out.message@, out.action@, out.target));
    r
}

/// How a terminal line is shown.
pub fn classify_log(log: &str) -> (s: LogStyle)
    ensures
        s == (if crate::text::starts_with(log@, ">"@) {
            LogStyle::Command
        } else if crate::text::starts_with(log@, "[Agent]"@) {
            LogStyle::Agent
        } else if crate::text::starts_with(log@, "[System Error]"@) || crate::text::starts_with(
            log@,
            "[Warning]"@,
        ) || crate::text::starts_with(log@, "[Agent Error]"@) {
            LogStyle::Error
        } else {
            LogStyle::Plain
        }),
{
    if begins_with(log, ">") {
        LogStyle::Command
    } else if begins_with(log, "[Agent]") {
        LogStyle::Agent
    } else if begins_with(log, "[System Error]") || begins_with(log, "[Warning]") || begins_with(
        log,
        "[Agent Error]",
    ) {
        LogStyle::Error
    } else {
        LogStyle::Plain
    }
}

/// The terminal line for a command the user sends, unless it is blank.
pub fn submitted_line(input: &str) -> (r: Option<String>)
    ensures
        trim(input@).len() == 0 ==> r is None,
        trim(input@).len() > 0 ==> (r matches Some(s) && s@ == "> "@ + input@),
{
    let t = trimmed(&chars_of(input));
    if t.len() == 0 {
        None
    } else {
        let mut s = "> ".to_owned();
        s.append(input);
        Some(s)
    }
}

/// What an approved action runs.
pub open spec fn approved_spec(action: Seq<char>, target: Option<usize>) -> Approved {
    if action == KILL_PID@ {
        match target {
            Some(pid) => Approved::KillProcess(pid),
            None => Approved::Nothing,
        }
    } else if action == GET_STATS@ {
        Approved::ReportStats
    } else {
        Approved::Nothing
    }
}

/// What an approved action runs.
pub fn approved_action(action: &str, target: Option<usize>) -> (a: Approved)
    ensures
        a == approved_spec(action@, target),
{
    if same_text(action, KILL_PID) {
        match target {
            Some(pid) => Approved::KillProcess(pid),
            None => Approved::Nothing,
        }
    } else if same_text(action, GET_STATS) {
        Approved::ReportStats
    } else {
        Approved::Nothing
    }
}

/// The terminal line after trying to end process `pid`.
pub fn kill_report(pid: usize, found: bool) -> (s: String)
    ensures
        s@ == (if found {
            "[System] Sent SIGKILL to PID "@ + decimal(pid as nat)
        } else {
            "[System] Failed: PID "@ + decimal(pid as nat) + " not found"@
        }),
{
    let n = decimal_string(pid as u64);
    if found {
        let mut s = "[System] Sent SIGKILL to PID ".to_owned();
        s.append(n.as_str());
        s
    } else {
        let mut s = "[System] Failed: PID ".to_owned();
        s.append(n.as_str());
        s.append(" not found");
        s
    }
}

/// An action waiting for the user's approval.
#[derive(Debug, Clone, PartialEq, Eq)]
pub struct PendingAction {
    pub action: String,
    pub target: Option<usize>,
    pub description: String,
}

/// Takes a message from the agent loop: a log line goes to the end of the
/// terminal's lines, a proposed action becomes the one awaiting approval,
/// replacing any before it.
pub fn receive_message(logs: &mut Vec<String>, pending: &mut Option<PendingAction>, msg: AgentMessage)
    ensures
        (match msg {
            AgentMessage::Log(l) => final(logs)@ == old(logs)@.push(l) && *final(pending) == *old(pending),
            AgentMessage::ProposedAction { action, target, description } => final(logs)@ == old(logs)@
                && *final(pending) == Some((PendingAction { action, target, description })),
        }),
{
    match msg {
        AgentMessage::Log(l) => logs.push(l),
        AgentMessage::ProposedAction { action, target, description } => {
            *pending = Some(PendingAction { action, target, description });
        },
    }
}

/// The terminal line for an action the user denied.
pub const BLOCKED_LOG: &'static str = "[Security] Action blocked by User.";

/// The user denies the pending action: it is dropped, and the terminal says so.
pub fn deny_pending(logs: &mut Vec<String>, pending: &mut Option<PendingAction>)
    ensures
        final(logs)@.len() == old(logs)@.len() + 1,
        final(logs)@.drop_last() == old(logs)@,
        final(logs)@.last()@ == BLOCKED_LOG@,
        *final(pending) is None,
{
    logs.push(BLOCKED_LOG.to_owned());
    *pending = None;
}

/// The user approves the pending action: it is dropped, and what it runs is returned.
pub fn approve_pending(pending: &mut Option<PendingAction>) -> (a: Approved)
    ensures
        *final(pending) is None,
        a == (match *old(pending) {
            Some(p) => approved_spec(p.action@, p.target),
            None => Approved::Nothing,
        }),
{
    let a = match &*pending {
        Some(p) => approved_action(p.action.as_str(), p.target),
        None => Approved::Nothing,
    };
    *pending = None;
    a
}

} // verus!
