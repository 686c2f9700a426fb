use vstd::prelude::*;

use crate::text::{trim, trimmed, u64_to_decimal, decimal};
use crate::tools::commands::{command_of, CommandKind, Commands};

verus! {

/// The conversation so far: the user messages handed to the agent, oldest
/// first.
pub struct Session {
    history: Vec<String>,
}

/// What the loop does after reading a line.
pub enum Action {
    /// Print the text and stop.
    Quit(String),
    /// Nothing to do: read the next line.
    Skip,
    /// The history was cleared: print the banner and read the next line.
    NewSession(String),
    /// Run `command` in the shell, hand its result to `Session::on_shell_result`,
    /// then prompt the agent with `input`.
    Shell { command: String, input: String },
    /// Print the notice, then prompt the agent with `input`.
    Prompt { notice: String, input: String },
}

/// An `Action`, by the characters of its texts.
pub enum ActionView {
    Quit(Seq<char>),
    Skip,
    NewSession(Seq<char>),
    Shell { command: Seq<char>, input: Seq<char> },
    Prompt { notice: Seq<char>, input: Seq<char> },
}

impl View for Action {
    type V = ActionView;

    open spec fn view(&self) -> ActionView {
        match self {
            Action::Quit(t) => ActionView::Quit(t@),
            Action::Skip => ActionView::Skip,
            Action::NewSession(t) => ActionView::NewSession(t@),
            Action::Shell { command, input } => ActionView::Shell { command: command@, input: input@ },
            Action::Prompt { notice, input } => ActionView::Prompt { notice: notice@, input: input@ },
        }
    }
}

pub open spec fn end_of_input_farewell() -> Seq<char> {
    "\nCiao\n"@
}

pub open spec fn exit_farewell() -> Seq<char> {
    "Ciao\n"@
}

pub open spec fn new_session_banner() -> Seq<char> {
    "-----------------------------------------\n---------------New Session---------------\n-----------------------------------------\n"@
}

/// The list of commands that `/help` shows.
pub open spec fn help_notice() -> Seq<char> {
    "Commands:\n  /exit, /quit, /q   Exit the agent and return to the terminal\n  /help, /?          Show available commands\n  /clear, /new       Clear the conversation / start a new session\n  !<cmd>             Run a shell command and hand its output to the agent\nAnything else is sent to the agent as a chat message.\n"@
}

pub open spec fn unknown_notice() -> Seq<char> {
    "Unknown command\n"@
}

/// What the loop does with a line of `bytes_read` bytes: stop at the end of
/// the input; skip a blank line; otherwise act on the trimmed line as a
/// command. A line that asks for help shows the commands first. Every line
/// that is not a command to exit or to start a new session is also sent to
/// the agent.
pub open spec fn next_action(bytes_read: usize, line: Seq<char>) -> ActionView {
    let input = trimmed(line);
    if bytes_read == 0 {
        ActionView::Quit(end_of_input_farewell())
    } else if input.len() == 0 {
        ActionView::Skip
    } else {
        match command_of(input) {
            CommandKind::Exit => ActionView::Quit(exit_farewell()),
            CommandKind::New => ActionView::NewSession(new_session_banner()),
            CommandKind::Run(c) => ActionView::Shell { command: c, input },
            CommandKind::Help => ActionView::Prompt { notice: help_notice(), input },
            CommandKind::Unknown => ActionView::Prompt { notice: unknown_notice(), input },
        }
    }
}

/// The text that a shell command leaves in the conversation.
pub open spec fn shell_report(command: Seq<char>, result: Result<Seq<char>, Seq<char>>) -> Seq<char> {
    match result {
        Ok(out) => command + "\nResult:\n"@ + out,
        Err(e) => command + "\nError:\n"@ + e,
    }
}

impl Session {
    /// The user messages of the conversation, oldest first.
    pub closed spec fn history_view(&self) -> Seq<Seq<char>> {
        self.history.deep_view()
    }

    /// A session with no history.
    pub fn new() -> (s: Session)
        ensures
            s.history_view() == Seq::<Seq<char>>::empty(),
    {
        let s = Session { history: Vec::new() };
        assert(s.history_view() =~= Seq::<Seq<char>>::empty());
        s
    }

    /// The user messages of the conversation, oldest first.
    pub fn history(&self) -> (h: &Vec<String>)
        ensures
            h.deep_view() == self.history_view(),
    {
        &self.history
    }

    /// Decides what to do with a line read from the user (see `next_action`);
    /// only a new session changes the history, which it empties.
    pub fn on_line(&mut self, bytes_read: usize, line: &str) -> (a: Action)
        ensures
            a.view() == next_action(bytes_read, line@),
            final(self).history_view() == (if a is NewSession {
                Seq::<Seq<char>>::empty()
            } else {
                old(self).history_view()
            }),
    {
        proof {
            reveal_strlit("\nCiao\n");
        }
        if bytes_read == 0 {
            return Action::Quit(String::from_str("\nCiao\n"));
        }
        let input = trim(line);
        if input.unicode_len() == 0 {
            return Action::Skip;
        }
        match Commands::from(input) {
            Commands::Exit => Action::Quit(String::from_str("Ciao\n")),
            Commands::New => {
                self.history = Vec::new();
                assert(self.history_view() =~= Seq::<Seq<char>>::empty());
                Action::NewSession(
                    String::from_str(
                        "-----------------------------------------\n---------------New Session---------------\n-----------------------------------------\n",
                    ),
                )
            },
            Commands::Run(command) => Action::Shell {
                command: String::from_str(command),
                input: String::from_str(input),
            },
            Commands::Help => Action::Prompt {
                notice: String::from_str(
                    "Commands:\n  /exit, /quit, /q   Exit the agent and return to the terminal\n  /help, /?          Show available commands\n  /clear, /new       Clear the conversation / start a new session\n  !<cmd>             Run a shell command and hand its output to the agent\nAnything else is sent to the agent as a chat message.\n",
                ),
                input: String::from_str(input),
            },
            Commands::Unknown => Action::Prompt {
                notice: String::from_str("Unknown command\n"),
                input: String::from_str(input),
            },
        }
    }

    /// Records the result of a shell command: its report (see `shell_report`)
    /// joins the conversation, and is returned to be shown.
    pub fn on_shell_result(&mut self, command: &str, result: Result<String, String>) -> (report: String)
        ensures
            report@ == shell_report(command@, match result {
                Ok(out) => Ok(out@),
                Err(e) => Err(e@),
            }),
            final(self).history_view() == old(self).history_view().push(report@),
    {
        let mut report = String::from_str(command);
        match result {
            Ok(out) => {
                report.append("\nResult:\n");
                report.append(out.as_str());
            },
            Err(e) => {
                report.append("\nError:\n");
                report.append(e.as_str());
            },
        }
        let ghost before = self.history_view();
        self.history.push(report.clone());
        assert(self.history_view() =~= before.push(report@));
        report
    }

    /// Starts a prompt with `input`: returns the history that the agent gets
    /// with it, then adds `input` to the history.
    pub fn begin_prompt(&mut self, input: &str) -> (sent: Vec<String>)
        ensures
            sent.deep_view() == old(self).history_view(),
            final(self).history_view() == old(self).history_view().push(input@),
    {
        let sent = self.history.clone();
        assert(sent.deep_view() =~= self.history_view());
        let ghost before = self.history_view();
        self.history.push(String::from_str(input));
        assert(self.history_view() =~= before.push(input@));
        sent
    }
}

/// One item of the agent's streamed reply, as the loop reads it.
pub enum StreamEvent {
    /// Text of the answer.
    Text(String),
    /// A complete tool call.
    ToolCall,
    /// The name of a tool being called.
    ToolCallName(String),
    /// A piece of a tool call's arguments.
    ToolCallDelta(String),
    /// A complete piece of reasoning, as displayed.
    Reasoning(String),
    /// A piece of reasoning.
    ReasoningDelta(String),
    /// The end of a model turn, with the tokens it used.
    Final { total_tokens: u64 },
    /// A payload that was not understood, as debug text.
    Unknown(String),
    /// The tool calls of a turn were executed.
    ToolExecutionCommitted,
    /// A tool returned; the tool's name.
    ToolResult(String),
    /// A completion call finished, with its finish reason as debug text.
    Completion(Option<String>),
    /// A model turn was retried.
    ModelTurnRetried { turn: u64 },
    /// The final answer of the whole request.
    FinalResponse(String),
    /// The stream reported an error.
    Error(String),
}

/// A piece of output; a dim piece is shown in a faint color.
pub struct Segment {
    pub text: String,
    pub dim: bool,
}

pub open spec fn plain(t: Seq<char>) -> (Seq<char>, bool) {
    (t, false)
}

pub open spec fn dim(t: Seq<char>) -> (Seq<char>, bool) {
    (t, true)
}

/// What the loop prints for an item of the reply.
pub open spec fn rendered(ev: StreamEvent) -> Seq<(Seq<char>, bool)> {
    match ev {
        StreamEvent::Text(t) => seq![plain(t@)],
        StreamEvent::ToolCall => Seq::<(Seq<char>, bool)>::empty(),
        StreamEvent::ToolCallName(n) => seq![plain("\n"@), dim(n@), plain("\n"@)],
        StreamEvent::ToolCallDelta(d) => seq![dim(d@)],
        StreamEvent::Reasoning(r) => seq![plain("Reasoning: "@), dim(r@)],
        StreamEvent::ReasoningDelta(r) => seq![dim(r@)],
        StreamEvent::Final { total_tokens } => seq![
            plain("\nTotal Tokens: "@ + decimal(total_tokens as nat) + "\n"@),
        ],
        StreamEvent::Unknown(p) => seq![plain("\nUnknow payload: "@ + p@ + "\n"@)],
        StreamEvent::ToolExecutionCommitted => Seq::<(Seq<char>, bool)>::empty(),
        StreamEvent::ToolResult(n) => seq![plain("\nTool Call: "@), dim(n@), plain("\n"@)],
        StreamEvent::Completion(reason) => seq![
            plain("\nCompletion: "@),
            dim(
                match reason {
                    Some(r) => r@,
                    None => "No Reason Found"@,
                },
            ),
            plain("\n"@),
        ],
        StreamEvent::ModelTurnRetried { turn } => seq![
            plain("\nModel turn retired: "@ + decimal(turn as nat) + "\n"@),
        ],
        StreamEvent::FinalResponse(r) => seq![plain("\nFinal Res: "@ + r@ + "\n"@)],
        StreamEvent::Error(e) => seq![plain("\nError: "@ + e@ + "\n"@)],
    }
}

/// Output pieces, by their characters and dimness.
pub open spec fn segments_view(v: Seq<Segment>) -> Seq<(Seq<char>, bool)> {
    Seq::new(v.len(), |i: int| (v[i].text@, v[i].dim))
}

fn piece(s: &mut Vec<Segment>, text: String, dim: bool)
    ensures
        segments_view(final(s)@) == segments_view(old(s)@).push((text@, dim)),
{
    let ghost before = segments_view(s@);
    s.push(Segment { text, dim });
    assert(segments_view(s@) =~= before.push((text@, dim)));
}

fn framed(head: &str, body: &str, tail: &str) -> (t: String)
    ensures
        t@ == head@ + body@ + tail@,
{
    let mut t = String::from_str(head);
    t.append(body);
    t.append(tail);
    t
}

/// The output for an item of the agent's reply (see `rendered`).
pub fn render(ev: &StreamEvent) -> (out: Vec<Segment>)
    ensures
        segments_view(out@) == rendered(*ev),
{
    let mut out: Vec<Segment> = Vec::new();
    match ev {
        StreamEvent::Text(t) => {
            piece(&mut out, t.clone(), false);
        },
        StreamEvent::ToolCall => {},
        StreamEvent::ToolCallName(n) => {
            piece(&mut out, String::from_str("\n"), false);
            piece(&mut out, n.clone(), true);
            piece(&mut out, String::from_str("\n"), false);
        },
        StreamEvent::ToolCallDelta(d) => {
            piece(&mut out, d.clone(), true);
        },
        StreamEvent::Reasoning(r) => {
            piece(&mut out, String::from_str("Reasoning: "), false);
            piece(&mut out, r.clone(), true);
        },
        StreamEvent::ReasoningDelta(r) => {
            piece(&mut out, r.clone(), true);
        },
        StreamEvent::Final { total_tokens } => {
            let n = u64_to_decimal(*total_tokens);
            piece(&mut out, framed("\nTotal Tokens: ", n.as_str(), "\n"), false);
        },
        StreamEvent::Unknown(p) => {
            piece(&mut out, framed("\nUnknow payload: ", p.as_str(), "\n"), false);
        },
        StreamEvent::ToolExecutionCommitted => {},
        StreamEvent::ToolResult(n) => {
            piece(&mut out, String::from_str("\nTool Call: "), false);
            piece(&mut out, n.clone(), true);
            piece(&mut out, String::from_str("\n"), false);
        },
        StreamEvent::Completion(reason) => {
            piece(&mut out, String::from_str("\nCompletion: "), false);
            let r = match reason {
                Some(r) => r.clone(),
                None => String::from_str("No Reason Found"),
            };
            piece(&mut out, r, true);
            piece(&mut out, String::from_str("\n"), false);
        },
        StreamEvent::ModelTurnRetried { turn } => {
            let n = u64_to_decimal(*turn);
            piece(&mut out, framed("\nModel turn retired: ", n.as_str(), "\n"), false);
        },
        StreamEvent::FinalResponse(r) => {
            piece(&mut out, framed("\nFinal Res: ", r.as_str(), "\n"), false);
        },
        StreamEvent::Error(e) => {
            piece(&mut out, framed("\nError: ", e.as_str(), "\n"), false);
        },
    }
    assert(segments_view(out@) =~= rendered(*ev));
    out
}

/// Only the end of the input ends the loop with the end-of-input farewell:
/// any line that was read and trims to nothing (an empty line, spaces, a
/// lone newline) is skipped.
pub proof fn law_only_end_of_input_quits(bytes_read: usize, line: Seq<char>)
    ensures
        bytes_read > 0 && trimmed(line).len() == 0 ==> next_action(bytes_read, line) == ActionView::Skip,
        (next_action(bytes_read, line) == ActionView::Quit(end_of_input_farewell())) <==> bytes_read == 0,
{
    reveal_strlit("\nCiao\n");
    reveal_strlit("Ciao\n");
    assert(end_of_input_farewell().len() != exit_farewell().len());
}

/// The report of a shell command starts with the command and ends with all of
/// its output (or all of its error), with the nine characters
/// `"\nResult:\n"` (or the eight of `"\nError:\n"`) between them: nothing of
/// the output is lost.
pub proof fn law_shell_report_keeps_output(command: Seq<char>, out: Seq<char>)
    ensures
        shell_report(command, Ok(out)).len() == command.len() + 9 + out.len(),
        shell_report(command, Ok(out)).take(command.len() as int) == command,
        shell_report(command, Ok(out)).skip(command.len() + 9int) == out,
        shell_report(command, Err(out)).len() == command.len() + 8 + out.len(),
        shell_report(command, Err(out)).take(command.len() as int) == command,
        shell_report(command, Err(out)).skip(command.len() + 8int) == out,
{
    reveal_strlit("\nResult:\n");
    reveal_strlit("\nError:\n");
    let r = shell_report(command, Ok(out));
    assert(r.take(command.len() as int) =~= command);
    assert(r.skip(command.len() + 9int) =~= out);
    let e = shell_report(command, Err(out));
    assert(e.take(command.len() as int) =~= command);
    assert(e.skip(command.len() + 8int) =~= out);
}

} // verus!
