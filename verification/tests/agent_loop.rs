use lagent::agent_loop::{render, Action, Session, StreamEvent};

fn describe(a: &Action) -> String {
    match a {
        Action::Quit(t) => format!("quit:{t}"),
        Action::Skip => "skip".to_string(),
        Action::NewSession(b) => format!("new:{b}"),
        Action::Shell { command, input } => format!("shell:{command}|{input}"),
        Action::Prompt { notice, input } => format!("prompt:{notice}|{input}"),
    }
}

#[test]
fn end_of_input_quits() {
    let mut s = Session::new();
    assert_eq!(describe(&s.on_line(0, "")), "quit:\nCiao\n");
}

#[test]
fn blank_lines_are_skipped() {
    let mut s = Session::new();
    assert_eq!(describe(&s.on_line(3, "  \n")), "skip");
}

#[test]
fn exit_commands_quit() {
    let mut s = Session::new();
    assert_eq!(describe(&s.on_line(6, "/exit\n")), "quit:Ciao\n");
    assert_eq!(describe(&s.on_line(4, " /q \n")), "quit:Ciao\n");
}

#[test]
fn help_shows_the_commands_then_prompts() {
    let mut s = Session::new();
    for (line, input) in [("/help\n", "/help"), (" /? \n", "/?")] {
        let shown = describe(&s.on_line(line.len(), line));
        assert!(shown.starts_with("prompt:"));
        assert!(shown.ends_with(&format!("|{input}")));
        for command in ["/exit", "/quit", "/q", "/help", "/?", "/clear", "/new", "!<cmd>"] {
            assert!(shown.contains(command), "{command} missing from {shown}");
        }
    }
}

#[test]
fn unknown_commands_still_prompt() {
    let mut s = Session::new();
    assert_eq!(describe(&s.on_line(6, "hello\n")), "prompt:Unknown command\n|hello");
}

#[test]
fn shell_commands_are_run_then_prompted() {
    let mut s = Session::new();
    assert_eq!(describe(&s.on_line(5, "!ls\n")), "shell:ls|!ls");
    let report = s.on_shell_result("ls", Ok("a\nb\n".to_string()));
    assert_eq!(report, "ls\nResult:\na\nb\n");
    let failed = s.on_shell_result("x", Err("Failed to execute shell command: boom".to_string()));
    assert_eq!(failed, "x\nError:\nFailed to execute shell command: boom");
    let sent = s.begin_prompt("!ls");
    assert_eq!(sent, vec![report.clone(), failed.clone()]);
    assert_eq!(s.history(), &vec![report, failed, "!ls".to_string()]);
}

#[test]
fn prompts_join_the_history_after_being_sent() {
    let mut s = Session::new();
    assert!(s.begin_prompt("first").is_empty());
    assert_eq!(s.begin_prompt("second"), vec!["first".to_string()]);
    assert_eq!(s.history().len(), 2);
}

#[test]
fn new_session_clears_history() {
    let mut s = Session::new();
    s.begin_prompt("hi");
    let a = s.on_line(5, "/new\n");
    assert_eq!(
        describe(&a),
        "new:-----------------------------------------\n---------------New Session---------------\n-----------------------------------------\n"
    );
    assert!(s.history().is_empty());
    s.begin_prompt("again");
    s.on_line(7, "/clear\n");
    assert!(s.history().is_empty());
}

fn shown(ev: StreamEvent) -> Vec<(String, bool)> {
    render(&ev).into_iter().map(|s| (s.text, s.dim)).collect()
}

fn p(t: &str) -> (String, bool) {
    (t.to_string(), false)
}

fn d(t: &str) -> (String, bool) {
    (t.to_string(), true)
}

#[test]
fn stream_items_are_rendered() {
    assert_eq!(shown(StreamEvent::Text("hi".to_string())), vec![p("hi")]);
    assert_eq!(shown(StreamEvent::ToolCall), vec![]);
    assert_eq!(shown(StreamEvent::ToolCallName("read_file".to_string())), vec![p("\n"), d("read_file"), p("\n")]);
    assert_eq!(shown(StreamEvent::ToolCallDelta("{\"a\"".to_string())), vec![d("{\"a\"")]);
    assert_eq!(shown(StreamEvent::Reasoning("think".to_string())), vec![p("Reasoning: "), d("think")]);
    assert_eq!(shown(StreamEvent::ReasoningDelta("t".to_string())), vec![d("t")]);
    assert_eq!(shown(StreamEvent::Final { total_tokens: 1234 }), vec![p("\nTotal Tokens: 1234\n")]);
    assert_eq!(shown(StreamEvent::Unknown("X".to_string())), vec![p("\nUnknow payload: X\n")]);
    assert_eq!(shown(StreamEvent::ToolExecutionCommitted), vec![]);
    assert_eq!(shown(StreamEvent::ToolResult("list_dir".to_string())), vec![p("\nTool Call: "), d("list_dir"), p("\n")]);
    assert_eq!(shown(StreamEvent::Completion(Some("Stop".to_string()))), vec![p("\nCompletion: "), d("Stop"), p("\n")]);
    assert_eq!(shown(StreamEvent::Completion(None)), vec![p("\nCompletion: "), d("No Reason Found"), p("\n")]);
    assert_eq!(shown(StreamEvent::ModelTurnRetried { turn: 2 }), vec![p("\nModel turn retired: 2\n")]);
    assert_eq!(shown(StreamEvent::FinalResponse("done".to_string())), vec![p("\nFinal Res: done\n")]);
    assert_eq!(shown(StreamEvent::Error("bad".to_string())), vec![p("\nError: bad\n")]);
}
