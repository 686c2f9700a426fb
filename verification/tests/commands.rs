use lagent::tools::commands::Commands;

fn name(c: &Commands) -> String {
    match c {
        Commands::Exit => "exit".to_string(),
        Commands::Help => "help".to_string(),
        Commands::New => "new".to_string(),
        Commands::Unknown => "unknown".to_string(),
        Commands::Run(cmd) => format!("run:{cmd}"),
    }
}

#[test]
fn commands_are_recognised() {
    let cases = [
        ("/exit", "exit"),
        ("/quit", "exit"),
        ("/q", "exit"),
        ("/help", "help"),
        ("/?", "help"),
        ("/clear", "new"),
        ("/new", "new"),
        ("!ls -la", "run:ls -la"),
        ("!", "run:"),
        ("!é", "run:é"),
        ("hello", "unknown"),
        ("/exit ", "unknown"),
        ("", "unknown"),
    ];
    for (input, expected) in cases {
        assert_eq!(name(&Commands::from(input)), expected, "command of {input:?}");
    }
}
