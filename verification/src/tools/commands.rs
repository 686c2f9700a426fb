use vstd::prelude::*;

use crate::text::str_eq;

verus! {

/// A line the user typed, read as a command.
pub enum Commands<'a> {
    Exit,
    Help,
    New,
    Unknown,
    /// `!<command>`: run `<command>` in the shell.
    Run(&'a str),
}

/// What a line means, over its characters.
pub enum CommandKind {
    Exit,
    Help,
    New,
    Unknown,
    Run(Seq<char>),
}

/// The command that the text `s` names: `/exit`, `/quit` and `/q` exit,
/// `/help` and `/?` ask for help, `/clear` and `/new` start a new session,
/// `!` followed by anything runs that in the shell, and anything else is an unknown
/// command.
pub open spec fn command_of(s: Seq<char>) -> CommandKind {
    if s == "/exit"@ || s == "/quit"@ || s == "/q"@ {
        CommandKind::Exit
    } else if s == "/help"@ || s == "/?"@ {
        CommandKind::Help
    } else if s == "/clear"@ || s == "/new"@ {
        CommandKind::New
    } else if s.len() > 0 && s[0] == '!' {
        CommandKind::Run(s.drop_first())
    } else {
        CommandKind::Unknown
    }
}

impl<'a> Commands<'a> {
    pub open spec fn kind(&self) -> CommandKind {
        match self {
            Commands::Exit => CommandKind::Exit,
            Commands::Help => CommandKind::Help,
            Commands::New => CommandKind::New,
            Commands::Unknown => CommandKind::Unknown,
            Commands::Run(c) => CommandKind::Run(c@),
        }
    }

    /// Reads `value` as a command (see `command_of`).
    pub fn from(value: &'a str) -> (c: Commands<'a>)
        ensures
            c.kind() == command_of(value@),
    {
        if str_eq(value, "/exit") || str_eq(value, "/quit") || str_eq(value, "/q") {
            Commands::Exit
        } else if str_eq(value, "/help") || str_eq(value, "/?") {
            Commands::Help
        } else if str_eq(value, "/clear") || str_eq(value, "/new") {
            Commands::New
        } else {
            let n = value.unicode_len();
            if n > 0 && value.get_char(0) == '!' {
                let rest = value.substring_char(1, n);
                assert(rest@ =~= value@.drop_first());
                Commands::Run(rest)
            } else {
                Commands::Unknown
            }
        }
    }
}

} // verus!
