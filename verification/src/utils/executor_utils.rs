use vstd::prelude::*;

use crate::text::{decode_lossy, utf8_lossy};

use vstd::utf8::{decode_utf8, valid_utf8};

verus! {

/// How a shell command is started: the shell program, the flag that hands it a
/// command line, and the command line.
pub struct ShellCommand {
    pub program: String,
    pub flag: String,
    pub command: String,
}

/// The shell that runs `command`: `cmd /C` on Windows, `sh -c` elsewhere.
pub fn shell_command(command: &str, windows: bool) -> (s: ShellCommand)
    ensures
        s.program@ == (if windows { "cmd"@ } else { "sh"@ }),
        s.flag@ == (if windows { "/C"@ } else { "-c"@ }),
        s.command@ == command@,
{
    if windows {
        ShellCommand {
            program: String::from_str("cmd"),
            flag: String::from_str("/C"),
            command: String::from_str(command),
        }
    } else {
        ShellCommand {
            program: String::from_str("sh"),
            flag: String::from_str("-c"),
            command: String::from_str(command),
        }
    }
}

/// What a finished process left: whether it exited successfully, and what it
/// wrote to its standard output and standard error.
pub struct ProcessOutput {
    pub success: bool,
    pub stdout: Vec<u8>,
    pub stderr: Vec<u8>,
}

pub open spec fn spawn_failed_message(e: Seq<char>) -> Seq<char> {
    "Failed to execute shell command: "@ + e
}

/// The report of a failed command: both of its outputs.
pub open spec fn failure_report(stdout: Seq<char>, stderr: Seq<char>) -> Seq<char> {
    "Error:\nstdout:"@ + stdout + "\nstderr:"@ + stderr
}

/// The result of running a shell command: an error when the shell could not be
/// started; otherwise the standard output of a successful command, or a
/// report of both outputs of a failed one (each decoded as UTF-8, invalid
/// sequences replaced).
pub fn run_shell_result(run: Result<ProcessOutput, String>) -> (r: Result<String, String>)
    ensures
        match run {
            Err(e) => r matches Err(m) && m@ == spawn_failed_message(e@),
            Ok(out) => r matches Ok(t) && t@ == (if out.success {
                utf8_lossy(out.stdout@)
            } else {
                failure_report(utf8_lossy(out.stdout@), utf8_lossy(out.stderr@))
            }),
        },
        run matches Ok(out) ==> (valid_utf8(out.stdout@) && valid_utf8(out.stderr@) ==> (r matches Ok(
            t,
        ) && t@ == (if out.success {
            decode_utf8(out.stdout@)
        } else {
            failure_report(decode_utf8(out.stdout@), decode_utf8(out.stderr@))
        }))),
{
    match run {
        Err(e) => {
            let mut m = String::from_str("Failed to execute shell command: ");
            m.append(e.as_str());
            Err(m)
        },
        Ok(out) => {
            let stdout = decode_lossy(out.stdout.as_slice());
            let stderr = decode_lossy(out.stderr.as_slice());
            if out.success {
                Ok(stdout)
            } else {
                let mut t = String::from_str("Error:\nstdout:");
                t.append(stdout.as_str());
                t.append("\nstderr:");
                t.append(stderr.as_str());
                Ok(t)
            }
        },
    }
}

} // verus!
