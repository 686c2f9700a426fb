use lagent::utils::executor_utils::{run_shell_result, shell_command, ProcessOutput};

#[test]
fn shell_depends_on_platform() {
    let unix = shell_command("ls", false);
    assert_eq!((unix.program.as_str(), unix.flag.as_str(), unix.command.as_str()), ("sh", "-c", "ls"));
    let windows = shell_command("dir", true);
    assert_eq!((windows.program.as_str(), windows.flag.as_str(), windows.command.as_str()), ("cmd", "/C", "dir"));
}

#[test]
fn successful_command_gives_stdout() {
    let out = ProcessOutput { success: true, stdout: b"hello\n".to_vec(), stderr: b"warn".to_vec() };
    assert_eq!(run_shell_result(Ok(out)).unwrap(), "hello\n");
}

#[test]
fn failed_command_reports_both_outputs() {
    let out = ProcessOutput { success: false, stdout: b"o".to_vec(), stderr: vec![b'e', 0xfe] };
    assert_eq!(run_shell_result(Ok(out)).unwrap(), "Error:\nstdout:o\nstderr:e\u{fffd}");
}

#[test]
fn unstartable_shell_is_an_error() {
    assert_eq!(
        run_shell_result(Err("No such file".to_string())).unwrap_err(),
        "Failed to execute shell command: No such file"
    );
}
