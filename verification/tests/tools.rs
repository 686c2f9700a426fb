use lagent::tools::mcp_tools::{failure_message, gather_tools, keep_or_warn, McpFailure};
use lagent::utils::path_utils::{unify_separators, FileLoad};
use lagent::tools::{create_dir_failed, dir_to_create};
use lagent::utils::tools::{
    confine, list_dir, list_dir_target, read_file, read_file_target, write_file,
    write_file_target, DirEntryName,
};

#[test]
fn read_target_is_resolved_in_cwd() {
    assert_eq!(read_file_target("src/main.rs", "/p", false).ok().unwrap().path(), "/p/src/main.rs");
    assert_eq!(read_file_target("/p/a", "/p", false).ok().unwrap().path(), "/p/a");
}

#[test]
fn read_target_outside_is_refused() {
    let e = read_file_target("/etc/passwd", "/p", false).err().unwrap();
    assert_eq!(
        e.message,
        "Not allowed to read outside of the current working directory., request path: '/etc/passwd' is outside of /p"
    );
    let t = read_file_target("../x", "/p", false).err().unwrap();
    assert_eq!(t.message, "path can not contain dir traverse sequence");
}

#[test]
fn backslashes_separate_where_the_platform_says_so() {
    let t = read_file_target("..\\x", "/p", true).err().unwrap();
    assert_eq!(t.message, "path can not contain dir traverse sequence");
    assert_eq!(read_file_target("a\\b", "C:\\p", true).ok().unwrap().path(), "C:/p/a/b");
    assert_eq!(read_file_target("a\\b", "/p", false).ok().unwrap().path(), "/p/a\\b");
    assert_eq!(unify_separators("C:\\a\\b", true), "C:/a/b");
    assert_eq!(unify_separators("C:\\a", false), "C:\\a");
}

#[test]
fn windows_drives_and_roots_are_joined_as_windows_joins_them() {
    let other = read_file_target("C:\\x", "C:\\p", true).err().unwrap();
    assert_eq!(
        other.message,
        "Not allowed to read outside of the current working directory., request path: 'C:/x' is outside of C:/p"
    );
    assert!(read_file_target("C:x", "C:\\p", true).is_err());
    assert!(read_file_target("D:\\p\\a", "C:\\p", true).is_err());
    assert!(read_file_target("\\\\server\\share\\x", "C:\\p", true).is_err());
    assert_eq!(read_file_target("C:\\p\\a", "C:\\p", true).ok().unwrap().path(), "C:/p/a");
    assert_eq!(read_file_target("\\p\\a", "C:\\p", true).ok().unwrap().path(), "C:/p/a");
    assert!(read_file_target("\\q", "C:\\p", true).is_err());
}

#[test]
fn write_and_list_targets_use_their_messages() {
    let w = write_file_target("/q", "/p", false).err().unwrap();
    assert!(w.message.starts_with("Not allowed to write outside"));
    let l = list_dir_target("/q", "/p", false).err().unwrap();
    assert!(l.message.starts_with("Not allowed to read outside"));
    assert_eq!(list_dir_target(".", "/p", false).ok().unwrap().path(), "/p/.");
}

#[test]
fn links_out_of_the_working_directory_are_refused() {
    let t = read_file_target("link/f", "/p", false).ok().unwrap();
    assert!(confine(&t, "/p/link/f", "/p/data/f", "/p").is_ok());
    assert!(confine(&t, "/p", "/p", "/p").is_ok());
    assert_eq!(
        confine(&t, "/p/link", "/etc", "/p").err().unwrap().message,
        "Not allowed to read outside of the current working directory., request path: '/etc' is outside of /p"
    );
    let w = write_file_target("new/f", "/p", false).ok().unwrap();
    assert!(confine(&w, "/p", "/real/p", "/real/p").is_ok());
    assert!(confine(&w, "/q", "/q", "/q").err().unwrap().message.starts_with("Not allowed to write outside"));
}

#[test]
fn read_file_tool_answers() {
    let f = read_file_target("f", "/p", false).ok().unwrap();
    let ok = read_file(&f, FileLoad::Loaded(b"1\n2\n3\n".to_vec()), Some(1), Some(1));
    assert_eq!(ok.ok().unwrap(), "2\n");
    let err = read_file(&f, FileLoad::OpenFailed("gone".to_string()), None, None);
    assert_eq!(err.err().unwrap().message, "Failed to read file '/p/f': Unable to open file: gone");
    let text = "é1\nü2\n€3\n".as_bytes().to_vec();
    let first = read_file(&f, FileLoad::Loaded(text.clone()), Some(0), Some(1)).ok().unwrap();
    let rest = read_file(&f, FileLoad::Loaded(text.clone()), Some(1), None).ok().unwrap();
    assert_eq!(first + &rest, "é1\nü2\n€3\n");
}

#[test]
fn write_file_tool_answers() {
    let f = write_file_target("f", "/p", false).ok().unwrap();
    assert!(write_file(&f, Ok(())).is_ok());
    assert_eq!(
        write_file(&f, Err("denied".to_string())).err().unwrap().message,
        "Failed to write file '/p/f': denied"
    );
    let d = write_file_target("d/f", "/p", false).ok().unwrap();
    assert_eq!(dir_to_create(&d), Some("/p/d".to_string()));
    let top = write_file_target("/f", "/", false).ok().unwrap();
    assert_eq!(dir_to_create(&top), Some("/".to_string()));
    let root = write_file_target("/", "/", false).ok().unwrap();
    assert_eq!(dir_to_create(&root), None);
    assert_eq!(create_dir_failed("/p/d", "denied").message, "Failed to create dir '/p/d': denied");
}

#[test]
fn list_dir_tool_answers() {
    let p = list_dir_target("/p", "/p", false).ok().unwrap();
    let names = vec![DirEntryName::Name("a".to_string()), DirEntryName::Name("b.txt".to_string())];
    assert_eq!(list_dir(&p, Ok(names)).ok().unwrap(), vec!["/p/a".to_string(), "/p/b.txt".to_string()]);
    let bad = vec![
        DirEntryName::Name("a".to_string()),
        DirEntryName::NotUnicode,
        DirEntryName::Failed("io".to_string()),
    ];
    assert_eq!(list_dir(&p, Ok(bad)).err().unwrap().message, "Failed to read dir '/p': Invalid dir name");
    let failing = vec![DirEntryName::Failed("io".to_string()), DirEntryName::NotUnicode];
    assert_eq!(list_dir(&p, Ok(failing)).err().unwrap().message, "Failed to read dir '/p': io");
    assert_eq!(
        list_dir(&p, Err("not a directory".to_string())).err().unwrap().message,
        "Failed to read dir '/p': not a directory"
    );
}

#[test]
fn plain_tools_answer() {
    let f = read_file_target("f", "/p", false).ok().unwrap();
    assert_eq!(lagent::tools::read_file(&f, Ok("x".to_string())).ok().unwrap(), "x");
    assert_eq!(
        lagent::tools::read_file(&f, Err("e".to_string())).err().unwrap().message,
        "Failed to read file '/p/f': e"
    );
    let w = write_file_target("a/b", "/p", false).ok().unwrap();
    assert_eq!(lagent::tools::dir_to_create(&w), Some("/p/a".to_string()));
    assert!(lagent::tools::write_file(&w, Ok(())).is_ok());
    assert_eq!(
        lagent::tools::write_file(&w, Err("denied".to_string())).err().unwrap().message,
        "Failed to write file '/p/a/b': denied"
    );
}

#[test]
fn plain_tools_are_sandboxed() {
    let outside = read_file_target("/etc/hostname", "/p", false).err().unwrap();
    assert!(outside.message.starts_with("Not allowed to read outside"));
    let up = write_file_target("../x", "/p", false).err().unwrap();
    assert_eq!(up.message, "path can not contain dir traverse sequence");
}

#[test]
fn mcp_failures_are_reported() {
    assert_eq!(
        failure_message("http://h/mcp", &McpFailure::Connect("refused".to_string())),
        "Failed to connect to MCP at http://h/mcp error: refused"
    );
    assert_eq!(
        failure_message("http://h/mcp", &McpFailure::ListTools("timeout".to_string())),
        "Failed to get tools for MCP at http://h/mcp error: timeout"
    );
}

#[test]
fn mcp_servers_are_kept_or_warned_in_order() {
    let outcomes = vec![
        ("http://a/mcp".to_string(), Ok(1)),
        ("http://b/mcp".to_string(), Err(McpFailure::Connect("refused".to_string()))),
        ("http://c/mcp".to_string(), Ok(3)),
        ("http://d/mcp".to_string(), Err(McpFailure::ListTools("timeout".to_string()))),
    ];
    let (kept, warnings) = gather_tools(outcomes);
    assert_eq!(kept, vec![1, 3]);
    assert_eq!(
        warnings,
        vec![
            "Failed to connect to MCP at http://b/mcp error: refused".to_string(),
            "Failed to get tools for MCP at http://d/mcp error: timeout".to_string(),
        ]
    );
    let (none, no_warnings) = gather_tools::<u8>(vec![]);
    assert!(none.is_empty() && no_warnings.is_empty());
    assert_eq!(keep_or_warn("s", Ok::<u8, McpFailure>(7)), Ok(7));
}
