use std::path::{Component, Path};

use lagent::utils::path_utils::{
    assert_cwd_permission, components_of, parent, read_file, select_lines, to_abs_path, FileLoad,
    PermissionError,
};

/// The working directory the checks are made against.
fn cwd() -> String {
    "/home/lagent/workspace".to_string()
}

#[test]
fn test_assert_cwd_permission_valid() {
    let pwd = cwd();
    let path = to_abs_path("./file.txt", &pwd);

    assert_eq!(assert_cwd_permission(&path, &pwd, "").is_err(), false);
}

#[test]
fn test_assert_cwd_permission_invalid_root() {
    let path = "/root/user/file.txt";
    let pwd = cwd();

    assert_eq!(
        assert_cwd_permission(path, &pwd, "").unwrap_err().message(),
        format!(", request path: '/root/user/file.txt' is outside of {pwd}")
    );
}

#[test]
fn test_assert_cwd_permission_path_traverse() {
    let pwd = cwd();
    let path = to_abs_path("../file.txt", &pwd);

    assert_eq!(
        assert_cwd_permission(&path, &pwd, "").unwrap_err().message(),
        format!("path can not contain dir traverse sequence")
    );
}

const FILE_CONTENT: &str = "line1\nline2\nline3\nline4\nline5\n";
const TEST_CASES: &[(Option<usize>, Option<usize>, &str, &str, &str)] = &[
    (None, None, FILE_CONTENT, FILE_CONTENT, "Read all lines"),
    (None, None, "a\nb", "a\nb", "No trailing newline"),
    (Some(1), None, "a\nb", "b", "Skip 1, no trailing newline"),
    (None, Some(1), "a\nb", "a\n", "Read 1, keeps its newline"),
    (Some(1), None, "single line of text", "", "Single line, skip past it"),
    (None, Some(3), FILE_CONTENT, "line1\nline2\nline3\n", "Read first n lines"),
    (Some(2), None, FILE_CONTENT, "line3\nline4\nline5\n", "Skip first n lines"),
    (None, None, "", "", "Empty file"),
    (Some(100), None, FILE_CONTENT, "", "Read from EOF"),
    (None, Some(100), FILE_CONTENT, FILE_CONTENT, "Read beyond EOF"),
    (None, None, "single line of text", "single line of text", "Single line no newline"),
    (Some(1), None, "single line of text", "", "Single line no newline with Offset 1"),
    (None, None, "single line of text\n", "single line of text\n", "Single line with newline"),
    (Some(0), Some(0), FILE_CONTENT, "", "Skip 0 and read 0"),
    (Some(0), Some(1), FILE_CONTENT, "line1\n", "Skip 0 and read 1"),
    (None, Some(0), FILE_CONTENT, "", "Read 0 lines"),
    (Some(5), Some(3), FILE_CONTENT, "", "Skip more than lines, read less than remaining"),
    (Some(2), Some(10), FILE_CONTENT, "line3\nline4\nline5\n", "Skip 2, read 10 (more than remaining)"),
    (Some(4), Some(1), FILE_CONTENT, "line5\n", "Skip 4, read 1 (last line)"),
    (Some(4), Some(2), FILE_CONTENT, "line5\n", "Skip 4, read 2 (clamped to 1)"),
    (Some(u32::MAX as usize), Some(1), FILE_CONTENT, "", "Skip u32::MAX"),
    (Some(0), Some(u32::MAX as usize), FILE_CONTENT, FILE_CONTENT, "Read u32::MAX"),
];

#[test]
fn test_read_file_parametrized() {
    for (lines_to_skip, lines_to_read, content, expected, description) in TEST_CASES {
        let load = FileLoad::Loaded(content.as_bytes().to_vec());
        let result = read_file(load, *lines_to_skip, *lines_to_read).unwrap();
        assert_eq!(&result, expected, "Failed for case: {description}");
    }
}

#[test]
#[should_panic(expected = "Unable to open file: No such file or directory (os error 2)")]
fn test_read_file_invalid() {
    _ = read_file(
        FileLoad::OpenFailed("No such file or directory (os error 2)".to_string()),
        None,
        None,
    )
    .unwrap();
}

#[test]
fn read_failure_is_reported_unless_no_lines_are_asked() {
    let failed = || FileLoad::ReadFailed("disk error".to_string());
    assert_eq!(read_file(failed(), None, None).unwrap_err(), "disk error");
    assert_eq!(read_file(failed(), Some(3), Some(0)).unwrap(), "");
}

#[test]
fn invalid_utf8_is_replaced() {
    let load = FileLoad::Loaded(vec![b'a', 0xff, b'\n', b'b']);
    assert_eq!(read_file(load, None, Some(1)).unwrap(), "a\u{fffd}\n");
}

#[test]
fn paged_reads_cover_the_file() {
    let bytes = FILE_CONTENT.as_bytes();
    let first = select_lines(bytes, Some(1), Some(2));
    let rest = select_lines(bytes, Some(3), None);
    let whole = select_lines(bytes, Some(1), None);
    assert_eq!([first, rest].concat(), whole);
    assert_eq!(select_lines(bytes, None, None), bytes.to_vec());
}

fn tokens(path: &str) -> Vec<String> {
    Path::new(path)
        .components()
        .map(|c| match c {
            Component::RootDir => "/".to_string(),
            Component::CurDir => ".".to_string(),
            Component::ParentDir => "..".to_string(),
            Component::Normal(name) => name.to_str().unwrap().to_string(),
            Component::Prefix(_) => unreachable!(),
        })
        .collect()
}

const SAMPLE_PATHS: &[&str] = &[
    "", "/", "//", "///a", ".", "./", "..", "../", "a", "a/", "a//b", "a/./b", "a/../b", "./a",
    "./a/", "/a", "/a/", "/a/b", "/a/b/", "/a//b", "/a/./b", "/a/b/.", "/a/b/./", "/a/b/..",
    "/.", "/./", "/..", ".a", "..a", "a.", "a/.", "a/..", "a/./", "./.", "././a", "a/b/c",
    "/home/user/./file.txt", "/home/user/../file.txt", "dir/.hidden", "x/./../y/.",
];

#[test]
fn components_agree_with_std() {
    for p in SAMPLE_PATHS {
        let chars: Vec<char> = p.chars().collect();
        assert_eq!(components_of(&chars), tokens(p), "components of {p:?}");
    }
}

#[test]
fn parent_agrees_with_std() {
    for p in SAMPLE_PATHS {
        let expected = Path::new(p).parent().map(|q| q.to_str().unwrap().to_string());
        assert_eq!(parent(p), expected, "parent of {p:?}");
    }
}

#[test]
fn join_agrees_with_std() {
    let bases = ["", "/", "/home/user", "/home/user/", "rel", "rel/"];
    for base in bases {
        for p in SAMPLE_PATHS {
            let expected = Path::new(base).join(p).to_str().unwrap().to_string();
            assert_eq!(to_abs_path(p, base), expected, "join of {base:?} and {p:?}");
        }
    }
}

#[test]
fn permission_agrees_with_std_starts_with() {
    let cwd = "/home/user";
    for p in SAMPLE_PATHS {
        let abs = to_abs_path(p, cwd);
        let path = Path::new(&abs);
        let traversal = path.components().any(|c| c == Component::ParentDir);
        let inside = path.starts_with(cwd);
        match assert_cwd_permission(&abs, cwd, "denied") {
            Ok(()) => assert!(!traversal && inside, "{abs:?} was allowed"),
            Err(PermissionError::Traversal) => assert!(traversal, "{abs:?} refused as traversal"),
            Err(PermissionError::Outside { error, path, cwd: c }) => {
                assert!(!traversal && !inside, "{abs:?} refused as outside");
                assert_eq!((error.as_str(), path.as_str(), c.as_str()), ("denied", abs.as_str(), cwd));
            }
        }
    }
}

#[test]
fn relative_requests_stay_inside() {
    let cwd = "/srv/project";
    assert!(assert_cwd_permission(&to_abs_path("src/lib.rs", cwd), cwd, "").is_ok());
    assert!(assert_cwd_permission(&to_abs_path("", cwd), cwd, "").is_ok());
    assert!(assert_cwd_permission(&to_abs_path("a/../b", cwd), cwd, "").is_err());
    assert!(assert_cwd_permission("/srv/projectx/a", cwd, "").is_err());
    assert!(assert_cwd_permission("/srv/project/a", cwd, "").is_ok());
}

#[test]
fn outside_message_names_path_and_cwd() {
    let e = assert_cwd_permission("/etc/passwd", "/srv", "No").unwrap_err();
    assert_eq!(e.message(), "No, request path: '/etc/passwd' is outside of /srv");
}

/// Every path of up to `n` characters drawn from `/`, `.` and `a`.
fn all_short_paths(n: usize) -> Vec<String> {
    let mut out = vec![String::new()];
    let mut frontier = vec![String::new()];
    for _ in 0..n {
        let mut next = vec![];
        for p in &frontier {
            for c in ['/', '.', 'a'] {
                let mut q = p.clone();
                q.push(c);
                next.push(q);
            }
        }
        out.extend(next.iter().cloned());
        frontier = next;
    }
    out
}

#[test]
fn short_paths_agree_with_std() {
    for p in all_short_paths(6) {
        let chars: Vec<char> = p.chars().collect();
        assert_eq!(components_of(&chars), tokens(&p), "components of {p:?}");
        let expected = Path::new(&p).parent().map(|q| q.to_str().unwrap().to_string());
        assert_eq!(parent(&p), expected, "parent of {p:?}");
        for base in ["/w", "/w/", "", "."] {
            let joined = Path::new(base).join(&p).to_str().unwrap().to_string();
            assert_eq!(to_abs_path(&p, base), joined, "join of {base:?} and {p:?}");
        }
    }
}

#[test]
fn abs_path_of_abs_path_is_unchanged() {
    let cwd = "/home/lagent/workspace";
    for p in ["a", "./a/b", "../x", "/etc/passwd", "", "a/", "//x"] {
        let once = to_abs_path(p, cwd);
        assert!(once.starts_with('/'));
        assert_eq!(to_abs_path(&once, cwd), once);
    }
}

#[test]
fn parent_drops_the_last_component() {
    for p in ["a/./b/", "/a/b", "./a", ".", "a", "/a//b/.", "a/.."] {
        let q = parent(p).unwrap();
        let pc = components_of(&p.chars().collect::<Vec<char>>());
        let qc = components_of(&q.chars().collect::<Vec<char>>());
        assert_eq!(qc, pc[..pc.len() - 1].to_vec(), "parent of {p}");
    }
    assert_eq!(parent("/"), None);
    assert_eq!(parent(""), None);
}
