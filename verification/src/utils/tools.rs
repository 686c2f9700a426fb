use vstd::prelude::*;

use vstd::utf8::{decode_utf8, valid_utf8};

use crate::tools::{failure, failure_message, ToolError};
use crate::utils::path_utils::{
    has_root, has_windows_prefix, law_relative_request_permitted, assert_cwd_permission, has_parent_dir, join, outside_message, permitted,
    join_on, read_outcome, selected_lines, to_abs_path, to_abs_path_on, traversal_message, unified_separators, unify_separators, FileLoad,
};

verus! {

pub open spec fn read_denied() -> Seq<char> {
    "Not allowed to read outside of the current working directory."@
}

pub open spec fn write_denied() -> Seq<char> {
    "Not allowed to write outside of the current working directory."@
}

/// The message that refuses `path`: a `..` component is named first,
/// otherwise `error` opens the report that the path is outside of `cwd`.
pub open spec fn refusal_message(path: Seq<char>, cwd: Seq<char>, error: Seq<char>) -> Seq<char> {
    if has_parent_dir(path) {
        traversal_message()
    } else {
        outside_message(error, path, cwd)
    }
}

/// What resolving a tool's path gives: the absolute path when it is
/// permitted, the refusal otherwise. Where `windows` says so, `\` is read as
/// a separator and the path is joined as Windows joins paths.
pub open spec fn resolution(path_string: Seq<char>, cwd: Seq<char>, windows: bool, error: Seq<char>) -> Result<Seq<char>, Seq<char>> {
    let p = unified_separators(path_string, windows);
    let c = unified_separators(cwd, windows);
    let abs = join_on(c, p, windows);
    if permitted(abs, c) {
        Ok(abs)
    } else {
        Err(refusal_message(abs, c, error))
    }
}

/// A tool's result, by the characters of its text and of its error message.
pub open spec fn tool_result(r: Result<String, ToolError>) -> Result<Seq<char>, Seq<char>> {
    match r {
        Ok(t) => Ok(t@),
        Err(e) => Err(e.message@),
    }
}

/// An absolute path that a tool may use: it has passed the check of
/// `resolution` against the working directory, and only that check makes one.
/// The file tools take their path in this form.
pub struct Permitted {
    path: String,
    cwd: String,
    denial: String,
    windows: bool,
}

impl Permitted {
    #[verifier::type_invariant]
    closed spec fn is_permitted(self) -> bool {
        permitted(self.path@, self.cwd@)
    }

    /// The absolute path.
    pub closed spec fn path_view(self) -> Seq<char> {
        self.path@
    }

    /// The working directory that the path was checked against.
    pub closed spec fn cwd_view(self) -> Seq<char> {
        self.cwd@
    }

    /// The message that opens a refusal of this path.
    pub closed spec fn denial_view(self) -> Seq<char> {
        self.denial@
    }

    /// Whether `\` separates components too.
    pub closed spec fn windows_view(self) -> bool {
        self.windows
    }

    /// The absolute path, which lies in the working directory.
    pub fn path(&self) -> (p: &str)
        ensures
            p@ == self.path_view(),
            permitted(self.path_view(), self.cwd_view()),
    {
        proof {
            use_type_invariant(self);
        }
        self.path.as_str()
    }
}

/// What resolving a tool's path gives, by the characters of the path.
pub open spec fn permit_result(r: Result<Permitted, ToolError>) -> Result<Seq<char>, Seq<char>> {
    match r {
        Ok(t) => Ok(t.path_view()),
        Err(e) => Err(e.message@),
    }
}

/// The absolute form of `path_string` (relative to `cwd`), when a tool may
/// use it; `\` separates components too where `windows` says so.
fn resolve(path_string: &str, cwd: &str, windows: bool, error: &str) -> (r: Result<Permitted, ToolError>)
    ensures
        permit_result(r) == resolution(path_string@, cwd@, windows, error@),
        r matches Ok(t) ==> t.cwd_view() == unified_separators(cwd@, windows) && t.denial_view()
            == error@ && t.windows_view() == windows,
{
    let p = unify_separators(path_string, windows);
    let c = unify_separators(cwd, windows);
    let path = to_abs_path_on(p.as_str(), c.as_str(), windows);
    match assert_cwd_permission(path.as_str(), c.as_str(), error) {
        Ok(()) => Ok(Permitted { path, cwd: c, denial: String::from_str(error), windows }),
        Err(e) => {
            let m = e.message();
            Err(ToolError { message: m })
        },
    }
}

/// The file that `read_file` reads: see `resolution`.
pub fn read_file_target(path_string: &str, cwd: &str, windows: bool) -> (r: Result<Permitted, ToolError>)
    ensures
        permit_result(r) == resolution(path_string@, cwd@, windows, read_denied()),
        r matches Ok(t) ==> t.cwd_view() == unified_separators(cwd@, windows) && t.denial_view()
            == read_denied() && t.windows_view() == windows,
{
    resolve(path_string, cwd, windows, "Not allowed to read outside of the current working directory.")
}

/// What `read_file` answers once the file at `path` was loaded: the selected
/// lines, or an error that names the file.
pub open spec fn read_answer(path: Seq<char>, load: FileLoad, lines_offset: Option<usize>, lines_to_read: Option<usize>) -> Result<Seq<char>, Seq<char>> {
    match read_outcome(load, lines_offset, lines_to_read) {
        Ok(t) => Ok(t),
        Err(e) => Err(failure_message("read file"@, path, e)),
    }
}

/// The answer of the `read_file` tool for the file `target` (see
/// `read_answer`).
pub fn read_file(target: &Permitted, load: FileLoad, lines_offset: Option<usize>, lines_to_read: Option<usize>) -> (r: Result<String, ToolError>)
    ensures
        tool_result(r) == read_answer(target.path_view(), load, lines_offset, lines_to_read),
        load matches FileLoad::Loaded(b) ==> (valid_utf8(b@) && lines_to_read != Some(0usize) ==> (r matches Ok(
            t,
        ) && t@ == decode_utf8(selected_lines(b@, lines_offset, lines_to_read)))),
{
    match crate::utils::path_utils::read_file(load, lines_offset, lines_to_read) {
        Ok(t) => Ok(t),
        Err(e) => Err(failure("read file", target.path(), e.as_str())),
    }
}

/// The file that `write_file` writes: see `resolution`.
pub fn write_file_target(path_string: &str, cwd: &str, windows: bool) -> (r: Result<Permitted, ToolError>)
    ensures
        permit_result(r) == resolution(path_string@, cwd@, windows, write_denied()),
        r matches Ok(t) ==> t.cwd_view() == unified_separators(cwd@, windows) && t.denial_view()
            == write_denied() && t.windows_view() == windows,
{
    resolve(path_string, cwd, windows, "Not allowed to write outside of the current working directory.")
}

/// The answer of the `write_file` tool once `target` was written, or not.
pub fn write_file(target: &Permitted, outcome: Result<(), String>) -> (r: Result<(), ToolError>)
    ensures
        match outcome {
            Ok(()) => r is Ok,
            Err(e) => r matches Err(err) && err.message@ == failure_message("write file"@, target.path_view(), e@),
        },
{
    crate::tools::write_file(target, outcome)
}

/// The directory that `list_dir` lists: see `resolution`.
pub fn list_dir_target(path_string: &str, cwd: &str, windows: bool) -> (r: Result<Permitted, ToolError>)
    ensures
        permit_result(r) == resolution(path_string@, cwd@, windows, read_denied()),
        r matches Ok(t) ==> t.cwd_view() == unified_separators(cwd@, windows) && t.denial_view()
            == read_denied() && t.windows_view() == windows,
{
    resolve(path_string, cwd, windows, "Not allowed to read outside of the current working directory.")
}

/// Whether a permitted path stays in the working directory once symbolic
/// links are followed. `ancestor` is the longest part of `path` that exists,
/// `real_ancestor` what it resolves to, and `real_cwd` what the working
/// directory resolves to (all with `\` read as `/` where it separates too).
/// The parts of `path` below `ancestor` do not exist yet, so they are no
/// links. The first check refuses an `ancestor` that does not begin `path`.
pub open spec fn confinement(
    path: Seq<char>,
    ancestor: Seq<char>,
    real_ancestor: Seq<char>,
    real_cwd: Seq<char>,
    denial: Seq<char>,
) -> Result<(), Seq<char>> {
    if !permitted(path, ancestor) {
        Err(refusal_message(path, ancestor, denial))
    } else if !permitted(real_ancestor, real_cwd) {
        Err(refusal_message(real_ancestor, real_cwd, denial))
    } else {
        Ok(())
    }
}

pub open spec fn unit_result(r: Result<(), ToolError>) -> Result<(), Seq<char>> {
    match r {
        Ok(()) => Ok(()),
        Err(e) => Err(e.message@),
    }
}

/// Refuses `target` when a symbolic link takes it out of the working
/// directory (see `confinement`).
pub fn confine(target: &Permitted, ancestor: &str, real_ancestor: &str, real_cwd: &str) -> (r: Result<(), ToolError>)
    ensures
        unit_result(r) == confinement(
            target.path_view(),
            unified_separators(ancestor@, target.windows_view()),
            unified_separators(real_ancestor@, target.windows_view()),
            unified_separators(real_cwd@, target.windows_view()),
            target.denial_view(),
        ),
{
    let a = unify_separators(ancestor, target.windows);
    let ra = unify_separators(real_ancestor, target.windows);
    let rc = unify_separators(real_cwd, target.windows);
    let path = target.path();
    if let Err(e) = assert_cwd_permission(path, a.as_str(), target.denial.as_str()) {
        return Err(ToolError { message: e.message() });
    }
    match assert_cwd_permission(ra.as_str(), rc.as_str(), target.denial.as_str()) {
        Ok(()) => Ok(()),
        Err(e) => Err(ToolError { message: e.message() }),
    }
}

/// One entry of a directory listing, as read.
pub enum DirEntryName {
    /// The entry's file name.
    Name(String),
    /// The entry's file name is not valid Unicode.
    NotUnicode,
    /// Reading the entry failed.
    Failed(String),
}

pub open spec fn invalid_name_message() -> Seq<char> {
    "Invalid dir name"@
}

/// The paths of the entries of the directory `dir`, in the order read, or the
/// first failure among them.
pub open spec fn entry_paths(dir: Seq<char>, entries: Seq<DirEntryName>) -> Result<Seq<Seq<char>>, Seq<char>>
    decreases entries.len(),
{
    if entries.len() == 0 {
        Ok(Seq::<Seq<char>>::empty())
    } else {
        match entry_paths(dir, entries.drop_last()) {
            Err(e) => Err(e),
            Ok(paths) => match entries.last() {
                DirEntryName::Name(n) => Ok(paths.push(join(dir, n@))),
                DirEntryName::NotUnicode => Err(invalid_name_message()),
                DirEntryName::Failed(e) => Err(e@),
            },
        }
    }
}

/// What `list_dir` answers once the directory at `path` was read.
pub open spec fn list_answer(path: Seq<char>, listing: Result<Vec<DirEntryName>, String>) -> Result<Seq<Seq<char>>, Seq<char>> {
    match listing {
        Err(e) => Err(failure_message("read dir"@, path, e@)),
        Ok(entries) => match entry_paths(path, entries@) {
            Ok(paths) => Ok(paths),
            Err(e) => Err(failure_message("read dir"@, path, e)),
        },
    }
}

pub open spec fn list_result(r: Result<Vec<String>, ToolError>) -> Result<Seq<Seq<char>>, Seq<char>> {
    match r {
        Ok(v) => Ok(v.deep_view()),
        Err(e) => Err(e.message@),
    }
}

/// The answer of the `list_dir` tool for the directory `target` (see
/// `list_answer`).
pub fn list_dir(target: &Permitted, listing: Result<Vec<DirEntryName>, String>) -> (r: Result<Vec<String>, ToolError>)
    ensures
        list_result(r) == list_answer(target.path_view(), listing),
{
    let path = target.path();
    let entries = match listing {
        Err(e) => {
            return Err(failure("read dir", path, e.as_str()));
        },
        Ok(entries) => entries,
    };
    let mut paths: Vec<String> = Vec::new();
    let mut i: usize = 0;
    assert(entries@.take(0) =~= Seq::<DirEntryName>::empty());
    assert(paths.deep_view() =~= Seq::<Seq<char>>::empty());
    while i < entries.len()
        invariant
            listing == Ok::<Vec<DirEntryName>, String>(entries),
            path@ == target.path_view(),
            i <= entries@.len(),
            entry_paths(path@, entries@.take(i as int)) == Ok::<Seq<Seq<char>>, Seq<char>>(paths.deep_view()),
        decreases entries@.len() - i,
    {
        let ghost pre = entries@.take(i as int);
        let ghost nxt = entries@.take(i + 1);
        assert(nxt.drop_last() =~= pre);
        assert(nxt.last() == entries@[i as int]);
        match &entries[i] {
            DirEntryName::Name(n) => {
                let p = to_abs_path(n.as_str(), path);
                let ghost before = paths.deep_view();
                paths.push(p);
                assert(paths.deep_view() =~= before.push(join(path@, n@)));
            },
            DirEntryName::NotUnicode => {
                proof {
                    lemma_entry_paths_err(path@, entries@, i + 1, invalid_name_message());
                }
                return Err(failure("read dir", path, "Invalid dir name"));
            },
            DirEntryName::Failed(e) => {
                proof {
                    lemma_entry_paths_err(path@, entries@, i + 1, e@);
                }
                return Err(failure("read dir", path, e.as_str()));
            },
        }
        i = i + 1;
    }
    assert(entries@.take(entries@.len() as int) =~= entries@);
    Ok(paths)
}

/// Once an entry fails, the whole listing fails with that entry's error.
proof fn lemma_entry_paths_err(dir: Seq<char>, entries: Seq<DirEntryName>, k: int, e: Seq<char>)
    requires
        0 < k <= entries.len(),
        entry_paths(dir, entries.take(k)) == Err::<Seq<Seq<char>>, Seq<char>>(e),
    ensures
        entry_paths(dir, entries) == Err::<Seq<Seq<char>>, Seq<char>>(e),
    decreases entries.len() - k,
{
    if k < entries.len() {
        assert(entries.take(k + 1).drop_last() =~= entries.take(k));
        lemma_entry_paths_err(dir, entries, k + 1, e);
    } else {
        assert(entries.take(k) =~= entries);
    }
}

/// A relative path with no `..` component, in a working directory with none,
/// is always granted, as the working directory joined with the path (a `.`
/// component included); a path with a `..` component is always refused as a
/// traversal.
pub proof fn law_relative_path_granted(path_string: Seq<char>, cwd: Seq<char>, windows: bool, error: Seq<char>)
    ensures
        ({
            let p = unified_separators(path_string, windows);
            let c = unified_separators(cwd, windows);
            !has_root(p) && !(windows && has_windows_prefix(p)) && !has_parent_dir(p)
                && !has_parent_dir(c) ==> resolution(path_string, cwd, windows, error) == Ok::<
                Seq<char>,
                Seq<char>,
            >(join(c, p))
        }),
        ({
            let p = unified_separators(path_string, windows);
            let c = unified_separators(cwd, windows);
            !has_root(p) && !(windows && has_windows_prefix(p)) && has_parent_dir(p)
                ==> resolution(path_string, cwd, windows, error) == Err::<Seq<char>, Seq<char>>(
                traversal_message(),
            )
        }),
{
    let p = unified_separators(path_string, windows);
    let c = unified_separators(cwd, windows);
    if !has_root(p) && !(windows && has_windows_prefix(p)) {
        assert(join_on(c, p, windows) == join(c, p));
        law_relative_request_permitted(c, p);
    }
}

/// When every entry of a directory is read with its name, the listing gives
/// one path per entry, in order: the directory joined with the entry's name.
pub proof fn law_every_entry_listed(dir: Seq<char>, entries: Seq<DirEntryName>)
    requires
        forall|i: int| 0 <= i < entries.len() ==> #[trigger] entries[i] is Name,
    ensures
        entry_paths(dir, entries) matches Ok(v) && v.len() == entries.len() && (forall|i: int|
            0 <= i < entries.len() ==> #[trigger] v[i] == join(dir, entries[i]->Name_0@)),
    decreases entries.len(),
{
    if entries.len() > 0 {
        let init = entries.drop_last();
        assert forall|i: int| 0 <= i < init.len() implies #[trigger] init[i] is Name by {
            assert(init[i] == entries[i]);
        }
        law_every_entry_listed(dir, init);
        assert(entries.last() is Name);
        let v = entry_paths(dir, entries)->Ok_0;
        let w = entry_paths(dir, init)->Ok_0;
        assert forall|i: int| 0 <= i < entries.len() implies #[trigger] v[i] == join(dir, entries[i]->Name_0@) by {
            if i < init.len() {
                assert(init[i] == entries[i]);
                assert(v[i] == w[i]);
            }
        }
    }
}

} // verus!
