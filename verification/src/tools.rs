pub mod commands;
pub mod mcp_tools;

use vstd::prelude::*;

use crate::utils::path_utils::parent;
use crate::utils::tools::Permitted;

verus! {

/// A tool call that failed, with the message handed back to the model.
pub struct ToolError {
    pub message: String,
}

/// `Failed to <action> '<path>': <error>`.
pub open spec fn failure_message(action: Seq<char>, path: Seq<char>, e: Seq<char>) -> Seq<char> {
    "Failed to "@ + action + " '"@ + path + "': "@ + e
}

/// A tool error that names the failed action, its path and the cause.
pub fn failure(action: &str, path: &str, e: &str) -> (err: ToolError)
    ensures
        err.message@ == failure_message(action@, path@, e@),
{
    let mut m = String::from_str("Failed to ");
    m.append(action);
    m.append(" '");
    m.append(path);
    m.append("': ");
    m.append(e);
    ToolError { message: m }
}

/// The answer of the plain `read_file` tool for the file `target`, which
/// `read_file_target` resolved in the working directory: the file's text, or
/// an error that names the file.
pub fn read_file(target: &Permitted, outcome: Result<String, String>) -> (r: Result<String, ToolError>)
    ensures
        match outcome {
            Ok(t) => r matches Ok(u) && u@ == t@,
            Err(e) => r matches Err(err) && err.message@ == failure_message("read file"@, target.path_view(), e@),
        },
{
    match outcome {
        Ok(t) => Ok(t),
        Err(e) => Err(failure("read file", target.path(), e.as_str())),
    }
}

/// The directory that the `write_file` tools create, with any missing
/// ancestors, before writing `target`: its parent, unless it has none or it
/// is empty.
pub fn dir_to_create(target: &Permitted) -> (d: Option<String>)
    ensures
        match crate::utils::path_utils::parent_of(target.path_view()) {
            Some(p) => if p.len() > 0 {
                d matches Some(q) && q@ == p
            } else {
                d is None
            },
            None => d is None,
        },
{
    match parent(target.path()) {
        Some(p) => {
            if p.as_str().unicode_len() > 0 {
                Some(p)
            } else {
                None
            }
        },
        None => None,
    }
}

/// The error of a `write_file` tool when a directory could not be created;
/// the sandboxed tool names the directory, the plain one the file.
pub fn create_dir_failed(path: &str, e: &str) -> (err: ToolError)
    ensures
        err.message@ == failure_message("create dir"@, path@, e@),
{
    failure("create dir", path, e)
}

/// The answer of the plain `write_file` tool once the file `target`, which
/// `write_file_target` resolved in the working directory, was written, or not.
pub fn write_file(target: &Permitted, outcome: Result<(), String>) -> (r: Result<(), ToolError>)
    ensures
        match outcome {
            Ok(()) => r is Ok,
            Err(e) => r matches Err(err) && err.message@ == failure_message("write file"@, target.path_view(), e@),
        },
{
    match outcome {
        Ok(()) => Ok(()),
        Err(e) => Err(failure("write file", target.path(), e.as_str())),
    }
}

} // verus!
