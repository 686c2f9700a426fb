# lagent

A minimal command-line agent that chats with an LLM and lets it use file
tools restricted to the current working directory. The decisions of the
agent are a library verified with Verus; the program around it does the I/O.

## Layout

- `src/` — the verified library
  - `agent_loop.rs`: the session state (the user messages sent to the agent),
    what to do with each line typed, and how each streamed reply item is shown
  - `tools.rs`, `tools/commands.rs`, `tools/mcp_tools.rs`: tool errors, the
    plain file tools, the command reader, MCP warnings
  - `utils/path_utils.rs`: path components, joining, parents, the
    working-directory check, and line selection when reading files
  - `utils/tools.rs`: the sandboxed `read_file`, `write_file` and `list_dir`.
    A path reaches a file tool only as a `Permitted` value, which only the
    working-directory check makes; `confine` then refuses a path that a
    symbolic link takes out of the working directory, given what the program
    resolved on disk. On Windows `\` is read as a separator and a drive or
    root is joined as Windows joins it, before the check.
  - `utils/config.rs`: configuration from environment variables
  - `utils/executor_utils.rs`: shell invocation and its report
  - `text.rs`: character-level helpers (splitting, trimming, decimal numbers)
- `app/` — the program: terminal, files, processes, network, the LLM client
  and the MCP connections
- `tests/` — tests of the library
