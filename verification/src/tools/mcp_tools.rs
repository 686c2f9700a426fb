use vstd::prelude::*;

verus! {

/// Why the tools of an MCP server could not be had.
pub enum McpFailure {
    /// The connection to the server failed.
    Connect(String),
    /// The server did not list its tools.
    ListTools(String),
}

pub open spec fn mcp_failure_message(server: Seq<char>, failure: McpFailure) -> Seq<char> {
    match failure {
        McpFailure::Connect(e) => "Failed to connect to MCP at "@ + server + " error: "@ + e@,
        McpFailure::ListTools(e) => "Failed to get tools for MCP at "@ + server + " error: "@ + e@,
    }
}

/// The warning printed when a server's tools could not be had; the server is
/// then left out.
pub fn failure_message(server: &str, failure: &McpFailure) -> (m: String)
    ensures
        m@ == mcp_failure_message(server@, *failure),
{
    match failure {
        McpFailure::Connect(e) => {
            let mut m = String::from_str("Failed to connect to MCP at ");
            m.append(server);
            m.append(" error: ");
            m.append(e.as_str());
            m
        },
        McpFailure::ListTools(e) => {
            let mut m = String::from_str("Failed to get tools for MCP at ");
            m.append(server);
            m.append(" error: ");
            m.append(e.as_str());
            m
        },
    }
}

/// What becomes of a server's tools: kept when they could be had, otherwise
/// the warning to print, and the server is left out.
pub fn keep_or_warn<T>(server: &str, outcome: Result<T, McpFailure>) -> (r: Result<T, String>)
    ensures
        match outcome {
            Ok(x) => r matches Ok(y) && y == x,
            Err(f) => r matches Err(m) && m@ == mcp_failure_message(server@, f),
        },
{
    match outcome {
        Ok(x) => Ok(x),
        Err(f) => Err(failure_message(server, &f)),
    }
}

/// The tools kept from the servers' outcomes, in the servers' order.
pub open spec fn kept_tools<T>(outcomes: Seq<(String, Result<T, McpFailure>)>) -> Seq<T>
    decreases outcomes.len(),
{
    if outcomes.len() == 0 {
        Seq::<T>::empty()
    } else {
        let rest = kept_tools(outcomes.drop_first());
        match outcomes[0].1 {
            Ok(x) => seq![x] + rest,
            Err(_) => rest,
        }
    }
}

/// The warnings for the servers left out, in the servers' order.
pub open spec fn server_warnings<T>(outcomes: Seq<(String, Result<T, McpFailure>)>) -> Seq<Seq<char>>
    decreases outcomes.len(),
{
    if outcomes.len() == 0 {
        Seq::<Seq<char>>::empty()
    } else {
        let rest = server_warnings(outcomes.drop_first());
        match outcomes[0].1 {
            Ok(_) => rest,
            Err(f) => seq![mcp_failure_message(outcomes[0].0@, f)] + rest,
        }
    }
}

/// Sorts the outcomes of the MCP servers, each paired with its server: the
/// tools of the servers that answered are kept, and each of the others gets
/// a warning (see `keep_or_warn`); both lists keep the servers' order.
pub fn gather_tools<T>(outcomes: Vec<(String, Result<T, McpFailure>)>) -> (r: (Vec<T>, Vec<String>))
    ensures
        r.0@ == kept_tools(outcomes@),
        r.1.deep_view() == server_warnings(outcomes@),
{
    let mut rest = outcomes;
    let mut kept: Vec<T> = Vec::new();
    let mut warnings: Vec<String> = Vec::new();
    while rest.len() > 0
        invariant
            kept@ + kept_tools(rest@) == kept_tools(outcomes@),
            warnings.deep_view() + server_warnings(rest@) == server_warnings(outcomes@),
        decreases rest@.len(),
    {
        let ghost before = rest@;
        let ghost kept_before = kept@;
        let ghost warnings_before = warnings.deep_view();
        let (server, outcome) = rest.remove(0);
        assert(rest@ =~= before.drop_first());
        match keep_or_warn(server.as_str(), outcome) {
            Ok(x) => {
                kept.push(x);
                assert(kept@ + kept_tools(rest@) =~= kept_before + kept_tools(before));
            },
            Err(m) => {
                warnings.push(m);
                assert(warnings.deep_view() =~= warnings_before.push(m@));
                assert(warnings.deep_view() + server_warnings(rest@) =~= warnings_before
                    + server_warnings(before));
            },
        }
    }
    assert(kept@ + kept_tools(rest@) =~= kept@);
    assert(warnings.deep_view() + server_warnings(rest@) =~= warnings.deep_view());
    (kept, warnings)
}

} // verus!
