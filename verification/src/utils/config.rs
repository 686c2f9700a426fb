use vstd::prelude::*;

use crate::text::{decimal, law_decimal_round_trip, join_with, lemma_join_split, lemma_split_pieces_free, parse_u64, parsed_u64, split_on, split_str};

verus! {

/// The environment variables that configure the agent, as read (absent when
/// unset or not valid Unicode).
pub struct EnvValues {
    pub llm_base_url: Option<String>,
    pub llm_api_key: Option<String>,
    pub llm_model: Option<String>,
    pub llm_max_tokens: Option<String>,
    pub mcp_servers: Option<String>,
}

/// The agent's configuration.
pub struct Config {
    pub base_url: String,
    pub api_key: String,
    pub model: String,
    pub max_token: u64,
    pub system_prompt: String,
    pub mcp_servers: Vec<String>,
}

pub open spec fn default_base_url() -> Seq<char> {
    "http://localhost:8080/v1/"@
}

pub open spec fn default_api_key() -> Seq<char> {
    "sk-no-key"@
}

pub open spec fn default_model() -> Seq<char> {
    "Qwen3.8-9B"@
}

pub open spec fn default_max_tokens() -> u64 {
    8192
}

pub open spec fn default_mcp_servers() -> Seq<char> {
    "http://127.0.0.1:8765/mcp"@
}

/// The value of a variable, or `default` when it is unset.
pub open spec fn value_or(v: Option<String>, default: Seq<char>) -> Seq<char> {
    match v {
        Some(s) => s@,
        None => default,
    }
}

/// The token limit: the variable's value when it parses as a `u64`, the
/// default otherwise.
pub open spec fn max_tokens_of(v: Option<String>) -> u64 {
    match v {
        Some(s) => match parsed_u64(s@) {
            Some(n) => n,
            None => default_max_tokens(),
        },
        None => default_max_tokens(),
    }
}

fn value_or_default(v: Option<String>, default: &str) -> (r: String)
    ensures
        r@ == value_or(v, default@),
{
    match v {
        Some(s) => s,
        None => String::from_str(default),
    }
}

impl Config {
    /// The configuration that the environment gives: each variable's value,
    /// or its documented default when unset; `LLM_MAX_TOKENS` also falls back
    /// to its default when it is not a number; `MCP_SERVERS` is a
    /// comma-separated list of server URLs.
    pub fn from_env(env: EnvValues) -> (c: Config)
        ensures
            c.base_url@ == value_or(env.llm_base_url, default_base_url()),
            c.api_key@ == value_or(env.llm_api_key, default_api_key()),
            c.model@ == value_or(env.llm_model, default_model()),
            c.max_token == max_tokens_of(env.llm_max_tokens),
            c.system_prompt@.len() == 0,
            c.mcp_servers.deep_view() == split_on(value_or(env.mcp_servers, default_mcp_servers()), ','),
    {
        let max_token = match &env.llm_max_tokens {
            Some(s) => match parse_u64(s.as_str()) {
                Some(n) => n,
                None => 8192,
            },
            None => 8192,
        };
        let servers = value_or_default(env.mcp_servers, "http://127.0.0.1:8765/mcp");
        Config {
            base_url: value_or_default(env.llm_base_url, "http://localhost:8080/v1/"),
            api_key: value_or_default(env.llm_api_key, "sk-no-key"),
            model: value_or_default(env.llm_model, "Qwen3.8-9B"),
            max_token,
            system_prompt: String::new(),
            mcp_servers: split_str(servers.as_str(), ','),
        }
    }
}

/// The server list read from a text, joined again with commas, is that text,
/// and no listed server holds a comma.
pub proof fn law_server_list_round_trip(text: Seq<char>)
    ensures
        join_with(split_on(text, ','), ',') == text,
        forall|i: int|
            0 <= i < split_on(text, ',').len() ==> !(#[trigger] split_on(text, ',')[i]).contains(','),
{
    lemma_join_split(text, ',');
    lemma_split_pieces_free(text, ',');
}

/// `LLM_MAX_TOKENS` set to the decimal text of a number gives that number as
/// the token limit, whatever the number; unset, the limit is 8192.
pub proof fn law_max_tokens_from_variable(s: String, n: u64)
    requires
        s@ == decimal(n as nat),
    ensures
        max_tokens_of(Some(s)) == n,
        max_tokens_of(None) == 8192,
{
    law_decimal_round_trip(n);
}

} // verus!
