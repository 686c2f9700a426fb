use lagent::utils::config::{Config, EnvValues};

fn unset() -> EnvValues {
    EnvValues {
        llm_base_url: None,
        llm_api_key: None,
        llm_model: None,
        llm_max_tokens: None,
        mcp_servers: None,
    }
}

#[test]
fn defaults_apply_when_unset() {
    let c = Config::from_env(unset());
    assert_eq!(c.base_url, "http://localhost:8080/v1/");
    assert_eq!(c.api_key, "sk-no-key");
    assert_eq!(c.model, "Qwen3.8-9B");
    assert_eq!(c.max_token, 8192);
    assert_eq!(c.system_prompt, "");
    assert_eq!(c.mcp_servers, vec!["http://127.0.0.1:8765/mcp".to_string()]);
}

#[test]
fn values_are_taken_from_the_environment() {
    let c = Config::from_env(EnvValues {
        llm_base_url: Some("http://h/v1/".to_string()),
        llm_api_key: Some("k".to_string()),
        llm_model: Some("m".to_string()),
        llm_max_tokens: Some("4096".to_string()),
        mcp_servers: Some("http://a/mcp,http://b/mcp".to_string()),
    });
    assert_eq!(c.base_url, "http://h/v1/");
    assert_eq!(c.api_key, "k");
    assert_eq!(c.model, "m");
    assert_eq!(c.max_token, 4096);
    assert_eq!(c.mcp_servers, vec!["http://a/mcp".to_string(), "http://b/mcp".to_string()]);
}

#[test]
fn invalid_token_limit_falls_back_to_default() {
    let mut env = unset();
    env.llm_max_tokens = Some("lots".to_string());
    assert_eq!(Config::from_env(env).max_token, 8192);
}

#[test]
fn empty_server_list_is_one_empty_entry() {
    let mut env = unset();
    env.mcp_servers = Some(String::new());
    assert_eq!(Config::from_env(env).mcp_servers, vec![String::new()]);
}
