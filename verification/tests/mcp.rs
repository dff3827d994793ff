use rustelier::mcp::{
    allowed_hosts, authorized, checked_token, fresh_token, mcp_port, no_answer_message,
    parse_u16, token_file_private, token_matches, tool_action, Action, NoAnswer, ToolCall,
};

#[test]
fn tokens_match_only_exactly() {
    assert!(token_matches("abc", "abc"));
    assert!(!token_matches("abd", "abc"));
    assert!(!token_matches("ab", "abc"));
    assert!(token_matches("", ""));
}

#[test]
fn only_the_bearer_token_is_let_in() {
    let token = "f".repeat(64);
    assert!(authorized(Some(&format!("Bearer {token}")), &token));
    assert!(!authorized(Some(&format!("bearer {token}")), &token));
    assert!(!authorized(Some(&format!("Bearer  {token}")), &token));
    assert!(!authorized(Some(&token), &token));
    assert!(!authorized(None, &token));
}

#[test]
fn ports_parse_like_std() {
    assert_eq!(parse_u16("47831"), Some(47831));
    assert_eq!(parse_u16("+80"), Some(80));
    assert_eq!(parse_u16("65535"), Some(65535));
    assert_eq!(parse_u16("65536"), None);
    assert_eq!(parse_u16(""), None);
    assert_eq!(parse_u16("+"), None);
    assert_eq!(parse_u16(" 80"), None);
    assert_eq!(parse_u16("-1"), None);
    for text in ["0", "007", "+65535", "99999999999", "12a"] {
        assert_eq!(parse_u16(text), text.parse::<u16>().ok(), "{text}");
    }
}

#[test]
fn the_port_defaults_and_refuses_zero() {
    assert_eq!(mcp_port(None), Ok(47831));
    assert_eq!(mcp_port(Some("9000")), Ok(9000));
    assert_eq!(mcp_port(Some("0")), Err("ARTIFEX_MCP_PORT must be a fixed nonzero port".to_string()));
    assert_eq!(mcp_port(Some("port")), Err("Invalid ARTIFEX_MCP_PORT".to_string()));
    let (hosts, origins) = allowed_hosts(47831);
    assert_eq!(hosts, vec!["127.0.0.1:47831", "localhost:47831"]);
    assert_eq!(origins, vec!["http://127.0.0.1:47831", "http://localhost:47831"]);
}

#[test]
fn a_token_file_must_be_private() {
    assert!(token_file_private(true, 0o100600, 64));
    assert!(!token_file_private(true, 0o100644, 64));
    assert!(!token_file_private(false, 0o600, 64));
    assert!(!token_file_private(true, 0o600, 129));
}

#[test]
fn a_stored_token_is_64_hex_digits() {
    let good = "0123456789abcdefABCDEF".repeat(3)[..64].to_string();
    assert_eq!(checked_token(&format!("  {good}\n")), Ok(good.clone()));
    assert!(checked_token(&good[..63]).is_err());
    let bad = format!("{}g", &good[..63]);
    assert_eq!(
        checked_token(&bad),
        Err("MCP token must contain 64 hexadecimal characters".to_string())
    );
}

#[test]
fn a_fresh_token_is_lowercase_hex() {
    assert_eq!(fresh_token(&[0x00, 0x0f, 0xa0, 0xff]), "000fa0ff");
    let random = [7u8; 32];
    let token = fresh_token(&random);
    assert_eq!(token.len(), 64);
    assert!(checked_token(&token).is_ok());
}

#[test]
fn tool_calls_become_requests() {
    assert_eq!(tool_action(ToolCall::List { no_arguments: true }), Ok(Action::List));
    assert_eq!(
        tool_action(ToolCall::List { no_arguments: false }),
        Err("Unknown tool or invalid arguments".to_string())
    );
    assert_eq!(
        tool_action(ToolCall::Pull(Ok(("w1".to_string(), "main".to_string())))),
        Ok(Action::Pull { workspace_id: "w1".to_string(), expected_branch: "main".to_string() })
    );
    assert_eq!(
        tool_action(ToolCall::Pull(Ok(("w1".to_string(), String::new())))),
        Err("Workspace and branch must not be empty".to_string())
    );
    assert_eq!(
        tool_action(ToolCall::Pull(Err("missing field".to_string()))),
        Err("missing field".to_string())
    );
    assert_eq!(tool_action(ToolCall::Other), Err("Unknown tool or invalid arguments".to_string()));
    assert_eq!(no_answer_message(NoAnswer::NotSent), "App unavailable or request queue full");
}
