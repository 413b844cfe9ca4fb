use river_gateway::model::{build_anthropic_body, build_openai_body, ChatMessage, Role, MAX_TOKENS};

fn messages() -> Vec<ChatMessage> {
    vec![
        ChatMessage { role: Role::User, content: "hello".into() },
        ChatMessage { role: Role::Assistant, content: "hi".into() },
    ]
}

#[test]
fn anthropic_body_shape() {
    let body = build_anthropic_body("sonnet-4", "be honest", &messages());
    assert_eq!(body.model, "sonnet-4");
    assert_eq!(body.system.as_deref(), Some("be honest"));
    assert_eq!(body.messages[0].role, "user");
    assert_eq!(body.messages[1].role, "assistant");
    assert!(body.max_tokens.unwrap() > 0);
}

#[test]
fn openai_body_puts_system_first() {
    let body = build_openai_body("qwen3:8b", "be honest", &messages());
    assert_eq!(body.messages[0].role, "system");
    assert_eq!(body.messages[0].content, "be honest");
    assert_eq!(body.messages[1].role, "user");
    assert_eq!(body.messages[2].role, "assistant");
    assert!(body.max_tokens.is_none());
}

#[test]
fn anthropic_body_keeps_messages_in_order_with_token_cap() {
    let body = build_anthropic_body("m", "", &messages());
    assert_eq!(body.max_tokens, Some(MAX_TOKENS));
    assert_eq!(MAX_TOKENS, 8192);
    assert_eq!(body.messages.len(), 2);
    assert_eq!(body.messages[0].content, "hello");
    assert_eq!(body.messages[1].content, "hi");
}

#[test]
fn openai_body_without_messages_holds_only_the_system_prompt() {
    let body = build_openai_body("m", "sys", &[]);
    assert_eq!(body.model, "m");
    assert!(body.system.is_none());
    assert_eq!(body.messages.len(), 1);
    assert_eq!(body.messages[0].content, "sys");
}
