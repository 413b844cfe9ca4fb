use river_gateway::client::{
    convert_to_anthropic_messages, from_anthropic_response, from_openai_completion,
    AnthropicContentBlock, AnthropicResponseContent, ChatMessage, OpenAIAssistantMessage,
    OpenAIToolCall,
};
use river_gateway::model::{
    after_failed_attempt, is_retryable, AnthropicUsage, FunctionCall, ModelResponse, OpenAIUsage,
    RetryStep, ToolCallRequest, Usage,
};

fn test_usage() -> Usage {
    Usage {
        prompt_tokens: 10,
        completion_tokens: 5,
        total_tokens: 15,
        cache_creation_tokens: 0,
        cache_read_tokens: 0,
    }
}

#[test]
fn retryability() {
    assert!(is_retryable(429));
    assert!(is_retryable(500));
    assert!(is_retryable(529));
    assert!(!is_retryable(400));
    assert!(!is_retryable(401));
    assert!(!is_retryable(404));
}

#[test]
fn test_model_response_has_tool_calls() {
    let resp = ModelResponse {
        content: Some("Hello".to_string()),
        tool_calls: vec![],
        usage: test_usage(),
    };
    assert!(!resp.has_tool_calls());

    let resp_with_tools = ModelResponse {
        content: None,
        tool_calls: vec![ToolCallRequest {
            id: "call_1".to_string(),
            kind: "function".to_string(),
            function: FunctionCall {
                name: "read".to_string(),
                arguments: "{}".to_string(),
            },
        }],
        usage: test_usage(),
    };
    assert!(resp_with_tools.has_tool_calls());
}

#[test]
fn test_usage_from_anthropic() {
    let usage = AnthropicUsage {
        input_tokens: 100,
        output_tokens: 50,
        cache_creation_input_tokens: 20,
        cache_read_input_tokens: 80,
    };
    let unified = Usage::from_anthropic(usage);
    assert_eq!(unified.prompt_tokens, 100);
    assert_eq!(unified.completion_tokens, 50);
    assert_eq!(unified.total_tokens, 150);
    assert_eq!(unified.cache_creation_tokens, 20);
    assert_eq!(unified.cache_read_tokens, 80);
}

#[test]
fn usage_from_openai_fills_a_missing_total() {
    let u = Usage::from_openai(OpenAIUsage { prompt_tokens: 7, completion_tokens: 3, total_tokens: 0 });
    assert_eq!(u.total_tokens, 10);
    let u = Usage::from_openai(OpenAIUsage { prompt_tokens: 7, completion_tokens: 3, total_tokens: 12 });
    assert_eq!(u.total_tokens, 12);
    assert_eq!(u.cache_read_tokens, 0);
}

#[test]
fn retry_steps_back_off_then_give_up() {
    assert!(matches!(after_failed_attempt(1, Some(500)), RetryStep::RetryAfterMs(_)));
    assert!(matches!(after_failed_attempt(1, Some(400)), RetryStep::GiveUp));
}

fn msg(role: &str, content: Option<&str>) -> ChatMessage {
    ChatMessage {
        role: role.to_string(),
        content: content.map(|s| s.to_string()),
        tool_calls: None,
        tool_call_id: None,
    }
}

#[test]
fn anthropic_conversion_places_two_breakpoints() {
    let mut assistant = msg("assistant", Some("calling"));
    assistant.tool_calls = Some(vec![
        ToolCallRequest {
            id: "t1".to_string(),
            kind: "function".to_string(),
            function: FunctionCall { name: "read".to_string(), arguments: "{\"path\":\"a\"}".to_string() },
        },
        ToolCallRequest {
            id: "t2".to_string(),
            kind: "function".to_string(),
            function: FunctionCall { name: "bash".to_string(), arguments: "not json".to_string() },
        },
    ]);
    let mut tool = msg("tool", Some("file contents"));
    tool.tool_call_id = Some("t1".to_string());
    let messages = vec![
        msg("system", Some("identity")),
        msg("system", Some("more context")),
        msg("user", Some("hello")),
        assistant,
        tool,
    ];
    let (system, out) = convert_to_anthropic_messages(&messages);
    let system = system.expect("system blocks");
    assert_eq!(system.len(), 2);
    assert!(matches!(&system[0], AnthropicContentBlock::Text { text, cached: true } if text == "identity"));
    assert!(matches!(&system[1], AnthropicContentBlock::Text { cached: false, .. }));
    assert_eq!(out.len(), 3);
    assert_eq!(out[0].role, "user");
    assert!(matches!(&out[0].content[0], AnthropicContentBlock::Text { cached: false, .. }));
    assert_eq!(out[1].role, "assistant");
    assert!(matches!(&out[1].content[0], AnthropicContentBlock::Text { text, cached: true } if text == "calling"));
    assert!(matches!(&out[1].content[1], AnthropicContentBlock::ToolUse { input, .. } if input == "{\"path\":\"a\"}"));
    assert!(matches!(&out[1].content[2], AnthropicContentBlock::ToolUse { input, .. } if input == "{}"));
    assert_eq!(out[2].role, "user");
    assert!(matches!(&out[2].content[0], AnthropicContentBlock::ToolResult { tool_use_id, content } if tool_use_id == "t1" && content == "file contents"));
}

#[test]
fn anthropic_conversion_without_system_or_content() {
    let messages = vec![msg("user", None), msg("assistant", Some(""))];
    let (system, out) = convert_to_anthropic_messages(&messages);
    assert!(system.is_none());
    assert!(out.is_empty());
}

#[test]
fn anthropic_reply_keeps_last_text_and_all_tool_uses() {
    let reply = vec![
        AnthropicResponseContent::Text { text: "first".to_string() },
        AnthropicResponseContent::ToolUse {
            id: "u1".to_string(),
            name: "read".to_string(),
            input: "{\"path\":\"x\"}".to_string(),
        },
        AnthropicResponseContent::Text { text: "second".to_string() },
    ];
    let usage = AnthropicUsage {
        input_tokens: 3,
        output_tokens: 4,
        cache_creation_input_tokens: 0,
        cache_read_input_tokens: 1,
    };
    let resp = from_anthropic_response(reply, usage);
    assert_eq!(resp.content.as_deref(), Some("second"));
    assert_eq!(resp.tool_calls.len(), 1);
    assert_eq!(resp.tool_calls[0].kind, "function");
    assert_eq!(resp.tool_calls[0].function.arguments, "{\"path\":\"x\"}");
    assert_eq!(resp.usage.total_tokens, 7);
}

#[test]
fn openai_reply_takes_the_first_choice() {
    let choices = vec![
        OpenAIAssistantMessage {
            content: Some("answer".to_string()),
            tool_calls: Some(vec![OpenAIToolCall {
                id: "c1".to_string(),
                kind: None,
                name: "grep".to_string(),
                arguments: "{}".to_string(),
            }]),
        },
        OpenAIAssistantMessage { content: Some("ignored".to_string()), tool_calls: None },
    ];
    let usage = OpenAIUsage { prompt_tokens: 1, completion_tokens: 2, total_tokens: 0 };
    let resp = from_openai_completion(choices, usage).unwrap();
    assert_eq!(resp.content.as_deref(), Some("answer"));
    assert_eq!(resp.tool_calls[0].kind, "function");
    assert_eq!(resp.usage.total_tokens, 3);

    let err = from_openai_completion(vec![], usage).unwrap_err();
    assert_eq!(err, "API response contained no choices");
}

#[test]
fn parses_anthropic_response() {
    let text = r#"{
        "content": [
            {"type": "text", "text": "good "},
            {"type": "text", "text": "morning"}
        ],
        "usage": {"input_tokens": 42, "output_tokens": 7}
    }"#;
    let parsed = river_gateway::model::parse_anthropic_response(text).unwrap();
    assert_eq!(parsed.content, "good morning");
    assert_eq!(parsed.prompt_tokens, Some(42));
}

#[test]
fn parses_openai_response() {
    let text = r#"{
        "choices": [{"message": {"role": "assistant", "content": "good morning"}}],
        "usage": {"prompt_tokens": 42, "completion_tokens": 7}
    }"#;
    let parsed = river_gateway::model::parse_openai_response(text).unwrap();
    assert_eq!(parsed.content, "good morning");
    assert_eq!(parsed.prompt_tokens, Some(42));
}

#[test]
fn missing_usage_is_tolerated() {
    let text = r#"{"choices": [{"message": {"content": "ok"}}]}"#;
    let parsed = river_gateway::model::parse_openai_response(text).unwrap();
    assert_eq!(parsed.prompt_tokens, None);
}

#[test]
fn malformed_responses_are_errors() {
    assert!(river_gateway::model::parse_anthropic_response("{}").is_err());
    assert!(river_gateway::model::parse_openai_response("{}").is_err());
    assert!(river_gateway::model::parse_openai_response("not json").is_err());
}

#[test]
fn anthropic_reply_skips_non_text_blocks() {
    let text = r#"{"content": [
        {"type": "tool_use", "text": "hidden"},
        {"type": "text", "text": "a"},
        {"type": "text"},
        {"type": "text", "text": "b"}
    ]}"#;
    let parsed = river_gateway::model::parse_anthropic_response(text).unwrap();
    assert_eq!(parsed.content, "ab");
    assert_eq!(parsed.prompt_tokens, None);
    let err = river_gateway::model::parse_anthropic_response("{}").unwrap_err();
    assert_eq!(err, "missing content array");
    let err = river_gateway::model::parse_openai_response(r#"{"choices": []}"#).unwrap_err();
    assert_eq!(err, "missing choices[0].message.content");
}

#[test]
fn test_anthropic_response_parsing() {
    let content = vec![
        AnthropicResponseContent::Text { text: "Hello!".to_string() },
        AnthropicResponseContent::ToolUse {
            id: "tool_1".to_string(),
            name: "read".to_string(),
            input: "{\"path\":\"/tmp\"}".to_string(),
        },
    ];
    let usage = AnthropicUsage {
        input_tokens: 100,
        output_tokens: 50,
        cache_creation_input_tokens: 80,
        cache_read_input_tokens: 20,
    };
    let model_resp = from_anthropic_response(content, usage);

    assert_eq!(model_resp.content, Some("Hello!".to_string()));
    assert_eq!(model_resp.tool_calls.len(), 1);
    assert_eq!(model_resp.tool_calls[0].function.name, "read");
    assert_eq!(model_resp.usage.prompt_tokens, 100);
    assert_eq!(model_resp.usage.completion_tokens, 50);
    assert_eq!(model_resp.usage.cache_creation_tokens, 80);
    assert_eq!(model_resp.usage.cache_read_tokens, 20);
}
