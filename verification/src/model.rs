//! The model seam: chat messages, tool calls, usage accounting and the
//! retry rules of the model client. The HTTP exchange itself lives in the
//! application; what it decides (retry or not, how long to wait, how to
//! read usage) is here.

use vstd::prelude::*;
use crate::text::{push_str, string_of};

verus! {

/// How many times one chat request is attempted.
pub const MAX_ATTEMPTS: u32 = 3;

/// Who wrote a chat message.
#[derive(Debug, Clone, Copy, PartialEq, Eq, Structural)]
pub enum Role {
    User,
    Assistant,
}

#[derive(Debug, Clone)]
pub struct ChatMessage {
    pub role: Role,
    pub content: String,
}

impl ChatMessage {
    pub fn user(content: String) -> (m: ChatMessage)
        ensures
            m.role == Role::User,
            m.content@ == content@,
    {
        ChatMessage { role: Role::User, content }
    }

    pub fn assistant(content: String) -> (m: ChatMessage)
        ensures
            m.role == Role::Assistant,
            m.content@ == content@,
    {
        ChatMessage { role: Role::Assistant, content }
    }
}

/// The most tokens an Anthropic reply may take.
pub const MAX_TOKENS: u32 = 8192;

/// A role's name on the wire.
pub open spec fn role_name(r: Role) -> Seq<char> {
    match r {
        Role::User => "user"@,
        Role::Assistant => "assistant"@,
    }
}

/// One message of a request body: its role's name and its text.
#[derive(Debug)]
pub struct RequestMessage {
    pub role: String,
    pub content: String,
}

/// The JSON body of a chat request: the model, the reply's token cap and
/// the system prompt where the provider takes them as fields, and the
/// messages in order.
#[derive(Debug)]
pub struct ChatRequest {
    pub model: String,
    pub max_tokens: Option<u32>,
    pub system: Option<String>,
    pub messages: Vec<RequestMessage>,
}

/// Request messages as (role, content) pairs.
pub open spec fn request_pairs(v: Seq<RequestMessage>) -> Seq<(Seq<char>, Seq<char>)> {
    v.map_values(|m: RequestMessage| (m.role@, m.content@))
}

/// Chat messages as they go on the wire: (role name, content) pairs.
pub open spec fn wire_pairs(v: Seq<ChatMessage>) -> Seq<(Seq<char>, Seq<char>)> {
    v.map_values(|m: ChatMessage| (role_name(m.role), m.content@))
}

pub open spec fn opt_string_view(o: Option<String>) -> Option<Seq<char>> {
    match o {
        Some(s) => Some(s@),
        None => None,
    }
}

/// Appends the wire form of each message to `out`, in order.
fn push_wire(out: &mut Vec<RequestMessage>, messages: &[ChatMessage])
    ensures
        request_pairs(final(out)@) == request_pairs(old(out)@) + wire_pairs(messages@),
{
    let ghost start = request_pairs(out@);
    let mut i: usize = 0;
    while i < messages.len()
        invariant
            i <= messages@.len(),
            request_pairs(out@) == start + wire_pairs(messages@.take(i as int)),
        decreases messages@.len() - i,
    {
        let m = &messages[i];
        let role = match m.role {
            Role::User => "user".to_string(),
            Role::Assistant => "assistant".to_string(),
        };
        proof {
            reveal_strlit("user");
            reveal_strlit("assistant");
        }
        let ghost before = out@;
        out.push(RequestMessage { role, content: m.content.clone() });
        proof {
            assert(messages@.take(i + 1) =~= messages@.take(i as int).push(messages@[i as int]));
            assert(request_pairs(out@) =~= request_pairs(before).push(
                (role_name(messages@[i as int].role), messages@[i as int].content@),
            ));
            assert(wire_pairs(messages@.take(i + 1)) =~= wire_pairs(messages@.take(i as int)).push(
                (role_name(messages@[i as int].role), messages@[i as int].content@),
            ));
        }
        i = i + 1;
    }
    proof {
        assert(messages@.take(messages@.len() as int) =~= messages@);
    }
}

/// The Anthropic request body: the model, `MAX_TOKENS`, the system prompt
/// as its own field, and the messages in order.
pub fn build_anthropic_body(model: &str, system: &str, messages: &[ChatMessage]) -> (r: ChatRequest)
    ensures
        r.model@ == model@,
        r.max_tokens == Some(MAX_TOKENS),
        opt_string_view(r.system) == Some(system@),
        request_pairs(r.messages@) == wire_pairs(messages@),
{
    let mut out: Vec<RequestMessage> = Vec::new();
    push_wire(&mut out, messages);
    proof {
        assert(request_pairs(Seq::<RequestMessage>::empty()) + wire_pairs(messages@) =~= wire_pairs(messages@));
    }
    ChatRequest {
        model: model.to_string(),
        max_tokens: Some(MAX_TOKENS),
        system: Some(system.to_string()),
        messages: out,
    }
}

/// The OpenAI-style request body: the model, no token cap, and the system
/// prompt as a first `system` message before the messages in order.
pub fn build_openai_body(model: &str, system: &str, messages: &[ChatMessage]) -> (r: ChatRequest)
    ensures
        r.model@ == model@,
        r.max_tokens is None,
        r.system is None,
        request_pairs(r.messages@) == seq![("system"@, system@)] + wire_pairs(messages@),
{
    let mut out: Vec<RequestMessage> = Vec::new();
    out.push(RequestMessage { role: "system".to_string(), content: system.to_string() });
    proof {
        assert(request_pairs(out@) =~= seq![("system"@, system@)]);
    }
    push_wire(&mut out, messages);
    ChatRequest { model: model.to_string(), max_tokens: None, system: None, messages: out }
}

#[derive(Debug)]
pub struct ChatResponse {
    pub content: String,
    /// Reported prompt token count, when the API provides usage data.
    pub prompt_tokens: Option<u64>,
}

/// Retry on rate limits, server errors, and overload; never on client
/// errors: a malformed request does not improve with repetition.
pub open spec fn retryable(status: u16) -> bool {
    status == 429 || status >= 500
}

pub fn is_retryable(status: u16) -> (b: bool)
    ensures
        b == retryable(status),
{
    status == 429 || status >= 500
}

/// The pause before attempt `attempt` (counting from 0), in
/// milliseconds: none before the first, then 500 ms doubling.
pub open spec fn retry_delay_ms(attempt: u32) -> nat
    decreases attempt,
{
    if attempt == 0 {
        0
    } else if attempt == 1 {
        500
    } else {
        2 * retry_delay_ms((attempt - 1) as u32)
    }
}

/// What the client does after an attempt that did not succeed.
#[derive(Debug, Clone, Copy, PartialEq, Eq, Structural)]
pub enum RetryStep {
    /// Wait this many milliseconds, then try again.
    RetryAfterMs(u64),
    /// Give up and report the last error.
    GiveUp,
}

/// After attempt `attempt` failed (with an HTTP status, or with no
/// response at all), decide whether to try again and after how long.
pub fn after_failed_attempt(attempt: u32, status: Option<u16>) -> (r: RetryStep)
    requires
        attempt < MAX_ATTEMPTS,
    ensures
        match r {
            RetryStep::RetryAfterMs(ms) => attempt + 1 < MAX_ATTEMPTS && (match status {
                Some(s) => retryable(s),
                None => true,
            }) && ms == retry_delay_ms((attempt + 1) as u32),
            RetryStep::GiveUp => attempt + 1 >= MAX_ATTEMPTS || (match status {
                Some(s) => !retryable(s),
                None => false,
            }),
        },
{
    let retry = match status {
        Some(s) => is_retryable(s),
        None => true,
    };
    if !retry || attempt + 1 >= MAX_ATTEMPTS {
        return RetryStep::GiveUp;
    }
    let next = attempt + 1;
    let mut ms: u64 = 500;
    let mut k: u32 = 1;
    while k < next
        invariant
            1 <= k <= next < MAX_ATTEMPTS,
            ms == retry_delay_ms(k),
            ms <= 500 * 4,
        decreases next - k,
    {
        ms = 2 * ms;
        k = k + 1;
    }
    RetryStep::RetryAfterMs(ms)
}

/// API provider type.
#[derive(Debug, Clone, Copy, PartialEq, Eq, Structural)]
pub enum Provider {
    /// OpenAI-compatible API (llama-server, OpenRouter, etc.)
    OpenAI,
    /// Native Anthropic Messages API
    Anthropic,
}

/// The function half of a tool call.
#[derive(Debug, Clone)]
pub struct FunctionCall {
    pub name: String,
    pub arguments: String,
}

/// One tool call the model asked for.
#[derive(Debug, Clone)]
pub struct ToolCallRequest {
    pub id: String,
    pub kind: String,
    pub function: FunctionCall,
}

/// A tool call as plain text values: id, kind, function name, arguments.
pub type ToolCallView = (Seq<char>, Seq<char>, Seq<char>, Seq<char>);

impl View for ToolCallRequest {
    type V = ToolCallView;

    open spec fn view(&self) -> ToolCallView {
        (self.id@, self.kind@, self.function.name@, self.function.arguments@)
    }
}

impl ToolCallRequest {
    /// A field-by-field copy.
    pub fn duplicate(&self) -> (r: ToolCallRequest)
        ensures
            r@ == self@,
    {
        ToolCallRequest {
            id: self.id.clone(),
            kind: self.kind.clone(),
            function: FunctionCall {
                name: self.function.name.clone(),
                arguments: self.function.arguments.clone(),
            },
        }
    }
}

/// A copy of a list of tool calls.
pub fn duplicate_calls(calls: &Vec<ToolCallRequest>) -> (r: Vec<ToolCallRequest>)
    ensures
        r@.len() == calls@.len(),
        forall|i: int| 0 <= i < calls@.len() ==> r@[i]@ == calls@[i]@,
{
    let mut r: Vec<ToolCallRequest> = Vec::new();
    let mut i: usize = 0;
    while i < calls.len()
        invariant
            i <= calls@.len(),
            r@.len() == i,
            forall|k: int| 0 <= k < i ==> r@[k]@ == calls@[k]@,
        decreases calls.len() - i,
    {
        r.push(calls[i].duplicate());
        i = i + 1;
    }
    r
}

/// A tool's description as offered to the model; `parameters` is the
/// JSON schema text of its arguments.
#[derive(Debug, Clone)]
pub struct ToolSchema {
    pub name: String,
    pub description: String,
    pub parameters: String,
}

/// How a tool is offered on the OpenAI-compatible wire.
pub struct OpenAITool<'a> {
    pub kind: &'static str,
    pub function: &'a ToolSchema,
}

impl<'a> OpenAITool<'a> {
    pub fn from_schema(schema: &'a ToolSchema) -> (t: OpenAITool<'a>)
        ensures
            t.kind@ == seq!['f', 'u', 'n', 'c', 't', 'i', 'o', 'n'],
            t.function == schema,
    {
        let kind = "function";
        proof {
            reveal_strlit("function");
        }
        OpenAITool { kind, function: schema }
    }
}

/// Usage as the OpenAI-compatible API reports it.
#[derive(Debug, Clone, Copy)]
pub struct OpenAIUsage {
    pub prompt_tokens: u32,
    pub completion_tokens: u32,
    pub total_tokens: u32,
}

/// Usage as the Anthropic API reports it.
#[derive(Debug, Clone, Copy)]
pub struct AnthropicUsage {
    pub input_tokens: u32,
    pub output_tokens: u32,
    pub cache_creation_input_tokens: u32,
    pub cache_read_input_tokens: u32,
}

/// Unified usage statistics.
#[derive(Debug, Clone, Copy)]
pub struct Usage {
    pub prompt_tokens: u32,
    pub completion_tokens: u32,
    pub total_tokens: u32,
    /// Anthropic: tokens used to create cache
    pub cache_creation_tokens: u32,
    /// Anthropic: tokens read from cache
    pub cache_read_tokens: u32,
}

impl Usage {
    /// Usage from the OpenAI-compatible report.
    pub open spec fn from_openai_spec(usage: OpenAIUsage) -> Usage {
        Usage {
            prompt_tokens: usage.prompt_tokens,
            completion_tokens: usage.completion_tokens,
            total_tokens: if usage.total_tokens > 0 {
                usage.total_tokens
            } else {
                (usage.prompt_tokens + usage.completion_tokens) as u32
            },
            cache_creation_tokens: 0,
            cache_read_tokens: 0,
        }
    }

    /// Usage from the Anthropic report.
    pub open spec fn from_anthropic_spec(usage: AnthropicUsage) -> Usage {
        Usage {
            prompt_tokens: usage.input_tokens,
            completion_tokens: usage.output_tokens,
            total_tokens: (usage.input_tokens + usage.output_tokens) as u32,
            cache_creation_tokens: usage.cache_creation_input_tokens,
            cache_read_tokens: usage.cache_read_input_tokens,
        }
    }

    /// A reported total wins; a missing (zero) total is the sum of the
    /// parts. No cache accounting on this API.
    pub fn from_openai(usage: OpenAIUsage) -> (u: Usage)
        requires
            usage.total_tokens > 0 || usage.prompt_tokens + usage.completion_tokens <= u32::MAX,
        ensures
            u.prompt_tokens == usage.prompt_tokens,
            u.completion_tokens == usage.completion_tokens,
            u.total_tokens == (if usage.total_tokens > 0 {
                usage.total_tokens as int
            } else {
                usage.prompt_tokens + usage.completion_tokens
            }),
            u.cache_creation_tokens == 0,
            u.cache_read_tokens == 0,
            u == Usage::from_openai_spec(usage),
    {
        Usage {
            prompt_tokens: usage.prompt_tokens,
            completion_tokens: usage.completion_tokens,
            total_tokens: if usage.total_tokens > 0 {
                usage.total_tokens
            } else {
                usage.prompt_tokens + usage.completion_tokens
            },
            cache_creation_tokens: 0,
            cache_read_tokens: 0,
        }
    }

    /// Input and output are summed; cache counts pass through.
    pub fn from_anthropic(usage: AnthropicUsage) -> (u: Usage)
        requires
            usage.input_tokens + usage.output_tokens <= u32::MAX,
        ensures
            u.prompt_tokens == usage.input_tokens,
            u.completion_tokens == usage.output_tokens,
            u.total_tokens == usage.input_tokens + usage.output_tokens,
            u.cache_creation_tokens == usage.cache_creation_input_tokens,
            u.cache_read_tokens == usage.cache_read_input_tokens,
            u == Usage::from_anthropic_spec(usage),
    {
        Usage {
            prompt_tokens: usage.input_tokens,
            completion_tokens: usage.output_tokens,
            total_tokens: usage.input_tokens + usage.output_tokens,
            cache_creation_tokens: usage.cache_creation_input_tokens,
            cache_read_tokens: usage.cache_read_input_tokens,
        }
    }
}

/// Parsed model response.
#[derive(Debug, Clone)]
pub struct ModelResponse {
    pub content: Option<String>,
    pub tool_calls: Vec<ToolCallRequest>,
    pub usage: Usage,
}

impl ModelResponse {
    /// Whether the response asks for any tool call.
    pub fn has_tool_calls(&self) -> (b: bool)
        ensures
            b == (self.tool_calls@.len() > 0),
    {
        !self.tool_calls.is_empty()
    }
}


// ---------------------------------------------------------------------
// Reading reply bodies
// ---------------------------------------------------------------------

/// One block of an Anthropic reply body: its `type` and `text` fields,
/// each where it is a JSON string.
#[derive(Debug)]
pub struct ReplyBlockFields {
    pub kind: Option<String>,
    pub text: Option<String>,
}

pub type ReplyBlockFieldsView = (Option<Seq<char>>, Option<Seq<char>>);

pub open spec fn opt_view(o: Option<String>) -> Option<Seq<char>> {
    match o {
        Some(s) => Some(s@),
        None => None,
    }
}

impl View for ReplyBlockFields {
    type V = ReplyBlockFieldsView;

    open spec fn view(&self) -> ReplyBlockFieldsView {
        (opt_view(self.kind), opt_view(self.text))
    }
}

/// What an Anthropic reply body holds for the reader: the `content`
/// array where there is one, and `usage.input_tokens` where it is an
/// unsigned integer.
#[derive(Debug)]
pub struct AnthropicReplyFields {
    pub content: Option<Vec<ReplyBlockFields>>,
    pub input_tokens: Option<u64>,
}

pub type AnthropicReplyView = (Option<Seq<ReplyBlockFieldsView>>, Option<u64>);

impl View for AnthropicReplyFields {
    type V = AnthropicReplyView;

    open spec fn view(&self) -> AnthropicReplyView {
        (
            match self.content {
                Some(bs) => Some(crate::text::views::<ReplyBlockFields>(bs@)),
                None => None,
            },
            self.input_tokens,
        )
    }
}

/// What an OpenAI-compatible reply body holds for the reader:
/// `choices[0].message.content` where it is a string, and
/// `usage.prompt_tokens` where it is an unsigned integer.
#[derive(Debug)]
pub struct OpenAIReplyFields {
    pub content: Option<String>,
    pub prompt_tokens: Option<u64>,
}

impl View for OpenAIReplyFields {
    type V = (Option<Seq<char>>, Option<u64>);

    open spec fn view(&self) -> (Option<Seq<char>>, Option<u64>) {
        (opt_view(self.content), self.prompt_tokens)
    }
}

/// How `serde_json` reads an Anthropic reply body: the fields above, or
/// the parser's error message.
pub uninterp spec fn anthropic_reply_reading(text: Seq<char>) -> Result<AnthropicReplyView, Seq<char>>;

/// How `serde_json` reads an OpenAI-compatible reply body: the fields
/// above, or the parser's error message.
pub uninterp spec fn openai_reply_reading(text: Seq<char>) -> Result<(Option<Seq<char>>, Option<u64>), Seq<char>>;

/// Trusted: parses the body with `serde_json::from_str` into a
/// `serde_json::Value` and picks the fields the reader looks at; the
/// contract claims only that the result is the named reading of the
/// text.
#[verifier::external_body]
fn read_anthropic_reply(text: &str) -> (r: Result<AnthropicReplyFields, String>)
    ensures
        match r {
            Ok(f) => anthropic_reply_reading(text@) == Ok::<AnthropicReplyView, Seq<char>>(f@),
            Err(e) => anthropic_reply_reading(text@) == Err::<AnthropicReplyView, Seq<char>>(e@),
        },
{
    let value: serde_json::Value = serde_json::from_str(text).map_err(|e| e.to_string())?;
    let content = value["content"].as_array().map(|blocks| {
        blocks.iter().map(|b| ReplyBlockFields {
            kind: b["type"].as_str().map(String::from),
            text: b["text"].as_str().map(String::from),
        }).collect()
    });
    Ok(AnthropicReplyFields { content, input_tokens: value["usage"]["input_tokens"].as_u64() })
}

/// Trusted: parses the body with `serde_json::from_str` into a
/// `serde_json::Value` and picks the fields the reader looks at; the
/// contract claims only that the result is the named reading of the
/// text.
#[verifier::external_body]
fn read_openai_reply(text: &str) -> (r: Result<OpenAIReplyFields, String>)
    ensures
        match r {
            Ok(f) => openai_reply_reading(text@) == Ok::<(Option<Seq<char>>, Option<u64>), Seq<char>>(f@),
            Err(e) => openai_reply_reading(text@) == Err::<(Option<Seq<char>>, Option<u64>), Seq<char>>(e@),
        },
{
    let value: serde_json::Value = serde_json::from_str(text).map_err(|e| e.to_string())?;
    Ok(OpenAIReplyFields {
        content: value["choices"][0]["message"]["content"].as_str().map(String::from),
        prompt_tokens: value["usage"]["prompt_tokens"].as_u64(),
    })
}

/// The text of the blocks whose type is `text`, joined in order.
pub open spec fn reply_text_of(bs: Seq<ReplyBlockFieldsView>) -> Seq<char>
    decreases bs.len(),
{
    if bs.len() == 0 {
        Seq::empty()
    } else {
        reply_text_of(bs.drop_last()) + match bs.last() {
            (Some(kind), Some(text)) => if kind == "text"@ {
                text
            } else {
                Seq::empty()
            },
            _ => Seq::empty(),
        }
    }
}

/// The chat response an Anthropic reply's fields give: the joined text
/// and the input token count, or an error without a content array.
pub open spec fn anthropic_response_spec(f: AnthropicReplyView) -> Result<(Seq<char>, Option<u64>), Seq<char>> {
    match f.0 {
        None => Err("missing content array"@),
        Some(bs) => Ok((reply_text_of(bs), f.1)),
    }
}

/// The chat response an OpenAI-compatible reply's fields give.
pub open spec fn openai_response_spec(f: (Option<Seq<char>>, Option<u64>)) -> Result<(Seq<char>, Option<u64>), Seq<char>> {
    match f.0 {
        None => Err("missing choices[0].message.content"@),
        Some(c) => Ok((c, f.1)),
    }
}

pub open spec fn response_view(r: Result<ChatResponse, String>) -> Result<(Seq<char>, Option<u64>), Seq<char>> {
    match r {
        Ok(c) => Ok((c.content@, c.prompt_tokens)),
        Err(e) => Err(e@),
    }
}

/// The chat response of an Anthropic reply's fields.
pub fn anthropic_response_from_fields(fields: AnthropicReplyFields) -> (r: Result<ChatResponse, String>)
    ensures
        response_view(r) == anthropic_response_spec(fields@),
{
    match fields.content {
        None => {
            proof {
                reveal_strlit("missing content array");
            }
            Err("missing content array".to_string())
        },
        Some(blocks) => {
            let ghost bv = crate::text::views::<ReplyBlockFields>(blocks@);
            let mut out: Vec<char> = Vec::new();
            let mut i: usize = 0;
            while i < blocks.len()
                invariant
                    i <= blocks@.len(),
                    bv == crate::text::views::<ReplyBlockFields>(blocks@),
                    out@ == reply_text_of(bv.take(i as int)),
                decreases blocks@.len() - i,
            {
                proof {
                    assert(bv.take(i + 1).drop_last() =~= bv.take(i as int));
                    reveal_strlit("text");
                }
                let b = &blocks[i];
                match (&b.kind, &b.text) {
                    (Some(kind), Some(text)) => {
                        if crate::text::str_eq(kind.as_str(), "text") {
                            push_str(&mut out, text.as_str());
                        } else {
                            proof {
                                assert(out@ + Seq::<char>::empty() =~= out@);
                            }
                        }
                    },
                    _ => {
                        proof {
                            assert(out@ + Seq::<char>::empty() =~= out@);
                        }
                    },
                }
                i = i + 1;
            }
            proof {
                assert(bv.take(blocks@.len() as int) =~= bv);
            }
            Ok(ChatResponse { content: string_of(&out), prompt_tokens: fields.input_tokens })
        },
    }
}

/// The chat response of an OpenAI-compatible reply's fields.
pub fn openai_response_from_fields(fields: OpenAIReplyFields) -> (r: Result<ChatResponse, String>)
    ensures
        response_view(r) == openai_response_spec(fields@),
{
    match fields.content {
        None => {
            proof {
                reveal_strlit("missing choices[0].message.content");
            }
            Err("missing choices[0].message.content".to_string())
        },
        Some(c) => Ok(ChatResponse { content: c, prompt_tokens: fields.prompt_tokens }),
    }
}

/// Read an Anthropic Messages API reply body: the text blocks joined,
/// and the reported input tokens where there are any. Not JSON, or no
/// content array: an error.
pub fn parse_anthropic_response(text: &str) -> (r: Result<ChatResponse, String>)
    ensures
        response_view(r) == match anthropic_reply_reading(text@) {
            Err(e) => Err(e),
            Ok(f) => anthropic_response_spec(f),
        },
{
    match read_anthropic_reply(text) {
        Err(e) => Err(e),
        Ok(fields) => anthropic_response_from_fields(fields),
    }
}

/// Read an OpenAI-compatible chat completion body: the first choice's
/// message content, and the reported prompt tokens where there are any.
/// Not JSON, or no such content: an error.
pub fn parse_openai_response(text: &str) -> (r: Result<ChatResponse, String>)
    ensures
        response_view(r) == match openai_reply_reading(text@) {
            Err(e) => Err(e),
            Ok(f) => openai_response_spec(f),
        },
{
    match read_openai_reply(text) {
        Err(e) => Err(e),
        Ok(fields) => openai_response_from_fields(fields),
    }
}

} // verus!
