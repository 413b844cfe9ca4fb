//! The model client's wire logic: turning the context into an Anthropic
//! Messages request (system blocks, message turns, and at most two cache
//! breakpoints), and reading either API's reply back into one response.
//! The HTTP exchange and JSON (de)serialisation happen around it.

use vstd::prelude::*;
use crate::model::{
    AnthropicUsage, FunctionCall, ModelResponse, OpenAIUsage, ToolCallRequest, ToolCallView, Usage,
};
use crate::text::{str_eq, views};

verus! {

/// A message of the model context, as the client sends it.
#[derive(Debug)]
pub struct ChatMessage {
    /// `system`, `user`, `assistant` or `tool`
    pub role: String,
    pub content: Option<String>,
    pub tool_calls: Option<Vec<ToolCallRequest>>,
    pub tool_call_id: Option<String>,
}

/// A context message as plain values.
pub struct MsgView {
    pub role: Seq<char>,
    pub content: Option<Seq<char>>,
    pub tool_calls: Option<Seq<ToolCallView>>,
    pub tool_call_id: Option<Seq<char>>,
}

pub open spec fn ov(o: Option<String>) -> Option<Seq<char>> {
    match o {
        Some(s) => Some(s@),
        None => None,
    }
}

impl View for ChatMessage {
    type V = MsgView;

    open spec fn view(&self) -> MsgView {
        MsgView {
            role: self.role@,
            content: ov(self.content),
            tool_calls: match self.tool_calls {
                Some(v) => Some(views::<ToolCallRequest>(v@)),
                None => None,
            },
            tool_call_id: ov(self.tool_call_id),
        }
    }
}

/// A content block of an Anthropic message. `cached` marks an ephemeral
/// cache breakpoint; a tool use's input is JSON text.
#[derive(Debug)]
pub enum AnthropicContentBlock {
    Text { text: String, cached: bool },
    ToolUse { id: String, name: String, input: String },
    ToolResult { tool_use_id: String, content: String },
}

pub enum BlockView {
    Text { text: Seq<char>, cached: bool },
    ToolUse { id: Seq<char>, name: Seq<char>, input: Seq<char> },
    ToolResult { tool_use_id: Seq<char>, content: Seq<char> },
}

impl View for AnthropicContentBlock {
    type V = BlockView;

    open spec fn view(&self) -> BlockView {
        match self {
            AnthropicContentBlock::Text { text, cached } => BlockView::Text {
                text: text@,
                cached: *cached,
            },
            AnthropicContentBlock::ToolUse { id, name, input } => BlockView::ToolUse {
                id: id@,
                name: name@,
                input: input@,
            },
            AnthropicContentBlock::ToolResult { tool_use_id, content } => BlockView::ToolResult {
                tool_use_id: tool_use_id@,
                content: content@,
            },
        }
    }
}

/// A message of an Anthropic request.
#[derive(Debug)]
pub struct AnthropicMessage {
    pub role: String,
    pub content: Vec<AnthropicContentBlock>,
}

impl View for AnthropicMessage {
    type V = (Seq<char>, Seq<BlockView>);

    open spec fn view(&self) -> (Seq<char>, Seq<BlockView>) {
        (self.role@, views::<AnthropicContentBlock>(self.content@))
    }
}

/// Whether a text is a JSON document.
pub uninterp spec fn json_valid(s: Seq<char>) -> bool;

/// Whether `serde_json` reads `s` as a JSON value.
#[verifier::external_body]
fn is_json(s: &str) -> (r: bool)
    ensures
        r == json_valid(s@),
{
    serde_json::from_str::<serde_json::Value>(s).is_ok()
}

/// Messages that may carry the conversation's cache breakpoint: those
/// that are neither system nor tool messages.
pub open spec fn cacheable(m: MsgView) -> bool {
    m.role != "tool"@ && m.role != "system"@
}

/// The last cacheable message, if any.
pub open spec fn last_cacheable(ms: Seq<MsgView>) -> Option<int>
    decreases ms.len(),
{
    if ms.len() == 0 {
        None
    } else if cacheable(ms.last()) {
        Some(ms.len() - 1)
    } else {
        last_cacheable(ms.drop_last())
    }
}

/// A tool call's arguments as the input of a tool use: the arguments
/// when they are JSON, an empty object otherwise.
pub open spec fn tool_input(args: Seq<char>) -> Seq<char> {
    if json_valid(args) {
        args
    } else {
        "{}"@
    }
}

pub open spec fn tool_use_blocks(calls: Seq<ToolCallView>) -> Seq<BlockView>
    decreases calls.len(),
{
    if calls.len() == 0 {
        Seq::empty()
    } else {
        tool_use_blocks(calls.drop_last()).push(
            BlockView::ToolUse {
                id: calls.last().0,
                name: calls.last().2,
                input: tool_input(calls.last().3),
            },
        )
    }
}

/// An assistant message's blocks: its text when not empty, then its
/// tool calls as tool uses.
pub open spec fn assistant_blocks(m: MsgView, cache: bool) -> Seq<BlockView> {
    (match m.content {
        Some(t) => if t.len() > 0 {
            seq![BlockView::Text { text: t, cached: cache }]
        } else {
            Seq::empty()
        },
        None => Seq::empty(),
    }) + (match m.tool_calls {
        Some(cs) => tool_use_blocks(cs),
        None => Seq::empty(),
    })
}

/// The system blocks so far and the messages so far.
pub type ConvState = (Option<Seq<BlockView>>, Seq<(Seq<char>, Seq<BlockView>)>);

/// One context message into the request. System text joins the system
/// blocks (the first of them a cache breakpoint); assistant text and tool
/// calls make an assistant message when there is any; a tool result
/// goes back as a user message; anything else with content is a user
/// message. `cache` marks the conversation's breakpoint.
pub open spec fn conv_step(st: ConvState, m: MsgView, cache: bool) -> ConvState {
    if m.role == "system"@ {
        match m.content {
            Some(c) => (
                Some(
                    match st.0 {
                        None => seq![BlockView::Text { text: c, cached: true }],
                        Some(b) => b.push(BlockView::Text { text: c, cached: false }),
                    },
                ),
                st.1,
            ),
            None => st,
        }
    } else if m.role == "assistant"@ {
        let bl = assistant_blocks(m, cache);
        if bl.len() > 0 {
            (st.0, st.1.push(("assistant"@, bl)))
        } else {
            st
        }
    } else if m.role == "tool"@ {
        (
            st.0,
            st.1.push(
                (
                    "user"@,
                    seq![
                        BlockView::ToolResult {
                            tool_use_id: match m.tool_call_id {
                                Some(i) => i,
                                None => Seq::empty(),
                            },
                            content: match m.content {
                                Some(c) => c,
                                None => Seq::empty(),
                            },
                        },
                    ],
                ),
            ),
        )
    } else {
        match m.content {
            Some(t) => (st.0, st.1.push(("user"@, seq![BlockView::Text { text: t, cached: cache }]))),
            None => st,
        }
    }
}

/// The request made of the first messages, the breakpoint at `last`.
pub open spec fn convert_prefix(ms: Seq<MsgView>, last: Option<int>) -> ConvState
    decreases ms.len(),
{
    if ms.len() == 0 {
        (None, Seq::empty())
    } else {
        conv_step(convert_prefix(ms.drop_last(), last), ms.last(), last == Some(ms.len() - 1))
    }
}

/// The Anthropic request for a context: its system blocks and messages.
pub open spec fn convert_spec(ms: Seq<MsgView>) -> ConvState {
    convert_prefix(ms, last_cacheable(ms))
}

pub open spec fn conv_view(r: (Option<Vec<AnthropicContentBlock>>, Vec<AnthropicMessage>)) -> ConvState {
    (
        match r.0 {
            Some(v) => Some(views::<AnthropicContentBlock>(v@)),
            None => None,
        },
        views::<AnthropicMessage>(r.1@),
    )
}

fn copy_str(s: &String) -> (r: String)
    ensures
        r@ == s@,
{
    s.clone()
}

fn last_cacheable_index(messages: &Vec<ChatMessage>) -> (r: Option<usize>)
    ensures
        match r {
            Some(i) => last_cacheable(views::<ChatMessage>(messages@)) == Some(i as int),
            None => last_cacheable(views::<ChatMessage>(messages@)) is None,
        },
{
    let ghost ms = views::<ChatMessage>(messages@);
    let mut i: usize = messages.len();
    proof {
        assert(ms.take(i as int) =~= ms);
    }
    while i > 0
        invariant
            i <= messages@.len(),
            ms == views::<ChatMessage>(messages@),
            last_cacheable(ms) == last_cacheable(ms.take(i as int)),
        decreases i,
    {
        let m = &messages[i - 1];
        proof {
            assert(ms.take(i as int).drop_last() =~= ms.take(i - 1));
            assert(ms.take(i as int).last() == messages@[i - 1]@);
        }
        if !str_eq(m.role.as_str(), "tool") && !str_eq(m.role.as_str(), "system") {
            return Some(i - 1);
        }
        i = i - 1;
    }
    proof {
        assert(ms.take(0) =~= Seq::<MsgView>::empty());
    }
    None
}

fn tool_uses(calls: &Vec<ToolCallRequest>, out: &mut Vec<AnthropicContentBlock>)
    ensures
        views::<AnthropicContentBlock>(final(out)@) == views::<AnthropicContentBlock>(old(out)@)
            + tool_use_blocks(views::<ToolCallRequest>(calls@)),
{
    let ghost start = views::<AnthropicContentBlock>(out@);
    let mut i: usize = 0;
    while i < calls.len()
        invariant
            i <= calls@.len(),
            views::<AnthropicContentBlock>(out@) == start + tool_use_blocks(
                views::<ToolCallRequest>(calls@).take(i as int),
            ),
        decreases calls@.len() - i,
    {
        let c = &calls[i];
        let input = if is_json(c.function.arguments.as_str()) {
            copy_str(&c.function.arguments)
        } else {
            "{}".to_string()
        };
        let ghost before = views::<AnthropicContentBlock>(out@);
        out.push(
            AnthropicContentBlock::ToolUse {
                id: copy_str(&c.id),
                name: copy_str(&c.function.name),
                input,
            },
        );
        proof {
            let cv = views::<ToolCallRequest>(calls@);
            assert(cv.take(i + 1).drop_last() =~= cv.take(i as int));
            assert(cv.take(i + 1).last() == calls@[i as int]@);
            assert(views::<AnthropicContentBlock>(out@) =~= before.push(
                views::<AnthropicContentBlock>(out@).last(),
            ));
        }
        i = i + 1;
    }
    proof {
        assert(views::<ToolCallRequest>(calls@).take(calls@.len() as int) =~= views::<ToolCallRequest>(
            calls@,
        ));
    }
}

/// Convert the context into an Anthropic request's system blocks and
/// messages, with a cache breakpoint on the first system block and on
/// the last message that is neither a system nor a tool message.
pub fn convert_to_anthropic_messages(messages: &Vec<ChatMessage>) -> (r: (
    Option<Vec<AnthropicContentBlock>>,
    Vec<AnthropicMessage>,
))
    ensures
        conv_view(r) == convert_spec(views::<ChatMessage>(messages@)),
{
    let ghost ms = views::<ChatMessage>(messages@);
    let last = last_cacheable_index(messages);
    let ghost lastg: Option<int> = match last {
        Some(i) => Some(i as int),
        None => None,
    };
    let mut system: Option<Vec<AnthropicContentBlock>> = None;
    let mut out: Vec<AnthropicMessage> = Vec::new();
    let mut i: usize = 0;
    proof {
        assert(views::<AnthropicMessage>(out@) =~= Seq::<(Seq<char>, Seq<BlockView>)>::empty());
        assert(ms.take(0) =~= Seq::<MsgView>::empty());
    }
    while i < messages.len()
        invariant
            i <= messages@.len(),
            ms == views::<ChatMessage>(messages@),
            lastg == last_cacheable(ms),
            lastg == (match last {
                Some(k) => Some(k as int),
                None => None,
            }),
            conv_view((system, out)) == convert_prefix(ms.take(i as int), lastg),
        decreases messages@.len() - i,
    {
        let m = &messages[i];
        let cache = match last {
            Some(k) => k == i,
            None => false,
        };
        let ghost st = conv_view((system, out));
        proof {
            assert(ms.take(i + 1).drop_last() =~= ms.take(i as int));
            assert(ms.take(i + 1).last() == m@);
            assert(cache == (lastg == Some(ms.take(i + 1).len() - 1)));
        }
        if str_eq(m.role.as_str(), "system") {
            match &m.content {
                Some(c) => {
                    let first = system.is_none();
                    let block = AnthropicContentBlock::Text { text: copy_str(c), cached: first };
                    match system {
                        Some(mut v) => {
                            let ghost bv = views::<AnthropicContentBlock>(v@);
                            v.push(block);
                            proof {
                                assert(views::<AnthropicContentBlock>(v@) =~= bv.push(
                                    BlockView::Text { text: c@, cached: false },
                                ));
                            }
                            system = Some(v);
                        },
                        None => {
                            let mut v: Vec<AnthropicContentBlock> = Vec::new();
                            v.push(block);
                            proof {
                                assert(views::<AnthropicContentBlock>(v@) =~= seq![
                                    BlockView::Text { text: c@, cached: true },
                                ]);
                            }
                            system = Some(v);
                        },
                    }
                },
                None => {},
            }
        } else if str_eq(m.role.as_str(), "assistant") {
            let mut content: Vec<AnthropicContentBlock> = Vec::new();
            match &m.content {
                Some(text) => {
                    if !text.as_str().is_empty() {
                        content.push(AnthropicContentBlock::Text { text: copy_str(text), cached: cache });
                    }
                },
                None => {},
            }
            proof {
                let pre = match m@.content {
                    Some(t) => if t.len() > 0 {
                        seq![BlockView::Text { text: t, cached: cache }]
                    } else {
                        Seq::<BlockView>::empty()
                    },
                    None => Seq::<BlockView>::empty(),
                };
                assert(views::<AnthropicContentBlock>(content@) =~= pre);
            }
            match &m.tool_calls {
                Some(calls) => {
                    tool_uses(calls, &mut content);
                },
                None => {
                    proof {
                        let c0 = views::<AnthropicContentBlock>(content@);
                        assert(c0 + Seq::<BlockView>::empty() =~= c0);
                    }
                },
            }
            proof {
                assert(views::<AnthropicContentBlock>(content@) == assistant_blocks(m@, cache));
            }
            if content.len() > 0 {
                let ghost before = views::<AnthropicMessage>(out@);
                out.push(AnthropicMessage { role: "assistant".to_string(), content });
                proof {
                    assert(views::<AnthropicMessage>(out@) =~= before.push(
                        views::<AnthropicMessage>(out@).last(),
                    ));
                }
            }
        } else if str_eq(m.role.as_str(), "tool") {
            let result_content = match &m.content {
                Some(c) => copy_str(c),
                None => String::new(),
            };
            let tool_use_id = match &m.tool_call_id {
                Some(c) => copy_str(c),
                None => String::new(),
            };
            let mut content: Vec<AnthropicContentBlock> = Vec::new();
            content.push(AnthropicContentBlock::ToolResult { tool_use_id, content: result_content });
            let ghost before = views::<AnthropicMessage>(out@);
            out.push(AnthropicMessage { role: "user".to_string(), content });
            proof {
                assert(views::<AnthropicMessage>(out@) =~= before.push(
                    views::<AnthropicMessage>(out@).last(),
                ));
                assert(views::<AnthropicContentBlock>(out@.last().content@) =~= seq![
                    BlockView::ToolResult {
                        tool_use_id: match m@.tool_call_id {
                            Some(i) => i,
                            None => Seq::empty(),
                        },
                        content: match m@.content {
                            Some(c) => c,
                            None => Seq::empty(),
                        },
                    },
                ]);
            }
        } else {
            match &m.content {
                Some(text) => {
                    let mut content: Vec<AnthropicContentBlock> = Vec::new();
                    content.push(AnthropicContentBlock::Text { text: copy_str(text), cached: cache });
                    let ghost before = views::<AnthropicMessage>(out@);
                    out.push(AnthropicMessage { role: "user".to_string(), content });
                    proof {
                        assert(views::<AnthropicMessage>(out@) =~= before.push(
                            views::<AnthropicMessage>(out@).last(),
                        ));
                        assert(views::<AnthropicContentBlock>(out@.last().content@) =~= seq![
                            BlockView::Text { text: text@, cached: cache },
                        ]);
                    }
                },
                None => {},
            }
        }
        proof {
            assert(conv_view((system, out)) == conv_step(st, m@, cache));
        }
        i = i + 1;
    }
    proof {
        assert(ms.take(messages@.len() as int) =~= ms);
    }
    (system, out)
}

// ---------------------------------------------------------------------
// Cache breakpoints
// ---------------------------------------------------------------------

pub open spec fn cached_blocks(bs: Seq<BlockView>) -> nat
    decreases bs.len(),
{
    if bs.len() == 0 {
        0
    } else {
        cached_blocks(bs.drop_last()) + match bs.last() {
            BlockView::Text { cached, .. } => if cached {
                1nat
            } else {
                0nat
            },
            _ => 0nat,
        }
    }
}

pub open spec fn cached_in_messages(ms: Seq<(Seq<char>, Seq<BlockView>)>) -> nat
    decreases ms.len(),
{
    if ms.len() == 0 {
        0
    } else {
        cached_in_messages(ms.drop_last()) + cached_blocks(ms.last().1)
    }
}

proof fn lemma_cached_push(bs: Seq<BlockView>, b: BlockView)
    ensures
        cached_blocks(bs.push(b)) == cached_blocks(bs) + match b {
            BlockView::Text { cached, .. } => if cached {
                1nat
            } else {
                0nat
            },
            _ => 0nat,
        },
{
    assert(bs.push(b).drop_last() =~= bs);
}

proof fn lemma_tool_uses_uncached(calls: Seq<ToolCallView>)
    ensures
        cached_blocks(tool_use_blocks(calls)) == 0,
    decreases calls.len(),
{
    if calls.len() > 0 {
        lemma_tool_uses_uncached(calls.drop_last());
        lemma_cached_push(
            tool_use_blocks(calls.drop_last()),
            BlockView::ToolUse {
                id: calls.last().0,
                name: calls.last().2,
                input: tool_input(calls.last().3),
            },
        );
    }
}

proof fn lemma_cached_append(a: Seq<BlockView>, b: Seq<BlockView>)
    ensures
        cached_blocks(a + b) == cached_blocks(a) + cached_blocks(b),
    decreases b.len(),
{
    if b.len() == 0 {
        assert(a + b =~= a);
    } else {
        lemma_cached_append(a, b.drop_last());
        assert((a + b).drop_last() =~= a + b.drop_last());
    }
}

proof fn lemma_breakpoints(ms: Seq<MsgView>, last: Option<int>)
    ensures
        ({
            let st = convert_prefix(ms, last);
            &&& match st.0 {
                Some(b) => cached_blocks(b) == 1,
                None => true,
            }
            &&& cached_in_messages(st.1) <= (match last {
                Some(l) => if 0 <= l < ms.len() {
                    1nat
                } else {
                    0nat
                },
                None => 0nat,
            })
        }),
    decreases ms.len(),
{
    if ms.len() > 0 {
        let p = ms.drop_last();
        lemma_breakpoints(p, last);
        let st = convert_prefix(p, last);
        let m = ms.last();
        let cache = last == Some(ms.len() - 1);
        match st.0 {
            Some(b) => {
                if let Some(c) = m.content {
                    lemma_cached_push(b, BlockView::Text { text: c, cached: false });
                }
            },
            None => {
                if let Some(c) = m.content {
                    let e: Seq<BlockView> = Seq::empty();
                    lemma_cached_push(e, BlockView::Text { text: c, cached: true });
                    assert(e.push(BlockView::Text { text: c, cached: true }) =~= seq![
                        BlockView::Text { text: c, cached: true },
                    ]);
                }
            },
        }
        let e: Seq<BlockView> = Seq::empty();
        if let Some(t) = m.content {
            lemma_cached_push(e, BlockView::Text { text: t, cached: cache });
            assert(e.push(BlockView::Text { text: t, cached: cache }) =~= seq![
                BlockView::Text { text: t, cached: cache },
            ]);
        }
        lemma_cached_push(e, BlockView::ToolResult {
            tool_use_id: match m.tool_call_id {
                Some(i) => i,
                None => Seq::empty(),
            },
            content: match m.content {
                Some(c) => c,
                None => Seq::empty(),
            },
        });
        assert(e.push(BlockView::ToolResult {
            tool_use_id: match m.tool_call_id {
                Some(i) => i,
                None => Seq::empty(),
            },
            content: match m.content {
                Some(c) => c,
                None => Seq::empty(),
            },
        }) =~= seq![BlockView::ToolResult {
            tool_use_id: match m.tool_call_id {
                Some(i) => i,
                None => Seq::empty(),
            },
            content: match m.content {
                Some(c) => c,
                None => Seq::empty(),
            },
        }]);
        let pre = match m.content {
            Some(t) => if t.len() > 0 {
                seq![BlockView::Text { text: t, cached: cache }]
            } else {
                Seq::<BlockView>::empty()
            },
            None => Seq::<BlockView>::empty(),
        };
        let post = match m.tool_calls {
            Some(cs) => tool_use_blocks(cs),
            None => Seq::<BlockView>::empty(),
        };
        if let Some(cs) = m.tool_calls {
            lemma_tool_uses_uncached(cs);
        }
        lemma_cached_append(pre, post);
        let st2 = conv_step(st, m, cache);
        assert(st2.1 == st.1 || st2.1 == st.1.push(st2.1.last()));
        if st2.1 != st.1 {
            assert(st2.1.drop_last() =~= st.1);
        }
    }
}

/// The request carries at most two cache breakpoints: the first system
/// block, and one block of the last message that is neither a system
/// nor a tool message.
pub proof fn law_at_most_two_breakpoints(ms: Seq<MsgView>)
    ensures
        match convert_spec(ms).0 {
            Some(b) => cached_blocks(b) == 1,
            None => true,
        },
        cached_in_messages(convert_spec(ms).1) <= 1,
{
    lemma_breakpoints(ms, last_cacheable(ms));
}

// ---------------------------------------------------------------------
// Reading replies
// ---------------------------------------------------------------------

/// A content block of an Anthropic reply; a tool use's input as JSON
/// text.
#[derive(Debug)]
pub enum AnthropicResponseContent {
    Text { text: String },
    ToolUse { id: String, name: String, input: String },
}

pub enum ReplyBlockView {
    Text(Seq<char>),
    ToolUse(Seq<char>, Seq<char>, Seq<char>),
}

impl View for AnthropicResponseContent {
    type V = ReplyBlockView;

    open spec fn view(&self) -> ReplyBlockView {
        match self {
            AnthropicResponseContent::Text { text } => ReplyBlockView::Text(text@),
            AnthropicResponseContent::ToolUse { id, name, input } => ReplyBlockView::ToolUse(
                id@,
                name@,
                input@,
            ),
        }
    }
}

/// The reply's text: that of its last text block.
pub open spec fn reply_text(bs: Seq<ReplyBlockView>) -> Option<Seq<char>>
    decreases bs.len(),
{
    if bs.len() == 0 {
        None
    } else {
        match bs.last() {
            ReplyBlockView::Text(t) => Some(t),
            _ => reply_text(bs.drop_last()),
        }
    }
}

/// The reply's tool uses as tool calls of kind `function`, in order.
pub open spec fn reply_calls(bs: Seq<ReplyBlockView>) -> Seq<ToolCallView>
    decreases bs.len(),
{
    if bs.len() == 0 {
        Seq::empty()
    } else {
        let rest = reply_calls(bs.drop_last());
        match bs.last() {
            ReplyBlockView::ToolUse(id, name, input) => rest.push((id, "function"@, name, input)),
            _ => rest,
        }
    }
}

/// An Anthropic reply as a model response.
pub fn from_anthropic_response(content: Vec<AnthropicResponseContent>, usage: AnthropicUsage) -> (r:
    ModelResponse)
    requires
        usage.input_tokens + usage.output_tokens <= u32::MAX,
    ensures
        ov(r.content) == reply_text(views::<AnthropicResponseContent>(content@)),
        views::<ToolCallRequest>(r.tool_calls@) == reply_calls(
            views::<AnthropicResponseContent>(content@),
        ),
        r.usage == Usage::from_anthropic_spec(usage),
{
    let ghost bs = views::<AnthropicResponseContent>(content@);
    let mut text: Option<String> = None;
    let mut calls: Vec<ToolCallRequest> = Vec::new();
    let mut i: usize = 0;
    proof {
        assert(bs.take(0) =~= Seq::<ReplyBlockView>::empty());
        assert(views::<ToolCallRequest>(calls@) =~= Seq::<ToolCallView>::empty());
    }
    while i < content.len()
        invariant
            i <= content@.len(),
            bs == views::<AnthropicResponseContent>(content@),
            ov(text) == reply_text(bs.take(i as int)),
            views::<ToolCallRequest>(calls@) == reply_calls(bs.take(i as int)),
        decreases content@.len() - i,
    {
        proof {
            assert(bs.take(i + 1).drop_last() =~= bs.take(i as int));
            assert(bs.take(i + 1).last() == content@[i as int]@);
        }
        match &content[i] {
            AnthropicResponseContent::Text { text: t } => {
                text = Some(copy_str(t));
            },
            AnthropicResponseContent::ToolUse { id, name, input } => {
                let ghost before = views::<ToolCallRequest>(calls@);
                calls.push(
                    ToolCallRequest {
                        id: copy_str(id),
                        kind: "function".to_string(),
                        function: FunctionCall { name: copy_str(name), arguments: copy_str(input) },
                    },
                );
                proof {
                    assert(views::<ToolCallRequest>(calls@) =~= before.push(
                        views::<ToolCallRequest>(calls@).last(),
                    ));
                }
            },
        }
        i = i + 1;
    }
    proof {
        assert(bs.take(content@.len() as int) =~= bs);
    }
    ModelResponse { content: text, tool_calls: calls, usage: Usage::from_anthropic(usage) }
}

/// A tool call of an OpenAI-compatible reply; the kind may be missing.
#[derive(Debug)]
pub struct OpenAIToolCall {
    pub id: String,
    pub kind: Option<String>,
    pub name: String,
    pub arguments: String,
}

/// The assistant message of one choice of an OpenAI-compatible reply.
#[derive(Debug)]
pub struct OpenAIAssistantMessage {
    pub content: Option<String>,
    pub tool_calls: Option<Vec<OpenAIToolCall>>,
}

pub open spec fn openai_call_view(c: OpenAIToolCall) -> ToolCallView {
    (
        c.id@,
        match c.kind {
            Some(k) => k@,
            None => "function"@,
        },
        c.name@,
        c.arguments@,
    )
}

/// An OpenAI-compatible reply as a model response: the first choice's
/// text and tool calls (kind `function` when none is given), or an
/// error when there is no choice.
pub fn from_openai_completion(choices: Vec<OpenAIAssistantMessage>, usage: OpenAIUsage) -> (r: Result<
    ModelResponse,
    String,
>)
    requires
        usage.total_tokens > 0 || usage.prompt_tokens + usage.completion_tokens <= u32::MAX,
    ensures
        match r {
            Ok(resp) => choices@.len() > 0 && ov(resp.content) == ov(choices@[0].content)
                && views::<ToolCallRequest>(resp.tool_calls@) == (match choices@[0].tool_calls {
                Some(v) => v@.map_values(|c: OpenAIToolCall| openai_call_view(c)),
                None => Seq::empty(),
            }) && resp.usage == Usage::from_openai_spec(usage),
            Err(e) => choices@.len() == 0 && e@ == "API response contained no choices"@,
        },
{
    if choices.len() == 0 {
        return Err("API response contained no choices".to_string());
    }
    let first = &choices[0];
    let mut calls: Vec<ToolCallRequest> = Vec::new();
    match &first.tool_calls {
        Some(v) => {
            let mut i: usize = 0;
            while i < v.len()
                invariant
                    i <= v@.len(),
                    calls@.len() == i,
                    forall|j: int| 0 <= j < i ==> (#[trigger] calls@[j])@ == openai_call_view(v@[j]),
                decreases v@.len() - i,
            {
                let c = &v[i];
                let kind = match &c.kind {
                    Some(k) => copy_str(k),
                    None => "function".to_string(),
                };
                calls.push(
                    ToolCallRequest {
                        id: copy_str(&c.id),
                        kind,
                        function: FunctionCall {
                            name: copy_str(&c.name),
                            arguments: copy_str(&c.arguments),
                        },
                    },
                );
                i = i + 1;
            }
            proof {
                assert(views::<ToolCallRequest>(calls@) =~= v@.map_values(
                    |c: OpenAIToolCall| openai_call_view(c),
                ));
            }
        },
        None => {
            proof {
                assert(views::<ToolCallRequest>(calls@) =~= Seq::<ToolCallView>::empty());
            }
        },
    }
    let content = match &first.content {
        Some(c) => Some(copy_str(c)),
        None => None,
    };
    Ok(ModelResponse { content, tool_calls: calls, usage: Usage::from_openai(usage) })
}

} // verus!
