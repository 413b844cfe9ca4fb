//! Entry formatting for spectator sweeps: home-channel entries become
//! transcript lines. Messages keep their full text, tools only their
//! name; heartbeats, cursors and the spectator's own observability
//! messages are dropped.

use vstd::prelude::*;
use crate::text::{
    byte_len, char_len_utf8, chars_of, decimal, join_chars, join_with, lemma_byte_len_push,
    push_all, push_str, starts_with_str, string_of, views,
};

verus! {

/// A message in the home channel.
#[derive(Debug)]
pub struct MessageEntry {
    pub id: String,
    pub role: String,
    pub content: String,
    pub author: Option<String>,
    pub source_adapter: Option<String>,
    pub source_channel_id: Option<String>,
    pub source_channel_name: Option<String>,
}

/// A tool call or result in the home channel.
#[derive(Debug)]
pub struct ToolEntry {
    pub id: String,
    /// `tool_call` or `tool_result`
    pub kind: String,
    pub tool_name: String,
    pub result: Option<String>,
    pub result_file: Option<String>,
}

/// One entry of the home channel.
#[derive(Debug)]
pub enum HomeChannelEntry {
    Message(MessageEntry),
    Tool(ToolEntry),
    /// A heartbeat, with its id and timestamp.
    Heartbeat { id: String, timestamp: String },
    /// A read cursor, with its id.
    Cursor { id: String },
}

pub struct MessageView {
    pub id: Seq<char>,
    pub role: Seq<char>,
    pub content: Seq<char>,
    pub author: Option<Seq<char>>,
    pub source_adapter: Option<Seq<char>>,
    pub source_channel_id: Option<Seq<char>>,
    pub source_channel_name: Option<Seq<char>>,
}

pub struct ToolView {
    pub id: Seq<char>,
    pub kind: Seq<char>,
    pub tool_name: Seq<char>,
    pub result: Option<Seq<char>>,
    pub result_file: Option<Seq<char>>,
}

pub enum EntryView {
    Message(MessageView),
    Tool(ToolView),
    Heartbeat { id: Seq<char>, timestamp: Seq<char> },
    Cursor { id: Seq<char> },
}

pub open spec fn ov(o: Option<String>) -> Option<Seq<char>> {
    match o {
        Some(s) => Some(s@),
        None => None,
    }
}

impl View for MessageEntry {
    type V = MessageView;

    open spec fn view(&self) -> MessageView {
        MessageView {
            id: self.id@,
            role: self.role@,
            content: self.content@,
            author: ov(self.author),
            source_adapter: ov(self.source_adapter),
            source_channel_id: ov(self.source_channel_id),
            source_channel_name: ov(self.source_channel_name),
        }
    }
}

impl View for ToolEntry {
    type V = ToolView;

    open spec fn view(&self) -> ToolView {
        ToolView {
            id: self.id@,
            kind: self.kind@,
            tool_name: self.tool_name@,
            result: ov(self.result),
            result_file: ov(self.result_file),
        }
    }
}

impl View for HomeChannelEntry {
    type V = EntryView;

    open spec fn view(&self) -> EntryView {
        match self {
            HomeChannelEntry::Message(m) => EntryView::Message(m@),
            HomeChannelEntry::Tool(t) => EntryView::Tool(t@),
            HomeChannelEntry::Heartbeat { id, timestamp } => EntryView::Heartbeat {
                id: id@,
                timestamp: timestamp@,
            },
            HomeChannelEntry::Cursor { id } => EntryView::Cursor { id: id@ },
        }
    }
}

/// `[id] `: the id tag that opens every line.
pub open spec fn tag(id: Seq<char>) -> Seq<char> {
    "["@ + id + "] "@
}

/// The transcript line of a message, `None` for the spectator's own
/// system messages.
pub open spec fn message_line(m: MessageView) -> Option<Seq<char>> {
    if m.role == "system"@ && crate::frontmatter::starts_with(m.content, "[spectator]"@) {
        None
    } else if m.role == "user"@ {
        let author = match m.author {
            Some(a) => a,
            None => "unknown"@,
        };
        Some(
            match (m.source_adapter, m.source_channel_id, m.source_channel_name) {
                (Some(adapter), Some(ch_id), Some(ch_name)) => tag(m.id) + "user:"@ + adapter + ":"@
                    + ch_id + "/"@ + ch_name + " "@ + author + ": "@ + m.content,
                (Some(adapter), Some(ch_id), None) => tag(m.id) + "user:"@ + adapter + ":"@ + ch_id
                    + " "@ + author + ": "@ + m.content,
                _ => tag(m.id) + "user: "@ + author + ": "@ + m.content,
            },
        )
    } else {
        Some(tag(m.id) + m.role + ": "@ + m.content)
    }
}

/// The transcript line of an entry, `None` for entries left out.
pub open spec fn entry_line(e: EntryView) -> Option<Seq<char>> {
    match e {
        EntryView::Message(m) => message_line(m),
        EntryView::Tool(t) => if t.kind == "tool_call"@ {
            Some(tag(t.id) + "tool_call: "@ + t.tool_name)
        } else if t.kind == "tool_result"@ {
            match t.result_file {
                Some(f) => Some(tag(t.id) + "tool_result("@ + t.tool_name + "): [file: "@ + f + "]"@),
                None => Some(
                    tag(t.id) + "tool_result("@ + t.tool_name + "): ["@ + decimal(
                        match t.result {
                            Some(r) => byte_len(r),
                            None => 0,
                        },
                    ) + " bytes]"@,
                ),
            }
        } else {
            None
        },
        EntryView::Heartbeat { .. } => None,
        EntryView::Cursor { .. } => None,
    }
}

fn push_tag(out: &mut Vec<char>, id: &str)
    ensures
        final(out)@ == old(out)@ + tag(id@),
{
    push_str(out, "[");
    push_str(out, id);
    push_str(out, "] ");
}

/// Bytes in `s`, the UTF-8 length.
fn utf8_bytes(s: &Vec<char>) -> (n: u128)
    ensures
        n == byte_len(s@),
        n <= 4 * s@.len(),
{
    let mut n: u128 = 0;
    let mut i: usize = 0;
    while i < s.len()
        invariant
            i <= s@.len(),
            n == byte_len(s@.take(i as int)),
            n <= 4 * i,
        decreases s@.len() - i,
    {
        proof {
            assert(s@.take(i + 1) =~= s@.take(i as int).push(s@[i as int]));
            lemma_byte_len_push(s@.take(i as int), s@[i as int]);
        }
        n = n + char_len_utf8(s[i]) as u128;
        i = i + 1;
    }
    proof {
        assert(s@.take(s@.len() as int) =~= s@);
    }
    n
}

fn message_line_exec(m: &MessageEntry) -> (r: Option<Vec<char>>)
    ensures
        match r {
            Some(v) => message_line(m@) == Some(v@),
            None => message_line(m@) is None,
        },
{
    let content = chars_of(m.content.as_str());
    if crate::text::str_eq(m.role.as_str(), "system") && starts_with_str(&content, "[spectator]") {
        return None;
    }
    let mut out: Vec<char> = Vec::new();
    push_tag(&mut out, m.id.as_str());
    if crate::text::str_eq(m.role.as_str(), "user") {
        let author: &str = match &m.author {
            Some(a) => a.as_str(),
            None => "unknown",
        };
        match (&m.source_adapter, &m.source_channel_id, &m.source_channel_name) {
            (Some(adapter), Some(ch_id), Some(ch_name)) => {
                push_str(&mut out, "user:");
                push_str(&mut out, adapter.as_str());
                push_str(&mut out, ":");
                push_str(&mut out, ch_id.as_str());
                push_str(&mut out, "/");
                push_str(&mut out, ch_name.as_str());
                push_str(&mut out, " ");
            },
            (Some(adapter), Some(ch_id), None) => {
                push_str(&mut out, "user:");
                push_str(&mut out, adapter.as_str());
                push_str(&mut out, ":");
                push_str(&mut out, ch_id.as_str());
                push_str(&mut out, " ");
            },
            _ => {
                push_str(&mut out, "user: ");
            },
        }
        push_str(&mut out, author);
        push_str(&mut out, ": ");
        push_str(&mut out, m.content.as_str());
    } else {
        push_str(&mut out, m.role.as_str());
        push_str(&mut out, ": ");
        push_str(&mut out, m.content.as_str());
    }
    Some(out)
}

fn entry_line_exec(entry: &HomeChannelEntry) -> (r: Option<Vec<char>>)
    ensures
        match r {
            Some(v) => entry_line(entry@) == Some(v@),
            None => entry_line(entry@) is None,
        },
{
    match entry {
        HomeChannelEntry::Message(m) => message_line_exec(m),
        HomeChannelEntry::Tool(t) => {
            let mut out: Vec<char> = Vec::new();
            push_tag(&mut out, t.id.as_str());
            if crate::text::str_eq(t.kind.as_str(), "tool_call") {
                push_str(&mut out, "tool_call: ");
                push_str(&mut out, t.tool_name.as_str());
                Some(out)
            } else if crate::text::str_eq(t.kind.as_str(), "tool_result") {
                push_str(&mut out, "tool_result(");
                push_str(&mut out, t.tool_name.as_str());
                match &t.result_file {
                    Some(f) => {
                        push_str(&mut out, "): [file: ");
                        push_str(&mut out, f.as_str());
                        push_str(&mut out, "]");
                    },
                    None => {
                        let bytes: u128 = match &t.result {
                            Some(r) => {
                                let rc = chars_of(r.as_str());
                                utf8_bytes(&rc)
                            },
                            None => 0,
                        };
                        push_str(&mut out, "): [");
                        let digits = crate::text::u128_to_chars(bytes);
                        push_all(&mut out, &digits);
                        push_str(&mut out, " bytes]");
                    },
                }
                Some(out)
            } else {
                None
            }
        },
        HomeChannelEntry::Heartbeat { .. } => None,
        HomeChannelEntry::Cursor { .. } => None,
    }
}

/// Format a single entry into a transcript line; `None` for entries
/// that are left out.
pub fn format_entry(entry: &HomeChannelEntry) -> (r: Option<String>)
    ensures
        match r {
            Some(s) => entry_line(entry@) == Some(s@),
            None => entry_line(entry@) is None,
        },
{
    match entry_line_exec(entry) {
        Some(v) => Some(string_of(&v)),
        None => None,
    }
}

/// The token estimate used across the gateway: a quarter of the UTF-8
/// length, rounded up.
pub open spec fn estimate_tokens_spec(s: Seq<char>) -> nat {
    if s.len() == 0 {
        0
    } else {
        (byte_len(s) + 3) / 4
    }
}

/// Token estimate of a text.
pub fn estimate_tokens(s: &str) -> (r: usize)
    ensures
        r == estimate_tokens_spec(s@),
{
    let cs = chars_of(s);
    tokens_of(&cs)
}

fn tokens_of(s: &Vec<char>) -> (r: usize)
    ensures
        r == estimate_tokens_spec(s@),
{
    if s.len() == 0 {
        return 0;
    }
    let b = utf8_bytes(s);
    let t = (b + 3) / 4;
    assert(t <= s@.len());
    t as usize
}

/// Lines kept from `lines[i..]` given those kept so far and the tokens
/// they used: oldest first, each while it fits in `budget`, the first
/// always; the first line that does not fit ends the run. Also the
/// index of the last entry kept.
pub open spec fn budget_from(
    lines: Seq<Option<Seq<char>>>,
    budget: nat,
    i: int,
    kept: Seq<Seq<char>>,
    used: nat,
    last: nat,
) -> (Seq<Seq<char>>, nat)
    decreases lines.len() - i,
{
    if i < 0 || i >= lines.len() {
        (kept, last)
    } else {
        match lines[i] {
            None => budget_from(lines, budget, i + 1, kept, used, last),
            Some(l) => if kept.len() > 0 && used + estimate_tokens_spec(l) > budget {
                (kept, last)
            } else {
                budget_from(
                    lines,
                    budget,
                    i + 1,
                    kept.push(l),
                    used + estimate_tokens_spec(l),
                    i as nat,
                )
            },
        }
    }
}

pub open spec fn entry_lines(entries: Seq<EntryView>) -> Seq<Option<Seq<char>>> {
    entries.map_values(|e: EntryView| entry_line(e))
}

/// The transcript of `entries` within `budget` tokens and the index of
/// the last entry in it (0 when none is).
pub open spec fn budgeted_spec(entries: Seq<EntryView>, budget: nat) -> (Seq<char>, nat) {
    let r = budget_from(entry_lines(entries), budget, 0, Seq::empty(), 0, 0);
    (join_with(r.0, "\n"@), r.1)
}

/// Format entries within a token budget: oldest first until the budget
/// is reached, at least one entry always. Also the index of the last
/// entry included.
pub fn format_entries_budgeted(entries: &[HomeChannelEntry], token_budget: usize) -> (r: (
    String,
    usize,
))
    ensures
        (r.0@, r.1 as nat) == budgeted_spec(views::<HomeChannelEntry>(entries@), token_budget as nat),
{
    let ghost lines = entry_lines(views::<HomeChannelEntry>(entries@));
    let mut kept: Vec<Vec<char>> = Vec::new();
    let mut used: u128 = 0;
    let mut last: usize = 0;
    let mut i: usize = 0;
    proof {
        assert(views::<Vec<char>>(kept@) =~= Seq::<Seq<char>>::empty());
    }
    while i < entries.len()
        invariant_except_break
            budget_from(lines, token_budget as nat, 0, Seq::empty(), 0, 0) == budget_from(
                lines,
                token_budget as nat,
                i as int,
                views::<Vec<char>>(kept@),
                used as nat,
                last as nat,
            ),
        invariant
            i <= entries@.len(),
            lines == entry_lines(views::<HomeChannelEntry>(entries@)),
            lines.len() == entries@.len(),
            last < entries@.len() || last == 0,
            kept@.len() > 0 ==> used <= token_budget || kept@.len() == 1,
            kept@.len() == 1 ==> used <= usize::MAX,
            kept@.len() == 0 ==> used == 0,
        ensures
            budget_from(lines, token_budget as nat, 0, Seq::empty(), 0, 0) == (
                views::<Vec<char>>(kept@),
                last as nat,
            ),
        decreases entries@.len() - i,
    {
        let ghost kv = views::<Vec<char>>(kept@);
        let line = entry_line_exec(&entries[i]);
        proof {
            assert(lines[i as int] == entry_line(entries@[i as int]@));
        }
        match line {
            None => {},
            Some(l) => {
                let t = tokens_of(&l);
                if kept.len() > 0 && used + t as u128 > token_budget as u128 {
                    proof {
                        assert(budget_from(lines, token_budget as nat, i as int, kv, used as nat, last as nat)
                            == (kv, last as nat));
                    }
                    break;
                }
                used = used + t as u128;
                kept.push(l);
                last = i;
                proof {
                    assert(views::<Vec<char>>(kept@) =~= kv.push(l@));
                }
            },
        }
        i = i + 1;
    }
    proof {
        if i >= entries@.len() {
            assert(budget_from(lines, token_budget as nat, i as int, views::<Vec<char>>(kept@), used as nat, last as nat) == (views::<Vec<char>>(kept@), last as nat));
        }
    }
    let text = join_chars(&kept, "\n");
    (string_of(&text), last)
}

/// The first formatted entry is always kept, whatever the budget.
pub proof fn law_first_line_always_kept(lines: Seq<Option<Seq<char>>>, budget: nat, i: int, l: Seq<char>)
    requires
        0 <= i < lines.len(),
        lines[i] == Some(l),
    ensures
        budget_from(lines, budget, i, Seq::empty(), 0, 0).0.len() > 0,
        budget_from(lines, budget, i, Seq::empty(), 0, 0).0[0] == l,
{
    let e: Seq<Seq<char>> = Seq::empty();
    assert(e.push(l) =~= seq![l]);
    assert(budget_from(lines, budget, i, e, 0, 0) == budget_from(
        lines,
        budget,
        i + 1,
        e.push(l),
        estimate_tokens_spec(l),
        i as nat,
    ));
    lemma_budget_keeps_prefix(lines, budget, i + 1, seq![l], estimate_tokens_spec(l), i as nat);
    let r = budget_from(lines, budget, i + 1, seq![l], estimate_tokens_spec(l), i as nat);
    assert(r.0[0] == seq![l][0]);
}

/// What has been kept stays kept, at the front.
pub proof fn lemma_budget_keeps_prefix(
    lines: Seq<Option<Seq<char>>>,
    budget: nat,
    i: int,
    kept: Seq<Seq<char>>,
    used: nat,
    last: nat,
)
    ensures
        budget_from(lines, budget, i, kept, used, last).0.len() >= kept.len(),
        forall|k: int|
            0 <= k < kept.len() ==> budget_from(lines, budget, i, kept, used, last).0[k] == kept[k],
    decreases lines.len() - i,
{
    if i < 0 || i >= lines.len() {
    } else {
        match lines[i] {
            None => lemma_budget_keeps_prefix(lines, budget, i + 1, kept, used, last),
            Some(l) => {
                if kept.len() > 0 && used + estimate_tokens_spec(l) > budget {
                } else {
                    lemma_budget_keeps_prefix(
                        lines,
                        budget,
                        i + 1,
                        kept.push(l),
                        used + estimate_tokens_spec(l),
                        i as nat,
                    );
                    assert forall|k: int| 0 <= k < kept.len() implies budget_from(
                        lines,
                        budget,
                        i,
                        kept,
                        used,
                        last,
                    ).0[k] == kept[k] by {
                        assert(kept.push(l)[k] == kept[k]);
                    }
                }
            },
        }
    }
}

proof fn lemma_budget_within(
    lines: Seq<Option<Seq<char>>>,
    budget: nat,
    i: int,
    kept: Seq<Seq<char>>,
    used: nat,
    last: nat,
)
    requires
        used == tokens_total(kept),
        kept.len() > 1 ==> used <= budget,
    ensures
        budget_from(lines, budget, i, kept, used, last).0.len() > 1 ==> tokens_total(
            budget_from(lines, budget, i, kept, used, last).0,
        ) <= budget,
    decreases lines.len() - i,
{
    if i < 0 || i >= lines.len() {
    } else {
        match lines[i] {
            None => lemma_budget_within(lines, budget, i + 1, kept, used, last),
            Some(l) => {
                if kept.len() > 0 && used + estimate_tokens_spec(l) > budget {
                } else {
                    lemma_tokens_total_push(kept, l);
                    lemma_budget_within(
                        lines,
                        budget,
                        i + 1,
                        kept.push(l),
                        used + estimate_tokens_spec(l),
                        i as nat,
                    );
                }
            },
        }
    }
}

/// Once more than one line is kept, all the kept lines together stay
/// within the token budget; only a lone first line may exceed it.
pub proof fn law_budget_respected(entries: Seq<EntryView>, budget: nat)
    ensures
        ({
            let kept = budget_from(entry_lines(entries), budget, 0, Seq::empty(), 0, 0).0;
            kept.len() > 1 ==> tokens_total(kept) <= budget
        }),
{
    lemma_budget_within(entry_lines(entries), budget, 0, Seq::empty(), 0, 0);
}

/// Tokens of all the lines.
pub open spec fn tokens_total(lines: Seq<Seq<char>>) -> nat
    decreases lines.len(),
{
    if lines.len() == 0 {
        0
    } else {
        tokens_total(lines.drop_last()) + estimate_tokens_spec(lines.last())
    }
}

proof fn lemma_tokens_total_push(lines: Seq<Seq<char>>, l: Seq<char>)
    ensures
        tokens_total(lines.push(l)) == tokens_total(lines) + estimate_tokens_spec(l),
{
    assert(lines.push(l).drop_last() =~= lines);
}

} // verus!
