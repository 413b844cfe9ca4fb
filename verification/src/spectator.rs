//! The spectator: an observer that reads the home channel after each
//! turn and keeps a running record of moves and moments.

pub mod compress;
pub mod format;
pub mod handlers;
pub mod moves;
pub mod prompt;

use vstd::prelude::*;
use crate::spectator::format::{
    budget_from, budgeted_spec, entry_line, entry_lines, format_entries_budgeted, EntryView,
    HomeChannelEntry, MessageView,
};
use crate::text::{join_chars, join_with, push_str, string_of, views};

verus! {

/// Configuration for the spectator task. Paths are relative to the
/// workspace; the sweep interval is in seconds.
#[derive(Debug)]
pub struct SpectatorConfig {
    /// Directory containing spectator prompt files
    pub spectator_dir: String,
    /// Path to the home channel JSONL
    pub home_channel_path: String,
    /// Path to moves.jsonl
    pub moves_path: String,
    /// Minimum seconds between sweeps (ignored during catch-up)
    pub sweep_interval_secs: u64,
    /// Max tokens for entries in a single sweep
    pub sweep_token_budget: usize,
    /// Number of recent moves to include as context
    pub moves_tail: usize,
}

impl Default for SpectatorConfig {
    fn default() -> (r: Self)
        ensures
            r.spectator_dir@ == "spectator"@,
            r.home_channel_path@ == "channels/home/agent.jsonl"@,
            r.moves_path@ == "channels/home/agent/moves.jsonl"@,
            r.sweep_interval_secs == 300,
            r.sweep_token_budget == 16384,
            r.moves_tail == 10,
    {
        SpectatorConfig {
            spectator_dir: "spectator".to_string(),
            home_channel_path: "channels/home/agent.jsonl".to_string(),
            moves_path: "channels/home/agent/moves.jsonl".to_string(),
            sweep_interval_secs: 300,
            sweep_token_budget: 16384,
            moves_tail: 10,
        }
    }
}


/// Whether a sweep is due after a turn: only with a sweep prompt, and
/// then at the first sweep or once the interval has passed since the
/// last one.
pub open spec fn sweep_due_spec(has_prompt: bool, since_last_ms: Option<u64>, interval_secs: u64) -> bool {
    has_prompt && match since_last_ms {
        None => true,
        Some(ms) => ms >= interval_secs * 1000,
    }
}

/// The sweep time gate.
pub fn sweep_due(has_prompt: bool, since_last_ms: Option<u64>, interval_secs: u64) -> (b: bool)
    ensures
        b == sweep_due_spec(has_prompt, since_last_ms, interval_secs),
{
    if !has_prompt {
        return false;
    }
    match since_last_ms {
        None => true,
        Some(ms) => ms as u128 >= interval_secs as u128 * 1000,
    }
}

/// An entry's id, whatever its kind.
pub open spec fn entry_id_spec(e: EntryView) -> Seq<char> {
    match e {
        EntryView::Message(m) => m.id,
        EntryView::Tool(t) => t.id,
        EntryView::Heartbeat { id, .. } => id,
        EntryView::Cursor { id } => id,
    }
}

pub fn entry_id(e: &HomeChannelEntry) -> (r: String)
    ensures
        r@ == entry_id_spec(e@),
{
    match e {
        HomeChannelEntry::Message(m) => m.id.clone(),
        HomeChannelEntry::Tool(t) => t.id.clone(),
        HomeChannelEntry::Heartbeat { id, .. } => id.clone(),
        HomeChannelEntry::Cursor { id } => id.clone(),
    }
}

/// What one sweep does with the entries since the cursor.
#[derive(Debug)]
pub enum SweepPlan {
    /// Nothing new since the cursor.
    Idle,
    /// Every new entry is left out of transcripts: a `[no activity]`
    /// move over them advances the cursor.
    NoActivity { first_id: String, last_id: String },
    /// Summarize the transcript of the entries from the first through
    /// `last_id`; `has_more` when a later entry would show too.
    Summarize { first_id: String, last_id: String, transcript: String, has_more: bool },
}

/// Some entry after position `after` shows in a transcript.
pub open spec fn shows_later(es: Seq<EntryView>, after: int) -> bool {
    exists|k: int| after < k < es.len() && (#[trigger] entry_line(es[k])) is Some
}

/// The sweep's plan for `es`: idle without entries; no activity when
/// the budgeted transcript is empty; otherwise the transcript, its
/// first and last entries' ids, and whether more would show.
pub open spec fn sweep_plan_spec(es: Seq<EntryView>, budget: nat) -> Option<(Seq<char>, Seq<char>, Option<(Seq<char>, bool)>)> {
    if es.len() == 0 {
        None
    } else {
        let b = budgeted_spec(es, budget);
        if b.0.len() == 0 {
            Some((entry_id_spec(es[0]), entry_id_spec(es.last()), None))
        } else {
            Some((entry_id_spec(es[0]), entry_id_spec(es[b.1 as int]), Some((b.0, shows_later(es, b.1 as int)))))
        }
    }
}

pub open spec fn plan_view(p: SweepPlan) -> Option<(Seq<char>, Seq<char>, Option<(Seq<char>, bool)>)> {
    match p {
        SweepPlan::Idle => None,
        SweepPlan::NoActivity { first_id, last_id } => Some((first_id@, last_id@, None)),
        SweepPlan::Summarize { first_id, last_id, transcript, has_more } => Some(
            (first_id@, last_id@, Some((transcript@, has_more))),
        ),
    }
}

proof fn lemma_budget_last(
    lines: Seq<Option<Seq<char>>>,
    budget: nat,
    i: int,
    kept: Seq<Seq<char>>,
    used: nat,
    last: nat,
)
    requires
        0 <= i,
    ensures
        budget_from(lines, budget, i, kept, used, last).1 == last || budget_from(
            lines,
            budget,
            i,
            kept,
            used,
            last,
        ).1 < lines.len(),
    decreases lines.len() - i,
{
    if i < lines.len() {
        match lines[i] {
            None => lemma_budget_last(lines, budget, i + 1, kept, used, last),
            Some(l) => if !(kept.len() > 0 && used + crate::spectator::format::estimate_tokens_spec(l)
                > budget) {
                lemma_budget_last(
                    lines,
                    budget,
                    i + 1,
                    kept.push(l),
                    used + crate::spectator::format::estimate_tokens_spec(l),
                    i as nat,
                );
            },
        }
    }
}

/// Plan one spectator sweep over the entries since the cursor, within
/// `token_budget` tokens of transcript.
pub fn plan_spectator_sweep(entries: &Vec<HomeChannelEntry>, token_budget: usize) -> (r: SweepPlan)
    ensures
        plan_view(r) == sweep_plan_spec(views::<HomeChannelEntry>(entries@), token_budget as nat),
{
    let ghost es = views::<HomeChannelEntry>(entries@);
    if entries.len() == 0 {
        return SweepPlan::Idle;
    }
    let slice = entries.as_slice();
    let (transcript, last) = format_entries_budgeted(slice, token_budget);
    proof {
        lemma_budget_last(entry_lines(es), token_budget as nat, 0, Seq::empty(), 0, 0);
        assert(slice@ == entries@);
    }
    let first_id = entry_id(&entries[0]);
    if transcript.as_str().is_empty() {
        let last_id = entry_id(&entries[entries.len() - 1]);
        return SweepPlan::NoActivity { first_id, last_id };
    }
    let last_id = entry_id(&entries[last]);
    let mut has_more = false;
    let mut k: usize = last + 1;
    while k < entries.len()
        invariant
            last < entries@.len(),
            last + 1 <= k,
            k <= entries@.len() || k == last + 1,
            es == views::<HomeChannelEntry>(entries@),
            has_more == exists|m: int| last < m < k && (#[trigger] entry_line(es[m])) is Some,
        decreases entries@.len() - k,
    {
        let shown = crate::spectator::format::format_entry(&entries[k]).is_some();
        proof {
            assert(es[k as int] == entries@[k as int]@);
        }
        has_more = has_more || shown;
        k = k + 1;
    }
    proof {
        if k > entries@.len() {
            assert(k == last + 1);
        }
    }
    SweepPlan::Summarize { first_id, last_id, transcript, has_more }
}

/// The recent moves as sweep context: their summaries separated by a
/// blank line, or a note that there are none.
pub fn moves_context(summaries: &Vec<String>) -> (r: String)
    ensures
        r@ == (if summaries@.len() == 0 {
            "No previous moves."@
        } else {
            join_with(views::<String>(summaries@), "\n\n"@)
        }),
{
    if summaries.len() == 0 {
        proof {
            reveal_strlit("No previous moves.");
        }
        return "No previous moves.".to_string();
    }
    let mut items: Vec<Vec<char>> = Vec::new();
    let mut i: usize = 0;
    while i < summaries.len()
        invariant
            i <= summaries@.len(),
            views::<Vec<char>>(items@) == views::<String>(summaries@).take(i as int),
        decreases summaries@.len() - i,
    {
        let ghost before = views::<Vec<char>>(items@);
        items.push(crate::text::chars_of(summaries[i].as_str()));
        proof {
            assert(views::<Vec<char>>(items@) =~= before.push(summaries@[i as int]@));
            assert(views::<String>(summaries@).take(i + 1) =~= views::<String>(summaries@).take(
                i as int,
            ).push(summaries@[i as int]@));
        }
        i = i + 1;
    }
    proof {
        assert(views::<String>(summaries@).take(summaries@.len() as int) =~= views::<String>(
            summaries@,
        ));
    }
    let text = join_chars(&items, "\n\n");
    string_of(&text)
}

/// The observability line a sweep writes to the home channel.
pub open spec fn observability_text(first_id: Seq<char>, last_id: Seq<char>) -> Seq<char> {
    "[spectator] move written covering entries "@ + first_id + "-"@ + last_id
}

/// The text of the system message announcing a written move.
pub fn observability_message(first_id: &str, last_id: &str) -> (r: String)
    ensures
        r@ == observability_text(first_id@, last_id@),
{
    let mut out: Vec<char> = Vec::new();
    push_str(&mut out, "[spectator] move written covering entries ");
    push_str(&mut out, first_id);
    push_str(&mut out, "-");
    push_str(&mut out, last_id);
    proof {
        assert(out@ =~= observability_text(first_id@, last_id@));
    }
    string_of(&out)
}

/// The spectator never reads its own announcements: a system message
/// carrying an observability line is left out of every transcript.
pub proof fn law_announcements_not_transcribed(m: MessageView, first_id: Seq<char>, last_id: Seq<char>)
    requires
        m.role == "system"@,
        m.content == observability_text(first_id, last_id),
    ensures
        entry_line(EntryView::Message(m)) is None,
{
    reveal_strlit("[spectator] move written covering entries ");
    reveal_strlit("[spectator]");
    let t = observability_text(first_id, last_id);
    assert(t.subrange(0, 11) =~= "[spectator]"@);
}

} // verus!
