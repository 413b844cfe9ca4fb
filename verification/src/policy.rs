//! Self-healing agent policy: per-tool failure backoff with decay, a
//! global error backoff, turn-level health accounting, and escalation
//! to a human through an ATTENTION note.
//!
//! Time is read from the wall clock by the methods that need it and
//! handed to a `*_at` twin that does the deciding; the twins are what
//! the contracts pin down exactly. Durations are whole seconds.

use vstd::prelude::*;
use vstd::arithmetic::power2::{pow2, lemma2_to64, lemma_pow2_strictly_increases};
use crate::paths::{join, join_str};
use crate::text::{decimal, push_str, str_eq, string_of, u64_to_chars, push_all, rfc3339_text};

verus! {

/// Failures older than this many seconds no longer count.
pub const TOOL_FAILURE_DECAY_SECS: i64 = 3600;

/// Ceiling of the global error backoff, in seconds.
pub const BACKOFF_CAP_SECS: u64 = 900;

/// Ceiling of a single tool's backoff, in seconds.
pub const TOOL_BACKOFF_CAP_SECS: u64 = 480;

/// Health status reflecting agent capability.
#[derive(Debug, Clone, Copy, PartialEq, Eq, Structural)]
pub enum HealthStatus {
    Healthy,
    Degraded,
    NeedsAttention,
}

impl Default for HealthStatus {
    fn default() -> (r: Self)
        ensures
            r == HealthStatus::Healthy,
    {
        HealthStatus::Healthy
    }
}

/// What the caller does after a model error; waits are in seconds.
#[derive(Debug, Clone, Copy, PartialEq, Eq, Structural)]
pub enum ModelErrorAction {
    RetryAfter(u64),
    RetryWithBackoff(u64),
    NoRetry,
    Escalated,
}

/// The note to write when the agent escalates: where and what.
pub struct Attention {
    pub path: String,
    pub content: String,
}

/// Wall clock, milliseconds since the Unix epoch, by `chrono` (a reading
/// before 1970 comes out negative).
///
/// Trusted, with no contract: the reading depends on the clock.
#[verifier::external_body]
pub(crate) fn now_millis() -> i64 {
    chrono::DateTime::<chrono::Utc>::from(std::time::SystemTime::now()).timestamp_millis()
}

/// Wall clock as RFC 3339 text in UTC, by `chrono`'s `to_rfc3339`.
///
/// Trusted: the contract claims the text's form (the reading written
/// with a `+00:00` zone); which instant it reads is left unsaid.
#[verifier::external_body]
pub(crate) fn now_rfc3339() -> (r: String)
    ensures
        rfc3339_text(r@, "+00:00"@),
{
    chrono::DateTime::<chrono::Utc>::from(std::time::SystemTime::now()).to_rfc3339()
}

struct ToolFailure {
    tool: String,
    count: u32,
    last_fail_ms: i64,
}

/// A tool failure record as plain values.
pub type FailureView = (Seq<char>, u32, i64);

spec fn failure_views(s: Seq<ToolFailure>) -> Seq<FailureView> {
    s.map_values(|f: ToolFailure| (f.tool@, f.count, f.last_fail_ms))
}

/// The failure table as a map from tool name to (count, last failure).
pub open spec fn failures_map(s: Seq<FailureView>) -> Map<Seq<char>, (u32, i64)>
    decreases s.len(),
{
    if s.len() == 0 {
        Map::empty()
    } else {
        failures_map(s.drop_last()).insert(s.last().0, (s.last().1, s.last().2))
    }
}

/// No tool appears twice.
pub open spec fn distinct_tools(s: Seq<FailureView>) -> bool {
    forall|i: int, j: int| 0 <= i < j < s.len() ==> s[i].0 != s[j].0
}

/// Everything the policy tracks, as plain values. Times are
/// milliseconds since the Unix epoch.
pub struct PolicyView {
    pub agent_name: Seq<char>,
    pub data_dir: Seq<char>,
    pub status: HealthStatus,
    pub consecutive_errors: u32,
    pub last_error: Option<i64>,
    pub tool_failures: Map<Seq<char>, (u32, i64)>,
    pub repeated_action_count: u32,
    pub context_tokens_at_turn_start: u64,
    pub low_progress_turns: u32,
    pub pending_user_messages: u32,
    pub is_heartbeat_turn: bool,
    pub recovery_attempts: u32,
    pub last_recovery: Option<i64>,
    pub attention_created_at: Option<i64>,
}

/// Central decision-making for self-healing.
pub struct HealthPolicy {
    agent_name: String,
    data_dir: String,
    status: HealthStatus,
    consecutive_errors: u32,
    last_error: Option<i64>,
    tool_failures: Vec<ToolFailure>,
    repeated_action_count: u32,
    context_tokens_at_turn_start: u64,
    low_progress_turns: u32,
    pending_user_messages: u32,
    is_heartbeat_turn: bool,
    recovery_attempts: u32,
    last_recovery: Option<i64>,
    attention_created_at: Option<i64>,
}

impl View for HealthPolicy {
    type V = PolicyView;

    closed spec fn view(&self) -> PolicyView {
        PolicyView {
            agent_name: self.agent_name@,
            data_dir: self.data_dir@,
            status: self.status,
            consecutive_errors: self.consecutive_errors,
            last_error: self.last_error,
            tool_failures: failures_map(failure_views(self.tool_failures@)),
            repeated_action_count: self.repeated_action_count,
            context_tokens_at_turn_start: self.context_tokens_at_turn_start,
            low_progress_turns: self.low_progress_turns,
            pending_user_messages: self.pending_user_messages,
            is_heartbeat_turn: self.is_heartbeat_turn,
            recovery_attempts: self.recovery_attempts,
            last_recovery: self.last_recovery,
            attention_created_at: self.attention_created_at,
        }
    }
}

// ---------------------------------------------------------------------
// The failure table
// ---------------------------------------------------------------------

proof fn lemma_failures_map(s: Seq<FailureView>)
    requires
        distinct_tools(s),
    ensures
        forall|k: Seq<char>|
            #[trigger] failures_map(s).contains_key(k) <==> exists|i: int|
                0 <= i < s.len() && s[i].0 == k,
        forall|i: int|
            0 <= i < s.len() ==> failures_map(s)[#[trigger] s[i].0] == (s[i].1, s[i].2),
    decreases s.len(),
{
    if s.len() > 0 {
        let p = s.drop_last();
        assert(distinct_tools(p));
        lemma_failures_map(p);
        assert forall|k: Seq<char>|
            #[trigger] failures_map(s).contains_key(k) <==> exists|i: int|
                0 <= i < s.len() && s[i].0 == k by {
            if failures_map(s).contains_key(k) {
                if k == s.last().0 {
                    assert(s[s.len() - 1].0 == k);
                } else {
                    assert(failures_map(p).contains_key(k));
                    let i = choose|i: int| 0 <= i < p.len() && p[i].0 == k;
                    assert(p[i] == s[i]);
                    assert(s[i].0 == k);
                }
            }
            if exists|i: int| 0 <= i < s.len() && s[i].0 == k {
                let i = choose|i: int| 0 <= i < s.len() && s[i].0 == k;
                if i < s.len() - 1 {
                    assert(p[i] == s[i]);
                    assert(p[i].0 == k);
                    assert(failures_map(p).contains_key(k));
                }
            }
        }
        assert forall|i: int| 0 <= i < s.len() implies failures_map(s)[#[trigger] s[i].0] == (
        s[i].1, s[i].2) by {
            if i < s.len() - 1 {
                assert(p[i] == s[i]);
                assert(s[i].0 != s.last().0);
            }
        }
    }
}

proof fn lemma_failures_update(s: Seq<FailureView>, i: int, x: FailureView)
    requires
        distinct_tools(s),
        0 <= i < s.len(),
        x.0 == s[i].0,
    ensures
        distinct_tools(s.update(i, x)),
        failures_map(s.update(i, x)) == failures_map(s).insert(x.0, (x.1, x.2)),
{
    let t = s.update(i, x);
    assert(distinct_tools(t)) by {
        assert forall|a: int, b: int| 0 <= a < b < t.len() implies t[a].0 != t[b].0 by {
            assert(s[a].0 != s[b].0);
        }
    }
    lemma_failures_map(s);
    lemma_failures_map(t);
    let m = failures_map(s).insert(x.0, (x.1, x.2));
    assert forall|k: Seq<char>| #[trigger] failures_map(t).contains_key(k) <==> m.contains_key(k) by {
        if m.contains_key(k) && k != x.0 {
            let j = choose|j: int| 0 <= j < s.len() && s[j].0 == k;
            assert(t[j].0 == k);
        }
        if failures_map(t).contains_key(k) {
            let j = choose|j: int| 0 <= j < t.len() && t[j].0 == k;
            if j != i {
                assert(s[j].0 == k);
            }
        }
        if k == x.0 {
            assert(t[i].0 == k);
        }
    }
    assert forall|k: Seq<char>| #[trigger] failures_map(t).contains_key(k) implies failures_map(t)[k]
        == m[k] by {
        let j = choose|j: int| 0 <= j < t.len() && t[j].0 == k;
        assert(failures_map(t)[t[j].0] == (t[j].1, t[j].2));
        if j != i {
            assert(s[j] == t[j]);
            assert(failures_map(s)[s[j].0] == (s[j].1, s[j].2));
        }
    }
    assert(failures_map(t) =~= m);
}

proof fn lemma_failures_remove(s: Seq<FailureView>, i: int)
    requires
        distinct_tools(s),
        0 <= i < s.len(),
    ensures
        distinct_tools(s.remove(i)),
        failures_map(s.remove(i)) == failures_map(s).remove(s[i].0),
{
    let t = s.remove(i);
    let key = s[i].0;
    assert(distinct_tools(t)) by {
        assert forall|a: int, b: int| 0 <= a < b < t.len() implies t[a].0 != t[b].0 by {
            let a2 = if a < i { a } else { a + 1 };
            let b2 = if b < i { b } else { b + 1 };
            assert(t[a] == s[a2] && t[b] == s[b2]);
        }
    }
    lemma_failures_map(s);
    lemma_failures_map(t);
    let m = failures_map(s).remove(key);
    assert forall|k: Seq<char>| #[trigger] failures_map(t).contains_key(k) <==> m.contains_key(k) by {
        if m.contains_key(k) {
            let j = choose|j: int| 0 <= j < s.len() && s[j].0 == k;
            assert(j != i);
            let j2 = if j < i { j } else { j - 1 };
            assert(t[j2] == s[j]);
        }
        if failures_map(t).contains_key(k) {
            let j = choose|j: int| 0 <= j < t.len() && t[j].0 == k;
            let j2 = if j < i { j } else { j + 1 };
            assert(t[j] == s[j2]);
            assert(j2 != i);
        }
    }
    assert forall|k: Seq<char>| #[trigger] failures_map(t).contains_key(k) implies failures_map(t)[k]
        == m[k] by {
        let j = choose|j: int| 0 <= j < t.len() && t[j].0 == k;
        let j2 = if j < i { j } else { j + 1 };
        assert(t[j] == s[j2]);
        assert(failures_map(t)[t[j].0] == (t[j].1, t[j].2));
        assert(failures_map(s)[s[j2].0] == (s[j2].1, s[j2].2));
    }
    assert(failures_map(t) =~= m);
}

proof fn lemma_failures_push(s: Seq<FailureView>, x: FailureView)
    requires
        distinct_tools(s),
        !failures_map(s).contains_key(x.0),
    ensures
        distinct_tools(s.push(x)),
        failures_map(s.push(x)) == failures_map(s).insert(x.0, (x.1, x.2)),
{
    lemma_failures_map(s);
    let t = s.push(x);
    assert(t.drop_last() =~= s);
    assert forall|a: int, b: int| 0 <= a < b < t.len() implies t[a].0 != t[b].0 by {
        if b == s.len() {
            assert(t[a] == s[a]);
        } else {
            assert(t[a] == s[a] && t[b] == s[b]);
        }
    }
}

// ---------------------------------------------------------------------
// What the policy decides, as plain values
// ---------------------------------------------------------------------

/// A tool's backoff by its failure count: none for the first failure,
/// then one, two, four minutes, capped at eight.
pub open spec fn count_backoff(count: u32) -> u64 {
    if count <= 1 {
        0
    } else if count == 2 {
        60
    } else if count == 3 {
        120
    } else if count == 4 {
        240
    } else {
        480
    }
}

/// A failure `last_ms` has decayed at `now_ms` once more than an hour of
/// whole seconds lies between them.
pub open spec fn decayed(last_ms: i64, now_ms: i64) -> bool {
    (now_ms - last_ms) >= (TOOL_FAILURE_DECAY_SECS + 1) * 1000
}

/// The backoff of `tool` at `now_ms`.
pub open spec fn tool_backoff_spec(
    failures: Map<Seq<char>, (u32, i64)>,
    tool: Seq<char>,
    now_ms: i64,
) -> u64 {
    if !failures.contains_key(tool) {
        0
    } else if decayed(failures[tool].1, now_ms) {
        0
    } else {
        count_backoff(failures[tool].0)
    }
}

/// The global backoff: a minute, doubling with each consecutive error
/// after the first, capped at fifteen minutes.
pub open spec fn error_backoff_spec(errors: u32) -> u64 {
    if errors == 0 {
        0
    } else if 60 * pow2((errors - 1) as nat) <= BACKOFF_CAP_SECS {
        (60 * pow2((errors - 1) as nat)) as u64
    } else {
        BACKOFF_CAP_SECS
    }
}

/// The state after a tool call: success clears the tool's record, a
/// failure bumps its count and stamps it with `now_ms`.
pub open spec fn tool_result_spec(
    v: PolicyView,
    tool: Seq<char>,
    success: bool,
    now_ms: i64,
) -> PolicyView {
    PolicyView {
        tool_failures: if success {
            v.tool_failures.remove(tool)
        } else if v.tool_failures.contains_key(tool) {
            v.tool_failures.insert(tool, ((v.tool_failures[tool].0 + 1) as u32, now_ms))
        } else {
            v.tool_failures.insert(tool, (1u32, now_ms))
        },
        ..v
    }
}

/// Turns with at least four fifths of their calls succeeding (or no
/// calls at all) are clean.
pub open spec fn clean_turn(total: u32, failed: u32) -> bool {
    let ok = if failed <= total { total - failed } else { 0 };
    total == 0 || 5 * ok >= 4 * total
}

/// Turns with fewer than half of their calls succeeding are bad.
pub open spec fn bad_turn(total: u32, failed: u32) -> bool {
    let ok = if failed <= total { total - failed } else { 0 };
    total > 0 && 2 * ok < total
}

pub open spec fn sat_add(a: u32, b: u32) -> u32 {
    if a + b > u32::MAX { u32::MAX } else { (a + b) as u32 }
}

/// Status after the error count moved to `errors`: six or more need
/// attention, two or more degrade, fewer leave the status as it was.
pub open spec fn status_from_errors(status: HealthStatus, errors: u32) -> HealthStatus {
    if errors >= 6 {
        HealthStatus::NeedsAttention
    } else if errors >= 2 {
        HealthStatus::Degraded
    } else {
        status
    }
}

/// The state after a turn with `total` calls of which `failed` failed.
pub open spec fn turn_complete_spec(v: PolicyView, total: u32, failed: u32, now_ms: i64) -> PolicyView {
    if clean_turn(total, failed) {
        if v.status == HealthStatus::Degraded {
            PolicyView {
                consecutive_errors: 0,
                low_progress_turns: 0,
                repeated_action_count: 0,
                status: HealthStatus::Healthy,
                recovery_attempts: 0,
                last_recovery: Some(now_ms),
                ..v
            }
        } else {
            PolicyView {
                consecutive_errors: 0,
                low_progress_turns: 0,
                repeated_action_count: 0,
                ..v
            }
        }
    } else {
        let errors = sat_add(v.consecutive_errors, if bad_turn(total, failed) { 2 } else { 1 });
        PolicyView {
            consecutive_errors: errors,
            last_error: Some(now_ms),
            status: status_from_errors(v.status, errors),
            ..v
        }
    }
}

/// What a model error with HTTP status `code` is answered with.
pub open spec fn model_error_action(v: PolicyView, code: u16) -> ModelErrorAction {
    if code == 401 || code == 403 {
        ModelErrorAction::Escalated
    } else if code == 429 {
        ModelErrorAction::RetryAfter(60)
    } else if 500 <= code <= 599 {
        ModelErrorAction::RetryWithBackoff(error_backoff_spec(sat_add(v.consecutive_errors, 1)))
    } else {
        ModelErrorAction::NoRetry
    }
}

/// The state after a model error; escalation stamps `now_ms`.
pub open spec fn model_error_spec(v: PolicyView, code: u16, now_ms: i64) -> PolicyView {
    if code == 401 || code == 403 {
        escalate_spec(v, now_ms)
    } else if code == 429 {
        v
    } else if 500 <= code <= 599 {
        PolicyView {
            consecutive_errors: sat_add(v.consecutive_errors, 1),
            last_error: Some(now_ms),
            ..v
        }
    } else {
        PolicyView { status: HealthStatus::Degraded, ..v }
    }
}

/// Escalation: the agent needs attention from `now_ms` on.
pub open spec fn escalate_spec(v: PolicyView, now_ms: i64) -> PolicyView {
    PolicyView { status: HealthStatus::NeedsAttention, attention_created_at: Some(now_ms), ..v }
}

/// `data_dir/ATTENTION.md`.
pub open spec fn attention_path(data_dir: Seq<char>) -> Seq<char> {
    join(data_dir, "ATTENTION.md"@)
}

/// The ATTENTION note's text.
pub open spec fn attention_text(
    agent: Seq<char>,
    time: Seq<char>,
    reason: Seq<char>,
    context: Seq<char>,
) -> Seq<char> {
    "# Attention Required\n\n**Agent:** "@ + agent + "\n**Time:** "@ + time + "\n**Reason:** "@
        + reason + "\n\n## Context\n\n"@ + context
        + "\n\n## To Clear\n\nDelete this file after addressing the issue.\n\n---\n\n## Response\n\n(Add your response here)\n"@
}

/// The reason given for an authentication failure.
pub open spec fn auth_reason(code: u16) -> Seq<char> {
    "Authentication error: HTTP "@ + decimal(code as nat)
}

pub open spec fn auth_context() -> Seq<char> {
    "API key may be invalid or expired. Check credentials."@
}

impl HealthPolicy {
    pub closed spec fn wf(&self) -> bool {
        distinct_tools(failure_views(self.tool_failures@))
    }

    pub fn new(agent_name: String, data_dir: String) -> (r: Self)
        ensures
            r.wf(),
            r@ == (PolicyView {
                agent_name: agent_name@,
                data_dir: data_dir@,
                status: HealthStatus::Healthy,
                consecutive_errors: 0,
                last_error: None,
                tool_failures: Map::empty(),
                repeated_action_count: 0,
                context_tokens_at_turn_start: 0,
                low_progress_turns: 0,
                pending_user_messages: 0,
                is_heartbeat_turn: false,
                recovery_attempts: 0,
                last_recovery: None,
                attention_created_at: None,
            }),
    {
        let r = HealthPolicy {
            agent_name,
            data_dir,
            status: HealthStatus::Healthy,
            consecutive_errors: 0,
            last_error: None,
            tool_failures: Vec::new(),
            repeated_action_count: 0,
            context_tokens_at_turn_start: 0,
            low_progress_turns: 0,
            pending_user_messages: 0,
            is_heartbeat_turn: false,
            recovery_attempts: 0,
            last_recovery: None,
            attention_created_at: None,
        };
        proof {
            assert(failure_views(r.tool_failures@) =~= Seq::<FailureView>::empty());
            assert(failures_map(Seq::<FailureView>::empty()) =~= Map::empty());
        }
        r
    }

    /// Current health status.
    pub fn status(&self) -> (r: HealthStatus)
        ensures
            r == self@.status,
    {
        self.status
    }

    pub fn agent_name(&self) -> (r: &str)
        ensures
            r@ == self@.agent_name,
    {
        self.agent_name.as_str()
    }

    pub fn data_dir(&self) -> (r: &str)
        ensures
            r@ == self@.data_dir,
    {
        self.data_dir.as_str()
    }

    pub fn consecutive_errors(&self) -> (r: u32)
        ensures
            r == self@.consecutive_errors,
    {
        self.consecutive_errors
    }

    pub fn recovery_attempts(&self) -> (r: u32)
        ensures
            r == self@.recovery_attempts,
    {
        self.recovery_attempts
    }

    /// Mark the turn as a heartbeat (excluded from progress tracking).
    pub fn set_heartbeat_turn(&mut self, is_heartbeat: bool)
        requires
            old(self).wf(),
        ensures
            final(self).wf(),
            final(self)@ == (PolicyView { is_heartbeat_turn: is_heartbeat, ..old(self)@ }),
    {
        self.is_heartbeat_turn = is_heartbeat;
    }

    /// Track pending user messages.
    pub fn set_pending_messages(&mut self, count: u32)
        requires
            old(self).wf(),
        ensures
            final(self).wf(),
            final(self)@ == (PolicyView { pending_user_messages: count, ..old(self)@ }),
    {
        self.pending_user_messages = count;
    }

    /// Context tokens at turn start, for progress tracking.
    pub fn set_turn_start_tokens(&mut self, tokens: u64)
        requires
            old(self).wf(),
        ensures
            final(self).wf(),
            final(self)@ == (PolicyView { context_tokens_at_turn_start: tokens, ..old(self)@ }),
    {
        self.context_tokens_at_turn_start = tokens;
    }

    /// Position of `tool` in the table, if it has a record.
    fn find_tool(&self, tool: &str) -> (r: Option<usize>)
        requires
            self.wf(),
        ensures
            match r {
                Some(i) => i < self.tool_failures@.len() && self.tool_failures@[i as int].tool@
                    == tool@,
                None => !self@.tool_failures.contains_key(tool@),
            },
    {
        let mut i: usize = 0;
        while i < self.tool_failures.len()
            invariant
                i <= self.tool_failures@.len(),
                forall|j: int| 0 <= j < i ==> self.tool_failures@[j].tool@ != tool@,
            decreases self.tool_failures@.len() - i,
        {
            if str_eq(self.tool_failures[i].tool.as_str(), tool) {
                return Some(i);
            }
            i = i + 1;
        }
        proof {
            let s = failure_views(self.tool_failures@);
            lemma_failures_map(s);
            if failures_map(s).contains_key(tool@) {
                let j = choose|j: int| 0 <= j < s.len() && s[j].0 == tool@;
                assert(self.tool_failures@[j].tool@ == tool@);
            }
        }
        None
    }

    /// Failure count recorded for `tool` (zero without a record).
    pub fn failure_count(&self, tool: &str) -> (r: u32)
        requires
            self.wf(),
        ensures
            r == (if self@.tool_failures.contains_key(tool@) {
                self@.tool_failures[tool@].0
            } else {
                0
            }),
    {
        match self.find_tool(tool) {
            Some(i) => {
                proof {
                    lemma_failures_map(failure_views(self.tool_failures@));
                    assert(failure_views(self.tool_failures@)[i as int].0 == tool@);
                }
                self.tool_failures[i].count
            },
            None => 0,
        }
    }

    /// Backoff for `tool` at `now_ms`, in seconds.
    pub fn tool_backoff_at(&self, tool: &str, now_ms: i64) -> (r: u64)
        requires
            self.wf(),
        ensures
            r == tool_backoff_spec(self@.tool_failures, tool@, now_ms),
    {
        match self.find_tool(tool) {
            None => 0,
            Some(i) => {
                proof {
                    lemma_failures_map(failure_views(self.tool_failures@));
                    assert(failure_views(self.tool_failures@)[i as int].0 == tool@);
                }
                let last = self.tool_failures[i].last_fail_ms;
                let diff: i128 = now_ms as i128 - last as i128;
                if diff >= 3_601_000i128 {
                    return 0;
                }
                let count = self.tool_failures[i].count;
                if count <= 1 {
                    0
                } else if count == 2 {
                    60
                } else if count == 3 {
                    120
                } else if count == 4 {
                    240
                } else {
                    480
                }
            },
        }
    }

    /// Backoff for `tool` now, in seconds: what `tool_backoff_at` gives
    /// for the time the clock reads.
    pub fn tool_backoff(&self, tool: &str) -> (r: u64)
        requires
            self.wf(),
        ensures
            exists|now_ms: i64| r == tool_backoff_spec(self@.tool_failures, tool@, now_ms),
            !self@.tool_failures.contains_key(tool@) ==> r == 0,
            self@.tool_failures.contains_key(tool@) ==> (r == 0 || r == count_backoff(
                self@.tool_failures[tool@].0,
            )),
    {
        let now = now_millis();
        self.tool_backoff_at(tool, now)
    }

    /// Record the outcome of a tool call made at `now_ms`.
    pub fn on_tool_result_at(&mut self, tool: &str, success: bool, now_ms: i64)
        requires
            old(self).wf(),
            !success && old(self)@.tool_failures.contains_key(tool@) ==> old(
                self,
            )@.tool_failures[tool@].0 < u32::MAX,
        ensures
            final(self).wf(),
            final(self)@ == tool_result_spec(old(self)@, tool@, success, now_ms),
    {
        let ghost s0 = failure_views(self.tool_failures@);
        let found = self.find_tool(tool);
        proof {
            lemma_failures_map(s0);
        }
        if success {
            match found {
                Some(i) => {
                    self.tool_failures.remove(i);
                    proof {
                        assert(s0[i as int].0 == tool@);
                        lemma_failures_remove(s0, i as int);
                        assert(failure_views(self.tool_failures@) =~= s0.remove(i as int));
                    }
                },
                None => {
                    proof {
                        assert(failures_map(s0).remove(tool@) =~= failures_map(s0));
                    }
                },
            }
        } else {
            match found {
                Some(i) => {
                    proof {
                        assert(s0[i as int].0 == tool@);
                    }
                    let c = self.tool_failures[i].count;
                    let name = string_of(&crate::text::chars_of(tool));
                    self.tool_failures.set(
                        i,
                        ToolFailure { tool: name, count: c + 1, last_fail_ms: now_ms },
                    );
                    proof {
                        let x: FailureView = (tool@, (c + 1) as u32, now_ms);
                        lemma_failures_update(s0, i as int, x);
                        assert(failure_views(self.tool_failures@) =~= s0.update(i as int, x));
                    }
                },
                None => {
                    let name = string_of(&crate::text::chars_of(tool));
                    self.tool_failures.push(ToolFailure { tool: name, count: 1, last_fail_ms: now_ms });
                    proof {
                        let x: FailureView = (tool@, 1u32, now_ms);
                        lemma_failures_push(s0, x);
                        assert(failure_views(self.tool_failures@) =~= s0.push(x));
                    }
                },
            }
        }
    }

    /// Record the outcome of a tool call made now. The call's duration
    /// does not enter the decision.
    pub fn on_tool_result(&mut self, tool: &str, success: bool, _duration_ms: u64)
        requires
            old(self).wf(),
            !success && old(self)@.tool_failures.contains_key(tool@) ==> old(
                self,
            )@.tool_failures[tool@].0 < u32::MAX,
        ensures
            final(self).wf(),
            exists|now_ms: i64| final(self)@ == tool_result_spec(old(self)@, tool@, success, now_ms),
    {
        let now = now_millis();
        self.on_tool_result_at(tool, success, now);
    }

    /// Global error backoff from the consecutive error count, in seconds.
    pub fn error_backoff(&self) -> (r: u64)
        ensures
            r == error_backoff_spec(self@.consecutive_errors),
    {
        backoff_for(self.consecutive_errors)
    }

    /// The state after a turn of `total` calls, `failed` of which failed,
    /// completed at `now_ms`.
    pub fn on_turn_complete_at(&mut self, total_calls: u32, failed_calls: u32, now_ms: i64)
        requires
            old(self).wf(),
        ensures
            final(self).wf(),
            final(self)@ == turn_complete_spec(old(self)@, total_calls, failed_calls, now_ms),
    {
        let ok: u32 = total_calls.saturating_sub(failed_calls);
        let ok64: u64 = ok as u64;
        let total64: u64 = total_calls as u64;
        if total_calls == 0 || 5 * ok64 >= 4 * total64 {
            self.consecutive_errors = 0;
            self.low_progress_turns = 0;
            self.repeated_action_count = 0;
            if self.status == HealthStatus::Degraded {
                self.status = HealthStatus::Healthy;
                self.recovery_attempts = 0;
                self.last_recovery = Some(now_ms);
            }
        } else if 2 * ok64 < total64 {
            self.consecutive_errors = self.consecutive_errors.saturating_add(2);
            self.last_error = Some(now_ms);
            self.update_status_from_errors();
        } else {
            self.consecutive_errors = self.consecutive_errors.saturating_add(1);
            self.last_error = Some(now_ms);
            self.update_status_from_errors();
        }
    }

    /// Account for a finished turn now.
    pub fn on_turn_complete(&mut self, total_calls: u32, failed_calls: u32)
        requires
            old(self).wf(),
        ensures
            final(self).wf(),
            exists|now_ms: i64|
                final(self)@ == turn_complete_spec(old(self)@, total_calls, failed_calls, now_ms),
    {
        let now = now_millis();
        self.on_turn_complete_at(total_calls, failed_calls, now);
    }

    fn update_status_from_errors(&mut self)
        requires
            old(self).wf(),
        ensures
            final(self).wf(),
            final(self)@ == (PolicyView {
                status: status_from_errors(old(self)@.status, old(self)@.consecutive_errors),
                ..old(self)@
            }),
    {
        if self.consecutive_errors >= 6 {
            self.status = HealthStatus::NeedsAttention;
        } else if self.consecutive_errors >= 2 {
            self.status = HealthStatus::Degraded;
        }
    }

    /// Answer a model API error with HTTP status `status_code` at
    /// `now_ms`; authentication failures escalate, and the note to write
    /// comes back with the action.
    pub fn on_model_error_at(&mut self, status_code: u16, now_ms: i64, time_text: &str) -> (r: (
        ModelErrorAction,
        Option<Attention>,
    ))
        requires
            old(self).wf(),
        ensures
            final(self).wf(),
            final(self)@ == model_error_spec(old(self)@, status_code, now_ms),
            r.0 == model_error_action(old(self)@, status_code),
            match r.1 {
                Some(a) => (status_code == 401 || status_code == 403) && a.path@ == attention_path(
                    old(self)@.data_dir,
                ) && a.content@ == attention_text(
                    old(self)@.agent_name,
                    time_text@,
                    auth_reason(status_code),
                    auth_context(),
                ),
                None => !(status_code == 401 || status_code == 403),
            },
    {
        if status_code == 401 || status_code == 403 {
            let mut reason: Vec<char> = Vec::new();
            push_str(&mut reason, "Authentication error: HTTP ");
            let digits = u64_to_chars(status_code as u64);
            push_all(&mut reason, &digits);
            let reason_s = string_of(&reason);
            let note = self.escalate_at(
                reason_s.as_str(),
                "API key may be invalid or expired. Check credentials.",
                now_ms,
                time_text,
            );
            (ModelErrorAction::Escalated, Some(note))
        } else if status_code == 429 {
            (ModelErrorAction::RetryAfter(60), None)
        } else if 500 <= status_code && status_code <= 599 {
            self.consecutive_errors = self.consecutive_errors.saturating_add(1);
            self.last_error = Some(now_ms);
            let wait = self.error_backoff();
            (ModelErrorAction::RetryWithBackoff(wait), None)
        } else {
            self.status = HealthStatus::Degraded;
            (ModelErrorAction::NoRetry, None)
        }
    }

    /// Answer a model API error now.
    pub fn on_model_error(&mut self, status_code: u16) -> (r: (ModelErrorAction, Option<Attention>))
        requires
            old(self).wf(),
        ensures
            final(self).wf(),
            exists|now_ms: i64| final(self)@ == model_error_spec(old(self)@, status_code, now_ms),
            r.0 == model_error_action(old(self)@, status_code),
            match r.1 {
                Some(a) => (status_code == 401 || status_code == 403) && a.path@ == attention_path(
                    old(self)@.data_dir,
                ) && exists|time: Seq<char>|
                    rfc3339_text(time, "+00:00"@) && a.content@ == attention_text(
                        old(self)@.agent_name,
                        time,
                        auth_reason(status_code),
                        auth_context(),
                    ),
                None => !(status_code == 401 || status_code == 403),
            },
    {
        let now = now_millis();
        let time = now_rfc3339();
        self.on_model_error_at(status_code, now, time.as_str())
    }

    /// Escalate to NeedsAttention at `now_ms`; the note to write, stamped
    /// with `time_text`, comes back.
    pub fn escalate_at(&mut self, reason: &str, context: &str, now_ms: i64, time_text: &str) -> (r:
        Attention)
        requires
            old(self).wf(),
        ensures
            final(self).wf(),
            final(self)@ == escalate_spec(old(self)@, now_ms),
            r.path@ == attention_path(old(self)@.data_dir),
            r.content@ == attention_text(old(self)@.agent_name, time_text@, reason@, context@),
    {
        self.status = HealthStatus::NeedsAttention;
        self.attention_created_at = Some(now_ms);
        let path = join_str(self.data_dir.as_str(), "ATTENTION.md");
        let mut out: Vec<char> = Vec::new();
        push_str(&mut out, "# Attention Required\n\n**Agent:** ");
        push_str(&mut out, self.agent_name.as_str());
        push_str(&mut out, "\n**Time:** ");
        push_str(&mut out, time_text);
        push_str(&mut out, "\n**Reason:** ");
        push_str(&mut out, reason);
        push_str(&mut out, "\n\n## Context\n\n");
        push_str(&mut out, context);
        push_str(
            &mut out,
            "\n\n## To Clear\n\nDelete this file after addressing the issue.\n\n---\n\n## Response\n\n(Add your response here)\n",
        );
        Attention { path, content: string_of(&out) }
    }

    /// Escalate to NeedsAttention now; the note to write comes back.
    pub fn escalate(&mut self, reason: &str, context: &str) -> (r: Attention)
        requires
            old(self).wf(),
        ensures
            final(self).wf(),
            exists|now_ms: i64| final(self)@ == escalate_spec(old(self)@, now_ms),
            r.path@ == attention_path(old(self)@.data_dir),
            exists|time: Seq<char>|
                rfc3339_text(time, "+00:00"@) && r.content@ == attention_text(
                    old(self)@.agent_name,
                    time,
                    reason@,
                    context@,
                ),
    {
        let now = now_millis();
        let time = now_rfc3339();
        self.escalate_at(reason, context, now, time.as_str())
    }
}

/// `error_backoff_spec` computed.
fn backoff_for(errors: u32) -> (r: u64)
    ensures
        r == error_backoff_spec(errors),
{
    proof {
        lemma2_to64();
    }
    if errors == 0 {
        0
    } else if errors == 1 {
        60
    } else if errors == 2 {
        120
    } else if errors == 3 {
        240
    } else if errors == 4 {
        480
    } else {
        proof {
            if errors > 5 {
                lemma_pow2_strictly_increases(4, (errors - 1) as nat);
            }
        }
        900
    }
}

// ---------------------------------------------------------------------
// Laws
// ---------------------------------------------------------------------

/// A tool's backoff never exceeds eight minutes.
pub proof fn law_tool_backoff_capped(failures: Map<Seq<char>, (u32, i64)>, tool: Seq<char>, now_ms: i64)
    ensures
        tool_backoff_spec(failures, tool, now_ms) <= TOOL_BACKOFF_CAP_SECS,
{
}

/// The global backoff never exceeds fifteen minutes.
pub proof fn law_error_backoff_capped(errors: u32)
    ensures
        error_backoff_spec(errors) <= BACKOFF_CAP_SECS,
{
}

/// More consecutive errors never shorten the global backoff.
pub proof fn law_error_backoff_monotone(a: u32, b: u32)
    requires
        a <= b,
    ensures
        error_backoff_spec(a) <= error_backoff_spec(b),
{
    if 0 < a < b {
        lemma_pow2_strictly_increases((a - 1) as nat, (b - 1) as nat);
    }
}

/// A successful call clears the tool's backoff at any time.
pub proof fn law_success_clears_backoff(v: PolicyView, tool: Seq<char>, now_ms: i64, later_ms: i64)
    ensures
        tool_backoff_spec(tool_result_spec(v, tool, true, now_ms).tool_failures, tool, later_ms) == 0,
{
}

/// A tool's outcome leaves every other tool's record as it was.
pub proof fn law_tool_results_independent(
    v: PolicyView,
    tool: Seq<char>,
    other: Seq<char>,
    success: bool,
    now_ms: i64,
)
    requires
        tool != other,
    ensures
        tool_result_spec(v, tool, success, now_ms).tool_failures.contains_key(other)
            == v.tool_failures.contains_key(other),
        v.tool_failures.contains_key(other) ==> tool_result_spec(
            v,
            tool,
            success,
            now_ms,
        ).tool_failures[other] == v.tool_failures[other],
{
}

/// Repeated failures without decay escalate the tool's backoff to the
/// cap: after the fifth failure in a row it is eight minutes.
pub proof fn law_failures_escalate_backoff(v: PolicyView, tool: Seq<char>, now_ms: i64)
    requires
        !v.tool_failures.contains_key(tool),
    ensures
        ({
            let v1 = tool_result_spec(v, tool, false, now_ms);
            let v2 = tool_result_spec(v1, tool, false, now_ms);
            let v3 = tool_result_spec(v2, tool, false, now_ms);
            let v4 = tool_result_spec(v3, tool, false, now_ms);
            let v5 = tool_result_spec(v4, tool, false, now_ms);
            &&& tool_backoff_spec(v1.tool_failures, tool, now_ms) == 0
            &&& tool_backoff_spec(v2.tool_failures, tool, now_ms) == 60
            &&& tool_backoff_spec(v3.tool_failures, tool, now_ms) == 120
            &&& tool_backoff_spec(v4.tool_failures, tool, now_ms) == 240
            &&& tool_backoff_spec(v5.tool_failures, tool, now_ms) == 480
        }),
{
}

/// A clean turn clears the error count, and the agent is not left
/// degraded by it.
pub proof fn law_clean_turn_recovers(v: PolicyView, total: u32, failed: u32, now_ms: i64)
    requires
        clean_turn(total, failed),
    ensures
        turn_complete_spec(v, total, failed, now_ms).consecutive_errors == 0,
        turn_complete_spec(v, total, failed, now_ms).status != HealthStatus::Degraded,
        v.status == HealthStatus::NeedsAttention ==> turn_complete_spec(
            v,
            total,
            failed,
            now_ms,
        ).status == HealthStatus::NeedsAttention,
{
}

/// A turn that is not clean adds one error, or two when fewer than half
/// its calls succeeded, and six errors or more need attention.
pub proof fn law_failing_turn_accumulates(v: PolicyView, total: u32, failed: u32, now_ms: i64)
    requires
        !clean_turn(total, failed),
        v.consecutive_errors <= u32::MAX - 2,
    ensures
        turn_complete_spec(v, total, failed, now_ms).consecutive_errors == v.consecutive_errors + (
        if bad_turn(total, failed) {
            2int
        } else {
            1int
        }),
        turn_complete_spec(v, total, failed, now_ms).consecutive_errors >= 6
            ==> turn_complete_spec(v, total, failed, now_ms).status == HealthStatus::NeedsAttention,
        turn_complete_spec(v, total, failed, now_ms).consecutive_errors >= 2
            ==> turn_complete_spec(v, total, failed, now_ms).status != HealthStatus::Healthy,
{
}

/// Only the first two errors after a clean stretch fall short of
/// degrading: from a healthy start, three fully failing turns need
/// attention.
pub proof fn law_three_failed_turns_need_attention(v: PolicyView, now_ms: i64)
    requires
        v.consecutive_errors == 0,
    ensures
        turn_complete_spec(
            turn_complete_spec(turn_complete_spec(v, 1, 1, now_ms), 1, 1, now_ms),
            1,
            1,
            now_ms,
        ).status == HealthStatus::NeedsAttention,
{
}

} // verus!
