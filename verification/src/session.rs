//! Sessions: the primary session's counters and clock, and what
//! survives a restart of the memory slot (flash snapshots, the channel
//! the agent was last talking in).

use vstd::prelude::*;
use crate::memory::{Flash, FlashView};
use crate::paths::{join, join_str};
use crate::record::RecordIndex;
use crate::text::views;

verus! {

/// Session identifier of the primary session.
pub const PRIMARY_SESSION_ID: &'static str = "main";

/// Version stamped into `session.json`; other versions are ignored.
pub const SESSION_VERSION: u32 = 1;

/// Wall clock, whole seconds since the Unix epoch (zero before it).
#[verifier::external_body]
pub(crate) fn unix_now_secs() -> i64 {
    std::time::SystemTime::now()
        .duration_since(std::time::UNIX_EPOCH)
        .unwrap_or_default()
        .as_secs() as i64
}

/// Session state tracking.
#[derive(Debug)]
pub struct Session {
    /// Session identifier
    pub id: String,
    /// When the session was created (Unix seconds)
    pub created_at: i64,
    /// When the session was last active (Unix seconds)
    pub last_active_at: i64,
    /// Cycles completed in this session
    pub cycle_count: u64,
    /// Messages processed in this session
    pub message_count: u64,
    /// Whether this is the primary session
    pub is_primary: bool,
}

/// Seconds from `from` to `now`, never negative.
pub open spec fn elapsed(from: i64, now: i64) -> u64 {
    if now - from <= 0 {
        0
    } else {
        (now - from) as u64
    }
}

fn elapsed_secs(from: i64, now: i64) -> (r: u64)
    ensures
        r == elapsed(from, now),
{
    let d: i128 = now as i128 - from as i128;
    if d <= 0 {
        0
    } else {
        d as u64
    }
}

impl Session {
    /// The primary session, created at `now`.
    pub fn primary_at(now: i64) -> (r: Self)
        ensures
            r.id@ == PRIMARY_SESSION_ID@,
            r.created_at == now,
            r.last_active_at == now,
            r.cycle_count == 0,
            r.message_count == 0,
            r.is_primary,
    {
        Session {
            id: PRIMARY_SESSION_ID.to_string(),
            created_at: now,
            last_active_at: now,
            cycle_count: 0,
            message_count: 0,
            is_primary: true,
        }
    }

    /// The primary session, created now.
    pub fn primary() -> (r: Self)
        ensures
            r.id@ == PRIMARY_SESSION_ID@,
            r.created_at == r.last_active_at,
            r.cycle_count == 0,
            r.message_count == 0,
            r.is_primary,
    {
        Session::primary_at(unix_now_secs())
    }

    /// A sub-session under a generated `id`, created at `now`.
    pub fn sub_session_at(id: String, now: i64) -> (r: Self)
        ensures
            r.id@ == id@,
            r.created_at == now,
            r.last_active_at == now,
            r.cycle_count == 0,
            r.message_count == 0,
            !r.is_primary,
    {
        Session {
            id,
            created_at: now,
            last_active_at: now,
            cycle_count: 0,
            message_count: 0,
            is_primary: false,
        }
    }

    /// A sub-session under a generated `id`, created now.
    pub fn sub_session(id: String) -> (r: Self)
        ensures
            r.id@ == id@,
            r.created_at == r.last_active_at,
            r.cycle_count == 0,
            r.message_count == 0,
            !r.is_primary,
    {
        Session::sub_session_at(id, unix_now_secs())
    }

    /// A cycle completed at `now`.
    pub fn record_cycle_at(&mut self, now: i64)
        requires
            old(self).cycle_count < u64::MAX,
        ensures
            final(self).cycle_count == old(self).cycle_count + 1,
            final(self).last_active_at == now,
            final(self).id == old(self).id,
            final(self).created_at == old(self).created_at,
            final(self).message_count == old(self).message_count,
            final(self).is_primary == old(self).is_primary,
    {
        self.cycle_count = self.cycle_count + 1;
        self.last_active_at = now;
    }

    /// A cycle completed now.
    pub fn record_cycle(&mut self)
        requires
            old(self).cycle_count < u64::MAX,
        ensures
            final(self).cycle_count == old(self).cycle_count + 1,
            final(self).id == old(self).id,
            final(self).created_at == old(self).created_at,
            final(self).message_count == old(self).message_count,
            final(self).is_primary == old(self).is_primary,
    {
        let now = unix_now_secs();
        self.record_cycle_at(now);
    }

    /// `count` messages processed at `now`.
    pub fn record_messages_at(&mut self, count: u64, now: i64)
        requires
            old(self).message_count + count <= u64::MAX,
        ensures
            final(self).message_count == old(self).message_count + count,
            final(self).last_active_at == now,
            final(self).id == old(self).id,
            final(self).created_at == old(self).created_at,
            final(self).cycle_count == old(self).cycle_count,
            final(self).is_primary == old(self).is_primary,
    {
        self.message_count = self.message_count + count;
        self.last_active_at = now;
    }

    /// `count` messages processed now.
    pub fn record_messages(&mut self, count: u64)
        requires
            old(self).message_count + count <= u64::MAX,
        ensures
            final(self).message_count == old(self).message_count + count,
            final(self).id == old(self).id,
            final(self).created_at == old(self).created_at,
            final(self).cycle_count == old(self).cycle_count,
            final(self).is_primary == old(self).is_primary,
    {
        let now = unix_now_secs();
        self.record_messages_at(count, now);
    }

    /// Mark the session active now.
    pub fn update_last_active(&mut self)
        ensures
            final(self).id == old(self).id,
            final(self).created_at == old(self).created_at,
            final(self).cycle_count == old(self).cycle_count,
            final(self).message_count == old(self).message_count,
            final(self).is_primary == old(self).is_primary,
    {
        self.last_active_at = unix_now_secs();
    }

    /// Seconds since creation at `now`.
    pub fn uptime_seconds_at(&self, now: i64) -> (r: u64)
        ensures
            r == elapsed(self.created_at, now),
    {
        elapsed_secs(self.created_at, now)
    }

    /// Seconds since creation.
    pub fn uptime_seconds(&self) -> (r: u64)
        ensures
            exists|now: i64| r == elapsed(self.created_at, now),
    {
        self.uptime_seconds_at(unix_now_secs())
    }

    /// Seconds since the last activity at `now`.
    pub fn idle_seconds_at(&self, now: i64) -> (r: u64)
        ensures
            r == elapsed(self.last_active_at, now),
    {
        elapsed_secs(self.last_active_at, now)
    }

    /// Seconds since the last activity.
    pub fn idle_seconds(&self) -> (r: u64)
        ensures
            exists|now: i64| r == elapsed(self.last_active_at, now),
    {
        self.idle_seconds_at(unix_now_secs())
    }

    /// The session's statistics at `now`.
    pub fn stats_at(&self, now: i64) -> (r: SessionStats)
        ensures
            r.session_id@ == self.id@,
            r.uptime_seconds == elapsed(self.created_at, now),
            r.cycle_count == self.cycle_count,
            r.message_count == self.message_count,
            r.idle_seconds == elapsed(self.last_active_at, now),
    {
        SessionStats {
            session_id: self.id.clone(),
            uptime_seconds: self.uptime_seconds_at(now),
            cycle_count: self.cycle_count,
            message_count: self.message_count,
            idle_seconds: self.idle_seconds_at(now),
        }
    }
}

/// Session statistics for reporting.
#[derive(Debug)]
pub struct SessionStats {
    pub session_id: String,
    pub uptime_seconds: u64,
    pub cycle_count: u64,
    pub message_count: u64,
    pub idle_seconds: u64,
}

/// The sessions of one agent: the primary session, and sub-sessions
/// kept for later use.
#[derive(Debug)]
pub struct SessionManager {
    primary: Session,
    sub_sessions: Vec<Session>,
}

impl SessionManager {
    pub closed spec fn primary_spec(&self) -> Session {
        self.primary
    }

    pub closed spec fn sub_session_count(&self) -> nat {
        self.sub_sessions@.len()
    }

    /// A manager whose primary session was created at `now`.
    pub fn new_at(now: i64) -> (r: Self)
        ensures
            r.primary_spec().id@ == PRIMARY_SESSION_ID@,
            r.primary_spec().created_at == now,
            r.primary_spec().last_active_at == now,
            r.primary_spec().cycle_count == 0,
            r.primary_spec().message_count == 0,
            r.primary_spec().is_primary,
            r.sub_session_count() == 0,
    {
        SessionManager { primary: Session::primary_at(now), sub_sessions: Vec::new() }
    }

    /// A manager whose primary session starts now.
    pub fn new() -> (r: Self)
        ensures
            r.primary_spec().id@ == PRIMARY_SESSION_ID@,
            r.primary_spec().created_at == r.primary_spec().last_active_at,
            r.primary_spec().cycle_count == 0,
            r.primary_spec().message_count == 0,
            r.primary_spec().is_primary,
            r.sub_session_count() == 0,
    {
        SessionManager::new_at(unix_now_secs())
    }

    /// The primary session.
    pub fn primary(&self) -> (r: &Session)
        ensures
            *r == self.primary_spec(),
    {
        &self.primary
    }

    /// The primary session, to change in place.
    pub fn primary_mut(&mut self) -> (r: &mut Session)
        ensures
            *r == old(self).primary_spec(),
            final(self).primary_spec() == *final(r),
            final(self).sub_session_count() == old(self).sub_session_count(),
    {
        &mut self.primary
    }

    /// The session turns run in: the primary one.
    pub fn current_session_id(&self) -> (r: &str)
        ensures
            r@ == self.primary_spec().id@,
    {
        self.primary.id.as_str()
    }

    /// A cycle completed on the primary session at `now`.
    pub fn record_cycle_at(&mut self, now: i64)
        requires
            old(self).primary_spec().cycle_count < u64::MAX,
        ensures
            final(self).primary_spec().cycle_count == old(self).primary_spec().cycle_count + 1,
            final(self).primary_spec().last_active_at == now,
            final(self).primary_spec().id == old(self).primary_spec().id,
            final(self).primary_spec().created_at == old(self).primary_spec().created_at,
            final(self).primary_spec().message_count == old(self).primary_spec().message_count,
            final(self).primary_spec().is_primary == old(self).primary_spec().is_primary,
            final(self).sub_session_count() == old(self).sub_session_count(),
    {
        self.primary.record_cycle_at(now);
    }

    /// A cycle completed on the primary session now.
    pub fn record_cycle(&mut self)
        requires
            old(self).primary_spec().cycle_count < u64::MAX,
        ensures
            final(self).primary_spec().cycle_count == old(self).primary_spec().cycle_count + 1,
            final(self).primary_spec().id == old(self).primary_spec().id,
            final(self).primary_spec().created_at == old(self).primary_spec().created_at,
            final(self).primary_spec().message_count == old(self).primary_spec().message_count,
            final(self).primary_spec().is_primary == old(self).primary_spec().is_primary,
            final(self).sub_session_count() == old(self).sub_session_count(),
    {
        self.primary.record_cycle();
    }

    /// `count` messages processed on the primary session at `now`.
    pub fn record_messages_at(&mut self, count: u64, now: i64)
        requires
            old(self).primary_spec().message_count + count <= u64::MAX,
        ensures
            final(self).primary_spec().message_count == old(self).primary_spec().message_count
                + count,
            final(self).primary_spec().last_active_at == now,
            final(self).primary_spec().id == old(self).primary_spec().id,
            final(self).primary_spec().created_at == old(self).primary_spec().created_at,
            final(self).primary_spec().cycle_count == old(self).primary_spec().cycle_count,
            final(self).primary_spec().is_primary == old(self).primary_spec().is_primary,
            final(self).sub_session_count() == old(self).sub_session_count(),
    {
        self.primary.record_messages_at(count, now);
    }

    /// `count` messages processed on the primary session now.
    pub fn record_messages(&mut self, count: u64)
        requires
            old(self).primary_spec().message_count + count <= u64::MAX,
        ensures
            final(self).primary_spec().message_count == old(self).primary_spec().message_count
                + count,
            final(self).primary_spec().id == old(self).primary_spec().id,
            final(self).primary_spec().created_at == old(self).primary_spec().created_at,
            final(self).primary_spec().cycle_count == old(self).primary_spec().cycle_count,
            final(self).primary_spec().is_primary == old(self).primary_spec().is_primary,
            final(self).sub_session_count() == old(self).sub_session_count(),
    {
        self.primary.record_messages(count);
    }

    /// The primary session's statistics at `now`.
    pub fn stats_at(&self, now: i64) -> (r: SessionStats)
        ensures
            r.session_id@ == self.primary_spec().id@,
            r.uptime_seconds == elapsed(self.primary_spec().created_at, now),
            r.cycle_count == self.primary_spec().cycle_count,
            r.message_count == self.primary_spec().message_count,
            r.idle_seconds == elapsed(self.primary_spec().last_active_at, now),
    {
        self.primary.stats_at(now)
    }

    /// The primary session's statistics now.
    pub fn stats(&self) -> (r: SessionStats)
        ensures
            r.session_id@ == self.primary_spec().id@,
            r.cycle_count == self.primary_spec().cycle_count,
            r.message_count == self.primary_spec().message_count,
            exists|now: i64|
                r.uptime_seconds == elapsed(self.primary_spec().created_at, now)
                    && r.idle_seconds == elapsed(self.primary_spec().last_active_at, now),
    {
        self.primary.stats_at(unix_now_secs())
    }
}

/// One row of the memory slot's active flashes at snapshot time; the
/// countdown continues from `remaining` after resume.
#[derive(Debug)]
pub struct FlashSnapshot {
    pub note_id: String,
    pub text: String,
    pub neighbors: Vec<(String, String)>,
    pub remaining: u8,
}

/// A flash snapshot as plain values.
pub struct FlashSnapshotView {
    pub note_id: Seq<char>,
    pub text: Seq<char>,
    pub neighbors: Seq<(Seq<char>, Seq<char>)>,
    pub remaining: u8,
}

impl View for FlashSnapshot {
    type V = FlashSnapshotView;

    open spec fn view(&self) -> FlashSnapshotView {
        FlashSnapshotView {
            note_id: self.note_id@,
            text: self.text@,
            neighbors: views::<(String, String)>(self.neighbors@),
            remaining: self.remaining,
        }
    }
}

/// The snapshot of an active flash.
pub open spec fn snapshot_of(active: (FlashView, u8)) -> FlashSnapshotView {
    FlashSnapshotView {
        note_id: active.0.note_id,
        text: active.0.text,
        neighbors: active.0.neighbors,
        remaining: active.1,
    }
}

/// The active flash a snapshot restores.
pub open spec fn active_of(s: FlashSnapshotView) -> (FlashView, u8) {
    (FlashView { note_id: s.note_id, text: s.text, neighbors: s.neighbors }, s.remaining)
}

fn copy_pairs(v: &Vec<(String, String)>) -> (r: Vec<(String, String)>)
    ensures
        views::<(String, String)>(r@) == views::<(String, String)>(v@),
{
    let mut r: Vec<(String, String)> = Vec::new();
    let mut i: usize = 0;
    while i < v.len()
        invariant
            i <= v@.len(),
            r@.len() == i,
            forall|j: int| 0 <= j < i ==> (#[trigger] r@[j])@ == v@[j]@,
        decreases v@.len() - i,
    {
        let a = v[i].0.clone();
        let b = v[i].1.clone();
        r.push((a, b));
        i = i + 1;
    }
    proof {
        assert(views::<(String, String)>(r@) =~= views::<(String, String)>(v@));
    }
    r
}

impl FlashSnapshot {
    /// The snapshot of an active flash and its remaining countdown.
    pub fn from(value: &(Flash, u8)) -> (r: FlashSnapshot)
        ensures
            r@ == snapshot_of((value.0@, value.1)),
    {
        FlashSnapshot {
            note_id: value.0.note_id.clone(),
            text: value.0.text.clone(),
            neighbors: copy_pairs(&value.0.neighbors),
            remaining: value.1,
        }
    }

    /// Back to an active flash and its countdown.
    pub fn into_active(self) -> (r: (Flash, u8))
        ensures
            (r.0@, r.1) == active_of(self@),
    {
        (Flash { note_id: self.note_id, text: self.text, neighbors: self.neighbors }, self.remaining)
    }
}

/// Snapshotting an active flash and restoring it gives back the flash
/// and its countdown unchanged.
pub proof fn law_flash_snapshot_round_trip(active: (FlashView, u8))
    ensures
        active_of(snapshot_of(active)) == active,
{
}

/// `workspace/record/turns.jsonl`: the conversation record.
pub fn turns_path(workspace: &str) -> (r: String)
    ensures
        r@ == join(join(workspace@, "record"@), "turns.jsonl"@),
{
    let a = join_str(workspace, "record");
    join_str(a.as_str(), "turns.jsonl")
}

/// Where the agent was last talking: the channel of the record's last
/// line, or `None` for an empty record.
pub fn channel_from_record_tail(record: &RecordIndex) -> (r: Option<String>)
    requires
        record.wf(),
    ensures
        match r {
            Some(c) => record@.len() > 0 && c@ == record@.last().channel,
            None => record@.len() == 0,
        },
{
    match crate::record::tail(record) {
        Some(line) => Some(line.channel),
        None => None,
    }
}

} // verus!
