//! The subagent registry: which subagents the parent agent has started,
//! what state each one is in, and when finished ones are forgotten. The
//! tasks themselves, their message queues and shutdown channels belong to
//! the runtime around the library; ids come from its id generator.

use vstd::prelude::*;
use crate::model::opt_string_view;
use crate::text::{decimal, push_all, push_str, string_of, u64_to_chars};

verus! {

/// What a subagent is for.
#[derive(Debug, Clone, Copy, PartialEq, Eq, Structural)]
pub enum SubagentType {
    TaskWorker,
    LongRunning,
}

/// Where a subagent is in its life.
#[derive(Debug, Clone, Copy, PartialEq, Eq, Structural)]
pub enum SubagentStatus {
    Starting,
    Running,
    Completed,
    Failed,
    Stopped,
}

/// A finished subagent: completed, failed or stopped.
pub open spec fn terminal(s: SubagentStatus) -> bool {
    s == SubagentStatus::Completed || s == SubagentStatus::Failed || s == SubagentStatus::Stopped
}

pub open spec fn status_name(s: SubagentStatus) -> Seq<char> {
    match s {
        SubagentStatus::Starting => "starting"@,
        SubagentStatus::Running => "running"@,
        SubagentStatus::Completed => "completed"@,
        SubagentStatus::Failed => "failed"@,
        SubagentStatus::Stopped => "stopped"@,
    }
}

impl SubagentStatus {
    pub fn is_terminal(&self) -> (b: bool)
        ensures
            b == terminal(*self),
    {
        match self {
            SubagentStatus::Completed | SubagentStatus::Failed | SubagentStatus::Stopped => true,
            _ => false,
        }
    }

    /// The status as a lowercase word.
    pub fn name(&self) -> (r: &'static str)
        ensures
            r@ == status_name(*self),
    {
        match self {
            SubagentStatus::Starting => "starting",
            SubagentStatus::Running => "running",
            SubagentStatus::Completed => "completed",
            SubagentStatus::Failed => "failed",
            SubagentStatus::Stopped => "stopped",
        }
    }
}

/// What the registry knows of one subagent.
#[derive(Debug)]
pub struct SubagentInfo {
    pub id: u64,
    pub subagent_type: SubagentType,
    pub task: String,
    pub model: String,
    pub status: SubagentStatus,
    pub result: Option<String>,
    pub error: Option<String>,
    /// Seconds since the Unix epoch at which it finished.
    pub completed_at: Option<i64>,
}

pub struct SubagentInfoView {
    pub id: u64,
    pub subagent_type: SubagentType,
    pub task: Seq<char>,
    pub model: Seq<char>,
    pub status: SubagentStatus,
    pub result: Option<Seq<char>>,
    pub error: Option<Seq<char>>,
    pub completed_at: Option<i64>,
}

impl View for SubagentInfo {
    type V = SubagentInfoView;

    open spec fn view(&self) -> SubagentInfoView {
        SubagentInfoView {
            id: self.id,
            subagent_type: self.subagent_type,
            task: self.task@,
            model: self.model@,
            status: self.status,
            result: opt_string_view(self.result),
            error: opt_string_view(self.error),
            completed_at: self.completed_at,
        }
    }
}

fn copy_opt(o: &Option<String>) -> (r: Option<String>)
    ensures
        opt_string_view(r) == opt_string_view(*o),
{
    match o {
        Some(s) => Some(s.clone()),
        None => None,
    }
}

/// A freshly registered subagent: starting, with no outcome yet.
pub open spec fn starting_info(
    id: u64,
    subagent_type: SubagentType,
    task: Seq<char>,
    model: Seq<char>,
) -> SubagentInfoView {
    SubagentInfoView {
        id,
        subagent_type,
        task,
        model,
        status: SubagentStatus::Starting,
        result: None,
        error: None,
        completed_at: None,
    }
}

pub open spec fn with_status(e: SubagentInfoView, status: SubagentStatus) -> SubagentInfoView {
    SubagentInfoView { status, ..e }
}

/// Finished with `status` at `now`, keeping what else it had.
pub open spec fn finished(e: SubagentInfoView, status: SubagentStatus, now: i64) -> SubagentInfoView {
    SubagentInfoView { status, completed_at: Some(now), ..e }
}

impl SubagentInfo {
    pub fn new(id: u64, subagent_type: SubagentType, task: String, model: String) -> (r:
        SubagentInfo)
        ensures
            r@ == starting_info(id, subagent_type, task@, model@),
    {
        SubagentInfo {
            id,
            subagent_type,
            task,
            model,
            status: SubagentStatus::Starting,
            result: None,
            error: None,
            completed_at: None,
        }
    }

    /// An owned copy of this record.
    pub fn duplicate(&self) -> (r: SubagentInfo)
        ensures
            r@ == self@,
    {
        SubagentInfo {
            id: self.id,
            subagent_type: self.subagent_type,
            task: self.task.clone(),
            model: self.model.clone(),
            status: self.status,
            result: copy_opt(&self.result),
            error: copy_opt(&self.error),
            completed_at: self.completed_at,
        }
    }
}

// ---------------------------------------------------------------------
// The registry as a sequence of records with distinct ids
// ---------------------------------------------------------------------

pub open spec fn ids_distinct(s: Seq<SubagentInfoView>) -> bool {
    forall|i: int, j: int| 0 <= i < s.len() && 0 <= j < s.len() && i != j ==> s[i].id != s[j].id
}

pub open spec fn has_id(s: Seq<SubagentInfoView>, id: u64) -> bool {
    exists|i: int| 0 <= i < s.len() && s[i].id == id
}

/// Where the record of `id` stands, when there is one.
pub open spec fn index_of(s: Seq<SubagentInfoView>, id: u64) -> int {
    choose|i: int| 0 <= i < s.len() && s[i].id == id
}

/// The record of `id`, if the registry has one.
pub open spec fn lookup(s: Seq<SubagentInfoView>, id: u64) -> Option<SubagentInfoView> {
    if has_id(s, id) {
        Some(s[index_of(s, id)])
    } else {
        None
    }
}

/// `s` with the record of `id` replaced by `e`; unchanged when `id` has
/// no record.
pub open spec fn replaced(s: Seq<SubagentInfoView>, id: u64, e: SubagentInfoView) -> Seq<SubagentInfoView> {
    if has_id(s, id) {
        s.update(index_of(s, id), e)
    } else {
        s
    }
}

/// The registry once `id` completed at `now` with `result`.
pub open spec fn completed_spec(s: Seq<SubagentInfoView>, id: u64, result: Seq<char>, now: i64) -> Seq<
    SubagentInfoView,
> {
    match lookup(s, id) {
        Some(e) => replaced(
            s,
            id,
            SubagentInfoView { result: Some(result), ..finished(e, SubagentStatus::Completed, now) },
        ),
        None => s,
    }
}

/// The registry once `id` failed at `now` with `error`.
pub open spec fn failed_spec(s: Seq<SubagentInfoView>, id: u64, error: Seq<char>, now: i64) -> Seq<
    SubagentInfoView,
> {
    match lookup(s, id) {
        Some(e) => replaced(
            s,
            id,
            SubagentInfoView { error: Some(error), ..finished(e, SubagentStatus::Failed, now) },
        ),
        None => s,
    }
}

/// The number of subagents that have not finished.
pub open spec fn active_spec(s: Seq<SubagentInfoView>) -> nat
    decreases s.len(),
{
    if s.len() == 0 {
        0
    } else {
        active_spec(s.drop_last()) + if terminal(s.last().status) {
            0nat
        } else {
            1nat
        }
    }
}

/// A record `cleanup_completed` keeps at `now`: any unfinished one, any
/// finished one without a finishing time, and any that finished less than
/// `max_age_secs` ago.
pub open spec fn kept(e: SubagentInfoView, max_age_secs: i64, now: i64) -> bool {
    !terminal(e.status) || match e.completed_at {
        Some(c) => now - c < max_age_secs,
        None => true,
    }
}

/// The records kept, in order.
pub open spec fn kept_spec(s: Seq<SubagentInfoView>, max_age_secs: i64, now: i64) -> Seq<
    SubagentInfoView,
>
    decreases s.len(),
{
    if s.len() == 0 {
        s
    } else if kept(s.last(), max_age_secs, now) {
        kept_spec(s.drop_last(), max_age_secs, now).push(s.last())
    } else {
        kept_spec(s.drop_last(), max_age_secs, now)
    }
}

pub open spec fn not_found_message(id: u64) -> Seq<char> {
    "Subagent "@ + decimal(id as nat) + " not found"@
}

pub open spec fn terminal_message(id: u64, status: SubagentStatus) -> Seq<char> {
    "Subagent "@ + decimal(id as nat) + " is already in terminal state: "@ + status_name(status)
}

/// What `stop` answers and leaves at `now`.
pub open spec fn stop_spec(s: Seq<SubagentInfoView>, id: u64, now: i64) -> (
    Result<(), Seq<char>>,
    Seq<SubagentInfoView>,
) {
    match lookup(s, id) {
        None => (Err(not_found_message(id)), s),
        Some(e) => if terminal(e.status) {
            (Err(terminal_message(id, e.status)), s)
        } else {
            (Ok(()), replaced(s, id, finished(e, SubagentStatus::Stopped, now)))
        },
    }
}

/// Central manager for all subagents.
pub struct SubagentManager {
    entries: Vec<SubagentInfo>,
}

impl View for SubagentManager {
    type V = Seq<SubagentInfoView>;

    closed spec fn view(&self) -> Seq<SubagentInfoView> {
        self.entries@.map_values(|e: SubagentInfo| e@)
    }
}

impl SubagentManager {
    pub closed spec fn wf(&self) -> bool {
        ids_distinct(self@)
    }

    pub fn new() -> (r: SubagentManager)
        ensures
            r.wf(),
            r@ == Seq::<SubagentInfoView>::empty(),
    {
        let r = SubagentManager { entries: Vec::new() };
        proof {
            assert(r@ =~= Seq::<SubagentInfoView>::empty());
        }
        r
    }

    /// Where the record of `id` stands.
    fn position(&self, id: u64) -> (r: Option<usize>)
        requires
            self.wf(),
        ensures
            match r {
                Some(i) => has_id(self@, id) && i == index_of(self@, id) && i < self@.len(),
                None => !has_id(self@, id),
            },
    {
        let mut i: usize = 0;
        while i < self.entries.len()
            invariant
                i <= self.entries@.len(),
                self@.len() == self.entries@.len(),
                self@ == self.entries@.map_values(|e: SubagentInfo| e@),
                ids_distinct(self@),
                forall|k: int| 0 <= k < i ==> self@[k].id != id,
            decreases self.entries@.len() - i,
        {
            if self.entries[i].id == id {
                proof {
                    assert(self@[i as int].id == id);
                    let j = index_of(self@, id);
                    assert(0 <= j < self@.len() && self@[j].id == id);
                }
                return Some(i);
            }
            i = i + 1;
        }
        None
    }

    /// Put `e` in the place of the record at `i`.
    fn put(&mut self, i: usize, e: SubagentInfo)
        requires
            old(self).wf(),
            i < old(self)@.len(),
            e.id == old(self)@[i as int].id,
        ensures
            final(self).wf(),
            final(self)@ == old(self)@.update(i as int, e@),
    {
        proof {
            assert(self@.len() == self.entries@.len());
        }
        let ghost before = self@;
        self.entries.set(i, e);
        proof {
            assert(self@ =~= before.update(i as int, e@));
        }
    }

    /// Register a subagent under `id`, starting, replacing any record the
    /// id had.
    pub fn register(&mut self, id: u64, subagent_type: SubagentType, task: String, model: String)
        requires
            old(self).wf(),
        ensures
            final(self).wf(),
            final(self)@ == if has_id(old(self)@, id) {
                old(self)@.update(
                    index_of(old(self)@, id),
                    starting_info(id, subagent_type, task@, model@),
                )
            } else {
                old(self)@.push(starting_info(id, subagent_type, task@, model@))
            },
    {
        let info = SubagentInfo::new(id, subagent_type, task, model);
        match self.position(id) {
            Some(i) => self.put(i, info),
            None => {
                let ghost before = self@;
                self.entries.push(info);
                proof {
                    assert(self@ =~= before.push(starting_info(id, subagent_type, task@, model@)));
                    assert forall|i: int, j: int|
                        0 <= i < self@.len() && 0 <= j < self@.len() && i != j implies self@[i].id
                        != self@[j].id by {
                        if i < before.len() && j < before.len() {
                        } else if i < before.len() {
                            assert(before[i].id != id);
                        } else {
                            assert(before[j].id != id);
                        }
                    }
                }
            },
        }
    }

    /// Set the status of the subagent `id`; nothing when there is none.
    pub fn set_status(&mut self, id: u64, status: SubagentStatus)
        requires
            old(self).wf(),
        ensures
            final(self).wf(),
            final(self)@ == match lookup(old(self)@, id) {
                Some(e) => replaced(old(self)@, id, with_status(e, status)),
                None => old(self)@,
            },
    {
        match self.position(id) {
            Some(i) => {
                let mut e = self.entries[i].duplicate();
                e.status = status;
                self.put(i, e);
            },
            None => {},
        }
    }

    /// Mark the subagent `id` running.
    pub fn set_running(&mut self, id: u64)
        requires
            old(self).wf(),
        ensures
            final(self).wf(),
            final(self)@ == match lookup(old(self)@, id) {
                Some(e) => replaced(old(self)@, id, with_status(e, SubagentStatus::Running)),
                None => old(self)@,
            },
    {
        self.set_status(id, SubagentStatus::Running)
    }

    /// Mark the subagent `id` completed at `now` with its result.
    pub fn set_completed_at(&mut self, id: u64, result: String, now: i64)
        requires
            old(self).wf(),
        ensures
            final(self).wf(),
            final(self)@ == completed_spec(old(self)@, id, result@, now),
    {
        match self.position(id) {
            Some(i) => {
                let mut e = self.entries[i].duplicate();
                e.status = SubagentStatus::Completed;
                e.completed_at = Some(now);
                e.result = Some(result);
                self.put(i, e);
            },
            None => {},
        }
    }

    /// Mark the subagent `id` completed now with its result.
    pub fn set_completed(&mut self, id: u64, result: String)
        requires
            old(self).wf(),
        ensures
            final(self).wf(),
            exists|now: i64| final(self)@ == completed_spec(old(self)@, id, result@, now),
    {
        let now = crate::session::unix_now_secs();
        self.set_completed_at(id, result, now)
    }

    /// Mark the subagent `id` failed at `now` with its error.
    pub fn set_failed_at(&mut self, id: u64, error: String, now: i64)
        requires
            old(self).wf(),
        ensures
            final(self).wf(),
            final(self)@ == failed_spec(old(self)@, id, error@, now),
    {
        match self.position(id) {
            Some(i) => {
                let mut e = self.entries[i].duplicate();
                e.status = SubagentStatus::Failed;
                e.completed_at = Some(now);
                e.error = Some(error);
                self.put(i, e);
            },
            None => {},
        }
    }

    /// Mark the subagent `id` failed now with its error.
    pub fn set_failed(&mut self, id: u64, error: String)
        requires
            old(self).wf(),
        ensures
            final(self).wf(),
            exists|now: i64| final(self)@ == failed_spec(old(self)@, id, error@, now),
    {
        let now = crate::session::unix_now_secs();
        self.set_failed_at(id, error, now)
    }

    /// Every record, in registration order.
    pub fn list(&self) -> (r: Vec<SubagentInfo>)
        ensures
            r@.map_values(|e: SubagentInfo| e@) == self@,
    {
        let mut out: Vec<SubagentInfo> = Vec::new();
        let mut i: usize = 0;
        while i < self.entries.len()
            invariant
                i <= self.entries@.len(),
                self@ == self.entries@.map_values(|e: SubagentInfo| e@),
                out@.map_values(|e: SubagentInfo| e@) == self@.take(i as int),
            decreases self.entries@.len() - i,
        {
            let e = self.entries[i].duplicate();
            let ghost before = out@;
            out.push(e);
            proof {
                assert(out@.map_values(|e: SubagentInfo| e@) =~= before.map_values(
                    |e: SubagentInfo| e@,
                ).push(self@[i as int]));
                assert(self@.take(i + 1) =~= self@.take(i as int).push(self@[i as int]));
            }
            i = i + 1;
        }
        proof {
            assert(self@.take(self@.len() as int) =~= self@);
        }
        out
    }

    /// The record of `id`, if there is one.
    pub fn get(&self, id: u64) -> (r: Option<SubagentInfo>)
        requires
            self.wf(),
        ensures
            match r {
                Some(e) => lookup(self@, id) == Some(e@),
                None => lookup(self@, id) is None,
            },
    {
        match self.position(id) {
            Some(i) => Some(self.entries[i].duplicate()),
            None => None,
        }
    }

    /// Whether `id` has a record.
    pub fn is_registered(&self, id: u64) -> (b: bool)
        requires
            self.wf(),
        ensures
            b == has_id(self@, id),
    {
        self.position(id).is_some()
    }

    /// Stop the subagent `id` at `now`: refused when there is none or it
    /// has finished already.
    pub fn stop_at(&mut self, id: u64, now: i64) -> (r: Result<(), String>)
        requires
            old(self).wf(),
        ensures
            final(self).wf(),
            (match r {
                Ok(()) => Ok(()),
                Err(m) => Err(m@),
            }, final(self)@) == stop_spec(old(self)@, id, now),
    {
        match self.position(id) {
            None => {
                let mut m: Vec<char> = Vec::new();
                push_str(&mut m, "Subagent ");
                let d = u64_to_chars(id);
                push_all(&mut m, &d);
                push_str(&mut m, " not found");
                Err(string_of(&m))
            },
            Some(i) => {
                let st = self.entries[i].status;
                if st.is_terminal() {
                    let mut m: Vec<char> = Vec::new();
                    push_str(&mut m, "Subagent ");
                    let d = u64_to_chars(id);
                    push_all(&mut m, &d);
                    push_str(&mut m, " is already in terminal state: ");
                    push_str(&mut m, st.name());
                    Err(string_of(&m))
                } else {
                    let mut e = self.entries[i].duplicate();
                    e.status = SubagentStatus::Stopped;
                    e.completed_at = Some(now);
                    self.put(i, e);
                    Ok(())
                }
            },
        }
    }

    /// Stop the subagent `id` now.
    pub fn stop(&mut self, id: u64) -> (r: Result<(), String>)
        requires
            old(self).wf(),
        ensures
            final(self).wf(),
            exists|now: i64|
                (match r {
                    Ok(()) => Ok(()),
                    Err(m) => Err(m@),
                }, final(self)@) == stop_spec(old(self)@, id, now),
    {
        let now = crate::session::unix_now_secs();
        self.stop_at(id, now)
    }

    /// How many subagents have not finished.
    pub fn active_count(&self) -> (n: usize)
        ensures
            n == active_spec(self@),
    {
        let mut n: usize = 0;
        let mut i: usize = 0;
        while i < self.entries.len()
            invariant
                i <= self.entries@.len(),
                self@ == self.entries@.map_values(|e: SubagentInfo| e@),
                n == active_spec(self@.take(i as int)),
                n <= i,
            decreases self.entries@.len() - i,
        {
            proof {
                assert(self@.take(i + 1).drop_last() =~= self@.take(i as int));
            }
            if !self.entries[i].status.is_terminal() {
                n = n + 1;
            }
            i = i + 1;
        }
        proof {
            assert(self@.take(self@.len() as int) =~= self@);
        }
        n
    }

    /// Forget the subagents that finished `max_age_secs` or more before
    /// `now`.
    pub fn cleanup_completed_at(&mut self, max_age_secs: i64, now: i64)
        requires
            old(self).wf(),
        ensures
            final(self).wf(),
            final(self)@ == kept_spec(old(self)@, max_age_secs, now),
    {
        let ghost s0 = self@;
        let mut out: Vec<SubagentInfo> = Vec::new();
        let mut i: usize = 0;
        while i < self.entries.len()
            invariant
                i <= self.entries@.len(),
                self@ == s0,
                ids_distinct(s0),
                s0 == self.entries@.map_values(|e: SubagentInfo| e@),
                out@.map_values(|e: SubagentInfo| e@) == kept_spec(s0.take(i as int), max_age_secs, now),
            decreases self.entries@.len() - i,
        {
            let e = &self.entries[i];
            let keep = if e.status.is_terminal() {
                match e.completed_at {
                    Some(c) => (now as i128) - (c as i128) < max_age_secs as i128,
                    None => true,
                }
            } else {
                true
            };
            proof {
                assert(s0.take(i + 1).drop_last() =~= s0.take(i as int));
                assert(s0.take(i + 1).last() == s0[i as int]);
                assert(keep == kept(s0[i as int], max_age_secs, now));
            }
            if keep {
                let ghost before = out@;
                out.push(self.entries[i].duplicate());
                proof {
                    assert(out@.map_values(|e: SubagentInfo| e@) =~= before.map_values(
                        |e: SubagentInfo| e@,
                    ).push(s0[i as int]));
                }
            }
            i = i + 1;
        }
        proof {
            assert(s0.take(s0.len() as int) =~= s0);
            lemma_kept_distinct(s0, max_age_secs, now);
        }
        self.entries = out;
    }

    /// Forget the subagents that finished `max_age_secs` or more ago.
    pub fn cleanup_completed(&mut self, max_age_secs: i64)
        requires
            old(self).wf(),
        ensures
            final(self).wf(),
            exists|now: i64| final(self)@ == kept_spec(old(self)@, max_age_secs, now),
    {
        let now = crate::session::unix_now_secs();
        self.cleanup_completed_at(max_age_secs, now)
    }
}

/// A subagent that was stopped cannot be stopped again: the second stop is
/// refused as already finished and changes nothing.
pub proof fn law_stop_twice_refused(s: Seq<SubagentInfoView>, id: u64, now: i64, later: i64)
    requires
        ids_distinct(s),
        stop_spec(s, id, now).0 is Ok,
    ensures
        stop_spec(stop_spec(s, id, now).1, id, later) == (
            Err::<(), Seq<char>>(terminal_message(id, SubagentStatus::Stopped)),
            stop_spec(s, id, now).1,
        ),
{
    let i = index_of(s, id);
    let e = s[i];
    let t = s.update(i, finished(e, SubagentStatus::Stopped, now));
    assert(stop_spec(s, id, now).1 == t);
    assert(t[i].id == id);
    assert(has_id(t, id));
    let j = index_of(t, id);
    if j != i {
        assert(s[j].id == t[j].id);
    }
    assert(lookup(t, id) == Some(finished(e, SubagentStatus::Stopped, now)));
}

/// What is kept is drawn from `s` in order, so its ids stay distinct.
proof fn lemma_kept_distinct(s: Seq<SubagentInfoView>, max_age_secs: i64, now: i64)
    requires
        ids_distinct(s),
    ensures
        ids_distinct(kept_spec(s, max_age_secs, now)),
        forall|i: int|
            0 <= i < kept_spec(s, max_age_secs, now).len() ==> has_id(
                s,
                #[trigger] kept_spec(s, max_age_secs, now)[i].id,
            ),
    decreases s.len(),
{
    if s.len() > 0 {
        let d = s.drop_last();
        assert forall|i: int, j: int| 0 <= i < d.len() && 0 <= j < d.len() && i != j implies d[i].id
            != d[j].id by {
            assert(d[i] == s[i] && d[j] == s[j]);
        }
        lemma_kept_distinct(d, max_age_secs, now);
        let k = kept_spec(d, max_age_secs, now);
        assert forall|i: int| 0 <= i < k.len() implies #[trigger] k[i].id != s.last().id by {
            let w = choose|w: int| 0 <= w < d.len() && d[w].id == k[i].id;
            assert(s[w].id == k[i].id);
        }
        let r = kept_spec(s, max_age_secs, now);
        assert forall|i: int| 0 <= i < r.len() implies has_id(s, #[trigger] r[i].id) by {
            if i < k.len() {
                assert(r[i] == k[i]);
                let w = choose|w: int| 0 <= w < d.len() && d[w].id == k[i].id;
                assert(s[w].id == k[i].id);
            } else {
                assert(s[s.len() - 1].id == r[i].id);
            }
        }
    }
}

} // verus!
