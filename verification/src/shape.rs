//! Shape index: one-line "logical skeletons" of atomic notes, glossed
//! by the witness model from the prompt at `workspace/witness/on-shape.md`
//! (a missing file disables the duty). Agent-authored `shape:` values
//! win over the witness's gloss.
//!
//! The library decides: which notes need a gloss, whether the prompt
//! cache still holds, what the model is asked and what of its answer is
//! kept, and what the receipt says. Reading files, calling the model
//! and appending to the receipt log happen around it.

use vstd::prelude::*;
use crate::frontmatter::{frontmatter_field, read_frontmatter_id};
use crate::memory::{ShapeAuthor, ShapeRow};
use crate::paths::{extension, join, join_str};
use crate::text::{
    chars_of, push_str, replace_chars, replace_spec, rfc3339_text, string_of, trim, trimmed_chars,
    views,
};

verus! {

/// The template slot the note body goes into.
pub const NOTE_BODY_SLOT: &'static str = "{note_body}";

/// The SHA-256 digest of a byte sequence.
pub uninterp spec fn sha256(bytes: Seq<u8>) -> Seq<u8>;

/// SHA-256 of `bytes` by the `sha2` crate: a 32-byte digest.
#[verifier::external_body]
fn sha256_digest(bytes: &[u8]) -> (r: Vec<u8>)
    ensures
        r@ == sha256(bytes@),
        r@.len() == 32,
{
    <sha2::Sha256 as sha2::Digest>::digest(bytes).to_vec()
}

/// A lowercase hexadecimal digit.
pub open spec fn hex_digit(d: u8) -> char {
    if d < 10 {
        ((d + 48) as u8) as char
    } else {
        ((d + 87) as u8) as char
    }
}

/// Lowercase hexadecimal, two digits per byte.
pub open spec fn hex_spec(bytes: Seq<u8>) -> Seq<char>
    decreases bytes.len(),
{
    if bytes.len() == 0 {
        Seq::empty()
    } else {
        hex_spec(bytes.drop_last()) + seq![hex_digit(bytes.last() / 16), hex_digit(bytes.last() % 16)]
    }
}

fn hex_char(d: u8) -> (c: char)
    requires
        d < 16,
    ensures
        c == hex_digit(d),
{
    if d < 10 {
        ((d + 48) as u8) as char
    } else {
        ((d + 87) as u8) as char
    }
}

/// Lowercase hexadecimal of a digest.
pub fn hex_lower(bytes: &Vec<u8>) -> (r: String)
    ensures
        r@ == hex_spec(bytes@),
{
    let mut out: Vec<char> = Vec::new();
    let mut i: usize = 0;
    while i < bytes.len()
        invariant
            i <= bytes@.len(),
            out@ == hex_spec(bytes@.take(i as int)),
        decreases bytes@.len() - i,
    {
        let b = bytes[i];
        out.push(hex_char(b / 16));
        out.push(hex_char(b % 16));
        proof {
            assert(bytes@.take(i + 1).drop_last() =~= bytes@.take(i as int));
            assert(bytes@.take(i + 1).last() == b);
            assert(out@ =~= hex_spec(bytes@.take(i + 1)));
        }
        i = i + 1;
    }
    proof {
        assert(bytes@.take(bytes@.len() as int) =~= bytes@);
    }
    string_of(&out)
}

/// The hash a prompt is known by: SHA-256 of its UTF-8 bytes, in hex.
pub open spec fn prompt_hash(text: Seq<char>) -> Seq<char> {
    hex_spec(sha256(vstd::utf8::encode_utf8(text)))
}

/// SHA-256 of a text's UTF-8 bytes, as lowercase hex.
pub fn sha256_hex(text: &str) -> (r: String)
    ensures
        r@ == prompt_hash(text@),
{
    let digest = sha256_digest(text.as_bytes());
    hex_lower(&digest)
}

/// Result of a successful prompt load: the text and its hash.
#[derive(Debug)]
pub struct LoadedPrompt {
    pub text: String,
    pub hash: String,
}

struct Cached {
    modified: Option<i128>,
    text: String,
    hash: String,
}

/// The prompt file that gates the witness's shape duty, cached by its
/// modification time (nanoseconds from the Unix epoch, when the file
/// system reports one).
pub struct Prompt {
    path: String,
    cache: Option<Cached>,
}

/// What a prompt holds: its path and the (modification time, text)
/// it last read, if any.
pub struct PromptView {
    pub path: Seq<char>,
    pub cache: Option<(Option<i128>, Seq<char>)>,
}

impl View for Prompt {
    type V = PromptView;

    closed spec fn view(&self) -> PromptView {
        PromptView {
            path: self.path@,
            cache: match self.cache {
                Some(c) => Some((c.modified, c.text@)),
                None => None,
            },
        }
    }
}

impl Prompt {
    /// The cached hash belongs to the cached text.
    pub closed spec fn wf(&self) -> bool {
        match self.cache {
            Some(c) => c.hash@ == prompt_hash(c.text@),
            None => true,
        }
    }

    /// The default path: `workspace/witness/on-shape.md`.
    pub fn at_workspace(workspace: &str) -> (r: Self)
        ensures
            r.wf(),
            r@.path == join(join(workspace@, "witness"@), "on-shape.md"@),
            r@.cache is None,
    {
        let w = join_str(workspace, "witness");
        Self::at(join_str(w.as_str(), "on-shape.md"))
    }

    pub fn at(path: String) -> (r: Self)
        ensures
            r.wf(),
            r@.path == path@,
            r@.cache is None,
    {
        Prompt { path, cache: None }
    }

    /// The file this prompt is read from.
    pub fn path(&self) -> (r: &str)
        ensures
            r@ == self@.path,
    {
        self.path.as_str()
    }

    /// The file is gone: the duty is disabled and the cache dropped.
    pub fn forget(&mut self)
        ensures
            final(self).wf(),
            final(self)@.path == old(self)@.path,
            final(self)@.cache is None,
    {
        self.cache = None;
    }

    /// The cached prompt, when it was read at the same modification
    /// time the file reports now.
    pub fn cached_for(&self, modified: Option<i128>) -> (r: Option<LoadedPrompt>)
        requires
            self.wf(),
        ensures
            match r {
                Some(p) => self@.cache == Some((modified, p.text@)) && p.hash@ == prompt_hash(
                    p.text@,
                ),
                None => !(self@.cache matches Some(c) && c.0 == modified),
            },
    {
        match &self.cache {
            Some(c) => {
                let same = match (c.modified, modified) {
                    (Some(a), Some(b)) => a == b,
                    (None, None) => true,
                    _ => false,
                };
                if same {
                    Some(LoadedPrompt { text: c.text.clone(), hash: c.hash.clone() })
                } else {
                    None
                }
            },
            None => None,
        }
    }

    /// The file was read afresh at `modified`: remember it and hand it
    /// out with its hash.
    pub fn remember(&mut self, modified: Option<i128>, text: String) -> (r: LoadedPrompt)
        ensures
            final(self).wf(),
            final(self)@.path == old(self)@.path,
            final(self)@.cache == Some((modified, text@)),
            r.text@ == text@,
            r.hash@ == prompt_hash(text@),
    {
        let hash = sha256_hex(text.as_str());
        let loaded = LoadedPrompt { text: text.clone(), hash: hash.clone() };
        self.cache = Some(Cached { modified, text, hash });
        loaded
    }
}

/// The prompt text with every `{note_body}` slot filled with `body`;
/// other slots pass through verbatim.
pub open spec fn gloss_request_spec(template: Seq<char>, body: Seq<char>) -> Seq<char> {
    replace_spec(template, NOTE_BODY_SLOT@, body)
}

/// What the witness is asked for a piece of text.
pub fn gloss_request(prompt: &LoadedPrompt, body: &str) -> (r: String)
    ensures
        r@ == gloss_request_spec(prompt.text@, body@),
{
    let t = chars_of(prompt.text.as_str());
    let slot = chars_of(NOTE_BODY_SLOT);
    proof {
        reveal_strlit("{note_body}");
    }
    let b = chars_of(body);
    let r = replace_chars(&t, &slot, &b);
    string_of(&r)
}

/// The gloss kept from the witness's reply: the reply trimmed; an empty
/// one is refused.
pub fn accept_gloss(reply: &str) -> (r: Option<String>)
    ensures
        match r {
            Some(g) => g@ == trim(reply@) && g@.len() > 0,
            None => trim(reply@).len() == 0,
        },
{
    let t = trimmed_chars(reply);
    if t.len() == 0 {
        None
    } else {
        Some(string_of(&t))
    }
}

/// Why a gloss job was queued; receipt detail, not behaviour.
#[derive(Debug, Clone, Copy, PartialEq, Eq, Structural)]
pub enum JobReason {
    /// Startup scan: no row for this atomic.
    Missing,
    /// Startup scan: the row's (model, prompt hash) is not the
    /// current witness's.
    Drift,
    /// Live from a write.
    Write,
}

pub open spec fn reason_word(r: JobReason) -> Seq<char> {
    match r {
        JobReason::Missing => "missing"@,
        JobReason::Drift => "drift"@,
        JobReason::Write => "write"@,
    }
}

impl JobReason {
    pub fn as_str(&self) -> (r: &'static str)
        ensures
            r@ == reason_word(*self),
    {
        match self {
            JobReason::Missing => "missing",
            JobReason::Drift => "drift",
            JobReason::Write => "write",
        }
    }
}

/// One unit of work for the shape worker.
#[derive(Debug)]
pub struct GlossJob {
    pub note_id: String,
    pub note_path: String,
    pub reason: JobReason,
}

pub type JobView = (Seq<char>, Seq<char>, JobReason);

impl View for GlossJob {
    type V = JobView;

    open spec fn view(&self) -> JobView {
        (self.note_id@, self.note_path@, self.reason)
    }
}

/// A note file of the knowledge directory, by name and text.
pub type NoteFile = (Seq<char>, Seq<char>);

/// `Missing` jobs for the knowledge files: each `.md` file whose
/// frontmatter carries an id that has no shape row yet, in order, with
/// its path as `knowledge/<name>`.
pub open spec fn missing_jobs_spec(existing: Seq<Seq<char>>, files: Seq<NoteFile>) -> Seq<JobView>
    decreases files.len(),
{
    if files.len() == 0 {
        Seq::empty()
    } else {
        let rest = missing_jobs_spec(existing, files.drop_last());
        let (name, text) = files.last();
        if extension(name) == Some("md"@) {
            match frontmatter_field(text, "id"@) {
                Some(id) => if existing.contains(id) {
                    rest
                } else {
                    rest.push((id, "knowledge/"@ + name, JobReason::Missing))
                },
                None => rest,
            }
        } else {
            rest
        }
    }
}

fn id_listed(existing: &Vec<String>, id: &String) -> (r: bool)
    ensures
        r == views::<String>(existing@).contains(id@),
{
    let mut i: usize = 0;
    while i < existing.len()
        invariant
            i <= existing@.len(),
            forall|j: int| 0 <= j < i ==> existing@[j]@ != id@,
        decreases existing@.len() - i,
    {
        if crate::text::str_eq(existing[i].as_str(), id.as_str()) {
            proof {
                assert(views::<String>(existing@)[i as int] == id@);
            }
            return true;
        }
        i = i + 1;
    }
    proof {
        if views::<String>(existing@).contains(id@) {
            let j = choose|j: int|
                0 <= j < views::<String>(existing@).len() && views::<String>(existing@)[j] == id@;
            assert(existing@[j]@ == id@);
        }
    }
    false
}

/// The `Missing` jobs for the readable knowledge files (`(file name,
/// text)`), given the ids that already have a shape row.
pub fn missing_jobs(existing: &Vec<String>, files: &Vec<(String, String)>) -> (r: Vec<GlossJob>)
    ensures
        views::<GlossJob>(r@) == missing_jobs_spec(
            views::<String>(existing@),
            views::<(String, String)>(files@),
        ),
{
    let mut out: Vec<GlossJob> = Vec::new();
    let mut i: usize = 0;
    while i < files.len()
        invariant
            i <= files@.len(),
            views::<GlossJob>(out@) == missing_jobs_spec(
                views::<String>(existing@),
                views::<(String, String)>(files@).take(i as int),
            ),
        decreases files@.len() - i,
    {
        let ghost fv = views::<(String, String)>(files@);
        proof {
            assert(fv.take(i + 1).drop_last() =~= fv.take(i as int));
            assert(fv.take(i + 1).last() == (files@[i as int].0@, files@[i as int].1@));
        }
        let name = &files[i].0;
        let text = &files[i].1;
        if crate::paths::has_md_extension(name.as_str()) {
            proof {
                reveal_strlit("md");
                assert(seq!['m', 'd'] =~= "md"@);
            }
            match read_frontmatter_id(text.as_str()) {
                Some(id) => {
                    proof {
                        reveal_strlit("id");
                        assert(seq!['i', 'd'] =~= "id"@);
                    }
                    if !id_listed(existing, &id) {
                        let mut p: Vec<char> = Vec::new();
                        push_str(&mut p, "knowledge/");
                        push_str(&mut p, name.as_str());
                        let ghost before = views::<GlossJob>(out@);
                        out.push(GlossJob { note_id: id, note_path: string_of(&p), reason: JobReason::Missing });
                        proof {
                            assert(views::<GlossJob>(out@) =~= before.push(views::<GlossJob>(out@).last()));
                        }
                    }
                },
                None => {
                    proof {
                        reveal_strlit("id");
                        assert(seq!['i', 'd'] =~= "id"@);
                    }
                },
            }
        } else {
            proof {
                reveal_strlit("md");
                assert(seq!['m', 'd'] =~= "md"@);
            }
        }
        i = i + 1;
    }
    proof {
        assert(views::<(String, String)>(files@).take(files@.len() as int) =~= views::<(
            String,
            String,
        )>(files@));
    }
    out
}

/// A witness row whose (model, prompt hash) is not the current
/// witness's is stale; agent rows never are.
pub open spec fn stale(author: ShapeAuthor, model: Seq<char>, hash: Seq<char>, cur_model: Seq<char>, cur_hash: Seq<char>) -> bool {
    author != ShapeAuthor::Agent && !(model == cur_model && hash == cur_hash)
}

/// `Drift` jobs for the stale rows, in order.
pub open spec fn drift_jobs_spec(
    rows: Seq<(Seq<char>, Seq<char>, ShapeAuthor, Seq<char>, Seq<char>)>,
    cur_model: Seq<char>,
    cur_hash: Seq<char>,
) -> Seq<JobView>
    decreases rows.len(),
{
    if rows.len() == 0 {
        Seq::empty()
    } else {
        let rest = drift_jobs_spec(rows.drop_last(), cur_model, cur_hash);
        let r = rows.last();
        if stale(r.2, r.3, r.4, cur_model, cur_hash) {
            rest.push((r.0, r.1, JobReason::Drift))
        } else {
            rest
        }
    }
}

/// A shape row as (note id, file path, author, model, prompt hash).
pub open spec fn row_key(r: ShapeRow) -> (Seq<char>, Seq<char>, ShapeAuthor, Seq<char>, Seq<char>) {
    (r.note_id@, r.file_path@, r.author, r.model_id@, r.prompt_hash@)
}

pub open spec fn row_keys(rows: Seq<ShapeRow>) -> Seq<(Seq<char>, Seq<char>, ShapeAuthor, Seq<char>, Seq<char>)> {
    rows.map_values(|r: ShapeRow| row_key(r))
}

/// The `Drift` jobs for the current witness.
pub fn drift_jobs(rows: &Vec<ShapeRow>, current_model_id: &str, current_prompt_hash: &str) -> (r:
    Vec<GlossJob>)
    ensures
        views::<GlossJob>(r@) == drift_jobs_spec(
            row_keys(rows@),
            current_model_id@,
            current_prompt_hash@,
        ),
{
    let mut out: Vec<GlossJob> = Vec::new();
    let mut i: usize = 0;
    while i < rows.len()
        invariant
            i <= rows@.len(),
            views::<GlossJob>(out@) == drift_jobs_spec(
                row_keys(rows@).take(i as int),
                current_model_id@,
                current_prompt_hash@,
            ),
        decreases rows@.len() - i,
    {
        let row = &rows[i];
        proof {
            assert(row_keys(rows@).take(i + 1).drop_last() =~= row_keys(rows@).take(i as int));
            assert(row_keys(rows@).take(i + 1).last() == row_key(rows@[i as int]));
        }
        let agent = match row.author {
            ShapeAuthor::Agent => true,
            ShapeAuthor::Witness => false,
        };
        if !agent && !(crate::text::str_eq(row.model_id.as_str(), current_model_id)
            && crate::text::str_eq(row.prompt_hash.as_str(), current_prompt_hash)) {
            let ghost before = views::<GlossJob>(out@);
            out.push(
                GlossJob {
                    note_id: row.note_id.clone(),
                    note_path: row.file_path.clone(),
                    reason: JobReason::Drift,
                },
            );
            proof {
                assert(views::<GlossJob>(out@) =~= before.push(views::<GlossJob>(out@).last()));
            }
        }
        i = i + 1;
    }
    proof {
        assert(row_keys(rows@).take(rows@.len() as int) =~= row_keys(rows@));
    }
    out
}

/// Agent-authored rows win the race with a queued gloss: they are never
/// overwritten.
pub fn should_gloss(existing: Option<ShapeAuthor>) -> (r: bool)
    ensures
        r == (existing != Some(ShapeAuthor::Agent)),
{
    match existing {
        Some(ShapeAuthor::Agent) => false,
        _ => true,
    }
}

/// One receipt-log line for a completed gloss job.
#[derive(Debug)]
pub struct ShapeLogEntry {
    pub note_id: String,
    pub author: String,
    pub model_id: String,
    pub prompt_hash: String,
    pub gloss: String,
    pub reason: String,
    pub at: String,
}

impl ShapeLogEntry {
    /// The receipt for a witness gloss of `job` made at `at`.
    pub fn for_gloss(job: &GlossJob, model_id: &str, prompt_hash: &str, gloss: String, at: String) -> (r:
        ShapeLogEntry)
        ensures
            r.note_id@ == job.note_id@,
            r.author@ == "witness"@,
            r.model_id@ == model_id@,
            r.prompt_hash@ == prompt_hash@,
            r.gloss@ == gloss@,
            r.reason@ == reason_word(job.reason),
            r.at@ == at@,
    {
        ShapeLogEntry {
            note_id: job.note_id.clone(),
            author: "witness".to_string(),
            model_id: model_id.to_string(),
            prompt_hash: prompt_hash.to_string(),
            gloss,
            reason: job.reason.as_str().to_string(),
            at,
        }
    }

    /// The receipt for a witness gloss of `job` made now.
    pub fn for_gloss_now(job: &GlossJob, model_id: &str, prompt_hash: &str, gloss: String) -> (r:
        ShapeLogEntry)
        ensures
            r.note_id@ == job.note_id@,
            r.author@ == "witness"@,
            r.model_id@ == model_id@,
            r.prompt_hash@ == prompt_hash@,
            r.gloss@ == gloss@,
            r.reason@ == reason_word(job.reason),
            rfc3339_text(r.at@, "Z"@),
    {
        let at = crate::tools::timestamp_now();
        ShapeLogEntry::for_gloss(job, model_id, prompt_hash, gloss, at)
    }
}

/// `workspace/witness/shape-log.jsonl`.
pub fn shape_log_path(workspace: &str) -> (r: String)
    ensures
        r@ == join(join(workspace@, "witness"@), "shape-log.jsonl"@),
{
    let w = join_str(workspace, "witness");
    join_str(w.as_str(), "shape-log.jsonl")
}

/// `workspace/knowledge`: where atomic notes live.
pub fn knowledge_dir(workspace: &str) -> (r: String)
    ensures
        r@ == join(workspace@, "knowledge"@),
{
    join_str(workspace, "knowledge")
}

} // verus!
