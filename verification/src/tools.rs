//! The agent's tools: what each decides before and after the world is
//! touched. Argument checks, result texts, the atomic-note file format,
//! the channel-read window, move lookback, and result truncation live
//! here; the file system, the channels and the network are reached
//! around them.

use vstd::prelude::*;
use crate::frontmatter::{
    starts_with, strip_leading,
};
use crate::paths::{
    extension, file_stem, join, join_str,
};
use crate::record::{
    MoveLine, RecordLine, RecordRole,
};
use crate::text::{
    byte_len, char_len_utf8, chars_of, decimal, is_ws, join_chars, join_with, lemma_byte_len_push,
    lemma_take_bytes_increase, lemma_take_bytes_le, push_all, push_range, push_str, str_eq,
    rfc3339_text, string_of, string_of_range, trim, trimmed_chars, u64_to_chars, views,
};

verus! {

/// Tool results longer than this many bytes are cut.
pub const MAX_RESULT_BYTES: usize = 65536;

/// Hard cap of `channel_read`'s limit.
pub const MAX_CHANNEL_READ_LIMIT: usize = 500;

/// `channel_read`'s limit when none is asked for.
pub const DEFAULT_CHANNEL_READ_LIMIT: usize = 50;

/// Widest turn range `read_moves` serves.
pub const MAX_READ_MOVES_TURNS: u64 = 200;

/// What a spoken message's result adds, reminding the agent how replies
/// arrive.
pub const SPOKEN_CUE: &'static str = " — if you await a reply, end your turn; replies arrive as new turns";

// ---------------------------------------------------------------------
// Result truncation
// ---------------------------------------------------------------------

/// The number of leading characters of `s` that fit in `n` bytes: the
/// longest prefix whose UTF-8 encoding is at most `n` bytes.
pub open spec fn fitting_chars(s: Seq<char>, n: nat) -> int {
    choose|k: int|
        0 <= k <= s.len() && byte_len(#[trigger] s.take(k)) <= n && (k == s.len() || byte_len(
            s.take(k + 1),
        ) > n)
}

/// The marker appended to a cut result.
pub open spec fn truncation_marker() -> Seq<char> {
    "\n[... truncated at 65536 bytes]"@
}

/// A tool result as the model sees it: unchanged up to 64 KiB,
/// otherwise cut at the last character boundary within 64 KiB and
/// marked.
pub open spec fn truncate_spec(s: Seq<char>) -> Seq<char> {
    if byte_len(s) <= MAX_RESULT_BYTES {
        s
    } else {
        s.take(fitting_chars(s, MAX_RESULT_BYTES as nat)) + truncation_marker()
    }
}

/// The longest prefix of `text` whose UTF-8 encoding fits in `cap`
/// bytes: `text[..cut]` with `cut` moved back to a character boundary.
pub fn prefix_within(text: &str, cap: usize) -> (r: String)
    ensures
        r@ == text@.take(fitting_chars(text@, cap as nat)),
{
    let s = chars_of(text);
    let mut bytes: u128 = 0;
    let mut i: usize = 0;
    while i < s.len() && bytes + char_len_utf8(s[i]) as u128 <= cap as u128
        invariant
            i <= s@.len(),
            bytes == byte_len(s@.take(i as int)),
            bytes <= cap,
        decreases s@.len() - i,
    {
        proof {
            assert(s@.take(i + 1) =~= s@.take(i as int).push(s@[i as int]));
            lemma_byte_len_push(s@.take(i as int), s@[i as int]);
        }
        bytes = bytes + char_len_utf8(s[i]) as u128;
        i = i + 1;
    }
    proof {
        if i < s@.len() {
            assert(s@.take(i + 1) =~= s@.take(i as int).push(s@[i as int]));
            lemma_byte_len_push(s@.take(i as int), s@[i as int]);
        }
        let k = fitting_chars(s@, cap as nat);
        if i == s@.len() {
            assert(s@.take(i as int) =~= s@);
        } else {
            lemma_take_bytes_increase(s@, i as int, s@.len() as int);
            if i + 1 < s@.len() {
                lemma_take_bytes_le(s@, i + 1);
                lemma_take_bytes_increase(s@, i + 1, s@.len() as int);
            }
        }
        assert(0 <= k <= s@.len() && byte_len(s@.take(k)) <= cap && (k == s@.len() || byte_len(
            s@.take(k + 1),
        ) > cap)) by {
            assert(byte_len(s@.take(i as int)) <= cap && (i == s@.len() || byte_len(s@.take(i + 1))
                > cap));
        }
        if k < i {
            if k + 1 < i {
                lemma_take_bytes_increase(s@, k + 1, i as int);
            }
        }
        if k > i {
            if i + 1 < k {
                lemma_take_bytes_increase(s@, i + 1, k);
            }
        }
        assert(k == i);
    }
    string_of_range(&s, 0, i)
}

/// Cut an oversized tool result at a character boundary and say so.
pub fn truncate(text: String) -> (r: String)
    ensures
        r@ == truncate_spec(text@),
{
    let s = chars_of(text.as_str());
    let mut bytes: u64 = 0;
    let mut i: usize = 0;
    while i < s.len() && bytes + char_len_utf8(s[i]) as u64 <= 65536
        invariant
            i <= s@.len(),
            bytes == byte_len(s@.take(i as int)),
            bytes <= 65536,
        decreases s@.len() - i,
    {
        proof {
            assert(s@.take(i + 1) =~= s@.take(i as int).push(s@[i as int]));
            lemma_byte_len_push(s@.take(i as int), s@[i as int]);
        }
        bytes = bytes + char_len_utf8(s[i]) as u64;
        i = i + 1;
    }
    proof {
        if i < s@.len() {
            assert(s@.take(i + 1) =~= s@.take(i as int).push(s@[i as int]));
            lemma_byte_len_push(s@.take(i as int), s@[i as int]);
        }
    }
    if i == s.len() {
        proof {
            assert(s@.take(i as int) =~= s@);
        }
        return text;
    }
    proof {
        lemma_take_bytes_increase(s@, i as int, s@.len() as int);
        assert(s@.take(s@.len() as int) =~= s@);
        if i + 1 < s@.len() {
            lemma_take_bytes_le(s@, i + 1);
            assert(s@.take(i + 1).len() == i + 1);
            lemma_take_bytes_increase(s@, i + 1, s@.len() as int);
        }
        let k = fitting_chars(s@, 65536);
        assert(0 <= k <= s@.len() && byte_len(s@.take(k)) <= 65536 && (k == s@.len() || byte_len(
            s@.take(k + 1),
        ) > 65536)) by {
            assert(byte_len(s@.take(i as int)) <= 65536 && byte_len(s@.take(i + 1)) > 65536);
        }
        if k < i {
            if k + 1 < i {
                lemma_take_bytes_increase(s@, k + 1, i as int);
            }
        }
        if k > i {
            if i + 1 < k {
                lemma_take_bytes_increase(s@, i + 1, k);
            }
        }
        assert(k == i);
    }
    let mut out: Vec<char> = Vec::new();
    let mut j: usize = 0;
    while j < i
        invariant
            j <= i <= s@.len(),
            out@ == s@.take(j as int),
        decreases i - j,
    {
        out.push(s[j]);
        proof {
            assert(s@.take(j + 1) =~= s@.take(j as int).push(s@[j as int]));
        }
        j = j + 1;
    }
    push_str(&mut out, "\n[... truncated at 65536 bytes]");
    string_of(&out)
}

/// A cut result keeps at most 64 KiB of the original, which it starts
/// with; a result within 64 KiB comes back unchanged.
pub proof fn law_truncate_bounded(s: Seq<char>)
    requires
        exists|k: int|
            0 <= k <= s.len() && byte_len(#[trigger] s.take(k)) <= MAX_RESULT_BYTES && (k == s.len()
                || byte_len(s.take(k + 1)) > MAX_RESULT_BYTES),
    ensures
        byte_len(s) <= MAX_RESULT_BYTES ==> truncate_spec(s) == s,
        byte_len(s) > MAX_RESULT_BYTES ==> ({
            let k = fitting_chars(s, MAX_RESULT_BYTES as nat);
            &&& truncate_spec(s) == s.take(k) + truncation_marker()
            &&& byte_len(s.take(k)) <= MAX_RESULT_BYTES
            &&& k < s.len()
        }),
{
    if byte_len(s) > MAX_RESULT_BYTES {
        let k = fitting_chars(s, MAX_RESULT_BYTES as nat);
        if k == s.len() {
            assert(s.take(k) =~= s);
        }
    }
}

// ---------------------------------------------------------------------
// Paths
// ---------------------------------------------------------------------

/// Workspace-rooted resolution: relative paths live in the workspace,
/// absolute ones are taken as given.
pub open spec fn resolve_spec(workspace: Seq<char>, path: Seq<char>) -> Seq<char> {
    if path.len() > 0 && path[0] == '/' {
        path
    } else {
        join(workspace, path)
    }
}

/// Resolve a tool's path argument against the workspace.
pub fn resolve(workspace: &str, path: &str) -> (r: String)
    ensures
        r@ == resolve_spec(workspace@, path@),
{
    let p = chars_of(path);
    if p.len() > 0 && p[0] == '/' {
        string_of(&p)
    } else {
        join_str(workspace, path)
    }
}

/// `workspace/handoff.md`: the cross-session handoff written by
/// `compact` and read by the next session's startup.
pub fn handoff_path(workspace: &str) -> (r: String)
    ensures
        r@ == join(workspace@, "handoff.md"@),
{
    join_str(workspace, "handoff.md")
}

/// `workspace/witness/rejections.jsonl`.
pub fn rejections_path(workspace: &str) -> (r: String)
    ensures
        r@ == join(join(workspace@, "witness"@), "rejections.jsonl"@),
{
    let w = join_str(workspace, "witness");
    join_str(w.as_str(), "rejections.jsonl")
}

// ---------------------------------------------------------------------
// Attachments
// ---------------------------------------------------------------------

/// `char::to_ascii_lowercase`.
pub open spec fn ascii_lower(c: char) -> char {
    if 'A' <= c && c <= 'Z' {
        ((c as u8) + 32) as u8 as char
    } else {
        c
    }
}

fn ascii_lower_char(c: char) -> (r: char)
    ensures
        r == ascii_lower(c),
{
    if 'A' <= c && c <= 'Z' {
        ((c as u8) + 32) as char
    } else {
        c
    }
}

/// What follows the last `.` of a name, or nothing without one.
pub open spec fn after_last_dot(n: Seq<char>) -> Seq<char> {
    let i = crate::text::last_index_before(n, '.', n.len() as int);
    if i < 0 {
        Seq::empty()
    } else {
        n.skip(i + 1)
    }
}

/// The MIME type of an attachment by its (ASCII-lowercased) extension.
pub open spec fn mime_spec(filename: Seq<char>) -> Seq<char> {
    let ext = after_last_dot(filename.map_values(|c: char| ascii_lower(c)));
    if ext == "png"@ {
        "image/png"@
    } else if ext == "jpg"@ || ext == "jpeg"@ {
        "image/jpeg"@
    } else if ext == "gif"@ {
        "image/gif"@
    } else if ext == "webp"@ {
        "image/webp"@
    } else if ext == "svg"@ {
        "image/svg+xml"@
    } else if ext == "txt"@ || ext == "md"@ {
        "text/plain"@
    } else if ext == "json"@ {
        "application/json"@
    } else if ext == "pdf"@ {
        "application/pdf"@
    } else if ext == "mp3"@ {
        "audio/mpeg"@
    } else if ext == "mp4"@ {
        "video/mp4"@
    } else if ext == "zip"@ {
        "application/zip"@
    } else {
        "application/octet-stream"@
    }
}

/// Lowering ASCII capitals makes no dot and keeps one.
proof fn lemma_ascii_lower_dot(c: char)
    ensures
        (ascii_lower(c) == '.') == (c == '.'),
{
    if 'A' <= c && c <= 'Z' {
        let u = c as u32;
        assert(65 <= u <= 90);
        assert((c as u8) as int == u as int);
        let w = ((c as u8) + 32) as u8;
        assert(97 <= w <= 122);
        assert((w as char) as u32 == w as u32);
    }
}

/// A text with its ASCII capitals lowered.
pub open spec fn ascii_lowered(s: Seq<char>) -> Seq<char> {
    s.map_values(|c: char| ascii_lower(c))
}

/// A file named `stem.ext`, with no dot in `ext`, is sent with the MIME
/// type of its extension, ASCII case ignored: png, jpg or jpeg, gif,
/// webp, svg, txt or md, json, pdf, mp3, mp4, zip; any other extension
/// gets `application/octet-stream`. Only the part after the last dot
/// counts, whatever the stem holds.
pub proof fn law_mime_by_extension(stem: Seq<char>, ext: Seq<char>)
    requires
        forall|i: int| 0 <= i < ext.len() ==> ext[i] != '.',
    ensures
        ({
            let e = ascii_lowered(ext);
            let m = mime_spec(stem + seq!['.'] + ext);
            &&& e == "png"@ ==> m == "image/png"@
            &&& (e == "jpg"@ || e == "jpeg"@) ==> m == "image/jpeg"@
            &&& e == "gif"@ ==> m == "image/gif"@
            &&& e == "webp"@ ==> m == "image/webp"@
            &&& e == "svg"@ ==> m == "image/svg+xml"@
            &&& (e == "txt"@ || e == "md"@) ==> m == "text/plain"@
            &&& e == "json"@ ==> m == "application/json"@
            &&& e == "pdf"@ ==> m == "application/pdf"@
            &&& e == "mp3"@ ==> m == "audio/mpeg"@
            &&& e == "mp4"@ ==> m == "video/mp4"@
            &&& e == "zip"@ ==> m == "application/zip"@
            &&& !(e == "png"@ || e == "jpg"@ || e == "jpeg"@ || e == "gif"@ || e == "webp"@ || e
                == "svg"@ || e == "txt"@ || e == "md"@ || e == "json"@ || e == "pdf"@ || e
                == "mp3"@ || e == "mp4"@ || e == "zip"@) ==> m == "application/octet-stream"@
        }),
{
    let name = stem + seq!['.'] + ext;
    let n = ascii_lowered(name);
    let d = stem.len() as int;
    assert(n[d] == '.');
    crate::text::lemma_last_index_before(n, '.', n.len() as int);
    let i = crate::text::last_index_before(n, '.', n.len() as int);
    assert forall|j: int| d < j < n.len() implies n[j] != '.' by {
        let c = ext[j - d - 1];
        assert(name[j] == c);
        assert(c != '.');
        lemma_ascii_lower_dot(c);
    }
    assert(i == d);
    assert(n.skip(d + 1) =~= ascii_lowered(ext));
    assert(after_last_dot(n) == ascii_lowered(ext));
    assert(name.map_values(|c: char| ascii_lower(c)) =~= n);
    assert(after_last_dot(name.map_values(|c: char| ascii_lower(c))) == ascii_lowered(ext));
    reveal_strlit("png");
    reveal_strlit("jpg");
    reveal_strlit("jpeg");
    reveal_strlit("gif");
    reveal_strlit("webp");
    reveal_strlit("svg");
    reveal_strlit("txt");
    reveal_strlit("md");
    reveal_strlit("json");
    reveal_strlit("pdf");
    reveal_strlit("mp3");
    reveal_strlit("mp4");
    reveal_strlit("zip");
    let e = ascii_lowered(ext);
    // Distinct extensions differ in length or in a first or last letter.
    if e == "png"@ {
        assert(e.len() == 3 && e[0] == 'p' && e[2] == 'g');
    }
    if e == "jpg"@ {
        assert(e.len() == 3 && e[0] == 'j' && e[2] == 'g');
    }
    if e == "jpeg"@ {
        assert(e.len() == 4 && e[0] == 'j' && e[3] == 'g');
    }
    if e == "gif"@ {
        assert(e.len() == 3 && e[0] == 'g' && e[2] == 'f');
    }
    if e == "webp"@ {
        assert(e.len() == 4 && e[0] == 'w' && e[3] == 'p');
    }
    if e == "svg"@ {
        assert(e.len() == 3 && e[0] == 's' && e[2] == 'g');
    }
    if e == "txt"@ {
        assert(e.len() == 3 && e[0] == 't' && e[2] == 't');
    }
    if e == "md"@ {
        assert(e.len() == 2 && e[0] == 'm' && e[1] == 'd');
    }
    if e == "json"@ {
        assert(e.len() == 4 && e[0] == 'j' && e[3] == 'n');
    }
    if e == "pdf"@ {
        assert(e.len() == 3 && e[0] == 'p' && e[2] == 'f');
    }
    if e == "mp3"@ {
        assert(e.len() == 3 && e[0] == 'm' && e[2] == '3');
    }
    if e == "mp4"@ {
        assert(e.len() == 3 && e[0] == 'm' && e[2] == '4');
    }
    if e == "zip"@ {
        assert(e.len() == 3 && e[0] == 'z' && e[2] == 'p');
    }
}

/// A file name with no dot at all is sent as plain bytes.
pub proof fn law_mime_without_extension(name: Seq<char>)
    requires
        forall|i: int| 0 <= i < name.len() ==> name[i] != '.',
    ensures
        mime_spec(name) == "application/octet-stream"@,
{
    let n = ascii_lowered(name);
    assert forall|j: int| 0 <= j < n.len() implies n[j] != '.' by {
        let c = name[j];
        lemma_ascii_lower_dot(c);
    }
    crate::text::lemma_last_index_before(n, '.', n.len() as int);
    assert(after_last_dot(n) =~= Seq::<char>::empty());
    reveal_strlit("png");
    reveal_strlit("jpg");
    reveal_strlit("jpeg");
    reveal_strlit("gif");
    reveal_strlit("webp");
    reveal_strlit("svg");
    reveal_strlit("txt");
    reveal_strlit("md");
    reveal_strlit("json");
    reveal_strlit("pdf");
    reveal_strlit("mp3");
    reveal_strlit("mp4");
    reveal_strlit("zip");
}

fn is_word(v: &Vec<char>, w: &str) -> (r: bool)
    ensures
        r == (v@ == w@),
{
    let wv = chars_of(w);
    crate::text::chars_eq(v, &wv)
}

/// The MIME type an attachment is sent with.
pub fn mime_for_extension(filename: &str) -> (r: String)
    ensures
        r@ == mime_spec(filename@),
{
    let f = chars_of(filename);
    let mut lower: Vec<char> = Vec::new();
    let mut i: usize = 0;
    while i < f.len()
        invariant
            i <= f@.len(),
            lower@ == f@.take(i as int).map_values(|c: char| ascii_lower(c)),
        decreases f@.len() - i,
    {
        lower.push(ascii_lower_char(f[i]));
        proof {
            assert(f@.take(i + 1) =~= f@.take(i as int).push(f@[i as int]));
            assert(f@.take(i + 1).map_values(|c: char| ascii_lower(c)) =~= f@.take(i as int).map_values(
                |c: char| ascii_lower(c),
            ).push(ascii_lower(f@[i as int])));
        }
        i = i + 1;
    }
    proof {
        assert(f@.take(f@.len() as int) =~= f@);
    }
    proof {
        crate::text::lemma_last_index_before(lower@, '.', lower@.len() as int);
    }
    let ext: Vec<char> = match crate::text::rfind_char(&lower, '.', lower.len()) {
        Some(d) => crate::text::copy_range(&lower, d + 1, lower.len()),
        None => Vec::new(),
    };
    proof {
        crate::text::lemma_last_index_before(lower@, '.', lower@.len() as int);
        assert(lower@.skip(crate::text::last_index_before(lower@, '.', lower@.len() as int) + 1)
            == after_last_dot(lower@) || crate::text::last_index_before(
            lower@,
            '.',
            lower@.len() as int,
        ) < 0);
    }
    let m = if is_word(&ext, "png") {
        "image/png"
    } else if is_word(&ext, "jpg") || is_word(&ext, "jpeg") {
        "image/jpeg"
    } else if is_word(&ext, "gif") {
        "image/gif"
    } else if is_word(&ext, "webp") {
        "image/webp"
    } else if is_word(&ext, "svg") {
        "image/svg+xml"
    } else if is_word(&ext, "txt") || is_word(&ext, "md") {
        "text/plain"
    } else if is_word(&ext, "json") {
        "application/json"
    } else if is_word(&ext, "pdf") {
        "application/pdf"
    } else if is_word(&ext, "mp3") {
        "audio/mpeg"
    } else if is_word(&ext, "mp4") {
        "video/mp4"
    } else if is_word(&ext, "zip") {
        "application/zip"
    } else {
        "application/octet-stream"
    };
    m.to_string()
}

// ---------------------------------------------------------------------
// Argument lists
// ---------------------------------------------------------------------

/// A list-valued tool argument as it arrived: absent (or null), some
/// other JSON value, or a list of items.
pub enum ArgList<T> {
    Absent,
    NotList,
    List(Vec<T>),
}

/// `Ok` with the strings of a string-list argument (none when absent);
/// `None` items are entries that were not strings.
pub open spec fn string_list_spec(arg: ArgList<Option<String>>, key: Seq<char>) -> Result<
    Seq<Seq<char>>,
    Seq<char>,
> {
    match arg {
        ArgList::Absent => Ok(Seq::empty()),
        ArgList::NotList => Err(key + " must be a list of strings"@),
        ArgList::List(items) => if forall|i: int| 0 <= i < items@.len() ==> items@[i] is Some {
            Ok(items@.map_values(|o: Option<String>| o->0@))
        } else {
            Err(key + " entries must be strings"@)
        },
    }
}

pub open spec fn strings_result_view(r: Result<Vec<String>, String>) -> Result<Seq<Seq<char>>, Seq<char>> {
    match r {
        Ok(v) => Ok(views::<String>(v@)),
        Err(e) => Err(e@),
    }
}

/// Read a string-list argument.
pub fn parse_string_list(arg: ArgList<Option<String>>, key: &str) -> (r: Result<Vec<String>, String>)
    ensures
        strings_result_view(r) == string_list_spec(arg, key@),
{
    match arg {
        ArgList::Absent => {
            let out: Vec<String> = Vec::new();
            proof {
                assert(views::<String>(out@) =~= Seq::<Seq<char>>::empty());
            }
            Ok(out)
        },
        ArgList::NotList => {
            let mut m: Vec<char> = chars_of(key);
            push_str(&mut m, " must be a list of strings");
            Err(string_of(&m))
        },
        ArgList::List(items) => strings_from(&items, key),
    }
}

fn strings_from(items: &Vec<Option<String>>, key: &str) -> (r: Result<Vec<String>, String>)
    ensures
        strings_result_view(r) == (if forall|i: int| 0 <= i < items@.len() ==> items@[i] is Some {
            Ok(items@.map_values(|o: Option<String>| o->0@))
        } else {
            Err(key@ + " entries must be strings"@)
        }),
{
    let mut out: Vec<String> = Vec::new();
    let mut i: usize = 0;
    while i < items.len()
        invariant
            i <= items@.len(),
            forall|j: int| 0 <= j < i ==> items@[j] is Some,
            out@.len() == i,
            forall|j: int| 0 <= j < i ==> out@[j]@ == items@[j]->0@,
        decreases items@.len() - i,
    {
        match &items[i] {
            Some(s) => {
                out.push(s.clone());
            },
            None => {
                proof {
                    assert(!(items@[i as int] is Some));
                }
                let mut m: Vec<char> = chars_of(key);
                push_str(&mut m, " entries must be strings");
                return Err(string_of(&m));
            },
        }
        i = i + 1;
    }
    proof {
        assert(views::<String>(out@) =~= items@.map_values(|o: Option<String>| o->0@));
    }
    Ok(out)
}

// ---------------------------------------------------------------------
// Atomic notes
// ---------------------------------------------------------------------

/// A typed link of an atomic note.
#[derive(Debug)]
pub struct TypedLink {
    pub link_type: String,
    pub target: String,
}

impl View for TypedLink {
    type V = (Seq<char>, Seq<char>);

    open spec fn view(&self) -> (Seq<char>, Seq<char>) {
        (self.link_type@, self.target@)
    }
}

/// A link argument as it arrived: whether it was an object, and its
/// `type` and `target` when those were strings.
pub struct RawLink {
    pub is_object: bool,
    pub link_type: Option<String>,
    pub target: Option<String>,
}

/// Why link `i` is refused, if it is.
pub open spec fn link_error(l: RawLink, i: nat) -> Option<Seq<char>> {
    let tag = "link "@ + decimal(i) + ": "@;
    if !l.is_object {
        Some(tag + "must be an object"@)
    } else if l.link_type is None {
        Some(tag + "missing type"@)
    } else if trim(l.link_type->0@).len() == 0 {
        Some(tag + "type must be non-empty"@)
    } else if l.target is None {
        Some(tag + "missing target"@)
    } else if trim(l.target->0@).len() == 0 {
        Some(tag + "target must be non-empty"@)
    } else {
        None
    }
}

/// The first refusal among links `i..`, if any.
pub open spec fn first_link_error(links: Seq<RawLink>, i: int) -> Option<Seq<char>>
    decreases links.len() - i,
{
    if i < 0 || i >= links.len() {
        None
    } else {
        match link_error(links[i], i as nat) {
            Some(e) => Some(e),
            None => first_link_error(links, i + 1),
        }
    }
}

/// The typed links of a `links` argument: every item an object with
/// string `type` and `target`, both trimmed and nonempty; the first
/// item that is not refuses the whole list.
pub open spec fn typed_links_spec(arg: ArgList<RawLink>, key: Seq<char>) -> Result<
    Seq<(Seq<char>, Seq<char>)>,
    Seq<char>,
> {
    match arg {
        ArgList::Absent => Ok(Seq::empty()),
        ArgList::NotList => Err(key + " must be a list of link objects"@),
        ArgList::List(items) => match first_link_error(items@, 0) {
            Some(e) => Err(e),
            None => Ok(
                items@.map_values(
                    |l: RawLink| (trim(l.link_type->0@), trim(l.target->0@)),
                ),
            ),
        },
    }
}

pub open spec fn links_result_view(r: Result<Vec<TypedLink>, String>) -> Result<
    Seq<(Seq<char>, Seq<char>)>,
    Seq<char>,
> {
    match r {
        Ok(v) => Ok(views::<TypedLink>(v@)),
        Err(e) => Err(e@),
    }
}

fn link_error_message(i: usize, what: &str) -> (r: String)
    ensures
        r@ == "link "@ + decimal(i as nat) + ": "@ + what@,
{
    let mut m: Vec<char> = Vec::new();
    push_str(&mut m, "link ");
    let d = u64_to_chars(i as u64);
    push_all(&mut m, &d);
    push_str(&mut m, ": ");
    push_str(&mut m, what);
    string_of(&m)
}

/// Read a typed-link-list argument.
pub fn parse_typed_link_list(arg: ArgList<RawLink>, key: &str) -> (r: Result<Vec<TypedLink>, String>)
    ensures
        links_result_view(r) == typed_links_spec(arg, key@),
{
    match arg {
        ArgList::Absent => {
            let out: Vec<TypedLink> = Vec::new();
            proof {
                assert(views::<TypedLink>(out@) =~= Seq::<(Seq<char>, Seq<char>)>::empty());
            }
            Ok(out)
        },
        ArgList::NotList => {
            let mut m: Vec<char> = chars_of(key);
            push_str(&mut m, " must be a list of link objects");
            Err(string_of(&m))
        },
        ArgList::List(items) => links_from(&items),
    }
}

fn links_from(items: &Vec<RawLink>) -> (r: Result<Vec<TypedLink>, String>)
    ensures
        links_result_view(r) == (match first_link_error(items@, 0) {
            Some(e) => Err(e),
            None => Ok(
                items@.map_values(|l: RawLink| (trim(l.link_type->0@), trim(l.target->0@))),
            ),
        }),
{
    let mut out: Vec<TypedLink> = Vec::new();
    let mut i: usize = 0;
    while i < items.len()
        invariant
            i <= items@.len(),
            first_link_error(items@, 0) == first_link_error(items@, i as int),
            out@.len() == i,
            forall|j: int|
                0 <= j < i ==> (#[trigger] out@[j])@ == (
                    trim(items@[j].link_type->0@),
                    trim(items@[j].target->0@),
                ),
        decreases items@.len() - i,
    {
        let l = &items[i];
        if !l.is_object {
            return Err(link_error_message(i, "must be an object"));
        }
        let ty = match &l.link_type {
            None => {
                return Err(link_error_message(i, "missing type"));
            },
            Some(t) => trimmed_chars(t.as_str()),
        };
        if ty.len() == 0 {
            return Err(link_error_message(i, "type must be non-empty"));
        }
        let tg = match &l.target {
            None => {
                return Err(link_error_message(i, "missing target"));
            },
            Some(t) => trimmed_chars(t.as_str()),
        };
        if tg.len() == 0 {
            return Err(link_error_message(i, "target must be non-empty"));
        }
        out.push(TypedLink { link_type: string_of(&ty), target: string_of(&tg) });
        i = i + 1;
    }
    proof {
        assert(views::<TypedLink>(out@) =~= items@.map_values(
            |l: RawLink| (trim(l.link_type->0@), trim(l.target->0@)),
        ));
    }
    Ok(out)
}

/// `str::split_whitespace().count()`: the number of maximal runs of
/// non-whitespace characters.
pub open spec fn word_count(s: Seq<char>) -> nat
    decreases s.len(),
{
    if s.len() == 0 {
        0
    } else {
        let starts = !is_ws(s.last()) && (s.len() == 1 || is_ws(s[s.len() - 2]));
        word_count(s.drop_last()) + if starts {
            1nat
        } else {
            0nat
        }
    }
}

fn count_words(s: &Vec<char>) -> (n: usize)
    ensures
        n == word_count(s@),
{
    let mut n: usize = 0;
    let mut i: usize = 0;
    while i < s.len()
        invariant
            i <= s@.len(),
            n == word_count(s@.take(i as int)),
            n <= i,
        decreases s@.len() - i,
    {
        let starts = !crate::text::char_is_ws(s[i]) && (i == 0 || crate::text::char_is_ws(s[i - 1]));
        proof {
            let t = s@.take(i + 1);
            assert(t.drop_last() =~= s@.take(i as int));
            assert(t.last() == s@[i as int]);
            if i > 0 {
                assert(t[t.len() - 2] == s@[i - 1]);
            }
        }
        if starts {
            n = n + 1;
        }
        i = i + 1;
    }
    proof {
        assert(s@.take(s@.len() as int) =~= s@);
    }
    n
}

/// Why an atomic note's body is refused, if it is: empty once trimmed,
/// or over the word limit.
pub open spec fn atomic_body_error(body: Seq<char>, max_words: usize) -> Option<Seq<char>> {
    if trim(body).len() == 0 {
        Some("body must be non-empty"@)
    } else if word_count(body) > max_words {
        Some("body is "@ + decimal(word_count(body)) + " words; limit is "@ + decimal(max_words as nat))
    } else {
        None
    }
}

pub open spec fn unit_result_view(r: Result<(), String>) -> Option<Seq<char>> {
    match r {
        Ok(_) => None,
        Err(e) => Some(e@),
    }
}

/// Check an atomic note's body against the wall's rules.
pub fn check_atomic_body(body: &str, max_words: usize) -> (r: Result<(), String>)
    ensures
        unit_result_view(r) == atomic_body_error(body@, max_words),
{
    let t = trimmed_chars(body);
    if t.len() == 0 {
        return Err("body must be non-empty".to_string());
    }
    let cs = chars_of(body);
    let n = count_words(&cs);
    if n > max_words {
        let mut m: Vec<char> = Vec::new();
        push_str(&mut m, "body is ");
        let d = u64_to_chars(n as u64);
        push_all(&mut m, &d);
        push_str(&mut m, " words; limit is ");
        let d2 = u64_to_chars(max_words as u64);
        push_all(&mut m, &d2);
        return Err(string_of(&m));
    }
    Ok(())
}

/// `  - type: target` lines for the links.
pub open spec fn link_lines(links: Seq<(Seq<char>, Seq<char>)>) -> Seq<char>
    decreases links.len(),
{
    if links.len() == 0 {
        Seq::empty()
    } else {
        link_lines(links.drop_last()) + "  - "@ + links.last().0 + ": "@ + links.last().1 + "\n"@
    }
}

/// An atomic note's text: frontmatter in the order id, created, links,
/// tags (only when there are any), shape (only when given), then a blank
/// line and the body, which ends in a newline.
pub open spec fn atomic_text(
    id: Seq<char>,
    created: Seq<char>,
    body: Seq<char>,
    links: Seq<(Seq<char>, Seq<char>)>,
    tags: Seq<Seq<char>>,
    shape: Option<Seq<char>>,
) -> Seq<char> {
    "---\n"@ + "id: "@ + id + "\n"@ + "created: "@ + created + "\n"@ + "links:\n"@ + link_lines(links)
        + (if tags.len() > 0 {
        "tags: ["@ + join_with(tags, ", "@) + "]\n"@
    } else {
        Seq::empty()
    }) + (match shape {
        Some(s) => "shape: "@ + s + "\n"@,
        None => Seq::empty(),
    }) + "---\n\n"@ + body + (if body.len() > 0 && body.last() == '\n' {
        Seq::empty()
    } else {
        "\n"@
    })
}

pub open spec fn opt_str_view(o: Option<&str>) -> Option<Seq<char>> {
    match o {
        Some(s) => Some(s@),
        None => None,
    }
}

/// Assemble an atomic note's contents.
#[verifier::spinoff_prover]
#[verifier::rlimit(60)]
pub fn assemble_atomic(
    id: &str,
    created: &str,
    body: &str,
    links: &Vec<TypedLink>,
    tags: &Vec<String>,
    shape: Option<&str>,
) -> (r: String)
    ensures
        r@ == atomic_text(id@, created@, body@, views::<TypedLink>(links@), views::<String>(tags@), opt_str_view(shape)),
{
    let mut fm: Vec<char> = Vec::new();
    push_str(&mut fm, "---\n");
    push_str(&mut fm, "id: ");
    push_str(&mut fm, id);
    push_str(&mut fm, "\n");
    push_str(&mut fm, "created: ");
    push_str(&mut fm, created);
    push_str(&mut fm, "\n");
    push_str(&mut fm, "links:\n");
    let ghost head = fm@;
    let mut i: usize = 0;
    while i < links.len()
        invariant
            i <= links@.len(),
            fm@ == head + link_lines(views::<TypedLink>(links@).take(i as int)),
        decreases links@.len() - i,
    {
        push_str(&mut fm, "  - ");
        push_str(&mut fm, links[i].link_type.as_str());
        push_str(&mut fm, ": ");
        push_str(&mut fm, links[i].target.as_str());
        push_str(&mut fm, "\n");
        proof {
            let lv = views::<TypedLink>(links@);
            assert(lv.take(i + 1).drop_last() =~= lv.take(i as int));
            assert(lv.take(i + 1).last() == links@[i as int]@);
        }
        i = i + 1;
    }
    proof {
        assert(views::<TypedLink>(links@).take(links@.len() as int) =~= views::<TypedLink>(links@));
    }
    if tags.len() > 0 {
        push_str(&mut fm, "tags: [");
        let mut tv: Vec<Vec<char>> = Vec::new();
        let mut k: usize = 0;
        while k < tags.len()
            invariant
                k <= tags@.len(),
                tv@.len() == k,
                forall|j: int| 0 <= j < k ==> (#[trigger] tv@[j])@ == tags@[j]@,
            decreases tags@.len() - k,
        {
            tv.push(chars_of(tags[k].as_str()));
            k = k + 1;
        }
        proof {
            assert(views::<Vec<char>>(tv@) =~= views::<String>(tags@));
        }
        let joined = join_chars(&tv, ", ");
        push_all(&mut fm, &joined);
        push_str(&mut fm, "]\n");
    }
    match shape {
        Some(s) => {
            push_str(&mut fm, "shape: ");
            push_str(&mut fm, s);
            push_str(&mut fm, "\n");
        },
        None => {},
    }
    push_str(&mut fm, "---\n\n");
    push_str(&mut fm, body);
    let b = chars_of(body);
    if !(b.len() > 0 && b[b.len() - 1] == '\n') {
        push_str(&mut fm, "\n");
    }
    proof {
        assert(fm@ =~= atomic_text(
            id@,
            created@,
            body@,
            views::<TypedLink>(links@),
            views::<String>(tags@),
            opt_str_view(shape),
        ));
    }
    string_of(&fm)
}

/// Lines each followed by a newline.
pub open spec fn terminated(ls: Seq<Seq<char>>) -> Seq<char>
    decreases ls.len(),
{
    if ls.len() == 0 {
        Seq::empty()
    } else {
        terminated(ls.drop_last()) + ls.last() + seq!['\n']
    }
}

proof fn lemma_terminated_join(ls: Seq<Seq<char>>)
    requires
        ls.len() > 0,
    ensures
        terminated(ls) == join_with(ls, seq!['\n']) + seq!['\n'],
    decreases ls.len(),
{
    if ls.len() == 1 {
        assert(terminated(ls.drop_last()) =~= Seq::<char>::empty());
        assert(terminated(ls) =~= ls[0] + seq!['\n']);
    } else {
        lemma_terminated_join(ls.drop_last());
        assert(terminated(ls) =~= join_with(ls, seq!['\n']) + seq!['\n']);
    }
}

proof fn lemma_terminated_append(a: Seq<Seq<char>>, b: Seq<Seq<char>>)
    ensures
        terminated(a + b) == terminated(a) + terminated(b),
    decreases b.len(),
{
    if b.len() == 0 {
        assert(a + b =~= a);
        assert(terminated(a) + terminated(b) =~= terminated(a));
    } else {
        lemma_terminated_append(a, b.drop_last());
        assert((a + b).drop_last() =~= a + b.drop_last());
        assert((a + b).last() == b.last());
        assert(terminated(a + b) =~= terminated(a) + terminated(b));
    }
}

/// One link's frontmatter line.
pub open spec fn link_line(l: (Seq<char>, Seq<char>)) -> Seq<char> {
    "  - "@ + l.0 + ": "@ + l.1
}

pub open spec fn link_line_seq(links: Seq<(Seq<char>, Seq<char>)>) -> Seq<Seq<char>> {
    links.map_values(|l: (Seq<char>, Seq<char>)| link_line(l))
}

proof fn lemma_link_lines(links: Seq<(Seq<char>, Seq<char>)>)
    ensures
        link_lines(links) == terminated(link_line_seq(links)),
    decreases links.len(),
{
    reveal_strlit("\n");
    if links.len() == 0 {
        assert(link_line_seq(links) =~= Seq::<Seq<char>>::empty());
    } else {
        lemma_link_lines(links.drop_last());
        assert(link_line_seq(links).drop_last() =~= link_line_seq(links.drop_last()));
        assert(link_line_seq(links).last() == link_line(links.last()));
        assert(link_lines(links) =~= terminated(link_line_seq(links)));
    }
}

/// The frontmatter lines of an atomic note, in their order.
pub open spec fn atomic_lines(
    id: Seq<char>,
    created: Seq<char>,
    links: Seq<(Seq<char>, Seq<char>)>,
    tags: Seq<Seq<char>>,
    shape: Option<Seq<char>>,
) -> Seq<Seq<char>> {
    seq!["id: "@ + id, "created: "@ + created, "links:"@] + link_line_seq(links) + (if tags.len() > 0 {
        seq!["tags: ["@ + join_with(tags, ", "@) + "]"@]
    } else {
        Seq::empty()
    }) + (match shape {
        Some(s) => seq!["shape: "@ + s],
        None => Seq::empty(),
    })
}

/// An atomic note whose frontmatter reads back: an id that is not empty
/// and that trimming and unquoting leave alone, and no newline in any
/// field.
pub open spec fn atomic_ok(
    id: Seq<char>,
    created: Seq<char>,
    links: Seq<(Seq<char>, Seq<char>)>,
    tags: Seq<Seq<char>>,
    shape: Option<Seq<char>>,
) -> bool {
    &&& id.len() > 0
    &&& crate::text::has_no(id, '\n')
    &&& trim(id) == id
    &&& crate::frontmatter::unquote_spec(id) == id
    &&& crate::text::has_no(created, '\n')
    &&& forall|i: int|
        0 <= i < links.len() ==> crate::text::has_no((#[trigger] links[i]).0, '\n')
            && crate::text::has_no(links[i].1, '\n')
    &&& forall|i: int| 0 <= i < tags.len() ==> crate::text::has_no(#[trigger] tags[i], '\n')
    &&& match shape {
        Some(s) => crate::text::has_no(s, '\n'),
        None => true,
    }
}

proof fn lemma_concat_plain(a: Seq<char>, b: Seq<char>)
    requires
        crate::text::has_no(a, '\n'),
        crate::text::has_no(b, '\n'),
    ensures
        crate::text::has_no(a + b, '\n'),
{
    assert forall|q: int| 0 <= q < (a + b).len() implies (a + b)[q] != '\n' by {
        if q < a.len() {
            assert((a + b)[q] == a[q]);
        } else {
            assert((a + b)[q] == b[q - a.len()]);
        }
    }
}

proof fn lemma_joined_plain(tags: Seq<Seq<char>>)
    requires
        forall|i: int| 0 <= i < tags.len() ==> crate::text::has_no(#[trigger] tags[i], '\n'),
    ensures
        crate::text::has_no(join_with(tags, ", "@), '\n'),
    decreases tags.len(),
{
    reveal_strlit(", ");
    if tags.len() == 1 {
        assert(crate::text::has_no(tags[0], '\n'));
    } else if tags.len() > 1 {
        let p = tags.drop_last();
        assert forall|i: int| 0 <= i < p.len() implies crate::text::has_no(#[trigger] p[i], '\n') by {
            assert(p[i] == tags[i]);
        }
        lemma_joined_plain(p);
        assert(crate::text::has_no(tags[tags.len() - 1], '\n'));
        lemma_concat_plain(join_with(p, ", "@), ", "@);
        lemma_concat_plain(join_with(p, ", "@) + ", "@, tags.last());
    }
}

#[verifier::spinoff_prover]
proof fn lemma_atomic_plain(
    id: Seq<char>,
    created: Seq<char>,
    links: Seq<(Seq<char>, Seq<char>)>,
    tags: Seq<Seq<char>>,
    shape: Option<Seq<char>>,
)
    requires
        atomic_ok(id, created, links, tags, shape),
    ensures
        crate::text::plain_lines(atomic_lines(id, created, links, tags, shape)),
{
    reveal_strlit("id: ");
    reveal_strlit("created: ");
    reveal_strlit("links:");
    reveal_strlit("  - ");
    reveal_strlit(": ");
    reveal_strlit("tags: [");
    reveal_strlit("]");
    reveal_strlit("shape: ");
    let ls = atomic_lines(id, created, links, tags, shape);
    let head = seq!["id: "@ + id, "created: "@ + created, "links:"@];
    let ll = link_line_seq(links);
    lemma_concat_plain("id: "@, id);
    lemma_concat_plain("created: "@, created);
    assert forall|i: int| 0 <= i < ll.len() implies crate::text::has_no(#[trigger] ll[i], '\n') && ll[
        i].len() > 0 && ll[i][0] == ' ' by {
        assert(crate::text::has_no(links[i].0, '\n'));
        lemma_concat_plain("  - "@, links[i].0);
        lemma_concat_plain("  - "@ + links[i].0, ": "@);
        lemma_concat_plain("  - "@ + links[i].0 + ": "@, links[i].1);
    }
    if tags.len() > 0 {
        lemma_joined_plain(tags);
        lemma_concat_plain("tags: ["@, join_with(tags, ", "@));
        lemma_concat_plain("tags: ["@ + join_with(tags, ", "@), "]"@);
    }
    match shape {
        Some(s) => {
            lemma_concat_plain("shape: "@, s);
        },
        None => {},
    }
    assert forall|i: int| 0 <= i < ls.len() implies crate::text::has_no(#[trigger] ls[i], '\n') && (i
        > 0 ==> ls[i].len() > 0 && ls[i][0] != '-') by {
        if 3 <= i < 3 + ll.len() {
            assert(ls[i] == ll[i - 3]);
        }
    }
}

proof fn lemma_terminated_head(id: Seq<char>, created: Seq<char>)
    ensures
        terminated(seq!["id: "@ + id, "created: "@ + created, "links:"@]) == "id: "@ + id + "\n"@
            + "created: "@ + created + "\n"@ + "links:\n"@,
{
    reveal_strlit("\n");
    reveal_strlit("links:\n");
    reveal_strlit("links:");
    let head = seq!["id: "@ + id, "created: "@ + created, "links:"@];
    reveal_with_fuel(terminated, 4);
    assert(head.drop_last().drop_last().drop_last() =~= Seq::<Seq<char>>::empty());
    assert(terminated(head) =~= "id: "@ + id + "\n"@ + "created: "@ + created + "\n"@ + "links:\n"@);
}

proof fn lemma_terminated_one(x: Seq<char>)
    ensures
        terminated(seq![x]) == x + "\n"@,
{
    reveal_strlit("\n");
    let e: Seq<Seq<char>> = Seq::empty();
    assert(seq![x].drop_last() =~= e);
    assert(terminated(e) =~= Seq::<char>::empty());
    assert(terminated(seq![x]) =~= x + "\n"@);
}

pub open spec fn tag_lines(tags: Seq<Seq<char>>) -> Seq<Seq<char>> {
    if tags.len() > 0 {
        seq!["tags: ["@ + join_with(tags, ", "@) + "]"@]
    } else {
        Seq::empty()
    }
}

pub open spec fn shape_lines(shape: Option<Seq<char>>) -> Seq<Seq<char>> {
    match shape {
        Some(s) => seq!["shape: "@ + s],
        None => Seq::empty(),
    }
}

proof fn lemma_terminated_tail(tags: Seq<Seq<char>>, shape: Option<Seq<char>>)
    ensures
        terminated(tag_lines(tags)) == (if tags.len() > 0 {
            "tags: ["@ + join_with(tags, ", "@) + "]\n"@
        } else {
            Seq::<char>::empty()
        }),
        terminated(shape_lines(shape)) == (match shape {
            Some(s) => "shape: "@ + s + "\n"@,
            None => Seq::<char>::empty(),
        }),
{
    reveal_strlit("\n");
    reveal_strlit("]\n");
    reveal_strlit("]");
    let e: Seq<Seq<char>> = Seq::empty();
    assert(terminated(e) =~= Seq::<char>::empty());
    if tags.len() > 0 {
        lemma_terminated_one("tags: ["@ + join_with(tags, ", "@) + "]"@);
        assert("tags: ["@ + join_with(tags, ", "@) + "]"@ + "\n"@ =~= "tags: ["@ + join_with(
            tags,
            ", "@,
        ) + "]\n"@);
    }
    match shape {
        Some(sh) => {
            lemma_terminated_one("shape: "@ + sh);
        },
        None => {},
    }
}

/// The frontmatter lines of an atomic note, each ended by a newline.
pub open spec fn atomic_fm(
    id: Seq<char>,
    created: Seq<char>,
    links: Seq<(Seq<char>, Seq<char>)>,
    tags: Seq<Seq<char>>,
    shape: Option<Seq<char>>,
) -> Seq<char> {
    "id: "@ + id + "\n"@ + "created: "@ + created + "\n"@ + "links:\n"@ + link_lines(links) + (
    if tags.len() > 0 {
        "tags: ["@ + join_with(tags, ", "@) + "]\n"@
    } else {
        Seq::<char>::empty()
    }) + (match shape {
        Some(s) => "shape: "@ + s + "\n"@,
        None => Seq::<char>::empty(),
    })
}

#[verifier::spinoff_prover]
proof fn lemma_atomic_fm(
    id: Seq<char>,
    created: Seq<char>,
    links: Seq<(Seq<char>, Seq<char>)>,
    tags: Seq<Seq<char>>,
    shape: Option<Seq<char>>,
)
    ensures
        terminated(atomic_lines(id, created, links, tags, shape)) == atomic_fm(id, created, links, tags, shape),
        join_with(atomic_lines(id, created, links, tags, shape), seq!['\n']) + seq!['\n'] == atomic_fm(
            id,
            created,
            links,
            tags,
            shape,
        ),
{
    let ls = atomic_lines(id, created, links, tags, shape);
    let head = seq!["id: "@ + id, "created: "@ + created, "links:"@];
    let ll = link_line_seq(links);
    let tl = tag_lines(tags);
    let sl = shape_lines(shape);
    assert(ls == head + ll + tl + sl);
    lemma_terminated_join(ls);
    lemma_terminated_append(head + ll + tl, sl);
    lemma_terminated_append(head + ll, tl);
    lemma_terminated_append(head, ll);
    lemma_link_lines(links);
    lemma_terminated_head(id, created);
    lemma_terminated_tail(tags, shape);
    assert(terminated(ls) =~= atomic_fm(id, created, links, tags, shape));
}

#[verifier::spinoff_prover]
proof fn lemma_atomic_layout(
    id: Seq<char>,
    created: Seq<char>,
    body: Seq<char>,
    links: Seq<(Seq<char>, Seq<char>)>,
    tags: Seq<Seq<char>>,
    shape: Option<Seq<char>>,
)
    ensures
        atomic_text(id, created, body, links, tags, shape) == "---\n"@ + join_with(
            atomic_lines(id, created, links, tags, shape),
            seq!['\n'],
        ) + crate::frontmatter::fm_close() + (seq!['\n', '\n'] + crate::moments::terminated_body(
            body,
        )),
{
    let ls = atomic_lines(id, created, links, tags, shape);
    lemma_atomic_fm(id, created, links, tags, shape);
    let fm = atomic_fm(id, created, links, tags, shape);
    let b = crate::moments::terminated_body(body);
    assert(atomic_text(id, created, body, links, tags, shape) =~= "---\n"@ + fm + "---\n\n"@ + b);
    reveal_strlit("---\n\n");
    reveal_strlit("---\n");
    assert("---\n"@ + fm + "---\n\n"@ + b =~= "---\n"@ + join_with(ls, seq!['\n'])
        + crate::frontmatter::fm_close() + (seq!['\n', '\n'] + b));
}

#[verifier::spinoff_prover]
#[verifier::rlimit(40)]
proof fn lemma_atomic_id(
    id: Seq<char>,
    created: Seq<char>,
    body: Seq<char>,
    links: Seq<(Seq<char>, Seq<char>)>,
    tags: Seq<Seq<char>>,
    shape: Option<Seq<char>>,
)
    requires
        atomic_ok(id, created, links, tags, shape),
    ensures
        crate::frontmatter::frontmatter_field(atomic_text(id, created, body, links, tags, shape), "id"@)
            == Some(id),
{
    reveal_strlit("---\n");
    reveal_strlit("id");
    reveal_strlit("id: ");
    let t = atomic_text(id, created, body, links, tags, shape);
    let ls = atomic_lines(id, created, links, tags, shape);
    let j = join_with(ls, seq!['\n']);
    let b = crate::moments::terminated_body(body);
    let rest = seq!['\n', '\n'] + b;
    lemma_atomic_layout(id, created, body, links, tags, shape);
    lemma_atomic_plain(id, created, links, tags, shape);
    crate::text::lemma_join_no_dash(ls);
    crate::frontmatter::lemma_close_after(t, "---\n"@, j, rest);
    assert(starts_with(t, crate::frontmatter::fm_open())) by {
        assert(t.subrange(0, 4) =~= crate::frontmatter::fm_open());
    }
    assert(j.skip(0) =~= j);
    assert forall|i: int| 0 <= i < ls.len() implies crate::text::has_no(#[trigger] ls[i], '\n') by {
        assert(crate::text::plain_lines(ls));
    }
    crate::text::lemma_split_join(j, '\n', 0, ls);
    let l0 = "id: "@ + id;
    assert(ls[0] == l0);
    crate::text::lemma_trim_fixed(id);
    assert(l0[0] == 'i');
    assert(l0.last() == id.last());
    crate::text::lemma_trim_unchanged(l0);
    let prefix = "id"@.push(':');
    assert(prefix =~= seq!['i', 'd', ':']);
    assert(starts_with(l0, prefix)) by {
        assert(l0.subrange(0, 3) =~= prefix);
    }
    assert(l0.skip(3) =~= seq![' '] + id);
    crate::text::lemma_trim_lead_space(id);
    assert(crate::frontmatter::unquote_spec(seq![' '] + id) == crate::frontmatter::unquote_spec(id));
}

#[verifier::spinoff_prover]
proof fn lemma_atomic_body(
    id: Seq<char>,
    created: Seq<char>,
    body: Seq<char>,
    links: Seq<(Seq<char>, Seq<char>)>,
    tags: Seq<Seq<char>>,
    shape: Option<Seq<char>>,
)
    requires
        atomic_ok(id, created, links, tags, shape),
    ensures
        crate::frontmatter::strip_frontmatter_spec(atomic_text(id, created, body, links, tags, shape))
            == strip_leading(crate::moments::terminated_body(body), '\n'),
{
    reveal_strlit("---\n");
    reveal_strlit("id: ");
    let t = atomic_text(id, created, body, links, tags, shape);
    let ls = atomic_lines(id, created, links, tags, shape);
    let j = join_with(ls, seq!['\n']);
    let b = crate::moments::terminated_body(body);
    let rest = seq!['\n', '\n'] + b;
    lemma_atomic_layout(id, created, body, links, tags, shape);
    lemma_atomic_plain(id, created, links, tags, shape);
    crate::text::lemma_join_no_dash(ls);
    crate::frontmatter::lemma_close_after(t, "---\n"@, j, rest);
    assert(starts_with(t, crate::frontmatter::fm_open())) by {
        assert(t.subrange(0, 4) =~= crate::frontmatter::fm_open());
    }
    let rest0 = t.skip(4);
    assert(rest0 == j + crate::frontmatter::fm_close() + rest);
    assert(!starts_with(rest0, seq!['-', '-', '-'])) by {
        assert(rest0[0] == j[0]);
        assert(j.subrange(0, ls[0].len() as int) == ls[0]);
        assert(ls[0][0] == 'i');
    }
    assert(Seq::<char>::empty() + j + crate::frontmatter::fm_close() + rest =~= rest0);
    crate::frontmatter::lemma_close_after(rest0, Seq::<char>::empty(), j, rest);
    assert(rest0.skip(j.len() as int) =~= crate::frontmatter::fm_close() + rest);
    crate::frontmatter::lemma_body_after_close(b);
}

/// An atomic note reads back: its frontmatter gives its id, and the
/// text after the frontmatter is its body, less the leading newlines
/// the reader skips.
pub proof fn law_atomic_round_trip(
    id: Seq<char>,
    created: Seq<char>,
    body: Seq<char>,
    links: Seq<(Seq<char>, Seq<char>)>,
    tags: Seq<Seq<char>>,
    shape: Option<Seq<char>>,
)
    requires
        atomic_ok(id, created, links, tags, shape),
    ensures
        crate::frontmatter::frontmatter_field(atomic_text(id, created, body, links, tags, shape), "id"@)
            == Some(id),
        crate::frontmatter::strip_frontmatter_spec(atomic_text(id, created, body, links, tags, shape))
            == strip_leading(crate::moments::terminated_body(body), '\n'),
{
    lemma_atomic_id(id, created, body, links, tags, shape);
    lemma_atomic_body(id, created, body, links, tags, shape);
}

/// `knowledge/{id}.md`: where an atomic note lives in the workspace.
pub fn atomic_relative_path(id: &str) -> (r: String)
    ensures
        r@ == "knowledge/"@ + id@ + ".md"@,
{
    let mut p: Vec<char> = Vec::new();
    push_str(&mut p, "knowledge/");
    push_str(&mut p, id);
    push_str(&mut p, ".md");
    string_of(&p)
}

/// The stems of the `.md` files among directory entry names.
pub open spec fn md_stems_spec(names: Seq<Seq<char>>) -> Seq<Seq<char>>
    decreases names.len(),
{
    if names.len() == 0 {
        Seq::empty()
    } else {
        let rest = md_stems_spec(names.drop_last());
        let n = names.last();
        if extension(n) == Some("md"@) && file_stem(n) is Some {
            rest.push(file_stem(n)->0)
        } else {
            rest
        }
    }
}

/// Atomic filename stems, for advisory link-target resolution.
pub fn known_atomic_stems(names: &Vec<String>) -> (r: Vec<String>)
    ensures
        views::<String>(r@) == md_stems_spec(views::<String>(names@)),
{
    let mut out: Vec<String> = Vec::new();
    let mut i: usize = 0;
    while i < names.len()
        invariant
            i <= names@.len(),
            views::<String>(out@) == md_stems_spec(views::<String>(names@).take(i as int)),
        decreases names@.len() - i,
    {
        proof {
            let nv = views::<String>(names@);
            assert(nv.take(i + 1).drop_last() =~= nv.take(i as int));
            assert(nv.take(i + 1).last() == names@[i as int]@);
            reveal_strlit("md");
            assert(seq!['m', 'd'] =~= "md"@);
        }
        if crate::paths::has_md_extension(names[i].as_str()) {
            match crate::paths::file_stem_str(names[i].as_str()) {
                Some(st) => {
                    let ghost before = views::<String>(out@);
                    out.push(st);
                    proof {
                        assert(views::<String>(out@) =~= before.push(views::<String>(out@).last()));
                    }
                },
                None => {},
            }
        }
        i = i + 1;
    }
    proof {
        assert(views::<String>(names@).take(names@.len() as int) =~= views::<String>(names@));
    }
    out
}

/// Warnings for link targets that are neither the note itself nor a
/// known atomic.
pub open spec fn unresolved_spec(
    links: Seq<(Seq<char>, Seq<char>)>,
    id: Seq<char>,
    known: Seq<Seq<char>>,
) -> Seq<Seq<char>>
    decreases links.len(),
{
    if links.len() == 0 {
        Seq::empty()
    } else {
        let rest = unresolved_spec(links.drop_last(), id, known);
        let t = links.last().1;
        if t != id && !known.contains(t) {
            rest.push("unresolved link target: "@ + t)
        } else {
            rest
        }
    }
}

fn listed(known: &Vec<String>, s: &str) -> (r: bool)
    ensures
        r == views::<String>(known@).contains(s@),
{
    let mut i: usize = 0;
    while i < known.len()
        invariant
            i <= known@.len(),
            forall|j: int| 0 <= j < i ==> known@[j]@ != s@,
        decreases known@.len() - i,
    {
        if str_eq(known[i].as_str(), s) {
            proof {
                assert(views::<String>(known@)[i as int] == s@);
            }
            return true;
        }
        i = i + 1;
    }
    proof {
        if views::<String>(known@).contains(s@) {
            let j = choose|j: int| 0 <= j < views::<String>(known@).len() && views::<String>(known@)[j] == s@;
            assert(known@[j]@ == s@);
        }
    }
    false
}

/// The warnings a fresh atomic note's links earn.
pub fn unresolved_link_warnings(links: &Vec<TypedLink>, id: &str, known: &Vec<String>) -> (r: Vec<
    String,
>)
    ensures
        views::<String>(r@) == unresolved_spec(views::<TypedLink>(links@), id@, views::<String>(known@)),
{
    let mut out: Vec<String> = Vec::new();
    let mut i: usize = 0;
    while i < links.len()
        invariant
            i <= links@.len(),
            views::<String>(out@) == unresolved_spec(
                views::<TypedLink>(links@).take(i as int),
                id@,
                views::<String>(known@),
            ),
        decreases links@.len() - i,
    {
        proof {
            let lv = views::<TypedLink>(links@);
            assert(lv.take(i + 1).drop_last() =~= lv.take(i as int));
            assert(lv.take(i + 1).last() == links@[i as int]@);
        }
        let t = links[i].target.as_str();
        if !str_eq(t, id) && !listed(known, t) {
            let mut m: Vec<char> = Vec::new();
            push_str(&mut m, "unresolved link target: ");
            push_str(&mut m, t);
            let ghost before = views::<String>(out@);
            out.push(string_of(&m));
            proof {
                assert(views::<String>(out@) =~= before.push(views::<String>(out@).last()));
            }
        }
        i = i + 1;
    }
    proof {
        assert(views::<TypedLink>(links@).take(links@.len() as int) =~= views::<TypedLink>(links@));
    }
    out
}

// ---------------------------------------------------------------------
// Moments
// ---------------------------------------------------------------------

/// Why a `create_moment` range is refused, if it is: it must cover at
/// least two turns and end no later than the current one.
pub open spec fn moment_range_error(start: u64, end: u64, current: u64) -> Option<Seq<char>> {
    if end <= start {
        Some("turn_end must be greater than turn_start (a moment covers at least two turns)"@)
    } else if end > current {
        Some("turn_end ("@ + decimal(end as nat) + ") is in the future — the current turn is "@
            + decimal(current as nat))
    } else {
        None
    }
}

/// Check a `create_moment` turn range.
pub fn check_moment_range(turn_start: u64, turn_end: u64, current_turn: u64) -> (r: Result<(), String>)
    ensures
        unit_result_view(r) == moment_range_error(turn_start, turn_end, current_turn),
{
    if turn_end <= turn_start {
        return Err(
            "turn_end must be greater than turn_start (a moment covers at least two turns)".to_string(),
        );
    }
    if turn_end > current_turn {
        let mut m: Vec<char> = Vec::new();
        push_str(&mut m, "turn_end (");
        let d = u64_to_chars(turn_end);
        push_all(&mut m, &d);
        push_str(&mut m, ") is in the future — the current turn is ");
        let d2 = u64_to_chars(current_turn);
        push_all(&mut m, &d2);
        return Err(string_of(&m));
    }
    Ok(())
}

/// A text argument that must hold more than whitespace.
pub open spec fn nonblank_error(text: Seq<char>, name: Seq<char>) -> Option<Seq<char>> {
    if trim(text).len() == 0 {
        Some(name + " must be non-empty"@)
    } else {
        None
    }
}

/// Refuse a blank `body` or `summary` argument.
pub fn check_nonblank(text: &str, name: &str) -> (r: Result<(), String>)
    ensures
        unit_result_view(r) == nonblank_error(text@, name@),
{
    let t = trimmed_chars(text);
    if t.len() == 0 {
        let mut m: Vec<char> = chars_of(name);
        push_str(&mut m, " must be non-empty");
        return Err(string_of(&m));
    }
    Ok(())
}

/// What `create_moment` answers once the moment is written.
pub fn moment_written_message(id: &str, turn_start: u64, turn_end: u64) -> (r: String)
    ensures
        r@ == "moment "@ + id@ + " written ("@ + decimal(turn_start as nat) + "–"@ + decimal(
            turn_end as nat,
        ) + ")"@,
{
    let mut m: Vec<char> = Vec::new();
    push_str(&mut m, "moment ");
    push_str(&mut m, id);
    push_str(&mut m, " written (");
    let a = u64_to_chars(turn_start);
    push_all(&mut m, &a);
    push_str(&mut m, "–");
    let b = u64_to_chars(turn_end);
    push_all(&mut m, &b);
    push_str(&mut m, ")");
    string_of(&m)
}

// ---------------------------------------------------------------------
// Move lookback
// ---------------------------------------------------------------------

/// Why a `read_moves` range is refused, if it is: it must not be
/// inverted and must span at most 200 turns.
pub open spec fn moves_range_error(start: u64, end: u64) -> Option<Seq<char>> {
    if end < start {
        Some("turn_end must be ≥ turn_start"@)
    } else if end - start + 1 > MAX_READ_MOVES_TURNS {
        Some("range too wide: "@ + decimal((end - start + 1) as nat) + " turns (max 200)"@)
    } else {
        None
    }
}

/// Check a `read_moves` turn range.
pub fn check_moves_range(turn_start: u64, turn_end: u64) -> (r: Result<(), String>)
    ensures
        unit_result_view(r) == moves_range_error(turn_start, turn_end),
{
    if turn_end < turn_start {
        return Err("turn_end must be ≥ turn_start".to_string());
    }
    let span: u128 = (turn_end - turn_start) as u128 + 1;
    if span > 200 {
        let mut m: Vec<char> = Vec::new();
        push_str(&mut m, "range too wide: ");
        let d = crate::text::u128_to_chars(span);
        push_all(&mut m, &d);
        push_str(&mut m, " turns (max 200)");
        return Err(string_of(&m));
    }
    Ok(())
}

/// Assistant and tool lines say where the agent was facing.
pub open spec fn prefers(role: RecordRole) -> bool {
    role == RecordRole::Assistant || role == RecordRole::Tool
}

/// The channel a turn faced: that of its last assistant or tool line,
/// or of its first line when it has none.
pub open spec fn facing_spec(lines: Seq<crate::record::RecordLineView>, turn: u64) -> Option<Seq<char>>
    decreases lines.len(),
{
    if lines.len() == 0 {
        None
    } else {
        let prev = facing_spec(lines.drop_last(), turn);
        let l = lines.last();
        if l.turn != turn {
            prev
        } else {
            match prev {
                None => Some(l.channel),
                Some(c) => if prefers(l.role) {
                    Some(l.channel)
                } else {
                    Some(c)
                },
            }
        }
    }
}

fn facing(lines: &Vec<RecordLine>, turn: u64) -> (r: Option<&str>)
    ensures
        match r {
            Some(c) => facing_spec(views::<RecordLine>(lines@), turn) == Some(c@),
            None => facing_spec(views::<RecordLine>(lines@), turn) is None,
        },
{
    let mut cur: Option<&str> = None;
    let mut i: usize = 0;
    while i < lines.len()
        invariant
            i <= lines@.len(),
            match cur {
                Some(c) => facing_spec(views::<RecordLine>(lines@).take(i as int), turn) == Some(c@),
                None => facing_spec(views::<RecordLine>(lines@).take(i as int), turn) is None,
            },
        decreases lines@.len() - i,
    {
        proof {
            let lv = views::<RecordLine>(lines@);
            assert(lv.take(i + 1).drop_last() =~= lv.take(i as int));
            assert(lv.take(i + 1).last() == lines@[i as int]@);
        }
        let l = &lines[i];
        if l.turn == turn {
            let prefer = match l.role {
                RecordRole::Assistant => true,
                RecordRole::Tool => true,
                _ => false,
            };
            match cur {
                None => {
                    cur = Some(l.channel.as_str());
                },
                Some(_) => {
                    if prefer {
                        cur = Some(l.channel.as_str());
                    }
                },
            }
        }
        i = i + 1;
    }
    proof {
        assert(views::<RecordLine>(lines@).take(lines@.len() as int) =~= views::<RecordLine>(lines@));
    }
    cur
}

/// `turn N [channel]: summary` lines for the moves, in their order,
/// with `(unknown)` for a turn no record line speaks for.
pub open spec fn moves_text(
    moves: Seq<(Seq<char>, u64, Seq<char>)>,
    lines: Seq<crate::record::RecordLineView>,
) -> Seq<char>
    decreases moves.len(),
{
    if moves.len() == 0 {
        Seq::empty()
    } else {
        let m = moves.last();
        let ch = match facing_spec(lines, m.1) {
            Some(c) => c,
            None => "(unknown)"@,
        };
        moves_text(moves.drop_last(), lines) + "turn "@ + decimal(m.1 as nat) + " ["@ + ch + "]: "@
            + m.2 + "\n"@
    }
}

/// The `read_moves` result: each move of the range with the channel its
/// turn faced, from the record lines of the same range.
pub fn render_moves(moves: &Vec<MoveLine>, lines: &Vec<RecordLine>) -> (r: String)
    ensures
        r@ == moves_text(views::<MoveLine>(moves@), views::<RecordLine>(lines@)),
{
    let mut out: Vec<char> = Vec::new();
    let mut i: usize = 0;
    while i < moves.len()
        invariant
            i <= moves@.len(),
            out@ == moves_text(views::<MoveLine>(moves@).take(i as int), views::<RecordLine>(lines@)),
        decreases moves@.len() - i,
    {
        let m = &moves[i];
        proof {
            let mv = views::<MoveLine>(moves@);
            assert(mv.take(i + 1).drop_last() =~= mv.take(i as int));
            assert(mv.take(i + 1).last() == moves@[i as int]@);
        }
        push_str(&mut out, "turn ");
        let d = u64_to_chars(m.turn);
        push_all(&mut out, &d);
        push_str(&mut out, " [");
        match facing(lines, m.turn) {
            Some(c) => push_str(&mut out, c),
            None => push_str(&mut out, "(unknown)"),
        }
        push_str(&mut out, "]: ");
        push_str(&mut out, m.summary.as_str());
        push_str(&mut out, "\n");
        i = i + 1;
    }
    proof {
        assert(views::<MoveLine>(moves@).take(moves@.len() as int) =~= views::<MoveLine>(moves@));
    }
    string_of(&out)
}

// ---------------------------------------------------------------------
// Compact, reject, speak
// ---------------------------------------------------------------------

/// What `compact` answers once the handoff is saved.
pub fn handoff_saved_message(summary: &str) -> (r: String)
    ensures
        r@ == "handoff saved ("@ + decimal(byte_len(summary@)) + " bytes); compaction will run at the next turn start"@,
{
    let cs = chars_of(summary);
    let mut n: u128 = 0;
    let mut i: usize = 0;
    while i < cs.len()
        invariant
            i <= cs@.len(),
            n == byte_len(cs@.take(i as int)),
            n <= 4 * i,
        decreases cs@.len() - i,
    {
        proof {
            assert(cs@.take(i + 1) =~= cs@.take(i as int).push(cs@[i as int]));
            lemma_byte_len_push(cs@.take(i as int), cs@[i as int]);
        }
        n = n + char_len_utf8(cs[i]) as u128;
        i = i + 1;
    }
    proof {
        assert(cs@.take(cs@.len() as int) =~= cs@);
    }
    let mut m: Vec<char> = Vec::new();
    push_str(&mut m, "handoff saved (");
    let d = crate::text::u128_to_chars(n);
    push_all(&mut m, &d);
    push_str(&mut m, " bytes); compaction will run at the next turn start");
    string_of(&m)
}

/// The candidate the agent is being asked to digest this turn: what
/// `reject_candidate` needs to write an attributable entry.
#[derive(Debug)]
pub struct DigestionInfo {
    pub candidate_id: String,
    pub candidate_text: String,
    pub turn: u64,
}

/// `reject_candidate` outside a digestion turn is an error.
pub fn digestion_required(d: Option<&DigestionInfo>) -> (r: Result<&DigestionInfo, String>)
    ensures
        match r {
            Ok(x) => d == Some(x),
            Err(e) => d is None && e@ == "reject_candidate is only valid inside a digestion turn"@,
        },
{
    match d {
        Some(x) => Ok(x),
        None => Err("reject_candidate is only valid inside a digestion turn".to_string()),
    }
}

/// What `reject_candidate` answers.
pub fn rejection_message(candidate_id: &str, reason: Option<&str>) -> (r: String)
    ensures
        r@ == "rejected candidate "@ + candidate_id@ + " ("@ + (match reason {
            Some(x) => x@,
            None => "no reason given"@,
        }) + ")"@,
{
    let mut m: Vec<char> = Vec::new();
    push_str(&mut m, "rejected candidate ");
    push_str(&mut m, candidate_id);
    push_str(&mut m, " (");
    match reason {
        Some(x) => push_str(&mut m, x),
        None => push_str(&mut m, "no reason given"),
    }
    push_str(&mut m, ")");
    string_of(&m)
}

/// What `speak` answers once delivered: with the platform message id
/// when the platform gave one.
pub fn spoken_message(channel: &str, msg_id: Option<&str>) -> (r: String)
    ensures
        r@ == "spoken on "@ + channel@ + (match msg_id {
            Some(id) => " (msg "@ + id@ + ")"@,
            None => Seq::empty(),
        }) + SPOKEN_CUE@,
{
    let mut m: Vec<char> = Vec::new();
    push_str(&mut m, "spoken on ");
    push_str(&mut m, channel);
    match msg_id {
        Some(id) => {
            push_str(&mut m, " (msg ");
            push_str(&mut m, id);
            push_str(&mut m, ")");
        },
        None => {},
    }
    push_str(&mut m, SPOKEN_CUE);
    string_of(&m)
}

// ---------------------------------------------------------------------
// Channel read
// ---------------------------------------------------------------------

/// Who wrote a channel entry.
#[derive(Debug, Clone, Copy, PartialEq, Eq, Structural)]
pub enum EntryRole {
    Agent,
    Other,
}

/// One entry of a channel's log, as far as `channel_read` reads it.
#[derive(Debug)]
pub struct ChannelEntry {
    /// engine ULID
    pub id: String,
    /// an engine cursor marker, not conversation
    pub cursor: bool,
    /// set on engine bookkeeping entries, not conversation
    pub up_to: Option<String>,
    pub content: Option<String>,
    pub author: Option<String>,
    pub role: EntryRole,
}

/// The (requested, effective) limits of a `channel_read`: the asked
/// limit or 50, at least 1; the effective one capped at 500.
pub open spec fn read_limits_spec(limit: Option<u64>) -> (usize, usize) {
    let requested: usize = match limit {
        Some(n) => if (n as usize) < 1 { 1 } else { n as usize },
        None => DEFAULT_CHANNEL_READ_LIMIT,
    };
    (requested, if requested < MAX_CHANNEL_READ_LIMIT { requested } else { MAX_CHANNEL_READ_LIMIT })
}

/// The limits a `channel_read` works with.
pub fn read_limits(limit: Option<u64>) -> (r: (usize, usize))
    ensures
        r == read_limits_spec(limit),
{
    let requested: usize = match limit {
        Some(n) => {
            let k = n as usize;
            if k < 1 { 1 } else { k }
        },
        None => DEFAULT_CHANNEL_READ_LIMIT,
    };
    let limit = if requested < MAX_CHANNEL_READ_LIMIT { requested } else { MAX_CHANNEL_READ_LIMIT };
    (requested, limit)
}

/// A channel entry as (id, is conversation).
pub open spec fn entry_key(e: ChannelEntry) -> (Seq<char>, bool) {
    (e.id@, !e.cursor && e.up_to is None)
}

pub open spec fn entry_keys(entries: Seq<ChannelEntry>) -> Seq<(Seq<char>, bool)> {
    entries.map_values(|e: ChannelEntry| entry_key(e))
}

/// Whether entry `k` is in the window: conversation, and before
/// `before` or after `after` when one is given.
pub open spec fn in_window(k: (Seq<char>, bool), before: Option<Seq<char>>, after: Option<Seq<char>>) -> bool {
    k.1 && match before {
        Some(b) => crate::text::lex_lt(k.0, b),
        None => match after {
            Some(a) => crate::text::lex_lt(a, k.0),
            None => true,
        },
    }
}

/// Positions of the entries in the window, oldest first.
pub open spec fn window_spec(
    keys: Seq<(Seq<char>, bool)>,
    before: Option<Seq<char>>,
    after: Option<Seq<char>>,
) -> Seq<int>
    decreases keys.len(),
{
    if keys.len() == 0 {
        Seq::empty()
    } else {
        let rest = window_spec(keys.drop_last(), before, after);
        if in_window(keys.last(), before, after) {
            rest.push(keys.len() - 1)
        } else {
            rest
        }
    }
}

/// The positions `channel_read` shows: forward from `after` the oldest
/// `limit` of the window, otherwise its newest `limit`.
pub open spec fn slice_spec(
    keys: Seq<(Seq<char>, bool)>,
    before: Option<Seq<char>>,
    after: Option<Seq<char>>,
    limit: nat,
) -> Seq<int> {
    let w = window_spec(keys, before, after);
    if after is Some {
        if w.len() <= limit { w } else { w.take(limit as int) }
    } else {
        if w.len() <= limit { w } else { w.skip(w.len() - limit) }
    }
}

pub open spec fn opt_view(o: Option<&str>) -> Option<Seq<char>> {
    match o {
        Some(s) => Some(s@),
        None => None,
    }
}

/// Which entries a `channel_read` shows, by position; `before_id` and
/// `after_id` together are refused.
pub fn channel_window(
    entries: &Vec<ChannelEntry>,
    before_id: Option<&str>,
    after_id: Option<&str>,
    limit: usize,
) -> (r: Result<Vec<usize>, String>)
    ensures
        match r {
            Ok(v) => !(before_id is Some && after_id is Some) && v@.map_values(|i: usize| i as int)
                == slice_spec(entry_keys(entries@), opt_view(before_id), opt_view(after_id), limit as nat),
            Err(e) => before_id is Some && after_id is Some && e@
                == "before_id and after_id are mutually exclusive"@,
        },
{
    if before_id.is_some() && after_id.is_some() {
        return Err("before_id and after_id are mutually exclusive".to_string());
    }
    let ghost keys = entry_keys(entries@);
    let ghost bv = opt_view(before_id);
    let ghost av = opt_view(after_id);
    let mut w: Vec<usize> = Vec::new();
    let mut i: usize = 0;
    while i < entries.len()
        invariant
            i <= entries@.len(),
            keys == entry_keys(entries@),
            bv == opt_view(before_id),
            av == opt_view(after_id),
            !(before_id is Some && after_id is Some),
            w@.map_values(|x: usize| x as int) == window_spec(keys.take(i as int), bv, av),
            forall|j: int| 0 <= j < w@.len() ==> w@[j] < i,
        decreases entries@.len() - i,
    {
        let e = &entries[i];
        let conv = !e.cursor && e.up_to.is_none();
        let keep = conv && match before_id {
            Some(b) => crate::text::str_lt(e.id.as_str(), b),
            None => match after_id {
                Some(a) => crate::text::str_lt(a, e.id.as_str()),
                None => true,
            },
        };
        proof {
            assert(keys.take(i + 1).drop_last() =~= keys.take(i as int));
            assert(keys.take(i + 1).last() == entry_key(entries@[i as int]));
            assert(keep == in_window(keys.take(i + 1).last(), bv, av));
        }
        let ghost before = w@;
        if keep {
            w.push(i);
            proof {
                assert(w@.map_values(|x: usize| x as int) =~= before.map_values(|x: usize| x as int).push(
                    i as int,
                ));
            }
        }
        i = i + 1;
    }
    proof {
        assert(keys.take(entries@.len() as int) =~= keys);
    }
    let n = w.len();
    let mut out: Vec<usize> = Vec::new();
    let (lo, hi) = if after_id.is_some() {
        (0, if n <= limit { n } else { limit })
    } else {
        (if n <= limit { 0 } else { n - limit }, n)
    };
    let mut k = lo;
    while k < hi
        invariant
            lo <= k <= hi <= n == w@.len(),
            out@ == w@.subrange(lo as int, k as int),
        decreases hi - k,
    {
        out.push(w[k]);
        proof {
            assert(w@.subrange(lo as int, k + 1) =~= w@.subrange(lo as int, k as int).push(w@[k as int]));
        }
        k = k + 1;
    }
    proof {
        let wm = w@.map_values(|x: usize| x as int);
        assert(out@.map_values(|x: usize| x as int) =~= wm.subrange(lo as int, hi as int));
        if after_id is Some {
            if n <= limit {
                assert(wm.subrange(0, n as int) =~= wm);
            } else {
                assert(wm.subrange(0, limit as int) =~= wm.take(limit as int));
            }
        } else {
            if n <= limit {
                assert(wm.subrange(0, n as int) =~= wm);
            } else {
                assert(wm.subrange(n - limit, n as int) =~= wm.skip(n - limit));
            }
        }
    }
    Ok(out)
}

/// The header line of a `channel_read` result.
pub open spec fn header_spec(
    channel: Seq<char>,
    ids: Seq<Seq<char>>,
    requested: usize,
    limit: usize,
) -> Seq<char> {
    if ids.len() == 0 {
        "— channel "@ + channel + " (0 messages)"@
    } else if requested > limit {
        "— channel "@ + channel + " ("@ + decimal(ids.len()) + " messages, showing "@ + decimal(
            limit as nat,
        ) + " of "@ + decimal(requested as nat) + " requested, oldest: "@ + ids[0] + ", newest: "@
            + ids.last() + ")"@
    } else {
        "— channel "@ + channel + " ("@ + decimal(ids.len()) + " messages, oldest: "@ + ids[0]
            + ", newest: "@ + ids.last() + ")"@
    }
}

/// The header of a `channel_read` result over the shown entries' ids.
pub fn format_header(channel: &str, ids: &Vec<String>, requested: usize, limit: usize) -> (r: String)
    ensures
        r@ == header_spec(channel@, views::<String>(ids@), requested, limit),
{
    let mut m: Vec<char> = Vec::new();
    push_str(&mut m, "— channel ");
    push_str(&mut m, channel);
    if ids.len() == 0 {
        push_str(&mut m, " (0 messages)");
        return string_of(&m);
    }
    push_str(&mut m, " (");
    let c = u64_to_chars(ids.len() as u64);
    push_all(&mut m, &c);
    if requested > limit {
        push_str(&mut m, " messages, showing ");
        let l = u64_to_chars(limit as u64);
        push_all(&mut m, &l);
        push_str(&mut m, " of ");
        let q = u64_to_chars(requested as u64);
        push_all(&mut m, &q);
        push_str(&mut m, " requested, oldest: ");
    } else {
        push_str(&mut m, " messages, oldest: ");
    }
    push_str(&mut m, ids[0].as_str());
    push_str(&mut m, ", newest: ");
    push_str(&mut m, ids[ids.len() - 1].as_str());
    push_str(&mut m, ")");
    proof {
        assert(views::<String>(ids@)[0] == ids@[0]@);
        assert(views::<String>(ids@).last() == ids@[ids@.len() - 1]@);
    }
    string_of(&m)
}

/// The window never shows more than the limit, and only conversation.
pub proof fn law_channel_window_bounded(
    keys: Seq<(Seq<char>, bool)>,
    before: Option<Seq<char>>,
    after: Option<Seq<char>>,
    limit: nat,
)
    ensures
        slice_spec(keys, before, after, limit).len() <= limit,
        forall|j: int|
            0 <= j < slice_spec(keys, before, after, limit).len() ==> {
                let p = #[trigger] slice_spec(keys, before, after, limit)[j];
                0 <= p < keys.len() && keys[p].1
            },
{
    lemma_window_positions(keys, before, after);
}

/// The window lists its positions in increasing order, and every
/// conversation entry that falls in the window is listed.
proof fn lemma_window_sorted_complete(
    keys: Seq<(Seq<char>, bool)>,
    before: Option<Seq<char>>,
    after: Option<Seq<char>>,
)
    ensures
        forall|a: int, b: int|
            0 <= a < b < window_spec(keys, before, after).len() ==> window_spec(keys, before, after)[a]
                < window_spec(keys, before, after)[b],
        forall|p: int|
            0 <= p < keys.len() && in_window(keys[p], before, after) ==> window_spec(
                keys,
                before,
                after,
            ).contains(p),
    decreases keys.len(),
{
    lemma_window_positions(keys, before, after);
    if keys.len() > 0 {
        let d = keys.drop_last();
        lemma_window_sorted_complete(d, before, after);
        lemma_window_positions(d, before, after);
        let rest = window_spec(d, before, after);
        let w = window_spec(keys, before, after);
        assert forall|a: int, b: int| 0 <= a < b < w.len() implies w[a] < w[b] by {
            if b == rest.len() {
                assert(rest[a] < d.len());
            }
        }
        assert forall|p: int| 0 <= p < keys.len() && in_window(keys[p], before, after) implies w.contains(
            p,
        ) by {
            if p < d.len() {
                assert(d[p] == keys[p]);
                assert(in_window(d[p], before, after));
                assert(rest.contains(p));
                let k = choose|k: int| 0 <= k < rest.len() && rest[k] == p;
                assert(w[k] == p);
            } else {
                assert(w[rest.len() as int] == p);
            }
        }
    }
}

/// What `channel_read` shows of the window: conversation entries (older
/// than `before`, or newer than `after`, when one is given), oldest first, at most `limit` of them, and when one in the
/// window is left out the page is full and the left-out entry lies past
/// its edge: older than every shown one when paging back (no `after`,
/// so the newest are shown, those right before `before` when it is
/// given), newer than every shown one when reading forward from `after`.
pub proof fn law_channel_window_edge(
    keys: Seq<(Seq<char>, bool)>,
    before: Option<Seq<char>>,
    after: Option<Seq<char>>,
    limit: nat,
)
    ensures
        ({
            let s = slice_spec(keys, before, after, limit);
            &&& s.len() <= limit
            &&& forall|a: int, b: int| 0 <= a < b < s.len() ==> s[a] < s[b]
            &&& forall|j: int|
                0 <= j < s.len() ==> 0 <= #[trigger] s[j] < keys.len() && keys[s[j]].1 && match before {
                    Some(b) => crate::text::lex_lt(keys[s[j]].0, b),
                    None => match after {
                        Some(a) => crate::text::lex_lt(a, keys[s[j]].0),
                        None => true,
                    },
                }
            &&& forall|p: int|
                0 <= p < keys.len() && keys[p].1 && match before {
                    Some(b) => crate::text::lex_lt(keys[p].0, b),
                    None => match after {
                        Some(a) => crate::text::lex_lt(a, keys[p].0),
                        None => true,
                    },
                } && !s.contains(p) ==> {
                    &&& s.len() == limit
                    &&& after is None ==> forall|j: int| 0 <= j < s.len() ==> p < #[trigger] s[j]
                    &&& after is Some ==> forall|j: int| 0 <= j < s.len() ==> #[trigger] s[j] < p
                }
        }),
{
    let w = window_spec(keys, before, after);
    let s = slice_spec(keys, before, after, limit);
    lemma_window_positions(keys, before, after);
    lemma_window_sorted_complete(keys, before, after);
    if w.len() <= limit {
        assert(s == w);
    } else if after is Some {
        assert(s =~= w.take(limit as int));
        assert forall|p: int|
            0 <= p < keys.len() && in_window(keys[p], before, after) && !s.contains(p) implies {
                &&& s.len() == limit
                &&& forall|j: int| 0 <= j < s.len() ==> #[trigger] s[j] < p
            } by {
            assert(w.contains(p));
            let k = choose|k: int| 0 <= k < w.len() && w[k] == p;
            if k < limit {
                assert(s[k] == p);
            }
            assert forall|j: int| 0 <= j < s.len() implies #[trigger] s[j] < p by {
                assert(s[j] == w[j]);
                assert(w[j] < w[k]);
            }
        }
    } else {
        let off = w.len() - limit;
        assert(s =~= w.skip(off));
        assert forall|p: int|
            0 <= p < keys.len() && in_window(keys[p], before, after) && !s.contains(p) implies {
                &&& s.len() == limit
                &&& forall|j: int| 0 <= j < s.len() ==> p < #[trigger] s[j]
            } by {
            assert(w.contains(p));
            let k = choose|k: int| 0 <= k < w.len() && w[k] == p;
            if k >= off {
                assert(s[k - off] == p);
            }
            assert forall|j: int| 0 <= j < s.len() implies p < #[trigger] s[j] by {
                assert(s[j] == w[j + off]);
                assert(w[k] < w[j + off]);
            }
        }
    }
}

proof fn lemma_window_positions(keys: Seq<(Seq<char>, bool)>, before: Option<Seq<char>>, after: Option<Seq<char>>)
    ensures
        forall|j: int|
            0 <= j < window_spec(keys, before, after).len() ==> {
                let p = #[trigger] window_spec(keys, before, after)[j];
                0 <= p < keys.len() && in_window(keys[p], before, after)
            },
        window_spec(keys, before, after).len() <= keys.len(),
    decreases keys.len(),
{
    if keys.len() > 0 {
        let p = keys.drop_last();
        lemma_window_positions(p, before, after);
        assert forall|j: int| 0 <= j < window_spec(keys, before, after).len() implies {
            let q = #[trigger] window_spec(keys, before, after)[j];
            0 <= q < keys.len() && in_window(keys[q], before, after)
        } by {
            let rest = window_spec(p, before, after);
            if j < rest.len() {
                let q = rest[j];
                assert(p[q] == keys[q]);
            }
        }
    }
}


// ---------------------------------------------------------------------
// Fresh ids and times
// ---------------------------------------------------------------------

/// A character of a ULID's text: an ASCII digit or uppercase letter.
pub open spec fn ulid_char(c: char) -> bool {
    ('0' <= c && c <= '9') || ('A' <= c && c <= 'Z')
}

/// A fresh ULID by the `ulid` crate, as its Crockford base-32 text:
/// 26 characters, each an ASCII digit or uppercase letter.
#[verifier::external_body]
pub(crate) fn new_ulid() -> (r: String)
    ensures
        r@.len() == 26,
        forall|i: int| 0 <= i < r@.len() ==> ulid_char(#[trigger] r@[i]),
{
    ulid::Ulid::new().to_string()
}

/// The current time by the `jiff` crate, as RFC 3339 text in UTC.
///
/// Trusted: the contract claims the text's form (`Timestamp`'s `Display`
/// writes the reading with a `Z` zone); which instant it reads is left
/// unsaid.
#[verifier::external_body]
pub(crate) fn timestamp_now() -> (r: String)
    ensures
        rfc3339_text(r@, "Z"@),
{
    jiff::Timestamp::now().to_string()
}

/// A ULID's text is fit to be an atomic note's id.
pub proof fn law_ulid_is_plain_id(id: Seq<char>)
    requires
        id.len() == 26,
        forall|i: int| 0 <= i < id.len() ==> ulid_char(#[trigger] id[i]),
    ensures
        id.len() > 0,
        crate::text::has_no(id, '\n'),
        trim(id) == id,
        crate::frontmatter::unquote_spec(id) == id,
{
    assert(ulid_char(id[0]));
    assert(ulid_char(id[25]));
    crate::text::lemma_trim_unchanged(id);
    assert forall|j: int| 0 <= j < id.len() implies id[j] != '\n' by {
        assert(ulid_char(id[j]));
    }
}

// ---------------------------------------------------------------------
// Drafting new notes and moments
// ---------------------------------------------------------------------

/// What `write_atomic` refuses, if anything: a blank or over-long body,
/// a bad links list, no link at all, a bad tags list; in that order.
pub open spec fn atomic_args_error(
    body: Seq<char>,
    max_words: usize,
    links: ArgList<RawLink>,
    tags: ArgList<Option<String>>,
) -> Option<Seq<char>> {
    match atomic_body_error(body, max_words) {
        Some(e) => Some(e),
        None => match typed_links_spec(links, "links"@) {
            Err(e) => Some(e),
            Ok(ls) => if ls.len() == 0 {
                Some("at least one typed link is required"@)
            } else {
                match string_list_spec(tags, "tags"@) {
                    Err(e) => Some(e),
                    Ok(_) => None,
                }
            },
        },
    }
}

/// Check `write_atomic`'s arguments; the links and tags they carry.
pub fn check_atomic_args(
    body: &str,
    max_words: usize,
    links: ArgList<RawLink>,
    tags: ArgList<Option<String>>,
) -> (r: Result<(Vec<TypedLink>, Vec<String>), String>)
    ensures
        match r {
            Ok(p) => atomic_args_error(body@, max_words, links, tags) is None && typed_links_spec(
                links,
                "links"@,
            ) == Ok::<Seq<(Seq<char>, Seq<char>)>, Seq<char>>(views::<TypedLink>(p.0@))
                && string_list_spec(tags, "tags"@) == Ok::<Seq<Seq<char>>, Seq<char>>(
                views::<String>(p.1@),
            ),
            Err(e) => atomic_args_error(body@, max_words, links, tags) == Some(e@),
        },
{
    let ghost lk = links;
    let ghost tg = tags;
    match check_atomic_body(body, max_words) {
        Err(e) => {
            return Err(e);
        },
        Ok(_) => {},
    }
    let ls = match parse_typed_link_list(links, "links") {
        Err(e) => {
            return Err(e);
        },
        Ok(v) => v,
    };
    if ls.len() == 0 {
        return Err("at least one typed link is required".to_string());
    }
    let ts = match parse_string_list(tags, "tags") {
        Err(e) => {
            return Err(e);
        },
        Ok(v) => v,
    };
    Ok((ls, ts))
}

/// A new atomic note ready to be written: its fresh id, creation time,
/// text and workspace-relative path.
pub struct AtomicDraft {
    pub id: String,
    pub created: String,
    pub text: String,
    pub relative: String,
}

/// Draft an atomic note under a fresh ULID, created at `created`.
pub fn compose_atomic(
    created: &str,
    body: &str,
    links: &Vec<TypedLink>,
    tags: &Vec<String>,
    shape: Option<&str>,
) -> (r: AtomicDraft)
    ensures
        r.id@.len() == 26,
        forall|i: int| 0 <= i < r.id@.len() ==> ulid_char(#[trigger] r.id@[i]),
        r.created@ == created@,
        r.text@ == atomic_text(
            r.id@,
            created@,
            body@,
            views::<TypedLink>(links@),
            views::<String>(tags@),
            opt_str_view(shape),
        ),
        r.relative@ == "knowledge/"@ + r.id@ + ".md"@,
{
    let id = new_ulid();
    let text = assemble_atomic(id.as_str(), created, body, links, tags, shape);
    let relative = atomic_relative_path(id.as_str());
    AtomicDraft { id, created: created.to_string(), text, relative }
}

/// A new atomic note's draft, created now.
pub fn compose_atomic_now(
    body: &str,
    links: &Vec<TypedLink>,
    tags: &Vec<String>,
    shape: Option<&str>,
) -> (r: AtomicDraft)
    ensures
        r.id@.len() == 26,
        forall|i: int| 0 <= i < r.id@.len() ==> ulid_char(#[trigger] r.id@[i]),
        r.text@ == atomic_text(
            r.id@,
            r.created@,
            body@,
            views::<TypedLink>(links@),
            views::<String>(tags@),
            opt_str_view(shape),
        ),
        r.relative@ == "knowledge/"@ + r.id@ + ".md"@,
        rfc3339_text(r.created@, "Z"@),
{
    let created = timestamp_now();
    compose_atomic(created.as_str(), body, links, tags, shape)
}

/// What `create_moment` refuses, if anything: a bad range, a blank
/// body, a bad links or tags list; in that order.
pub open spec fn moment_args_error(
    start: u64,
    end: u64,
    current: u64,
    body: Seq<char>,
    links: ArgList<Option<String>>,
    tags: ArgList<Option<String>>,
) -> Option<Seq<char>> {
    match moment_range_error(start, end, current) {
        Some(e) => Some(e),
        None => match nonblank_error(body, "body"@) {
            Some(e) => Some(e),
            None => match string_list_spec(links, "links"@) {
                Err(e) => Some(e),
                Ok(_) => match string_list_spec(tags, "tags"@) {
                    Err(e) => Some(e),
                    Ok(_) => None,
                },
            },
        },
    }
}

/// The moment `create_moment` writes: under a fresh ULID, with the
/// range, body, links and tags given; or what refuses it.
pub fn new_moment(
    turn_start: u64,
    turn_end: u64,
    current_turn: u64,
    body: &str,
    links: ArgList<Option<String>>,
    tags: ArgList<Option<String>>,
) -> (r: Result<crate::moments::Moment, String>)
    ensures
        match r {
            Ok(m) => moment_args_error(turn_start, turn_end, current_turn, body@, links, tags) is None
                && m.turn_start == turn_start && m.turn_end == turn_end && m.body@ == body@
                && string_list_spec(links, "links"@) == Ok::<Seq<Seq<char>>, Seq<char>>(views::<String>(m.links@))
                && string_list_spec(tags, "tags"@) == Ok::<Seq<Seq<char>>, Seq<char>>(views::<String>(m.tags@))
                && m.id@.len() == 26 && (forall|i: int| 0 <= i < m.id@.len() ==> ulid_char(#[trigger] m.id@[i]))
                && m.file_path@.len() == 0,
            Err(e) => moment_args_error(turn_start, turn_end, current_turn, body@, links, tags) == Some(e@),
        },
{
    match check_moment_range(turn_start, turn_end, current_turn) {
        Err(e) => {
            return Err(e);
        },
        Ok(_) => {},
    }
    match check_nonblank(body, "body") {
        Err(e) => {
            return Err(e);
        },
        Ok(_) => {},
    }
    let ls = match parse_string_list(links, "links") {
        Err(e) => {
            return Err(e);
        },
        Ok(v) => v,
    };
    let ts = match parse_string_list(tags, "tags") {
        Err(e) => {
            return Err(e);
        },
        Ok(v) => v,
    };
    let id = new_ulid();
    Ok(
        crate::moments::Moment {
            id,
            turn_start,
            turn_end,
            links: ls,
            tags: ts,
            body: body.to_string(),
            file_path: String::new(),
        },
    )
}


// ---------------------------------------------------------------------
// edit
// ---------------------------------------------------------------------

/// `str::matches(p).count()` over `s[start..]`: non-overlapping
/// occurrences found left to right; an empty pattern matches at every
/// position, the end included.
pub open spec fn match_count_from(s: Seq<char>, p: Seq<char>, start: int) -> nat
    decreases s.len() + 1 - start,
{
    if start < 0 || start > s.len() {
        0
    } else if p.len() == 0 {
        (s.len() - start + 1) as nat
    } else {
        match crate::text::find_from(s, p, start) {
            None => 0,
            Some(e) => {
                proof {
                    crate::text::lemma_find_from_props(s, p, start);
                }
                1 + match_count_from(s, p, e + p.len())
            },
        }
    }
}

/// `str::replacen(p, r, 1)`: the first occurrence of `p` replaced.
pub open spec fn replace_first(s: Seq<char>, p: Seq<char>, r: Seq<char>) -> Seq<char> {
    match crate::text::find(s, p) {
        None => s,
        Some(e) => s.subrange(0, e) + r + s.subrange(e + p.len(), s.len() as int),
    }
}

/// What an edit does to a file's text: the single occurrence of `old`
/// replaced by `new`; an error naming the file when `old` does not
/// occur, or occurs more than once.
pub open spec fn edit_spec(text: Seq<char>, old: Seq<char>, new: Seq<char>, shown: Seq<char>) -> Result<Seq<char>, Seq<char>> {
    let n = match_count_from(text, old, 0);
    if n == 0 {
        Err("old_string not found in "@ + shown)
    } else if n == 1 {
        Ok(replace_first(text, old, new))
    } else {
        Err("old_string occurs "@ + decimal(n) + " times in "@ + shown
            + "; provide more context to make it unique"@)
    }
}

/// The number of non-overlapping occurrences of `p` in `s`.
fn count_matches(s: &Vec<char>, p: &Vec<char>) -> (n: u128)
    ensures
        n == match_count_from(s@, p@, 0),
{
    if p.len() == 0 {
        return s.len() as u128 + 1;
    }
    let mut n: u128 = 0;
    let mut pos: usize = 0;
    loop
        invariant
            pos <= s@.len(),
            p@.len() > 0,
            n <= pos,
            match_count_from(s@, p@, 0) == n + match_count_from(s@, p@, pos as int),
        decreases s@.len() - pos,
    {
        proof {
            crate::text::lemma_find_from_props(s@, p@, pos as int);
        }
        match crate::text::find_chars(s, p, pos) {
            None => {
                return n;
            },
            Some(e) => {
                assert(crate::text::match_at(s@, p@, e as int));
                let sl: usize = s.len();
                assert(e + p@.len() <= sl);
                n = n + 1;
                pos = e + p.len();
            },
        }
    }
}

/// Replace the one occurrence of `old` in `text` by `new`, as the edit
/// tool does; `shown` is the file's path as the messages name it.
pub fn apply_edit(text: &str, old: &str, new: &str, shown: &str) -> (r: Result<String, String>)
    ensures
        match r {
            Ok(t) => edit_spec(text@, old@, new@, shown@) == Ok::<Seq<char>, Seq<char>>(t@),
            Err(e) => edit_spec(text@, old@, new@, shown@) == Err::<Seq<char>, Seq<char>>(e@),
        },
{
    let t = chars_of(text);
    let o = chars_of(old);
    let n = count_matches(&t, &o);
    if n == 0 {
        let mut msg: Vec<char> = Vec::new();
        push_str(&mut msg, "old_string not found in ");
        push_str(&mut msg, shown);
        proof {
            assert(msg@ =~= "old_string not found in "@ + shown@);
        }
        return Err(string_of(&msg));
    }
    if n > 1 {
        let mut msg: Vec<char> = Vec::new();
        push_str(&mut msg, "old_string occurs ");
        let digits = crate::text::u128_to_chars(n);
        push_all(&mut msg, &digits);
        push_str(&mut msg, " times in ");
        push_str(&mut msg, shown);
        push_str(&mut msg, "; provide more context to make it unique");
        proof {
            assert(msg@ =~= "old_string occurs "@ + decimal(n as nat) + " times in "@ + shown@
                + "; provide more context to make it unique"@);
        }
        return Err(string_of(&msg));
    }
    proof {
        crate::text::lemma_find_from_props(t@, o@, 0);
        if o@.len() == 0 {
            assert(t@.subrange(0, 0) =~= o@);
        }
    }
    match crate::text::find_chars(&t, &o, 0) {
        None => {
            proof {
                assert(false);
            }
            Ok(text.to_string())
        },
        Some(e) => {
            assert(crate::text::match_at(t@, o@, e as int));
            let tl: usize = t.len();
            assert(e + o@.len() <= tl);
            let mut out: Vec<char> = Vec::new();
            push_range(&mut out, &t, 0, e);
            push_str(&mut out, new);
            push_range(&mut out, &t, e + o.len(), t.len());
            proof {
                assert(out@ =~= t@.subrange(0, e as int) + new@ + t@.subrange(e + o@.len(), t@.len() as int));
            }
            Ok(string_of(&out))
        },
    }
}


// ---------------------------------------------------------------------
// grep
// ---------------------------------------------------------------------

/// A grep reports at most this many matching lines.
pub const GREP_HIT_CAP: usize = 200;

/// Whether the grep walk stays out of a directory with this name.
pub fn grep_skips_dir(name: &str) -> (b: bool)
    ensures
        b == (name@ == ".git"@ || name@ == "target"@ || name@ == "node_modules"@),
{
    str_eq(name, ".git") || str_eq(name, "target") || str_eq(name, "node_modules")
}

/// A line without the `\r` of a `\r\n` ending.
pub open spec fn strip_cr(l: Seq<char>) -> Seq<char> {
    if l.len() > 0 && l.last() == '\r' {
        l.drop_last()
    } else {
        l
    }
}

/// `str::lines` on `s[start..]`: the pieces ended by `\n` (a `\r`
/// before it dropped), then the final piece if it is not empty.
pub open spec fn lines_from(s: Seq<char>, start: int) -> Seq<Seq<char>>
    decreases s.len() - start,
{
    if start < 0 || start >= s.len() {
        Seq::empty()
    } else {
        let e = crate::text::index_of_from(s, '\n', start);
        proof {
            crate::text::lemma_index_of_from(s, '\n', start);
        }
        if e >= s.len() {
            seq![s.subrange(start, s.len() as int)]
        } else {
            seq![strip_cr(s.subrange(start, e))] + lines_from(s, e + 1)
        }
    }
}

/// `str::lines`.
pub open spec fn lines_spec(s: Seq<char>) -> Seq<Seq<char>> {
    lines_from(s, 0)
}

/// The lines of a text, as `str::lines` gives them.
pub fn text_lines(text: &str) -> (r: Vec<String>)
    ensures
        views::<String>(r@) == lines_spec(text@),
{
    let s = chars_of(text);
    let mut out: Vec<String> = Vec::new();
    let mut pos: usize = 0;
    while pos < s.len()
        invariant
            pos <= s@.len(),
            s@ == text@,
            lines_spec(s@) == views::<String>(out@) + lines_from(s@, pos as int),
        decreases s@.len() - pos,
    {
        let e = crate::text::index_of_char(&s, '\n', pos);
        proof {
            crate::text::lemma_index_of_from(s@, '\n', pos as int);
        }
        let ghost before = views::<String>(out@);
        if e >= s.len() {
            let last = string_of_range(&s, pos, s.len());
            out.push(last);
            proof {
                assert(views::<String>(out@) =~= before.push(s@.subrange(pos as int, s@.len() as int)));
                assert(lines_from(s@, s@.len() as int) =~= Seq::<Seq<char>>::empty());
                assert(views::<String>(out@) + lines_from(s@, s@.len() as int) =~= before + lines_from(
                    s@,
                    pos as int,
                ));
            }
            pos = s.len();
        } else {
            let hi: usize = if e > pos && s[e - 1] == '\r' { e - 1 } else { e };
            let line = string_of_range(&s, pos, hi);
            proof {
                let piece = s@.subrange(pos as int, e as int);
                if e > pos && s@[e - 1] == '\r' {
                    assert(piece.drop_last() =~= s@.subrange(pos as int, hi as int));
                } else {
                    assert(piece =~= s@.subrange(pos as int, hi as int));
                }
            }
            out.push(line);
            proof {
                assert(views::<String>(out@) =~= before.push(strip_cr(s@.subrange(pos as int, e as int))));
                assert(before + lines_from(s@, pos as int) =~= views::<String>(out@) + lines_from(
                    s@,
                    e + 1,
                ));
            }
            pos = e + 1;
        }
    }
    proof {
        assert(lines_from(s@, pos as int) =~= Seq::<Seq<char>>::empty());
        assert(views::<String>(out@) + Seq::<Seq<char>>::empty() =~= views::<String>(out@));
    }
    out
}

#[verifier::external_type_specification]
#[verifier::external_body]
pub struct ExRegex(regex::Regex);

/// The message `regex::Regex::new` fails with for `pattern`, or `None`
/// when the pattern compiles.
pub uninterp spec fn regex_compile_error(pattern: Seq<char>) -> Option<Seq<char>>;

/// Whether the regular expression `pattern` matches somewhere in `line`.
pub uninterp spec fn regex_finds(pattern: Seq<char>, line: Seq<char>) -> bool;

/// Trusted: `regex::Regex::new(pattern)`, its error as the error's
/// message; the contract claims only that it fails exactly when the
/// named error is there, and with that message.
#[verifier::external_body]
fn compile_regex(pattern: &str) -> (r: Result<regex::Regex, String>)
    ensures
        match r {
            Ok(_) => regex_compile_error(pattern@) is None,
            Err(e) => regex_compile_error(pattern@) == Some(e@),
        },
{
    regex::Regex::new(pattern).map_err(|e| e.to_string())
}

/// A compiled grep pattern and the text it was compiled from.
pub struct GrepPattern {
    text: String,
    re: regex::Regex,
}

impl GrepPattern {
    pub closed spec fn text_spec(&self) -> Seq<char> {
        self.text@
    }

    /// Compile a grep pattern; a bad one is refused with the compiler's
    /// message.
    pub fn new(pattern: &str) -> (r: Result<GrepPattern, String>)
        ensures
            match r {
                Ok(p) => regex_compile_error(pattern@) is None && p.text_spec() == pattern@,
                Err(e) => regex_compile_error(pattern@) is Some && e@ == "bad regex: "@
                    + regex_compile_error(pattern@)->0,
            },
    {
        match compile_regex(pattern) {
            Ok(re) => Ok(GrepPattern { text: pattern.to_string(), re }),
            Err(e) => {
                let mut msg: Vec<char> = Vec::new();
                push_str(&mut msg, "bad regex: ");
                push_str(&mut msg, e.as_str());
                Err(string_of(&msg))
            },
        }
    }
}

/// Trusted: `Regex::is_match` of the pattern's compiled form; the
/// contract claims the answer is the named match of the text the
/// pattern was compiled from.
#[verifier::external_body]
fn pattern_finds(pattern: &GrepPattern, line: &str) -> (r: bool)
    ensures
        r == regex_finds(pattern.text_spec(), line@),
{
    pattern.re.is_match(line)
}

/// The texts of capture groups 1 and 2 of the first match of the regular
/// expression `pattern` in `text`, when it matches and both groups take
/// part in the match.
pub uninterp spec fn regex_pair(pattern: Seq<char>, text: Seq<char>) -> Option<(Seq<char>, Seq<char>)>;

/// Trusted: `Regex::captures` of the pattern's compiled form, groups 1 and
/// 2 taken as strings; the contract claims the result is the named pair
/// of the text the pattern was compiled from.
#[verifier::external_body]
pub(crate) fn pattern_pair(pattern: &GrepPattern, text: &str) -> (r: Option<(String, String)>)
    ensures
        match r {
            Some(p) => regex_pair(pattern.text_spec(), text@) == Some((p.0@, p.1@)),
            None => regex_pair(pattern.text_spec(), text@) is None,
        },
{
    let c = pattern.re.captures(text)?;
    let (a, b) = c.get(1).zip(c.get(2))?;
    Some((a.as_str().to_string(), b.as_str().to_string()))
}

/// `{path}:{number}: {line}` for each line `pattern` finds, numbered
/// from 1, in order.
pub open spec fn grep_hits_spec(path: Seq<char>, pattern: Seq<char>, lines: Seq<Seq<char>>) -> Seq<Seq<char>>
    decreases lines.len(),
{
    if lines.len() == 0 {
        Seq::empty()
    } else {
        let rest = grep_hits_spec(path, pattern, lines.drop_last());
        if regex_finds(pattern, lines.last()) {
            rest.push(path + ":"@ + decimal(lines.len() as nat) + ": "@ + lines.last())
        } else {
            rest
        }
    }
}

proof fn lemma_hits_prefix(path: Seq<char>, pattern: Seq<char>, lines: Seq<Seq<char>>, k: int)
    requires
        0 <= k <= lines.len(),
    ensures
        grep_hits_spec(path, pattern, lines.take(k)).len() <= grep_hits_spec(path, pattern, lines).len(),
        grep_hits_spec(path, pattern, lines.take(k)) == grep_hits_spec(path, pattern, lines).take(
            grep_hits_spec(path, pattern, lines.take(k)).len() as int,
        ),
    decreases lines.len() - k,
{
    if k == lines.len() {
        assert(lines.take(k) =~= lines);
    } else {
        lemma_hits_prefix(path, pattern, lines, k + 1);
        assert(lines.take(k + 1).drop_last() =~= lines.take(k));
        let a = grep_hits_spec(path, pattern, lines.take(k));
        let b = grep_hits_spec(path, pattern, lines.take(k + 1));
        let all = grep_hits_spec(path, pattern, lines);
        assert(b.take(a.len() as int) =~= a);
        assert(all.take(a.len() as int) =~= all.take(b.len() as int).take(a.len() as int));
    }
}

/// The grep hits in one file's text, at most `room` of them: the first
/// `room` lines the pattern finds, each as `{path}:{number}: {line}`.
pub fn grep_text(path: &str, text: &str, pattern: &GrepPattern, room: usize) -> (r: Vec<String>)
    ensures
        ({
            let all = grep_hits_spec(path@, pattern.text_spec(), lines_spec(text@));
            views::<String>(r@) == if all.len() <= room {
                all
            } else {
                all.take(room as int)
            }
        }),
{
    let lines = text_lines(text);
    let ghost lv = views::<String>(lines@);
    let ghost all = grep_hits_spec(path@, pattern.text_spec(), lv);
    let mut out: Vec<String> = Vec::new();
    let mut k: usize = 0;
    while k < lines.len() && out.len() < room
        invariant
            k <= lines@.len(),
            lv == views::<String>(lines@),
            all == grep_hits_spec(path@, pattern.text_spec(), lv),
            views::<String>(out@) == grep_hits_spec(path@, pattern.text_spec(), lv.take(k as int)),
            out@.len() <= room,
        decreases lines@.len() - k,
    {
        proof {
            assert(lv.take(k + 1).drop_last() =~= lv.take(k as int));
            assert(lv.take(k + 1).last() == lines@[k as int]@);
        }
        if pattern_finds(pattern, lines[k].as_str()) {
            let ghost before = views::<String>(out@);
            let mut hit: Vec<char> = Vec::new();
            push_str(&mut hit, path);
            push_str(&mut hit, ":");
            let num = crate::text::u128_to_chars(k as u128 + 1);
            push_all(&mut hit, &num);
            push_str(&mut hit, ": ");
            push_str(&mut hit, lines[k].as_str());
            let h = string_of(&hit);
            out.push(h);
            proof {
                assert(lv.take(k + 1).len() == k + 1);
                assert(h@ =~= path@ + ":"@ + decimal((k + 1) as nat) + ": "@ + lines@[k as int]@);
                assert(views::<String>(out@) =~= before.push(h@));
            }
        }
        k = k + 1;
    }
    proof {
        lemma_hits_prefix(path@, pattern.text_spec(), lv, k as int);
        if k >= lines@.len() {
            assert(lv.take(k as int) =~= lv);
        }
    }
    out
}


// ---------------------------------------------------------------------
// The registry's dispatch
// ---------------------------------------------------------------------

/// The tools of `schemas` that `profile` names, in registry order.
pub open spec fn profiled_spec(names: Seq<Seq<char>>, profile: Seq<Seq<char>>) -> Seq<int>
    decreases names.len(),
{
    if names.len() == 0 {
        Seq::empty()
    } else {
        let rest = profiled_spec(names.drop_last(), profile);
        if profile.contains(names.last()) {
            rest.push(names.len() - 1)
        } else {
            rest
        }
    }
}

pub open spec fn schema_names(schemas: Seq<crate::model::ToolSchema>) -> Seq<Seq<char>> {
    schemas.map_values(|t: crate::model::ToolSchema| t.name@)
}

fn copy_schema(t: &crate::model::ToolSchema) -> (r: crate::model::ToolSchema)
    ensures
        r.name@ == t.name@,
        r.description@ == t.description@,
        r.parameters@ == t.parameters@,
{
    crate::model::ToolSchema {
        name: t.name.clone(),
        description: t.description.clone(),
        parameters: t.parameters.clone(),
    }
}

fn names_contain(names: &Vec<String>, name: &str) -> (b: bool)
    ensures
        b == views::<String>(names@).contains(name@),
{
    let mut i: usize = 0;
    while i < names.len()
        invariant
            i <= names@.len(),
            forall|k: int| 0 <= k < i ==> views::<String>(names@)[k] != name@,
        decreases names@.len() - i,
    {
        if str_eq(names[i].as_str(), name) {
            proof {
                assert(views::<String>(names@)[i as int] == name@);
            }
            return true;
        }
        i = i + 1;
    }
    false
}

/// The schemas the model sees: those of the tools `profile` names, in
/// registry order.
pub fn profiled_schemas(schemas: &Vec<crate::model::ToolSchema>, profile: &Vec<String>) -> (r: Vec<
    crate::model::ToolSchema,
>)
    ensures
        r@.len() == profiled_spec(schema_names(schemas@), views::<String>(profile@)).len(),
        forall|k: int|
            0 <= k < r@.len() ==> {
                let i = #[trigger] profiled_spec(schema_names(schemas@), views::<String>(profile@))[k];
                &&& 0 <= i < schemas@.len()
                &&& r@[k].name@ == schemas@[i].name@
                &&& r@[k].description@ == schemas@[i].description@
                &&& r@[k].parameters@ == schemas@[i].parameters@
            },
{
    let ghost names = schema_names(schemas@);
    let ghost pv = views::<String>(profile@);
    let mut out: Vec<crate::model::ToolSchema> = Vec::new();
    let mut i: usize = 0;
    while i < schemas.len()
        invariant
            i <= schemas@.len(),
            names == schema_names(schemas@),
            pv == views::<String>(profile@),
            out@.len() == profiled_spec(names.take(i as int), pv).len(),
            forall|k: int|
                0 <= k < out@.len() ==> {
                    let j = #[trigger] profiled_spec(names.take(i as int), pv)[k];
                    &&& 0 <= j < i
                    &&& out@[k].name@ == schemas@[j].name@
                    &&& out@[k].description@ == schemas@[j].description@
                    &&& out@[k].parameters@ == schemas@[j].parameters@
                },
        decreases schemas@.len() - i,
    {
        proof {
            assert(names.take(i + 1).drop_last() =~= names.take(i as int));
            assert(names.take(i + 1).last() == schemas@[i as int].name@);
        }
        let ghost prev = profiled_spec(names.take(i as int), pv);
        if names_contain(profile, schemas[i].name.as_str()) {
            let c = copy_schema(&schemas[i]);
            out.push(c);
            proof {
                let now = profiled_spec(names.take(i + 1), pv);
                assert(now == prev.push(i as int));
                assert forall|k: int| 0 <= k < out@.len() implies {
                    let j = #[trigger] now[k];
                    &&& 0 <= j < i + 1
                    &&& out@[k].name@ == schemas@[j].name@
                    &&& out@[k].description@ == schemas@[j].description@
                    &&& out@[k].parameters@ == schemas@[j].parameters@
                } by {
                    if k < prev.len() {
                        assert(now[k] == prev[k]);
                    }
                }
            }
        } else {
            proof {
                let now = profiled_spec(names.take(i + 1), pv);
                assert(now == prev);
            }
        }
        i = i + 1;
    }
    proof {
        assert(names.take(schemas@.len() as int) =~= names);
    }
    out
}

/// The position of the first tool called `name`.
pub open spec fn first_named(names: Seq<Seq<char>>, name: Seq<char>) -> Option<int>
    decreases names.len(),
{
    if names.len() == 0 {
        None
    } else if names[0] == name {
        Some(0)
    } else {
        match first_named(names.drop_first(), name) {
            Some(k) => Some(k + 1),
            None => None,
        }
    }
}

/// Which tool a call reaches: none unless the profile names it, else
/// the first registered tool of that name.
pub fn dispatch_target(names: &Vec<String>, profile: &Vec<String>, name: &str) -> (r: Option<usize>)
    ensures
        r == (if views::<String>(profile@).contains(name@) {
            match first_named(views::<String>(names@), name@) {
                Some(k) => Some(k as usize),
                None => None::<usize>,
            }
        } else {
            None::<usize>
        }),
        r matches Some(k) ==> k < names@.len(),
{
    if !names_contain(profile, name) {
        return None;
    }
    let ghost nv = views::<String>(names@);
    let mut i: usize = 0;
    proof {
        assert(nv.skip(0) =~= nv);
    }
    while i < names.len()
        invariant
            i <= names@.len(),
            nv == views::<String>(names@),
            views::<String>(profile@).contains(name@),
            first_named(nv, name@) == match first_named(nv.skip(i as int), name@) {
                Some(k) => Some(k + i),
                None => None::<int>,
            },
        decreases names@.len() - i,
    {
        proof {
            assert(nv.skip(i as int)[0] == names@[i as int]@);
            assert(nv.skip(i as int).drop_first() =~= nv.skip(i + 1));
        }
        if str_eq(names[i].as_str(), name) {
            proof {
                assert(nv.skip(i as int).len() > 0);
                assert(first_named(nv.skip(i as int), name@) == Some(0int));
            }
            return Some(i);
        }
        i = i + 1;
    }
    proof {
        assert(nv.skip(i as int) =~= Seq::<Seq<char>>::empty());
    }
    None
}

/// What a finished tool call returns to the model: its output cut to
/// size, or its error after `error: `.
pub fn tool_outcome(result: Result<String, String>) -> (r: String)
    ensures
        r@ == match result {
            Ok(text) => truncate_spec(text@),
            Err(e) => "error: "@ + e@,
        },
{
    match result {
        Ok(text) => truncate(text),
        Err(e) => {
            let mut out: Vec<char> = Vec::new();
            push_str(&mut out, "error: ");
            push_str(&mut out, e.as_str());
            string_of(&out)
        },
    }
}

/// `{:?}` of a string: quoted, with the standard library's escapes.
pub uninterp spec fn debug_quoted(s: Seq<char>) -> Seq<char>;

/// Trusted: `format!("{:?}", s)`; the contract claims only that the
/// result is the named quoting of `s`.
#[verifier::external_body]
fn debug_quote(s: &str) -> (r: String)
    ensures
        r@ == debug_quoted(s@),
{
    format!("{:?}", s)
}

/// The answer to a call the profile or the registry does not offer.
pub fn unavailable_message(name: &str) -> (r: String)
    ensures
        r@ == "error: tool "@ + debug_quoted(name@) + " is not available"@,
{
    let q = debug_quote(name);
    let mut out: Vec<char> = Vec::new();
    push_str(&mut out, "error: tool ");
    push_str(&mut out, q.as_str());
    push_str(&mut out, " is not available");
    proof {
        assert(out@ =~= "error: tool "@ + debug_quoted(name@) + " is not available"@);
    }
    string_of(&out)
}

/// The answer to a call whose arguments are not JSON.
pub fn malformed_arguments_message(error: &str) -> (r: String)
    ensures
        r@ == "error: malformed arguments: "@ + error@,
{
    let mut out: Vec<char> = Vec::new();
    push_str(&mut out, "error: malformed arguments: ");
    push_str(&mut out, error);
    string_of(&out)
}

} // verus!
