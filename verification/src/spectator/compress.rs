//! Compression: per-turn moves (one structural note per exchange) and
//! where they and their moments live.

use vstd::prelude::*;
use crate::paths::{
    join, join_str,
};
use crate::text::{
    lemma_take_bytes_increase, byte_len, char_len_utf8, chars_of, decimal, find, find_chars,
    lemma_byte_len_push, push_all, push_str, string_of, u64_to_chars, views,
};

verus! {

/// `str::to_lowercase`: the Unicode lowercase mapping of a text.
pub uninterp spec fn lowercase(s: Seq<char>) -> Seq<char>;

/// The Unicode lowercase of `s`, by the standard library.
#[verifier::external_body]
fn to_lowercase(s: &str) -> (r: String)
    ensures
        r@ == lowercase(s@),
{
    s.to_lowercase()
}

/// Compressor: generates structural summaries of conversations.
pub struct Compressor {
    embeddings_dir: String,
}

/// `p` occurs in `s`.
pub open spec fn contains(s: Seq<char>, p: Seq<char>) -> bool {
    find(s, p) is Some
}

/// The kind of exchange a turn was, from its tool calls first and its
/// (lowercased) summary second.
pub open spec fn classify_spec(summary: Seq<char>, tools: Seq<Seq<char>>) -> Seq<char> {
    let lower = lowercase(summary);
    if tools.contains("send_message"@) {
        "response"@
    } else if tools.contains("read"@) || tools.contains("glob"@) || tools.contains("grep"@) {
        "exploration"@
    } else if tools.contains("write"@) || tools.contains("edit"@) {
        "creation"@
    } else if tools.contains("bash"@) {
        "execution"@
    } else if contains(lower, "question"@) || contains(lower, "?"@) {
        "question"@
    } else if contains(lower, "decided"@) || contains(lower, "chose"@) {
        "decision"@
    } else if contains(lower, "error"@) || contains(lower, "failed"@) {
        "recovery"@
    } else if contains(lower, "wait"@) || contains(lower, "heartbeat"@) {
        "pause"@
    } else {
        "processing"@
    }
}


/// How a turn is classified. Its tool calls decide first, in this order
/// of precedence: a message sent makes it a response; reading, globbing or
/// grepping makes it exploration; writing or editing makes it creation;
/// running a shell command makes it execution. Only a turn with none of
/// these tools is read by its summary's words, and a turn with neither
/// such tools nor such words is processing.
pub proof fn law_move_kinds(summary: Seq<char>, tools: Seq<Seq<char>>)
    ensures
        tools.contains("send_message"@) ==> classify_spec(summary, tools) == "response"@,
        !tools.contains("send_message"@) && (tools.contains("read"@) || tools.contains("glob"@)
            || tools.contains("grep"@)) ==> classify_spec(summary, tools) == "exploration"@,
        !tools.contains("send_message"@) && !tools.contains("read"@) && !tools.contains("glob"@)
            && !tools.contains("grep"@) && (tools.contains("write"@) || tools.contains("edit"@))
            ==> classify_spec(summary, tools) == "creation"@,
        !tools.contains("send_message"@) && !tools.contains("read"@) && !tools.contains("glob"@)
            && !tools.contains("grep"@) && !tools.contains("write"@) && !tools.contains("edit"@)
            && tools.contains("bash"@) ==> classify_spec(summary, tools) == "execution"@,
        ({
            let lower = lowercase(summary);
            let no_tool = !tools.contains("send_message"@) && !tools.contains("read"@)
                && !tools.contains("glob"@) && !tools.contains("grep"@) && !tools.contains(
                "write"@,
            ) && !tools.contains("edit"@) && !tools.contains("bash"@);
            &&& no_tool && (contains(lower, "question"@) || contains(lower, "?"@))
                ==> classify_spec(summary, tools) == "question"@
            &&& no_tool && !contains(lower, "question"@) && !contains(lower, "?"@) && (contains(
                lower,
                "decided"@,
            ) || contains(lower, "chose"@)) ==> classify_spec(summary, tools) == "decision"@
            &&& no_tool && !contains(lower, "question"@) && !contains(lower, "?"@) && !contains(
                lower,
                "decided"@,
            ) && !contains(lower, "chose"@) && (contains(lower, "error"@) || contains(
                lower,
                "failed"@,
            )) ==> classify_spec(summary, tools) == "recovery"@
            &&& no_tool && !contains(lower, "question"@) && !contains(lower, "?"@) && !contains(
                lower,
                "decided"@,
            ) && !contains(lower, "chose"@) && !contains(lower, "error"@) && !contains(
                lower,
                "failed"@,
            ) && (contains(lower, "wait"@) || contains(lower, "heartbeat"@))
                ==> classify_spec(summary, tools) == "pause"@
            &&& no_tool && !contains(lower, "question"@) && !contains(lower, "?"@) && !contains(
                lower,
                "decided"@,
            ) && !contains(lower, "chose"@) && !contains(lower, "error"@) && !contains(
                lower,
                "failed"@,
            ) && !contains(lower, "wait"@) && !contains(lower, "heartbeat"@)
                ==> classify_spec(summary, tools) == "processing"@
        }),
{
}

fn has_tool(tools: &Vec<String>, name: &str) -> (r: bool)
    ensures
        r == views::<String>(tools@).contains(name@),
{
    let mut i: usize = 0;
    while i < tools.len()
        invariant
            i <= tools@.len(),
            forall|j: int| 0 <= j < i ==> tools@[j]@ != name@,
        decreases tools@.len() - i,
    {
        if crate::text::str_eq(tools[i].as_str(), name) {
            proof {
                assert(views::<String>(tools@)[i as int] == name@);
            }
            return true;
        }
        i = i + 1;
    }
    proof {
        if views::<String>(tools@).contains(name@) {
            let j = choose|j: int|
                0 <= j < views::<String>(tools@).len() && views::<String>(tools@)[j] == name@;
            assert(tools@[j]@ == name@);
        }
    }
    false
}

fn has_text(s: &Vec<char>, p: &str) -> (r: bool)
    ensures
        r == contains(s@, p@),
{
    let pv = chars_of(p);
    find_chars(s, &pv, 0).is_some()
}

/// Replace `/`, `\` and spaces with `-`, making a channel name safe as a
/// file name.
pub open spec fn sanitize_spec(channel: Seq<char>) -> Seq<char> {
    channel.map_values(|c: char| if c == '/' || c == '\\' || c == ' ' { '-' } else { c })
}

/// A channel name made safe as a file name.
pub fn sanitize_channel(channel: &str) -> (r: String)
    ensures
        r@ == sanitize_spec(channel@),
{
    let cs = chars_of(channel);
    let mut out: Vec<char> = Vec::new();
    let mut i: usize = 0;
    while i < cs.len()
        invariant
            i <= cs@.len(),
            out@ == sanitize_spec(cs@.take(i as int)),
        decreases cs@.len() - i,
    {
        let c = cs[i];
        if c == '/' || c == '\\' || c == ' ' {
            out.push('-');
        } else {
            out.push(c);
        }
        proof {
            assert(cs@.take(i + 1) =~= cs@.take(i as int).push(c));
            assert(sanitize_spec(cs@.take(i + 1)) =~= sanitize_spec(cs@.take(i as int)).push(
                if c == '/' || c == '\\' || c == ' ' { '-' } else { c },
            ));
        }
        i = i + 1;
    }
    proof {
        assert(cs@.take(cs@.len() as int) =~= cs@);
    }
    string_of(&out)
}

/// The summary as a move line carries it: cut after its first 80 bytes
/// with `...` appended when longer, newlines turned into spaces.
pub open spec fn move_summary(summary: Seq<char>) -> Seq<char> {
    let cut = if byte_len(summary) > 80 {
        let k = choose|k: int| 0 <= k <= summary.len() && byte_len(summary.take(k)) == 80;
        summary.take(k) + "..."@
    } else {
        summary
    };
    cut.map_values(|c: char| if c == '\n' { ' ' } else { c })
}

/// `Move {turn}: [{kind}] {summary}` and a newline.
pub open spec fn move_line_spec(turn: u64, kind: Seq<char>, summary: Seq<char>) -> Seq<char> {
    "Move "@ + decimal(turn as nat) + ": ["@ + kind + "] "@ + move_summary(summary) + "\n"@
}

/// Byte 80 of `s` is a character boundary, or `s` is no longer.
pub open spec fn cut_at_80_ok(s: Seq<char>) -> bool {
    byte_len(s) <= 80 || exists|k: int| 0 <= k <= s.len() && byte_len(s.take(k)) == 80
}

impl Compressor {
    pub fn new(embeddings_dir: String) -> (r: Self)
        ensures
            r.dir() == embeddings_dir@,
    {
        Compressor { embeddings_dir }
    }

    /// The directory the compressor works under.
    pub closed spec fn dir(&self) -> Seq<char> {
        self.embeddings_dir@
    }

    /// `embeddings_dir/moves`.
    pub fn moves_dir(&self) -> (r: String)
        ensures
            r@ == join(self.dir(), "moves"@),
    {
        join_str(self.embeddings_dir.as_str(), "moves")
    }

    /// `embeddings_dir/moments`.
    pub fn moments_dir(&self) -> (r: String)
        ensures
            r@ == join(self.dir(), "moments"@),
    {
        join_str(self.embeddings_dir.as_str(), "moments")
    }

    /// A channel's moves file: `moves/{channel}.md`, the channel name
    /// made safe.
    pub fn moves_path(&self, channel: &str) -> (r: String)
        ensures
            r@ == join(join(self.dir(), "moves"@), sanitize_spec(channel@) + ".md"@),
    {
        let name = named_file(channel, "", ".md");
        proof {
            reveal_strlit("");
            assert(sanitize_spec(channel@) + ""@ + ".md"@ =~= sanitize_spec(channel@) + ".md"@);
        }
        join_str(self.moves_dir().as_str(), name.as_str())
    }

    /// Where a channel's moves file goes when archived at `stamp`:
    /// `moves/{channel}-archive-{stamp}.md`.
    pub fn archive_path(&self, channel: &str, stamp: &str) -> (r: String)
        ensures
            r@ == join(join(self.dir(), "moves"@), sanitize_spec(channel@) + "-archive-"@ + stamp@ + ".md"@),
    {
        let mut suffix: Vec<char> = Vec::new();
        push_str(&mut suffix, "-archive-");
        push_str(&mut suffix, stamp);
        let sfx = string_of(&suffix);
        let name = named_file(channel, sfx.as_str(), ".md");
        proof {
            assert(sanitize_spec(channel@) + sfx@ + ".md"@ =~= sanitize_spec(channel@) + "-archive-"@ + stamp@
                + ".md"@);
        }
        join_str(self.moves_dir().as_str(), name.as_str())
    }

    /// Where a moment compressed at `stamp` goes:
    /// `moments/{channel}-{stamp}.md`.
    pub fn moment_path(&self, channel: &str, stamp: &str) -> (r: String)
        ensures
            r@ == join(join(self.dir(), "moments"@), sanitize_spec(channel@) + "-"@ + stamp@ + ".md"@),
    {
        let mut suffix: Vec<char> = Vec::new();
        push_str(&mut suffix, "-");
        push_str(&mut suffix, stamp);
        let sfx = string_of(&suffix);
        let name = named_file(channel, sfx.as_str(), ".md");
        proof {
            assert(sanitize_spec(channel@) + sfx@ + ".md"@ =~= sanitize_spec(channel@) + "-"@ + stamp@ + ".md"@);
        }
        join_str(self.moments_dir().as_str(), name.as_str())
    }

    /// The kind of exchange a turn was.
    pub fn classify_move(&self, summary: &str, tool_calls: &Vec<String>) -> (r: &'static str)
        ensures
            r@ == classify_spec(summary@, views::<String>(tool_calls@)),
    {
        let lower = chars_of(to_lowercase(summary).as_str());
        if has_tool(tool_calls, "send_message") {
            return "response";
        }
        if has_tool(tool_calls, "read") || has_tool(tool_calls, "glob") || has_tool(
            tool_calls,
            "grep",
        ) {
            return "exploration";
        }
        if has_tool(tool_calls, "write") || has_tool(tool_calls, "edit") {
            return "creation";
        }
        if has_tool(tool_calls, "bash") {
            return "execution";
        }
        if has_text(&lower, "question") || has_text(&lower, "?") {
            return "question";
        }
        if has_text(&lower, "decided") || has_text(&lower, "chose") {
            return "decision";
        }
        if has_text(&lower, "error") || has_text(&lower, "failed") {
            return "recovery";
        }
        if has_text(&lower, "wait") || has_text(&lower, "heartbeat") {
            return "pause";
        }
        "processing"
    }

    /// The line a turn adds to its channel's moves file.
    pub fn move_line(&self, turn_number: u64, move_type: &str, summary: &str) -> (r: String)
        requires
            cut_at_80_ok(summary@),
        ensures
            r@ == move_line_spec(turn_number, move_type@, summary@),
    {
        make_move_line(turn_number, move_type, summary)
    }
}

/// The line a turn adds to its channel's moves file.
pub fn make_move_line(turn_number: u64, move_type: &str, summary: &str) -> (r: String)
    requires
        cut_at_80_ok(summary@),
    ensures
        r@ == move_line_spec(turn_number, move_type@, summary@),
{
    let s = chars_of(summary);
    // bytes of s[..i]
    let mut bytes: u64 = 0;
    let mut i: usize = 0;
    while i < s.len() && bytes < 80
        invariant
            i <= s@.len(),
            bytes == byte_len(s@.take(i as int)),
            bytes < 84,
            i > 0 ==> byte_len(s@.take(i - 1)) < 80,
        decreases s@.len() - i,
    {
        proof {
            assert(s@.take(i + 1) =~= s@.take(i as int).push(s@[i as int]));
            lemma_byte_len_push(s@.take(i as int), s@[i as int]);
        }
        bytes = bytes + char_len_utf8(s[i]) as u64;
        i = i + 1;
    }
    let ghost cut: Seq<char>;
    let mut text: Vec<char> = Vec::new();
    if i < s.len() || bytes > 80 {
        // longer than 80 bytes: s[..i] holds exactly 80 of them
        proof {
            if i == s@.len() {
                assert(s@.take(i as int) =~= s@);
            } else {
                lemma_take_bytes_increase(s@, i as int, s@.len() as int);
                assert(s@.take(s@.len() as int) =~= s@);
            }
            assert(byte_len(s@) > 80);
            let k = choose|k: int| 0 <= k <= s@.len() && byte_len(s@.take(k)) == 80;
            if k < i {
                if k < i - 1 {
                    lemma_take_bytes_increase(s@, k, i - 1);
                }
            }
            if k > i {
                lemma_take_bytes_increase(s@, i as int, k);
            }
            assert(k == i);
        }
        let mut j: usize = 0;
        while j < i
            invariant
                j <= i <= s@.len(),
                text@ == s@.take(j as int),
            decreases i - j,
        {
            text.push(s[j]);
            proof {
                assert(s@.take(j + 1) =~= s@.take(j as int).push(s@[j as int]));
            }
            j = j + 1;
        }
        push_str(&mut text, "...");
    } else {
        proof {
            assert(s@.take(i as int) =~= s@);
        }
        let mut j: usize = 0;
        while j < s.len()
            invariant
                j <= s@.len(),
                text@ == s@.take(j as int),
            decreases s@.len() - j,
        {
            text.push(s[j]);
            proof {
                assert(s@.take(j + 1) =~= s@.take(j as int).push(s@[j as int]));
            }
            j = j + 1;
        }
        proof {
            assert(s@.take(s@.len() as int) =~= s@);
        }
    }
    let mut out: Vec<char> = Vec::new();
    push_str(&mut out, "Move ");
    let digits = u64_to_chars(turn_number);
    push_all(&mut out, &digits);
    push_str(&mut out, ": [");
    push_str(&mut out, move_type);
    push_str(&mut out, "] ");
    let ghost before = out@;
    let mut k: usize = 0;
    while k < text.len()
        invariant
            k <= text@.len(),
            out@ == before + text@.take(k as int).map_values(
                |c: char| if c == '\n' { ' ' } else { c },
            ),
        decreases text@.len() - k,
    {
        let c = text[k];
        if c == '\n' {
            out.push(' ');
        } else {
            out.push(c);
        }
        proof {
            assert(text@.take(k + 1) =~= text@.take(k as int).push(c));
            assert(text@.take(k + 1).map_values(|c: char| if c == '\n' { ' ' } else { c })
                =~= text@.take(k as int).map_values(|c: char| if c == '\n' { ' ' } else { c }).push(
                if c == '\n' { ' ' } else { c },
            ));
        }
        k = k + 1;
    }
    proof {
        assert(text@.take(text@.len() as int) =~= text@);
    }
    push_str(&mut out, "\n");
    string_of(&out)
}


/// `{channel}{middle}{ext}` with the channel name made safe.
fn named_file(channel: &str, middle: &str, ext: &str) -> (r: String)
    ensures
        r@ == sanitize_spec(channel@) + middle@ + ext@,
{
    let safe = sanitize_channel(channel);
    let mut out = chars_of(safe.as_str());
    push_str(&mut out, middle);
    push_str(&mut out, ext);
    string_of(&out)
}

/// An integer's decimal spelling, with `-` before a negative one.
pub open spec fn signed_decimal(n: int) -> Seq<char> {
    if n < 0 {
        "-"@ + decimal((-n) as nat)
    } else {
        decimal(n as nat)
    }
}

/// The text of a moment compressed from a channel's moves, created at
/// `unix_secs` (`created` is the same instant as RFC 3339).
pub open spec fn compressed_moment_spec(channel: Seq<char>, unix_secs: int, created: Seq<char>, moves: Seq<char>) -> Seq<char> {
    "---\nid: moment-"@ + signed_decimal(unix_secs) + "\ncreated: "@ + created
        + "\nauthor: spectator\ntype: moment\nchannel: "@ + channel + "\n---\n\n## Arc Summary\n\n"@
        + moves + "\n"@
}

/// The moment file's text: frontmatter, then the moves under an arc
/// summary heading.
pub fn compressed_moment_text(channel: &str, unix_secs: i64, created: &str, moves_text: &str) -> (r: String)
    ensures
        r@ == compressed_moment_spec(channel@, unix_secs as int, created@, moves_text@),
{
    let mut out: Vec<char> = Vec::new();
    push_str(&mut out, "---\nid: moment-");
    if unix_secs < 0 {
        push_str(&mut out, "-");
        let mag: u64 = if unix_secs == i64::MIN {
            9223372036854775808u64
        } else {
            (-unix_secs) as u64
        };
        let d = u64_to_chars(mag);
        push_all(&mut out, &d);
    } else {
        let d = u64_to_chars(unix_secs as u64);
        push_all(&mut out, &d);
    }
    push_str(&mut out, "\ncreated: ");
    push_str(&mut out, created);
    push_str(&mut out, "\nauthor: spectator\ntype: moment\nchannel: ");
    push_str(&mut out, channel);
    push_str(&mut out, "\n---\n\n## Arc Summary\n\n");
    push_str(&mut out, moves_text);
    push_str(&mut out, "\n");
    proof {
        assert(out@ =~= compressed_moment_spec(channel@, unix_secs as int, created@, moves_text@));
    }
    string_of(&out)
}

} // verus!
