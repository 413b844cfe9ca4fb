//! Reading the model's answer to a moment request:
//!
//! ```text
//! turns: 5-20
//! ---
//! The narrative paragraph here...
//! ```

use vstd::prelude::*;
use crate::text::{
    chars_of, copy_range, find, find_chars, lemma_find_from_props, parse_u64_range,
    parse_u64_spec, push_str, string_of, trim, trim_bounds,
};
use crate::tools::{pattern_pair, regex_compile_error, regex_pair, GrepPattern};

verus! {

/// Parsed moment response from the model.
#[derive(Debug)]
pub struct MomentResponse {
    pub start_turn: u64,
    pub end_turn: u64,
    pub narrative: String,
}

pub struct MomentResponseView {
    pub start_turn: u64,
    pub end_turn: u64,
    pub narrative: Seq<char>,
}

impl View for MomentResponse {
    type V = MomentResponseView;

    open spec fn view(&self) -> MomentResponseView {
        MomentResponseView {
            start_turn: self.start_turn,
            end_turn: self.end_turn,
            narrative: self.narrative@,
        }
    }
}

/// The pattern a response header's turn range is read with: the first
/// `turns:` followed by two digit runs joined by `-`, blanks allowed
/// around each part.
pub const TURNS_PATTERN: &'static str = r"turns:\s*(\d+)\s*-\s*(\d+)";

/// The message of the error `str::parse::<u64>` gives for a text.
pub uninterp spec fn u64_parse_error(s: Seq<char>) -> Seq<char>;

/// The message of `s.parse::<u64>()`'s error, by the standard library.
///
/// Trusted: the contract claims the message is the named one whenever
/// the text is not a `u64`; nothing is claimed of the result otherwise.
#[verifier::external_body]
fn u64_error_text(s: &str) -> (r: String)
    ensures
        parse_u64_spec(s@) is None ==> r@ == u64_parse_error(s@),
{
    match s.parse::<u64>() {
        Ok(_) => String::new(),
        Err(e) => e.to_string(),
    }
}

/// `s.parse::<u64>()`, its error as the error's message.
fn parse_u64_text(s: &str) -> (r: Result<u64, String>)
    ensures
        match r {
            Ok(v) => parse_u64_spec(s@) == Some(v),
            Err(e) => parse_u64_spec(s@) is None && e@ == u64_parse_error(s@),
        },
{
    let cs = chars_of(s);
    proof {
        assert(cs@.subrange(0, cs@.len() as int) =~= s@);
    }
    match parse_u64_range(&cs, 0, cs.len()) {
        Some(v) => Ok(v),
        None => Err(u64_error_text(s)),
    }
}

/// The response given the header's captures: both numbers read, or the
/// error that stopped the reading.
pub open spec fn from_captures_spec(
    header: Seq<char>,
    caps: Option<(Seq<char>, Seq<char>)>,
    narrative: Seq<char>,
) -> Result<MomentResponseView, Seq<char>> {
    match caps {
        None => Err("No 'turns: N-M' found in header: '"@ + header + "'"@),
        Some(p) => match parse_u64_spec(p.0) {
            None => Err("Invalid start turn: "@ + u64_parse_error(p.0)),
            Some(start) => match parse_u64_spec(p.1) {
                None => Err("Invalid end turn: "@ + u64_parse_error(p.1)),
                Some(end) => Ok(
                    MomentResponseView { start_turn: start, end_turn: end, narrative: narrative },
                ),
            },
        },
    }
}

/// A moment response: split at the first `---`; the trimmed part after it
/// is the narrative and must not be empty; the trimmed part before it
/// carries the turn range, read with `TURNS_PATTERN` (whose compiler
/// error, could it have one, would be the answer).
pub open spec fn moment_response_spec(response: Seq<char>) -> Result<MomentResponseView, Seq<char>> {
    match find(response, "---"@) {
        None => Err("No '---' separator found in response"@),
        Some(e) => {
            let header = trim(response.take(e));
            let narrative = trim(response.skip(e + 3));
            if narrative.len() == 0 {
                Err("Empty narrative after '---' separator"@)
            } else {
                match regex_compile_error(TURNS_PATTERN@) {
                    Some(m) => Err("bad regex: "@ + m),
                    None => from_captures_spec(
                        header,
                        regex_pair(TURNS_PATTERN@, header),
                        narrative,
                    ),
                }
            }
        },
    }
}

pub open spec fn result_view(r: Result<MomentResponse, String>) -> Result<
    MomentResponseView,
    Seq<char>,
> {
    match r {
        Ok(m) => Ok(m@),
        Err(e) => Err(e@),
    }
}

pub open spec fn captures_view(c: Option<(String, String)>) -> Option<(Seq<char>, Seq<char>)> {
    match c {
        Some(p) => Some((p.0@, p.1@)),
        None => None,
    }
}

/// Finish reading a response from the header's turn-range captures.
pub fn moment_from_captures(header: &str, caps: Option<(String, String)>, narrative: String) -> (r:
    Result<MomentResponse, String>)
    ensures
        result_view(r) == from_captures_spec(header@, captures_view(caps), narrative@),
{
    match caps {
        None => {
            let mut msg: Vec<char> = Vec::new();
            push_str(&mut msg, "No 'turns: N-M' found in header: '");
            push_str(&mut msg, header);
            push_str(&mut msg, "'");
            Err(string_of(&msg))
        },
        Some((a, b)) => match parse_u64_text(a.as_str()) {
            Err(e) => {
                let mut msg: Vec<char> = Vec::new();
                push_str(&mut msg, "Invalid start turn: ");
                push_str(&mut msg, e.as_str());
                Err(string_of(&msg))
            },
            Ok(start) => match parse_u64_text(b.as_str()) {
                Err(e) => {
                    let mut msg: Vec<char> = Vec::new();
                    push_str(&mut msg, "Invalid end turn: ");
                    push_str(&mut msg, e.as_str());
                    Err(string_of(&msg))
                },
                Ok(end) => Ok(MomentResponse { start_turn: start, end_turn: end, narrative }),
            },
        },
    }
}

/// Parse a moment response; `Err` when the format is not followed. The
/// turn range is the first match of `TURNS_PATTERN` in the header.
pub fn parse_moment_response(response: &str) -> (r: Result<MomentResponse, String>)
    ensures
        result_view(r) == moment_response_spec(response@),
{
    let s = chars_of(response);
    let sep = chars_of("---");
    proof {
        reveal_strlit("---");
        lemma_find_from_props(s@, sep@, 0);
    }
    let e = match find_chars(&s, &sep, 0) {
        None => {
            return Err("No '---' separator found in response".to_string());
        },
        Some(e) => e,
    };
    let (ha, hb) = trim_bounds(&s, 0, e);
    let (na, nb) = trim_bounds(&s, e + 3, s.len());
    proof {
        assert(s@.subrange(0, e as int) =~= s@.take(e as int));
        assert(s@.subrange(e + 3, s@.len() as int) =~= s@.skip(e + 3));
    }
    if nb == na {
        return Err("Empty narrative after '---' separator".to_string());
    }
    let header = string_of(&copy_range(&s, ha, hb));
    let narrative = string_of(&copy_range(&s, na, nb));
    let pattern = match GrepPattern::new(TURNS_PATTERN) {
        Ok(p) => p,
        Err(e) => {
            return Err(e);
        },
    };
    let caps = pattern_pair(&pattern, header.as_str());
    moment_from_captures(header.as_str(), caps, narrative)
}

} // verus!
