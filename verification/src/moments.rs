//! Moments: agent-authored compressions that override witness moves in
//! the arc layer. A moment is a markdown file under `record/moments/`
//! with frontmatter declaring an inclusive turn range.

use vstd::prelude::*;
use crate::frontmatter::{
    fm_close, starts_with, strip_all_prefix, strip_all_prefix_from, strip_leading,
    strip_leading_from, unquote_bounds, unquote_spec,
};
use crate::text::{
    has_no, is_ws, join_with, lemma_find_first, lemma_index_run, lemma_join_no_dash,
    lemma_parse_decimal, lemma_split_join, lemma_trim_fixed, lemma_trim_lead_space,
    lemma_trim_trail_space, lemma_trim_unchanged, match_at, no_dash_lines, plain_lines, chars_of,
    copy_range, decimal, find_chars, find_from, index_of_char, index_of_from, lemma_find_from_props,
    lemma_split_step, matches_at, parse_u64_range, parse_u64_spec, push_all, push_str, split_char,
    split_char_from, string_of, trim, trim_bounds, u64_to_chars, views,
};

verus! {

/// One moment: its id, inclusive turn range, links, tags, body, and
/// the file it was read from.
#[derive(Debug, Clone)]
pub struct Moment {
    pub id: String,
    pub turn_start: u64,
    pub turn_end: u64,
    pub links: Vec<String>,
    pub tags: Vec<String>,
    pub body: String,
    pub file_path: String,
}

/// A moment as plain values.
pub struct MomentView {
    pub id: Seq<char>,
    pub turn_start: u64,
    pub turn_end: u64,
    pub links: Seq<Seq<char>>,
    pub tags: Seq<Seq<char>>,
    pub body: Seq<char>,
    pub file_path: Seq<char>,
}

impl View for Moment {
    type V = MomentView;

    open spec fn view(&self) -> MomentView {
        MomentView {
            id: self.id@,
            turn_start: self.turn_start,
            turn_end: self.turn_end,
            links: views::<String>(self.links@),
            tags: views::<String>(self.tags@),
            body: self.body@,
            file_path: self.file_path@,
        }
    }
}

/// `workspace/record/moments`.
pub fn dir(workspace: &str) -> (r: String)
    ensures
        r@ == crate::paths::join(
            crate::paths::join(workspace@, seq!['r', 'e', 'c', 'o', 'r', 'd']),
            seq!['m', 'o', 'm', 'e', 'n', 't', 's'],
        ),
{
    let a = crate::paths::join_str(workspace, "record");
    proof {
        reveal_strlit("record");
        reveal_strlit("moments");
    }
    crate::paths::join_str(a.as_str(), "moments")
}

/// YAML scalars arrive bare or quoted.
pub fn unquote(s: &str) -> (r: String)
    ensures
        r@ == unquote_spec(s@),
{
    crate::frontmatter::unquote(s)
}

/// The items of a `[a, b, c]` inline list, each trimmed and unquoted,
/// empty items dropped; anything not bracketed is an empty list.
pub open spec fn inline_list(value: Seq<char>) -> Seq<Seq<char>> {
    let t = trim(value);
    if t.len() >= 2 && t[0] == '[' && t.last() == ']' {
        kept_items(split_char(t.subrange(1, t.len() - 1), ','))
    } else {
        Seq::empty()
    }
}

/// Unquoted pieces, the empty ones dropped.
pub open spec fn kept_items(pieces: Seq<Seq<char>>) -> Seq<Seq<char>>
    decreases pieces.len(),
{
    if pieces.len() == 0 {
        Seq::empty()
    } else {
        let u = unquote_spec(pieces[0]);
        let rest = kept_items(pieces.drop_first());
        if u.len() > 0 {
            seq![u] + rest
        } else {
            rest
        }
    }
}

/// `inline_list` over `s[lo..hi]`, as character vectors.
fn inline_list_range(s: &Vec<char>, lo: usize, hi: usize) -> (r: Vec<Vec<char>>)
    requires
        lo <= hi <= s@.len(),
    ensures
        views::<Vec<char>>(r@) == inline_list(s@.subrange(lo as int, hi as int)),
{
    let (a, b) = trim_bounds(s, lo, hi);
    let ghost t = s@.subrange(a as int, b as int);
    let mut out: Vec<Vec<char>> = Vec::new();
    if !(b - a >= 2 && s[a] == '[' && s[b - 1] == ']') {
        proof {
            if t.len() >= 2 {
                assert(t[0] == s@[a as int] && t.last() == s@[b - 1]);
            }
            assert(views::<Vec<char>>(out@) =~= Seq::<Seq<char>>::empty());
        }
        return out;
    }
    let inner = copy_range(s, a + 1, b - 1);
    proof {
        assert(t[0] == s@[a as int] && t.last() == s@[b - 1]);
        assert(inner@ =~= t.subrange(1, t.len() - 1));
    }
    let ghost all = split_char(inner@, ',');
    let ghost mut done: Seq<Seq<char>> = Seq::empty();
    let mut pos: usize = 0;
    proof {
        assert(all =~= done + split_char_from(inner@, ',', 0));
        assert(views::<Vec<char>>(out@) =~= Seq::<Seq<char>>::empty());
    }
    loop
        invariant
            pos <= inner@.len(),
            all == split_char(inner@, ','),
            inline_list(s@.subrange(lo as int, hi as int)) == kept_items(all),
            all == done + split_char_from(inner@, ',', pos as int),
            kept_items(all) == views::<Vec<char>>(out@) + kept_items(
                split_char_from(inner@, ',', pos as int),
            ),
        decreases inner@.len() - pos,
    {
        let e = index_of_char(&inner, ',', pos);
        proof {
            lemma_split_step(inner@, ',', pos as int);
        }
        let ghost rest = split_char_from(inner@, ',', pos as int);
        let (ua, ub) = unquote_bounds(&inner, pos, e);
        let ghost before = views::<Vec<char>>(out@);
        if ub > ua {
            out.push(copy_range(&inner, ua, ub));
            proof {
                assert(views::<Vec<char>>(out@) =~= before + seq![inner@.subrange(ua as int, ub as int)]);
            }
        }
        proof {
            assert(kept_items(rest) == (if unquote_spec(rest[0]).len() > 0 {
                seq![unquote_spec(rest[0])] + kept_items(rest.drop_first())
            } else {
                kept_items(rest.drop_first())
            }));
            assert(rest[0] == inner@.subrange(pos as int, e as int));
            if ub > ua {
                assert(before + (seq![unquote_spec(rest[0])] + kept_items(rest.drop_first())) =~= (
                before + seq![unquote_spec(rest[0])]) + kept_items(rest.drop_first()));
            }
            assert(kept_items(all) == views::<Vec<char>>(out@) + kept_items(rest.drop_first()));
        }
        if e >= inner.len() {
            proof {
                assert(rest.drop_first() =~= Seq::<Seq<char>>::empty());
                assert(kept_items(Seq::<Seq<char>>::empty()) =~= Seq::<Seq<char>>::empty());
                assert(views::<Vec<char>>(out@) + Seq::<Seq<char>>::empty() =~= views::<Vec<char>>(
                    out@,
                ));
            }
            return out;
        }
        proof {
            assert(done + rest =~= done.push(rest[0]) + rest.drop_first());
            done = done.push(rest[0]);
        }
        pos = e + 1;
    }
}

fn strings_of(v: &Vec<Vec<char>>) -> (r: Vec<String>)
    ensures
        views::<String>(r@) == views::<Vec<char>>(v@),
{
    let mut r: Vec<String> = Vec::new();
    let mut i: usize = 0;
    while i < v.len()
        invariant
            i <= v@.len(),
            r@.len() == i,
            forall|j: int| 0 <= j < i ==> r@[j]@ == v@[j]@,
        decreases v@.len() - i,
    {
        r.push(string_of(&v[i]));
        i = i + 1;
    }
    proof {
        assert(views::<String>(r@) =~= views::<Vec<char>>(v@));
    }
    r
}

/// The items of an inline list `[a, b]`.
pub fn parse_inline_list(value: &str) -> (r: Vec<String>)
    ensures
        views::<String>(r@) == inline_list(value@),
{
    let v = chars_of(value);
    let items = inline_list_range(&v, 0, v.len());
    proof {
        assert(v@.subrange(0, v@.len() as int) =~= v@);
    }
    strings_of(&items)
}

/// `a, b, c`: the items joined with a comma and a space.
pub open spec fn join_items(items: Seq<Seq<char>>) -> Seq<char>
    decreases items.len(),
{
    if items.len() == 0 {
        Seq::empty()
    } else if items.len() == 1 {
        items[0]
    } else {
        join_items(items.drop_last()) + seq![',', ' '] + items.last()
    }
}

/// `[a, b, c]`.
pub open spec fn render_list_spec(items: Seq<Seq<char>>) -> Seq<char> {
    seq!['['] + join_items(items) + seq![']']
}

/// Render a list as `[a, b, c]`.
pub fn render_inline_list(items: &Vec<String>) -> (r: String)
    ensures
        r@ == render_list_spec(views::<String>(items@)),
{
    let mut out: Vec<char> = Vec::new();
    out.push('[');
    let mut i: usize = 0;
    while i < items.len()
        invariant
            i <= items@.len(),
            out@ == seq!['['] + join_items(views::<String>(items@).take(i as int)),
        decreases items@.len() - i,
    {
        let ghost before = out@;
        if i > 0 {
            out.push(',');
            out.push(' ');
        }
        push_str(&mut out, items[i].as_str());
        proof {
            let vs = views::<String>(items@);
            assert(vs.take(i + 1).drop_last() =~= vs.take(i as int));
            assert(vs.take(i + 1).last() == items@[i as int]@);
            if i == 0 {
                assert(join_items(vs.take(0)) =~= Seq::<char>::empty());
                assert(join_items(vs.take(1)) == vs.take(1)[0]);
                assert(out@ =~= seq!['['] + join_items(vs.take(i + 1)));
            } else {
                assert(out@ =~= seq!['['] + join_items(vs.take(i + 1)));
            }
        }
        i = i + 1;
    }
    proof {
        assert(views::<String>(items@).take(items@.len() as int) =~= views::<String>(items@));
    }
    out.push(']');
    string_of(&out)
}

/// Reading state over frontmatter lines: id, turn_start, turn_end,
/// links, tags (later lines override earlier ones).
pub type MState = (Option<Seq<char>>, Option<u64>, Option<u64>, Seq<Seq<char>>, Seq<Seq<char>>);

pub open spec fn m_init() -> MState {
    (None, None, None, Seq::empty(), Seq::empty())
}

pub open spec fn key_id() -> Seq<char> {
    seq!['i', 'd']
}

pub open spec fn key_turn_start() -> Seq<char> {
    seq!['t', 'u', 'r', 'n', '_', 's', 't', 'a', 'r', 't']
}

pub open spec fn key_turn_end() -> Seq<char> {
    seq!['t', 'u', 'r', 'n', '_', 'e', 'n', 'd']
}

pub open spec fn key_links() -> Seq<char> {
    seq!['l', 'i', 'n', 'k', 's']
}

pub open spec fn key_tags() -> Seq<char> {
    seq!['t', 'a', 'g', 's']
}

/// One frontmatter line: `key: value`, both trimmed; unknown keys and
/// lines without a colon change nothing.
pub open spec fn m_step(st: MState, raw: Seq<char>) -> MState {
    let line = trim(raw);
    let k = index_of_from(line, ':', 0);
    if line.len() == 0 || k >= line.len() {
        st
    } else {
        let key = trim(line.take(k));
        let value = trim(line.skip(k + 1));
        if key == key_id() {
            (Some(unquote_spec(value)), st.1, st.2, st.3, st.4)
        } else if key == key_turn_start() {
            (st.0, parse_u64_spec(value), st.2, st.3, st.4)
        } else if key == key_turn_end() {
            (st.0, st.1, parse_u64_spec(value), st.3, st.4)
        } else if key == key_links() {
            (st.0, st.1, st.2, inline_list(value), st.4)
        } else if key == key_tags() {
            (st.0, st.1, st.2, st.3, inline_list(value))
        } else {
            st
        }
    }
}

pub open spec fn m_fold(lines: Seq<Seq<char>>, st: MState) -> MState
    decreases lines.len(),
{
    if lines.len() == 0 {
        st
    } else {
        m_fold(lines.drop_first(), m_step(st, lines[0]))
    }
}

/// `parse`: the moment a file's text declares, when it opens with `---`,
/// closes its frontmatter, carries id, turn_start and turn_end, and the
/// range is not inverted.
pub open spec fn moment_spec(path: Seq<char>, t: Seq<char>) -> Option<MomentView> {
    if !starts_with(t, seq!['-', '-', '-']) {
        None
    } else {
        match find_from(t, fm_close(), 3) {
            None => None,
            Some(end) => {
                let st = m_fold(split_char(t.subrange(3, end), '\n'), m_init());
                let body = strip_leading(
                    strip_all_prefix(t.subrange(end, t.len() as int), fm_close()),
                    '\n',
                );
                if st.0 is Some && st.1 is Some && st.2 is Some && st.2->0 >= st.1->0 {
                    Some(
                        MomentView {
                            id: st.0->0,
                            turn_start: st.1->0,
                            turn_end: st.2->0,
                            links: st.3,
                            tags: st.4,
                            body,
                            file_path: path,
                        },
                    )
                } else {
                    None
                }
            },
        }
    }
}

/// Whether `s[a..b]` equals `w`.
fn range_is(s: &Vec<char>, a: usize, b: usize, w: &Vec<char>) -> (r: bool)
    requires
        a <= b <= s@.len(),
    ensures
        r == (s@.subrange(a as int, b as int) == w@),
{
    if b - a == w.len() && matches_at(s, w, a) {
        true
    } else {
        proof {
            if s@.subrange(a as int, b as int) == w@ {
                assert(s@.subrange(a as int, a + w@.len()) =~= w@);
            }
        }
        false
    }
}

pub open spec fn mstate_of(
    id: Option<Vec<char>>,
    ts: Option<u64>,
    te: Option<u64>,
    links: Seq<Vec<char>>,
    tags: Seq<Vec<char>>,
) -> MState {
    (
        match id {
            Some(v) => Some(v@),
            None => None,
        },
        ts,
        te,
        views::<Vec<char>>(links),
        views::<Vec<char>>(tags),
    )
}

/// Parse one moment file. `None` when the frontmatter is missing any
/// required field or when the turn range is inverted.
pub fn parse(path: &str, text: &str) -> (r: Option<Moment>)
    ensures
        match r {
            Some(m) => moment_spec(path@, text@) == Some(m@),
            None => moment_spec(path@, text@) is None,
        },
{
    let t = chars_of(text);
    let dashes = vec!['-', '-', '-'];
    let close = vec!['\n', '-', '-', '-'];
    proof {
        assert(close@ =~= fm_close());
    }
    if !(dashes.len() <= t.len() && matches_at(&t, &dashes, 0)) {
        proof {
            if starts_with(t@, seq!['-', '-', '-']) {
                assert(t@.subrange(0, 3) =~= dashes@);
            }
        }
        return None;
    }
    proof {
        assert(t@.subrange(0, 3) =~= seq!['-', '-', '-']);
        lemma_find_from_props(t@, fm_close(), 3);
    }
    let end = match find_chars(&t, &close, 3) {
        None => return None,
        Some(e) => e,
    };
    let fm = copy_range(&t, 3, end);
    let k_id = vec!['i', 'd'];
    let k_ts = vec!['t', 'u', 'r', 'n', '_', 's', 't', 'a', 'r', 't'];
    let k_te = vec!['t', 'u', 'r', 'n', '_', 'e', 'n', 'd'];
    let k_links = vec!['l', 'i', 'n', 'k', 's'];
    let k_tags = vec!['t', 'a', 'g', 's'];
    proof {
        assert(k_id@ =~= key_id());
        assert(k_ts@ =~= key_turn_start());
        assert(k_te@ =~= key_turn_end());
        assert(k_links@ =~= key_links());
        assert(k_tags@ =~= key_tags());
    }
    let mut id: Option<Vec<char>> = None;
    let mut ts: Option<u64> = None;
    let mut te: Option<u64> = None;
    let mut links: Vec<Vec<char>> = Vec::new();
    let mut tags: Vec<Vec<char>> = Vec::new();
    let mut pos: usize = 0;
    proof {
        assert(views::<Vec<char>>(links@) =~= Seq::<Seq<char>>::empty());
        assert(views::<Vec<char>>(tags@) =~= Seq::<Seq<char>>::empty());
    }
    loop
        invariant_except_break
            m_fold(split_char(fm@, '\n'), m_init()) == m_fold(
                split_char_from(fm@, '\n', pos as int),
                mstate_of(id, ts, te, links@, tags@),
            ),
        invariant
            pos <= fm@.len(),
            k_id@ == key_id(),
            k_ts@ == key_turn_start(),
            k_te@ == key_turn_end(),
            k_links@ == key_links(),
            k_tags@ == key_tags(),
        ensures
            m_fold(split_char(fm@, '\n'), m_init()) == mstate_of(id, ts, te, links@, tags@),
        decreases fm@.len() - pos,
    {
        let e = index_of_char(&fm, '\n', pos);
        proof {
            lemma_split_step(fm@, '\n', pos as int);
        }
        let ghost st = mstate_of(id, ts, te, links@, tags@);
        let ghost raw = fm@.subrange(pos as int, e as int);
        let (a, b) = trim_bounds(&fm, pos, e);
        let ghost line = fm@.subrange(a as int, b as int);
        let c = index_of_char(&fm, ':', a);
        proof {
            crate::memory::lemma_index_sub(fm@, ':', a as int, b as int, 0);
        }
        if b > a && c < b {
            let (ka, kb) = trim_bounds(&fm, a, c);
            let (va, vb) = trim_bounds(&fm, c + 1, b);
            proof {
                let k = index_of_from(line, ':', 0);
                assert(k == c - a);
                assert(line.take(k) =~= fm@.subrange(a as int, c as int));
                assert(line.skip(k + 1) =~= fm@.subrange(c + 1, b as int));
            }
            if range_is(&fm, ka, kb, &k_id) {
                let (ua, ub) = unquote_bounds(&fm, va, vb);
                id = Some(copy_range(&fm, ua, ub));
            } else if range_is(&fm, ka, kb, &k_ts) {
                ts = parse_u64_range(&fm, va, vb);
            } else if range_is(&fm, ka, kb, &k_te) {
                te = parse_u64_range(&fm, va, vb);
            } else if range_is(&fm, ka, kb, &k_links) {
                links = inline_list_range(&fm, va, vb);
            } else if range_is(&fm, ka, kb, &k_tags) {
                tags = inline_list_range(&fm, va, vb);
            }
        }
        proof {
            assert(mstate_of(id, ts, te, links@, tags@) == m_step(st, raw));
        }
        if e >= fm.len() {
            proof {
                let rest = split_char_from(fm@, '\n', pos as int);
                assert(rest.drop_first() == Seq::<Seq<char>>::empty());
                assert(m_fold(rest, st) == m_fold(rest.drop_first(), m_step(st, rest[0])));
                assert(m_fold(Seq::<Seq<char>>::empty(), m_step(st, raw)) == m_step(st, raw));
            }
            break;
        }
        pos = e + 1;
    }
    let a = strip_all_prefix_from(&t, end, t.len(), &close);
    let bstart = strip_leading_from(&t, a, t.len(), '\n');
    let body = copy_range(&t, bstart, t.len());
    match (id, ts, te) {
        (Some(idv), Some(s0), Some(s1)) => {
            if s1 < s0 {
                None
            } else {
                let p = chars_of(path);
                Some(
                    Moment {
                        id: string_of(&idv),
                        turn_start: s0,
                        turn_end: s1,
                        links: strings_of(&links),
                        tags: strings_of(&tags),
                        body: string_of(&body),
                        file_path: string_of(&p),
                    },
                )
            }
        },
        _ => None,
    }
}


// ---------------------------------------------------------------------
// Writing a moment, and reading it back
// ---------------------------------------------------------------------

/// The body as written: a newline appended unless it ends in one.
pub open spec fn terminated_body(body: Seq<char>) -> Seq<char> {
    if body.len() > 0 && body.last() == '\n' {
        body
    } else {
        body + "\n"@
    }
}

/// A moment file's text: frontmatter with id, turn range, links and
/// tags, a blank line, then the body.
pub open spec fn moment_text(m: MomentView) -> Seq<char> {
    "---\n"@ + "id: "@ + m.id + "\n"@ + "turn_start: "@ + decimal(m.turn_start as nat) + "\n"@
        + "turn_end: "@ + decimal(m.turn_end as nat) + "\n"@ + "links: "@ + render_list_spec(m.links)
        + "\n"@ + "tags: "@ + render_list_spec(m.tags) + "\n"@ + "---\n\n"@ + terminated_body(m.body)
}

/// The text a moment is written as.
pub fn render(moment: &Moment) -> (r: String)
    ensures
        r@ == moment_text(moment@),
{
    let mut out: Vec<char> = Vec::new();
    push_str(&mut out, "---\n");
    push_str(&mut out, "id: ");
    push_str(&mut out, moment.id.as_str());
    push_str(&mut out, "\n");
    push_str(&mut out, "turn_start: ");
    let a = u64_to_chars(moment.turn_start);
    push_all(&mut out, &a);
    push_str(&mut out, "\n");
    push_str(&mut out, "turn_end: ");
    let b = u64_to_chars(moment.turn_end);
    push_all(&mut out, &b);
    push_str(&mut out, "\n");
    push_str(&mut out, "links: ");
    let l = render_inline_list(&moment.links);
    push_str(&mut out, l.as_str());
    push_str(&mut out, "\n");
    push_str(&mut out, "tags: ");
    let t = render_inline_list(&moment.tags);
    push_str(&mut out, t.as_str());
    push_str(&mut out, "\n");
    push_str(&mut out, "---\n\n");
    push_str(&mut out, moment.body.as_str());
    let bc = chars_of(moment.body.as_str());
    if !(bc.len() > 0 && bc[bc.len() - 1] == '\n') {
        push_str(&mut out, "\n");
    }
    proof {
        assert(out@ =~= moment_text(moment@));
    }
    string_of(&out)
}

/// `record/moments/{id}.md` under the workspace.
pub fn moment_path(workspace: &str, id: &str) -> (r: String)
    ensures
        r@ == crate::paths::join(
            crate::paths::join(crate::paths::join(workspace@, "record"@), "moments"@),
            id@ + ".md"@,
        ),
{
    let d = dir(workspace);
    proof {
        reveal_strlit("record");
        reveal_strlit("moments");
        assert(seq!['r', 'e', 'c', 'o', 'r', 'd'] =~= "record"@);
        assert(seq!['m', 'o', 'm', 'e', 'n', 't', 's'] =~= "moments"@);
    }
    let mut n: Vec<char> = chars_of(id);
    push_str(&mut n, ".md");
    let ns = string_of(&n);
    crate::paths::join_str(d.as_str(), ns.as_str())
}

/// A list item that survives being written inline and read back: not
/// empty, no newline or comma, nothing trimming or unquoting would
/// take away.
pub open spec fn item_ok(x: Seq<char>) -> bool {
    &&& x.len() > 0
    &&& has_no(x, '\n')
    &&& has_no(x, ',')
    &&& trim(x) == x
    &&& unquote_spec(x) == x
}

/// A moment that reads back as written: its id has no newline and
/// nothing trimming or unquoting would take away, its range is not
/// inverted, and its links and tags are fit to be listed inline.
pub open spec fn writable(m: MomentView) -> bool {
    &&& has_no(m.id, '\n')
    &&& trim(m.id) == m.id
    &&& unquote_spec(m.id) == m.id
    &&& m.turn_start <= m.turn_end
    &&& forall|i: int| 0 <= i < m.links.len() ==> item_ok(#[trigger] m.links[i])
    &&& forall|i: int| 0 <= i < m.tags.len() ==> item_ok(#[trigger] m.tags[i])
}

/// The items as they sit between commas: a space before all but the
/// first.
pub open spec fn spaced(items: Seq<Seq<char>>) -> Seq<Seq<char>> {
    Seq::new(items.len(), |i: int| if i == 0 { items[0] } else { seq![' '] + items[i] })
}

proof fn lemma_join_items_spaced(items: Seq<Seq<char>>)
    requires
        items.len() > 0,
    ensures
        join_items(items) == join_with(spaced(items), seq![',']),
    decreases items.len(),
{
    if items.len() == 1 {
        assert(join_with(spaced(items), seq![',']) == spaced(items)[0]);
    } else {
        let p = items.drop_last();
        lemma_join_items_spaced(p);
        assert(spaced(items).drop_last() =~= spaced(p));
        assert(spaced(items).last() == seq![' '] + items.last());
        assert(join_items(items) =~= join_with(spaced(items), seq![',']));
    }
}

proof fn lemma_kept_items(pieces: Seq<Seq<char>>, items: Seq<Seq<char>>)
    requires
        pieces.len() == items.len(),
        forall|i: int| 0 <= i < items.len() ==> unquote_spec(#[trigger] pieces[i]) == items[i],
        forall|i: int| 0 <= i < items.len() ==> (#[trigger] items[i]).len() > 0,
    ensures
        kept_items(pieces) == items,
    decreases pieces.len(),
{
    if pieces.len() > 0 {
        assert(unquote_spec(pieces[0]) == items[0]);
        assert(items[0].len() > 0);
        assert forall|i: int| 0 <= i < items.drop_first().len() implies unquote_spec(
            #[trigger] pieces.drop_first()[i],
        ) == items.drop_first()[i] by {
            assert(pieces.drop_first()[i] == pieces[i + 1]);
            assert(unquote_spec(pieces[i + 1]) == items[i + 1]);
        }
        assert forall|i: int| 0 <= i < items.drop_first().len() implies (
        #[trigger] items.drop_first()[i]).len() > 0 by {
            assert(items[i + 1].len() > 0);
        }
        lemma_kept_items(pieces.drop_first(), items.drop_first());
        assert(seq![items[0]] + items.drop_first() =~= items);
    } else {
        assert(items =~= Seq::<Seq<char>>::empty());
    }
}

/// Listing items inline and reading the list back gives the items.
pub proof fn lemma_inline_list_round(items: Seq<Seq<char>>)
    requires
        forall|i: int| 0 <= i < items.len() ==> item_ok(#[trigger] items[i]),
    ensures
        inline_list(render_list_spec(items)) == items,
{
    let r = render_list_spec(items);
    let inner = join_items(items);
    assert(r[0] == '[');
    assert(r.last() == ']');
    lemma_trim_unchanged(r);
    assert(r.subrange(1, r.len() - 1) =~= inner);
    if items.len() == 0 {
        assert(inner =~= Seq::<char>::empty());
        let e: Seq<Seq<char>> = seq![Seq::<char>::empty()];
        assert(join_with(e, seq![',']) == e[0]);
        assert(inner.skip(0) =~= inner);
        assert forall|i: int| 0 <= i < e.len() implies has_no(#[trigger] e[i], ',') by {}
        lemma_split_join(inner, ',', 0, e);
        assert(unquote_spec(Seq::<char>::empty()) =~= Seq::<char>::empty()) by {
            assert(trim(Seq::<char>::empty()) =~= Seq::<char>::empty());
        }
        assert(kept_items(seq![Seq::<char>::empty()].drop_first()) == Seq::<Seq<char>>::empty()) by {
            assert(seq![Seq::<char>::empty()].drop_first() =~= Seq::<Seq<char>>::empty());
        }
    } else {
        lemma_join_items_spaced(items);
        let sp = spaced(items);
        assert forall|i: int| 0 <= i < sp.len() implies has_no(#[trigger] sp[i], ',') by {
            assert(item_ok(items[i]));
            if i > 0 {
                assert forall|j: int| 0 <= j < sp[i].len() implies sp[i][j] != ',' by {
                    if j > 0 {
                        assert(sp[i][j] == items[i][j - 1]);
                    }
                }
            }
        }
        assert(inner.skip(0) =~= inner);
        lemma_split_join(inner, ',', 0, sp);
        assert forall|i: int| 0 <= i < items.len() implies unquote_spec(#[trigger] sp[i]) == items[i] by {
            assert(item_ok(items[i]));
            if i > 0 {
                lemma_trim_lead_space(items[i]);
                assert(trim(sp[i]) == trim(items[i]));
            }
        }
        assert forall|i: int| 0 <= i < items.len() implies (#[trigger] items[i]).len() > 0 by {
            assert(item_ok(items[i]));
        }
        lemma_kept_items(sp, items);
    }
}

/// A `key: value` line, trimmed and split at its first colon, gives the
/// key and the value back.
proof fn lemma_key_line(key: Seq<char>, value: Seq<char>)
    requires
        key.len() > 0,
        has_no(key, ':'),
        !is_ws(key[0]),
        !is_ws(key.last()),
        trim(value) == value,
    ensures
        ({
            let line = trim(key + ": "@ + value);
            let k = index_of_from(line, ':', 0);
            &&& line.len() > 0
            &&& k < line.len()
            &&& k == key.len()
            &&& trim(line.take(k)) == key
            &&& trim(line.skip(k + 1)) == value
        }),
{
    reveal_strlit(": ");
    let raw = key + ": "@ + value;
    let line = trim(raw);
    if value.len() == 0 {
        let y = key + seq![':'];
        assert(raw =~= y + seq![' ']);
        lemma_trim_trail_space(y);
        assert(line == y);
        assert(line.skip(key.len() as int + 1) =~= Seq::<char>::empty());
        assert(trim(Seq::<char>::empty()) =~= Seq::<char>::empty());
    } else {
        lemma_trim_fixed(value);
        assert(raw[0] == key[0]);
        assert(raw.last() == value.last());
        lemma_trim_unchanged(raw);
        assert(line == raw);
        assert(line.skip(key.len() as int + 1) =~= seq![' '] + value);
        lemma_trim_lead_space(value);
    }
    assert forall|j: int| 0 <= j < key.len() implies line[j] != ':' by {
        assert(line[j] == key[j]);
    }
    lemma_index_run(line, ':', 0, key.len() as int);
    assert(line.take(key.len() as int) =~= key);
    lemma_trim_unchanged(key);
}

/// The frontmatter lines of a moment's text, the empty one that follows
/// the opening `---` first.
pub open spec fn moment_lines(m: MomentView) -> Seq<Seq<char>> {
    seq![
        Seq::empty(),
        "id: "@ + m.id,
        "turn_start: "@ + decimal(m.turn_start as nat),
        "turn_end: "@ + decimal(m.turn_end as nat),
        "links: "@ + render_list_spec(m.links),
        "tags: "@ + render_list_spec(m.tags),
    ]
}

proof fn lemma_moment_join(m: MomentView)
    ensures
        join_with(moment_lines(m), seq!['\n']) == seq!['\n'] + ("id: "@ + m.id) + seq!['\n'] + (
        "turn_start: "@ + decimal(m.turn_start as nat)) + seq!['\n'] + ("turn_end: "@ + decimal(
            m.turn_end as nat,
        )) + seq!['\n'] + ("links: "@ + render_list_spec(m.links)) + seq!['\n'] + ("tags: "@
            + render_list_spec(m.tags)),
{
    let ls = moment_lines(m);
    let nl = seq!['\n'];
    reveal_with_fuel(join_with, 7);
    assert(ls.drop_last().drop_last().drop_last().drop_last().drop_last() =~= seq![
        Seq::<char>::empty(),
    ]);
    assert(join_with(ls, nl) =~= nl + ("id: "@ + m.id) + nl + ("turn_start: "@ + decimal(
        m.turn_start as nat,
    )) + nl + ("turn_end: "@ + decimal(m.turn_end as nat)) + nl + ("links: "@ + render_list_spec(
        m.links,
    )) + nl + ("tags: "@ + render_list_spec(m.tags)));
}

proof fn lemma_prefixed_plain(prefix: Seq<char>, v: Seq<char>)
    requires
        prefix.len() > 0,
        prefix[0] != '-',
        has_no(prefix, '\n'),
        has_no(v, '\n'),
    ensures
        has_no(prefix + v, '\n'),
        (prefix + v).len() > 0,
        (prefix + v)[0] != '-',
{
    let s = prefix + v;
    assert forall|q: int| 0 <= q < s.len() implies s[q] != '\n' by {
        if q < prefix.len() {
            assert(s[q] == prefix[q]);
        } else {
            assert(s[q] == v[q - prefix.len()]);
        }
    }
}

proof fn lemma_digits_plain(d: Seq<char>)
    requires
        crate::text::all_digits(d),
    ensures
        has_no(d, '\n'),
{
    assert forall|q: int| 0 <= q < d.len() implies d[q] != '\n' by {
        assert(crate::text::is_digit(d[q]));
    }
}

proof fn lemma_moment_plain(m: MomentView)
    requires
        writable(m),
    ensures
        plain_lines(moment_lines(m)),
{
    reveal_strlit("id: ");
    reveal_strlit("turn_start: ");
    reveal_strlit("turn_end: ");
    reveal_strlit("links: ");
    reveal_strlit("tags: ");
    let ls = moment_lines(m);
    crate::text::lemma_decimal_props(m.turn_start as nat);
    crate::text::lemma_decimal_props(m.turn_end as nat);
    lemma_digits_plain(decimal(m.turn_start as nat));
    lemma_digits_plain(decimal(m.turn_end as nat));
    lemma_rendered_list_plain(m.links);
    lemma_rendered_list_plain(m.tags);
    lemma_prefixed_plain("id: "@, m.id);
    lemma_prefixed_plain("turn_start: "@, decimal(m.turn_start as nat));
    lemma_prefixed_plain("turn_end: "@, decimal(m.turn_end as nat));
    lemma_prefixed_plain("links: "@, render_list_spec(m.links));
    lemma_prefixed_plain("tags: "@, render_list_spec(m.tags));
    assert forall|i: int| 0 <= i < ls.len() implies has_no(#[trigger] ls[i], '\n') && (i > 0 ==> ls[
        i].len() > 0 && ls[i][0] != '-') by {}
}

#[verifier::rlimit(80)]
proof fn lemma_moment_layout(m: MomentView)
    requires
        writable(m),
    ensures
        moment_text(m) == seq!['-', '-', '-'] + join_with(moment_lines(m), seq!['\n']) + fm_close()
            + (seq!['\n', '\n'] + terminated_body(m.body)),
        plain_lines(moment_lines(m)),
{
    reveal_strlit("---\n");
    reveal_strlit("\n");
    reveal_strlit("---\n\n");
    lemma_moment_join(m);
    lemma_moment_plain(m);
    assert(moment_text(m) =~= seq!['-', '-', '-'] + join_with(moment_lines(m), seq!['\n'])
        + fm_close() + (seq!['\n', '\n'] + terminated_body(m.body)));
}

proof fn lemma_moment_close(t: Seq<char>, j: Seq<char>, rest: Seq<char>)
    requires
        t == seq!['-', '-', '-'] + j + fm_close() + rest,
        no_dash_lines(j),
    ensures
        find_from(t, fm_close(), 3) == Some(3 + j.len() as int),
        starts_with(t, seq!['-', '-', '-']),
        t.subrange(3, 3 + j.len() as int) == j,
        t.subrange(3 + j.len() as int, t.len() as int) == fm_close() + rest,
{
    let end: int = 3 + j.len() as int;
    assert(t.subrange(end, end + 4) =~= fm_close());
    assert forall|q: int| 3 <= q < end implies !match_at(t, fm_close(), q) by {
        assert(t[q] == j[q - 3]);
        if j[q - 3] == '\n' {
            assert(t[q + 1] == j[q - 2]);
            assert(t.subrange(q, q + 4)[1] == t[q + 1]);
        } else {
            assert(t.subrange(q, q + 4)[0] == t[q]);
        }
    }
    lemma_find_first(t, fm_close(), 3, end);
    assert(t.subrange(0, 3) =~= seq!['-', '-', '-']);
    assert(t.subrange(3, end) =~= j);
    assert(t.subrange(end, t.len() as int) =~= fm_close() + rest);
}

proof fn lemma_moment_fields(m: MomentView)
    requires
        writable(m),
    ensures
        m_fold(moment_lines(m), m_init()) == (
            Some(m.id),
            Some(m.turn_start),
            Some(m.turn_end),
            m.links,
            m.tags,
        ),
{
    reveal_strlit("id: ");
    reveal_strlit("turn_start: ");
    reveal_strlit("turn_end: ");
    reveal_strlit("links: ");
    reveal_strlit("tags: ");
    reveal_strlit("id");
    reveal_strlit("turn_start");
    reveal_strlit("turn_end");
    reveal_strlit("links");
    reveal_strlit("tags");
    reveal_strlit(": ");
    let ls = moment_lines(m);
    let dec_s = decimal(m.turn_start as nat);
    let dec_e = decimal(m.turn_end as nat);
    crate::text::lemma_decimal_props(m.turn_start as nat);
    crate::text::lemma_decimal_props(m.turn_end as nat);
    lemma_decimal_trimmed(dec_s);
    lemma_decimal_trimmed(dec_e);
    lemma_list_trimmed(m.links);
    lemma_list_trimmed(m.tags);
    assert("id"@ + ": "@ + m.id =~= ls[1]);
    assert("turn_start"@ + ": "@ + dec_s =~= ls[2]);
    assert("turn_end"@ + ": "@ + dec_e =~= ls[3]);
    assert("links"@ + ": "@ + render_list_spec(m.links) =~= ls[4]);
    assert("tags"@ + ": "@ + render_list_spec(m.tags) =~= ls[5]);
    lemma_key_line("id"@, m.id);
    lemma_key_line("turn_start"@, dec_s);
    lemma_key_line("turn_end"@, dec_e);
    lemma_key_line("links"@, render_list_spec(m.links));
    lemma_key_line("tags"@, render_list_spec(m.tags));
    assert("id"@ =~= key_id());
    assert("turn_start"@ =~= key_turn_start());
    assert("turn_end"@ =~= key_turn_end());
    assert("links"@ =~= key_links());
    assert("tags"@ =~= key_tags());
    lemma_parse_decimal(m.turn_start);
    lemma_parse_decimal(m.turn_end);
    lemma_inline_list_round(m.links);
    lemma_inline_list_round(m.tags);
    let s0 = m_init();
    assert(trim(ls[0]) =~= Seq::<char>::empty());
    let s1 = m_step(s0, ls[0]);
    assert(s1 == s0);
    let s2 = m_step(s1, ls[1]);
    assert(s2 == (Some(m.id), s0.1, s0.2, s0.3, s0.4));
    let s3 = m_step(s2, ls[2]);
    assert(s3 == (Some(m.id), Some(m.turn_start), s0.2, s0.3, s0.4));
    let s4 = m_step(s3, ls[3]);
    assert(s4 == (Some(m.id), Some(m.turn_start), Some(m.turn_end), s0.3, s0.4));
    let s5 = m_step(s4, ls[4]);
    assert(s5 == (Some(m.id), Some(m.turn_start), Some(m.turn_end), m.links, s0.4));
    let s6 = m_step(s5, ls[5]);
    assert(s6 == (Some(m.id), Some(m.turn_start), Some(m.turn_end), m.links, m.tags));
    assert(m_fold(ls, s0) == s6) by {
        reveal_with_fuel(m_fold, 7);
        assert(ls.drop_first().drop_first().drop_first().drop_first().drop_first().drop_first()
            =~= Seq::<Seq<char>>::empty());
    }
}

proof fn lemma_decimal_trimmed(d: Seq<char>)
    requires
        d.len() > 0,
        crate::text::all_digits(d),
    ensures
        trim(d) == d,
{
    assert(crate::text::is_digit(d[0]));
    assert(crate::text::is_digit(d[d.len() - 1]));
    lemma_trim_unchanged(d);
}

proof fn lemma_list_trimmed(items: Seq<Seq<char>>)
    ensures
        trim(render_list_spec(items)) == render_list_spec(items),
{
    let r = render_list_spec(items);
    assert(r[0] == '[');
    assert(r.last() == ']');
    lemma_trim_unchanged(r);
}

/// Writing a moment and parsing the text back gives the moment again,
/// but for leading newlines of its body, which the reader skips, and
/// the path it was read from.
pub proof fn law_moment_round_trip(m: MomentView, path: Seq<char>)
    requires
        writable(m),
    ensures
        moment_spec(path, moment_text(m)) == Some(
            MomentView {
                body: strip_leading(terminated_body(m.body), '\n'),
                file_path: path,
                ..m
            },
        ),
{
    let t = moment_text(m);
    let ls = moment_lines(m);
    let j = join_with(ls, seq!['\n']);
    let b = terminated_body(m.body);
    lemma_moment_layout(m);
    lemma_join_no_dash(ls);
    lemma_moment_close(t, j, seq!['\n', '\n'] + b);
    assert(j.skip(0) =~= j);
    assert forall|i: int| 0 <= i < ls.len() implies crate::text::has_no(#[trigger] ls[i], '\n') by {
        assert(plain_lines(ls));
    }
    lemma_split_join(j, '\n', 0, ls);
    lemma_moment_fields(m);
    let u = seq!['\n', '\n'] + b;
    let tail = fm_close() + u;
    assert(strip_all_prefix(u, fm_close()) == u) by {
        if starts_with(u, fm_close()) {
            assert(u.subrange(0, 4)[1] == u[1]);
            assert(u[1] == '\n');
            assert(fm_close()[1] == '-');
        }
    }
    assert(strip_all_prefix(tail, fm_close()) == u) by {
        assert(tail.subrange(0, 4) =~= fm_close());
        assert(tail.skip(4) =~= u);
    }
    let u1 = seq!['\n'] + b;
    assert(u.drop_first() =~= u1);
    assert(u1.drop_first() =~= b);
    assert(strip_leading(u1, '\n') == strip_leading(b, '\n'));
    assert(strip_leading(u, '\n') == strip_leading(b, '\n'));
}

/// A rendered list holds no newline, given items without one.
proof fn lemma_rendered_list_plain(items: Seq<Seq<char>>)
    requires
        forall|i: int| 0 <= i < items.len() ==> item_ok(#[trigger] items[i]),
    ensures
        has_no(render_list_spec(items), '\n'),
{
    lemma_join_items_plain(items);
    let r = render_list_spec(items);
    assert forall|q: int| 0 <= q < r.len() implies r[q] != '\n' by {
        if 0 < q < r.len() - 1 {
            assert(r[q] == join_items(items)[q - 1]);
        }
    }
}

proof fn lemma_join_items_plain(items: Seq<Seq<char>>)
    requires
        forall|i: int| 0 <= i < items.len() ==> item_ok(#[trigger] items[i]),
    ensures
        has_no(join_items(items), '\n'),
    decreases items.len(),
{
    if items.len() == 1 {
        assert(item_ok(items[0]));
    } else if items.len() > 1 {
        let p = items.drop_last();
        assert forall|i: int| 0 <= i < p.len() implies item_ok(#[trigger] p[i]) by {
            assert(p[i] == items[i]);
        }
        lemma_join_items_plain(p);
        assert(item_ok(items[items.len() - 1]));
        let a = join_items(p);
        let l = items.last();
        let s = join_items(items);
        assert(s == a + seq![',', ' '] + l);
        assert forall|q: int| 0 <= q < s.len() implies s[q] != '\n' by {
            if q < a.len() {
                assert(s[q] == a[q]);
            } else if q >= a.len() + 2 {
                assert(s[q] == l[q - a.len() - 2]);
            }
        }
    }
}

} // verus!
