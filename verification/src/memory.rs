//! The memory graph's authored side: notes read as graph nodes (id,
//! typed frontmatter links, body wikilinks), tolerant link resolution,
//! and the small vocabularies the store keeps (shape authors, carriers,
//! flashes).

use vstd::prelude::*;
use crate::frontmatter::{
    ends_with, starts_with, strip_all_prefix, strip_all_prefix_from, unquote_bounds, unquote_spec,
};
use crate::text::{
    chars_eq, chars_of, copy_range, find_chars, find_from, index_of_char, index_of_from,
    lemma_find_from_props, lemma_index_of_from, match_at, lemma_last_index_before, lemma_split_step,
    last_index_before, matches_at, rfind_char, split_char, split_char_from, string_of,
    string_of_range, trim, trim_bounds, views,
};

verus! {

/// What carried a bump: only ambient or propagated warmth can flash a
/// note (the flash carrier rule).
#[derive(Debug, Clone, Copy, PartialEq, Eq, Structural)]
pub enum Carrier {
    Cognitive,
    Ambient,
    Propagated,
}

impl Carrier {
    /// The flash carrier rule: cognitive access never flashes.
    pub fn may_flash(&self) -> (b: bool)
        ensures
            b == (*self != Carrier::Cognitive),
    {
        match self {
            Carrier::Cognitive => false,
            _ => true,
        }
    }
}

/// A pending flash: surfaced into the next context's memory slot.
#[derive(Debug, Clone)]
pub struct Flash {
    pub note_id: String,
    pub text: String,
    /// (link type, neighbor text)
    pub neighbors: Vec<(String, String)>,
}

/// A flash as plain values.
pub struct FlashView {
    pub note_id: Seq<char>,
    pub text: Seq<char>,
    pub neighbors: Seq<(Seq<char>, Seq<char>)>,
}

impl View for Flash {
    type V = FlashView;

    open spec fn view(&self) -> FlashView {
        FlashView {
            note_id: self.note_id@,
            text: self.text@,
            neighbors: crate::text::views::<(String, String)>(self.neighbors@),
        }
    }
}

/// Who authored a shape gloss.
#[derive(Debug, Clone, Copy, PartialEq, Eq, Structural)]
pub enum ShapeAuthor {
    Witness,
    Agent,
}

pub open spec fn witness_word() -> Seq<char> {
    seq!['w', 'i', 't', 'n', 'e', 's', 's']
}

pub open spec fn agent_word() -> Seq<char> {
    seq!['a', 'g', 'e', 'n', 't']
}

impl ShapeAuthor {
    pub open spec fn word(&self) -> Seq<char> {
        match self {
            ShapeAuthor::Witness => witness_word(),
            ShapeAuthor::Agent => agent_word(),
        }
    }

    /// The stored spelling of the author.
    pub fn as_str(&self) -> (s: &'static str)
        ensures
            s@ == self.word(),
    {
        proof {
            reveal_strlit("witness");
            reveal_strlit("agent");
        }
        match self {
            ShapeAuthor::Witness => "witness",
            ShapeAuthor::Agent => "agent",
        }
    }

    /// Read a stored spelling back; anything else is `None`.
    pub fn parse(s: &str) -> (r: Option<ShapeAuthor>)
        ensures
            r == (if s@ == witness_word() {
                Some(ShapeAuthor::Witness)
            } else if s@ == agent_word() {
                Some(ShapeAuthor::Agent)
            } else {
                None
            }),
    {
        let v = chars_of(s);
        let w = vec!['w', 'i', 't', 'n', 'e', 's', 's'];
        let a = vec!['a', 'g', 'e', 'n', 't'];
        proof {
            assert(w@ =~= witness_word());
            assert(a@ =~= agent_word());
        }
        if chars_eq(&v, &w) {
            Some(ShapeAuthor::Witness)
        } else if chars_eq(&v, &a) {
            Some(ShapeAuthor::Agent)
        } else {
            None
        }
    }
}

/// One row of `shape_vectors`: metadata and gloss text.
#[derive(Debug, Clone)]
pub struct ShapeRow {
    pub note_id: String,
    pub file_path: String,
    pub gloss: String,
    pub author: ShapeAuthor,
    pub model_id: String,
    pub prompt_hash: String,
    pub at: String,
}

// ---------------------------------------------------------------------
// Link stems
// ---------------------------------------------------------------------

/// The last path component of a link target with one `.md` stripped.
pub open spec fn link_stem_spec(t: Seq<char>) -> Seq<char> {
    let last = t.skip(last_index_before(t, '/', t.len() as int) + 1);
    if ends_with(last, seq!['.', 'm', 'd']) {
        last.take(last.len() - 3)
    } else {
        last
    }
}

/// The tolerant half of link resolution: `../loom/20260612.md`,
/// `loom/20260612.md` and `20260612` all share the stem `20260612`.
pub fn link_stem(target: &str) -> (r: String)
    ensures
        r@ == link_stem_spec(target@),
{
    let t = chars_of(target);
    proof {
        lemma_last_index_before(t@, '/', t@.len() as int);
    }
    let start = match rfind_char(&t, '/', t.len()) {
        Some(k) => k + 1,
        None => 0,
    };
    let ghost last = t@.skip(last_index_before(t@, '/', t@.len() as int) + 1);
    proof {
        assert(last =~= t@.subrange(start as int, t@.len() as int));
    }
    let n = t.len();
    if n - start >= 3 && t[n - 3] == '.' && t[n - 2] == 'm' && t[n - 1] == 'd' {
        proof {
            assert(last.subrange(last.len() - 3, last.len() as int) =~= seq!['.', 'm', 'd']);
            assert(last.take(last.len() - 3) =~= t@.subrange(start as int, n - 3));
        }
        string_of_range(&t, start, n - 3)
    } else {
        proof {
            if ends_with(last, seq!['.', 'm', 'd']) {
                let w = last.subrange(last.len() - 3, last.len() as int);
                assert(w[0] == t@[n - 3] && w[1] == t@[n - 2] && w[2] == t@[n - 1]);
            }
        }
        string_of_range(&t, start, n)
    }
}

// ---------------------------------------------------------------------
// Wikilinks
// ---------------------------------------------------------------------

pub open spec fn open_brackets() -> Seq<char> {
    seq!['[', '[']
}

pub open spec fn close_brackets() -> Seq<char> {
    seq![']', ']']
}

pub open spec fn min3(a: int, b: int, c: int) -> int {
    if a <= b && a <= c {
        a
    } else if b <= c {
        b
    } else {
        c
    }
}

/// The wikilinks of `s` from `pos` on, appended to `acc`: each
/// `[[target]]`, with an Obsidian `|alias` or `#heading` suffix cut,
/// trimmed, kept when nonempty and not already seen.
pub open spec fn wiki_scan(s: Seq<char>, pos: int, acc: Seq<Seq<char>>) -> Seq<Seq<char>>
    decreases s.len() + 2 - pos,
{
    if pos < 0 || pos > s.len() {
        acc
    } else {
        match find_from(s, open_brackets(), pos) {
            None => acc,
            Some(i) => {
                proof {
                    lemma_find_from_props(s, open_brackets(), pos);
                    lemma_find_from_props(s, close_brackets(), i + 2);
                }
                match find_from(s, close_brackets(), i + 2) {
                    None => acc,
                    Some(e) => {
                        let c = min3(
                            index_of_from(s, '|', i + 2),
                            index_of_from(s, '#', i + 2),
                            e,
                        );
                        let tgt = trim(s.subrange(i + 2, c));
                        let acc2 = if tgt.len() > 0 && !acc.contains(tgt) {
                            acc.push(tgt)
                        } else {
                            acc
                        };
                        wiki_scan(s, e + 2, acc2)
                    },
                }
            },
        }
    }
}

pub open spec fn wiki_links_spec(body: Seq<char>) -> Seq<Seq<char>> {
    wiki_scan(body, 0, Seq::empty())
}

/// Distinct, nonempty link targets.
pub open spec fn distinct_nonempty(acc: Seq<Seq<char>>) -> bool {
    &&& acc.no_duplicates()
    &&& forall|j: int| 0 <= j < acc.len() ==> (#[trigger] acc[j]).len() > 0
}

pub proof fn lemma_wiki_scan_distinct(s: Seq<char>, pos: int, acc: Seq<Seq<char>>)
    requires
        distinct_nonempty(acc),
    ensures
        distinct_nonempty(wiki_scan(s, pos, acc)),
    decreases s.len() + 2 - pos,
{
    if pos < 0 || pos > s.len() {
    } else {
        match find_from(s, open_brackets(), pos) {
            None => {},
            Some(i) => {
                lemma_find_from_props(s, open_brackets(), pos);
                lemma_find_from_props(s, close_brackets(), i + 2);
                match find_from(s, close_brackets(), i + 2) {
                    None => {},
                    Some(e) => {
                        let c = min3(
                            index_of_from(s, '|', i + 2),
                            index_of_from(s, '#', i + 2),
                            e,
                        );
                        let tgt = trim(s.subrange(i + 2, c));
                        let acc2 = if tgt.len() > 0 && !acc.contains(tgt) {
                            acc.push(tgt)
                        } else {
                            acc
                        };
                        if tgt.len() > 0 && !acc.contains(tgt) {
                            assert forall|a: int, b: int|
                                0 <= a < acc2.len() && 0 <= b < acc2.len() && a != b implies acc2[a]
                                != acc2[b] by {
                                if a == acc.len() {
                                    assert(acc.contains(acc2[b]));
                                } else if b == acc.len() {
                                    assert(acc.contains(acc2[a]));
                                }
                            }
                        }
                        lemma_wiki_scan_distinct(s, e + 2, acc2);
                    },
                }
            },
        }
    }
}

/// Whether `acc` already holds `x`.
fn holds(acc: &Vec<Vec<char>>, x: &Vec<char>) -> (b: bool)
    ensures
        b == views::<Vec<char>>(acc@).contains(x@),
{
    let mut i: usize = 0;
    while i < acc.len()
        invariant
            i <= acc@.len(),
            forall|j: int| 0 <= j < i ==> acc@[j]@ != x@,
        decreases acc@.len() - i,
    {
        if chars_eq(&acc[i], x) {
            proof {
                assert(views::<Vec<char>>(acc@)[i as int] == x@);
            }
            return true;
        }
        i = i + 1;
    }
    proof {
        if views::<Vec<char>>(acc@).contains(x@) {
            let j = choose|j: int|
                0 <= j < views::<Vec<char>>(acc@).len() && views::<Vec<char>>(acc@)[j] == x@;
            assert(acc@[j]@ == x@);
        }
    }
    false
}

/// Body wikilinks as character vectors.
fn wiki_links_chars(s: &Vec<char>) -> (r: Vec<Vec<char>>)
    ensures
        views::<Vec<char>>(r@) == wiki_links_spec(s@),
{
    let ob = vec!['[', '['];
    let cb = vec![']', ']'];
    proof {
        assert(ob@ =~= open_brackets());
        assert(cb@ =~= close_brackets());
    }
    let mut acc: Vec<Vec<char>> = Vec::new();
    let mut pos: usize = 0;
    proof {
        assert(views::<Vec<char>>(acc@) =~= Seq::<Seq<char>>::empty());
    }
    loop
        invariant
            pos <= s@.len(),
            ob@ == open_brackets(),
            cb@ == close_brackets(),
            wiki_links_spec(s@) == wiki_scan(s@, pos as int, views::<Vec<char>>(acc@)),
        decreases s@.len() - pos,
    {
        proof {
            lemma_find_from_props(s@, open_brackets(), pos as int);
        }
        let i = match find_chars(s, &ob, pos) {
            None => return acc,
            Some(i) => i,
        };
        proof {
            assert(find_from(s@, open_brackets(), pos as int) == Some(i as int));
            assert(match_at(s@, open_brackets(), i as int));
            assert(open_brackets().len() == 2);
            assert(i + 2 <= s.len());
            lemma_find_from_props(s@, close_brackets(), i + 2);
        }
        let e = match find_chars(s, &cb, i + 2) {
            None => return acc,
            Some(e) => e,
        };
        let bar = index_of_char(s, '|', i + 2);
        let hash = index_of_char(s, '#', i + 2);
        let mut c = e;
        if bar < c {
            c = bar;
        }
        if hash < c {
            c = hash;
        }
        let (a, b) = trim_bounds(s, i + 2, c);
        let tgt = copy_range(s, a, b);
        let ghost before = views::<Vec<char>>(acc@);
        if b > a && !holds(&acc, &tgt) {
            acc.push(tgt);
            proof {
                assert(views::<Vec<char>>(acc@) =~= before.push(s@.subrange(a as int, b as int)));
            }
        }
        pos = e + 2;
    }
}

/// Body wikilinks: `[[target]]`, with Obsidian-style `|alias` and
/// `#heading` suffixes stripped; each target once, in order of first
/// appearance.
pub fn wiki_links(body: &str) -> (r: Vec<String>)
    ensures
        views::<String>(r@) == wiki_links_spec(body@),
        distinct_nonempty(views::<String>(r@)),
{
    let s = chars_of(body);
    let links = wiki_links_chars(&s);
    let mut r: Vec<String> = Vec::new();
    let mut i: usize = 0;
    while i < links.len()
        invariant
            i <= links@.len(),
            r@.len() == i,
            forall|j: int| 0 <= j < i ==> r@[j]@ == links@[j]@,
        decreases links@.len() - i,
    {
        r.push(string_of(&links[i]));
        i = i + 1;
    }
    proof {
        assert(views::<String>(r@) =~= views::<Vec<char>>(links@));
        lemma_wiki_scan_distinct(s@, 0, Seq::empty());
    }
    r
}

// ---------------------------------------------------------------------
// Notes as graph nodes
// ---------------------------------------------------------------------

/// One indexed file's graph identity and links: frontmatter id (or the
/// path when there is none), the body, and links as (type, target),
/// typed frontmatter links first, then body wikilinks as type `wiki`.
#[derive(Debug)]
pub struct NoteInfo {
    pub id: String,
    pub path: String,
    pub body: String,
    pub links: Vec<(String, String)>,
}

/// A link as plain text: (type, target).
pub type LinkView = (Seq<char>, Seq<char>);

/// Frontmatter reading state: the id seen so far, the typed links so
/// far, and whether the lines are inside a `links:` list.
pub type FmState = (Option<Seq<char>>, Seq<LinkView>, bool);

pub open spec fn three_dashes() -> Seq<char> {
    seq!['-', '-', '-']
}

/// One frontmatter line's effect on the reading state.
pub open spec fn fm_step(st: FmState, line: Seq<char>) -> FmState {
    let tr = trim(line);
    if starts_with(tr, seq!['i', 'd', ':']) {
        (Some(unquote_spec(tr.skip(3))), st.1, false)
    } else if tr == seq!['l', 'i', 'n', 'k', 's', ':'] {
        (st.0, st.1, true)
    } else if st.2 && starts_with(tr, seq!['-', ' ']) {
        let item = tr.skip(2);
        let k = index_of_from(item, ':', 0);
        if k < item.len() {
            (st.0, st.1.push((trim(item.take(k)), unquote_spec(item.skip(k + 1)))), st.2)
        } else {
            st
        }
    } else if !starts_with(tr, seq!['-']) && index_of_from(tr, ':', 0) < tr.len() {
        (st.0, st.1, false)
    } else {
        st
    }
}

/// An `id:` line gives the same id whether its value is written bare or
/// wrapped in one pair of matching quotes: the id is the bare value, and
/// the line also ends a `links:` list either way.
pub proof fn law_quoted_id_is_bare_id(st: FmState, v: Seq<char>, q: char)
    requires
        q == '"' || q == '\'',
        v.len() > 0,
        trim(v) == v,
        v[0] != '"' && v[0] != '\'',
    ensures
        fm_step(st, seq!['i', 'd', ':', ' '] + v) == (Some(v), st.1, false),
        fm_step(st, seq!['i', 'd', ':', ' '] + seq![q] + v + seq![q]) == fm_step(
            st,
            seq!['i', 'd', ':', ' '] + v,
        ),
{
    let pre = seq!['i', 'd', ':'];
    crate::text::lemma_trim_fixed(v);
    let bare = seq!['i', 'd', ':', ' '] + v;
    let quoted = seq!['i', 'd', ':', ' '] + seq![q] + v + seq![q];
    assert(!crate::text::is_ws('i'));
    assert(!crate::text::is_ws(q));
    crate::text::lemma_trim_unchanged(bare);
    crate::text::lemma_trim_unchanged(quoted);
    assert(bare.subrange(0, 3) =~= pre);
    assert(quoted.subrange(0, 3) =~= pre);
    assert(bare.skip(3) =~= seq![' '] + v);
    crate::text::lemma_trim_lead_space(v);
    let inner = seq![q] + v + seq![q];
    crate::text::lemma_trim_unchanged(inner);
    assert(quoted.skip(3) =~= seq![' '] + inner);
    crate::text::lemma_trim_lead_space(inner);
    assert(inner.subrange(1, inner.len() - 1) =~= v);
    assert(unquote_spec(quoted.skip(3)) == v);
    assert(unquote_spec(bare.skip(3)) == v);
}

pub open spec fn fm_init() -> FmState {
    (None, Seq::empty(), false)
}

pub open spec fn fm_fold(lines: Seq<Seq<char>>, st: FmState) -> FmState
    decreases lines.len(),
{
    if lines.len() == 0 {
        st
    } else {
        fm_fold(lines.drop_first(), fm_step(st, lines[0]))
    }
}

/// Where a one-line frontmatter closes.
#[verifier::rlimit(30)]
proof fn lemma_one_line_fm_end(line: Seq<char>, rest: Seq<char>)
    requires
        forall|i: int| 0 <= i < line.len() ==> line[i] != '\n',
        line.len() == 0 || line[0] != '-',
    ensures
        note_fm_end(seq!['-', '-', '-', '\n'] + line + crate::frontmatter::fm_close() + rest)
            == Some(line.len() as int + 4),
{
    let close = crate::frontmatter::fm_close();
    let head = seq!['-', '-', '-', '\n'];
    let t = head + line + close + rest;
    let e: int = line.len() as int + 4;
    assert(t.subrange(0, 3) =~= three_dashes());
    assert(t.subrange(e, e + 4) =~= close);
    assert(match_at(t, close, e));
    assert forall|j: int| 4 <= j < e implies #[trigger] t[j] == line[j - 4] by {
        assert((head + line)[j] == line[j - 4]);
    }
    assert(t[3] == '\n');
    assert(line.len() > 0 ==> t[4] == line[0]);
    assert forall|j: int| 3 <= j < e implies !match_at(t, close, j) by {
        if match_at(t, close, j) {
            let w = t.subrange(j, j + 4);
            assert(w[0] == t[j] && w[1] == t[j + 1]);
            if j == 3 {
                assert(w[1] == '-');
            } else {
                assert(t[j] == line[j - 4]);
            }
        }
    }
    lemma_find_from_props(t, close, 3);
    match find_from(t, close, 3) {
        Some(i) => {
            if i < e {
                assert(!match_at(t, close, i));
            }
            if i > e {
                assert(!match_at(t, close, e));
            }
        },
        None => {
            assert(!match_at(t, close, e));
        },
    }
}

/// A newline then `line` splits into an empty line and `line`.
proof fn lemma_split_after_newline(line: Seq<char>)
    requires
        forall|i: int| 0 <= i < line.len() ==> line[i] != '\n',
    ensures
        split_char(seq!['\n'] + line, '\n') == seq![Seq::<char>::empty(), line],
{
    let x = seq!['\n'] + line;
    lemma_split_step(x, '\n', 0);
    lemma_index_of_from(x, '\n', 1);
    assert forall|j: int| 1 <= j < x.len() implies x[j] != '\n' by {
        assert(x[j] == line[j - 1]);
    }
    assert(index_of_from(x, '\n', 1) == x.len());
    lemma_split_step(x, '\n', 1);
    assert(x.subrange(0, 0) =~= Seq::<char>::empty());
    assert(x.subrange(1, x.len() as int) =~= line);
    assert(split_char(x, '\n') =~= seq![Seq::<char>::empty(), line]);
}

/// A note whose frontmatter is the one line `line` is read as that line
/// after an empty one.
proof fn lemma_one_line_frontmatter(line: Seq<char>, rest: Seq<char>)
    requires
        forall|i: int| 0 <= i < line.len() ==> line[i] != '\n',
        line.len() == 0 || line[0] != '-',
    ensures
        note_fm_state(seq!['-', '-', '-', '\n'] + line + crate::frontmatter::fm_close() + rest)
            == fm_fold(seq![Seq::<char>::empty(), line], fm_init()),
{
    let t = seq!['-', '-', '-', '\n'] + line + crate::frontmatter::fm_close() + rest;
    lemma_one_line_fm_end(line, rest);
    assert(t.subrange(3, line.len() as int + 4) =~= seq!['\n'] + line);
    lemma_split_after_newline(line);
}

/// A note opening with a frontmatter whose one line is `id: v` has the
/// id `v`, and so does one whose line gives the same value wrapped in a
/// pair of matching quotes.
pub proof fn law_note_quoted_id(path: Seq<char>, v: Seq<char>, q: char, rest: Seq<char>)
    requires
        q == '"' || q == '\'',
        v.len() > 0,
        trim(v) == v,
        v[0] != '"' && v[0] != '\'',
        forall|i: int| 0 <= i < v.len() ==> v[i] != '\n',
    ensures
        note_id(
            path,
            seq!['-', '-', '-', '\n', 'i', 'd', ':', ' '] + v + crate::frontmatter::fm_close() + rest,
        ) == v,
        note_id(
            path,
            seq!['-', '-', '-', '\n', 'i', 'd', ':', ' '] + seq![q] + v + seq![q]
                + crate::frontmatter::fm_close() + rest,
        ) == v,
{
    let close = crate::frontmatter::fm_close();
    let head = seq!['-', '-', '-', '\n'];
    let bare = seq!['i', 'd', ':', ' '] + v;
    let quoted = seq!['i', 'd', ':', ' '] + seq![q] + v + seq![q];
    assert forall|i: int| 0 <= i < bare.len() implies bare[i] != '\n' by {
        if i >= 4 {
            assert(bare[i] == v[i - 4]);
        }
    }
    assert forall|i: int| 0 <= i < quoted.len() implies quoted[i] != '\n' by {
        if 5 <= i < quoted.len() - 1 {
            assert(quoted[i] == v[i - 5]);
        }
    }
    lemma_one_line_frontmatter(bare, rest);
    lemma_one_line_frontmatter(quoted, rest);
    let tb = head + bare + close + rest;
    let tq = head + quoted + close + rest;
    assert(seq!['-', '-', '-', '\n', 'i', 'd', ':', ' '] + v + close + rest =~= head + bare + close
        + rest);
    assert(seq!['-', '-', '-', '\n', 'i', 'd', ':', ' '] + seq![q] + v + seq![q] + close + rest
        =~= head + quoted + close + rest);
    let empty = Seq::<char>::empty();
    assert(trim(empty) =~= empty);
    assert(fm_step(fm_init(), empty) == fm_init());
    law_quoted_id_is_bare_id(fm_init(), v, q);
    let lines_b = seq![empty, bare];
    let lines_q = seq![empty, quoted];
    assert(lines_b.drop_first() =~= seq![bare]);
    assert(lines_q.drop_first() =~= seq![quoted]);
    assert(seq![bare].drop_first() =~= Seq::<Seq<char>>::empty());
    assert(seq![quoted].drop_first() =~= Seq::<Seq<char>>::empty());
    assert(fm_fold(lines_b, fm_init()) == fm_fold(seq![bare], fm_init()));
    assert(fm_fold(lines_q, fm_init()) == fm_fold(seq![quoted], fm_init()));
    assert(seq![bare][0] == bare);
    assert(seq![quoted][0] == quoted);
    assert(fm_fold(Seq::<Seq<char>>::empty(), fm_step(fm_init(), bare)) == fm_step(fm_init(), bare));
    assert(fm_fold(Seq::<Seq<char>>::empty(), fm_step(fm_init(), quoted)) == fm_step(
        fm_init(),
        quoted,
    ));
    assert(fm_fold(seq![bare], fm_init()) == fm_step(fm_init(), bare));
    assert(fm_fold(seq![quoted], fm_init()) == fm_step(fm_init(), quoted));
    assert(note_fm_state(tb).0 == Some(v));
    assert(note_fm_state(tq).0 == Some(v));
}

/// Body wikilinks join the links as type `wiki`, unless some link
/// already has that target.
pub open spec fn add_wiki(links: Seq<LinkView>, targets: Seq<Seq<char>>) -> Seq<LinkView>
    decreases targets.len(),
{
    if targets.len() == 0 {
        links
    } else {
        let t = targets[0];
        let next = if exists|j: int| 0 <= j < links.len() && links[j].1 == t {
            links
        } else {
            links.push((seq!['w', 'i', 'k', 'i'], t))
        };
        add_wiki(next, targets.drop_first())
    }
}

/// Where a note's frontmatter closes: the text opens with `---` and a
/// later line starts with `---`.
pub open spec fn note_fm_end(t: Seq<char>) -> Option<int> {
    if starts_with(t, three_dashes()) {
        find_from(t, crate::frontmatter::fm_close(), 3)
    } else {
        None
    }
}

/// The reading state after the note's frontmatter lines.
pub open spec fn note_fm_state(t: Seq<char>) -> FmState {
    match note_fm_end(t) {
        Some(end) => fm_fold(split_char(t.subrange(3, end), '\n'), fm_init()),
        None => fm_init(),
    }
}

/// The note's body: after the frontmatter (delimiter lines dropped),
/// trimmed; the whole text trimmed when there is no frontmatter.
pub open spec fn note_body(t: Seq<char>) -> Seq<char> {
    match note_fm_end(t) {
        Some(end) => trim(strip_all_prefix(t.subrange(end, t.len() as int), crate::frontmatter::fm_close())),
        None => trim(t),
    }
}

pub open spec fn note_id(path: Seq<char>, t: Seq<char>) -> Seq<char> {
    match note_fm_state(t).0 {
        Some(id) => id,
        None => path,
    }
}

pub open spec fn note_links(t: Seq<char>) -> Seq<LinkView> {
    add_wiki(note_fm_state(t).1, wiki_links_spec(note_body(t)))
}

pub open spec fn opt_chars_view(o: Option<Vec<char>>) -> Option<Seq<char>> {
    match o {
        Some(v) => Some(v@),
        None => None,
    }
}

/// Whether `pre` holds at `s[a..b]`'s start, within the range.
fn prefix_in_range(s: &Vec<char>, a: usize, b: usize, pre: &Vec<char>) -> (r: bool)
    requires
        a <= b <= s@.len(),
    ensures
        r == starts_with(s@.subrange(a as int, b as int), pre@),
{
    if pre.len() <= b - a && matches_at(s, pre, a) {
        proof {
            assert(s@.subrange(a as int, b as int).subrange(0, pre@.len() as int) =~= s@.subrange(
                a as int,
                a + pre@.len(),
            ));
        }
        true
    } else {
        proof {
            if starts_with(s@.subrange(a as int, b as int), pre@) {
                assert(s@.subrange(a as int, b as int).subrange(0, pre@.len() as int) =~= s@.subrange(
                    a as int,
                    a + pre@.len(),
                ));
            }
        }
        false
    }
}

/// The frontmatter reading state after `fm`'s lines, starting from
/// nothing.
fn read_note_fm(fm: &Vec<char>) -> (r: (Option<Vec<char>>, Vec<(Vec<char>, Vec<char>)>))
    ensures
        fm_fold(split_char(fm@, '\n'), fm_init()).1 == views::<(Vec<char>, Vec<char>)>(r.1@),
        fm_fold(split_char(fm@, '\n'), fm_init()).0 == opt_chars_view(r.0),
{
    let id_pre = vec!['i', 'd', ':'];
    let links_word = vec!['l', 'i', 'n', 'k', 's', ':'];
    let item_pre = vec!['-', ' '];
    let dash = vec!['-'];
    proof {
        assert(id_pre@ =~= seq!['i', 'd', ':']);
        assert(links_word@ =~= seq!['l', 'i', 'n', 'k', 's', ':']);
        assert(item_pre@ =~= seq!['-', ' ']);
        assert(dash@ =~= seq!['-']);
    }
    let mut id: Option<Vec<char>> = None;
    let mut links: Vec<(Vec<char>, Vec<char>)> = Vec::new();
    let mut in_links = false;
    let mut pos: usize = 0;
    let ghost init: FmState = fm_init();
    proof {
        assert(views::<(Vec<char>, Vec<char>)>(links@) =~= Seq::<LinkView>::empty());
    }
    loop
        invariant
            pos <= fm@.len(),
            id_pre@ == seq!['i', 'd', ':'],
            links_word@ == seq!['l', 'i', 'n', 'k', 's', ':'],
            item_pre@ == seq!['-', ' '],
            dash@ == seq!['-'],
            ({
                let cur: FmState = (
                    opt_chars_view(id),
                    views::<(Vec<char>, Vec<char>)>(links@),
                    in_links,
                );
                fm_fold(split_char(fm@, '\n'), fm_init()) == fm_fold(
                    split_char_from(fm@, '\n', pos as int),
                    cur,
                )
            }),
        decreases fm@.len() - pos,
    {
        let e = index_of_char(fm, '\n', pos);
        proof {
            lemma_split_step(fm@, '\n', pos as int);
        }
        let ghost cur: FmState = (
            opt_chars_view(id),
            views::<(Vec<char>, Vec<char>)>(links@),
            in_links,
        );
        let ghost line = fm@.subrange(pos as int, e as int);
        let (a, b) = trim_bounds(fm, pos, e);
        let ghost tr = fm@.subrange(a as int, b as int);
        if prefix_in_range(fm, a, b, &id_pre) {
            let (ua, ub) = unquote_bounds(fm, a + 3, b);
            proof {
                assert(tr.skip(3) =~= fm@.subrange(a + 3, b as int));
            }
            id = Some(copy_range(fm, ua, ub));
            in_links = false;
        } else if b - a == 6 && matches_at(fm, &links_word, a) {
            proof {
                assert(tr =~= fm@.subrange(a as int, a + 6));
            }
            in_links = true;
        } else {
            proof {
                if tr == seq!['l', 'i', 'n', 'k', 's', ':'] {
                    assert(fm@.subrange(a as int, a + 6) =~= tr);
                }
            }
            if in_links && prefix_in_range(fm, a, b, &item_pre) {
                let k = index_of_char(fm, ':', a + 2);
                proof {
                    let item = tr.skip(2);
                    assert(item =~= fm@.subrange(a + 2, b as int));
                    lemma_index_of_from(fm@, ':', a + 2);
                    lemma_index_sub(fm@, ':', a + 2, b as int, 0);
                }
                if k < b {
                    let (ta, tb) = trim_bounds(fm, a + 2, k);
                    let (qa, qb) = unquote_bounds(fm, k + 1, b);
                    proof {
                        let item = tr.skip(2);
                        assert(item.take(k - (a + 2)) =~= fm@.subrange(a + 2, k as int));
                        assert(item.skip(k - (a + 2) + 1) =~= fm@.subrange(k + 1, b as int));
                    }
                    let ghost before = views::<(Vec<char>, Vec<char>)>(links@);
                    links.push((copy_range(fm, ta, tb), copy_range(fm, qa, qb)));
                    proof {
                        assert(views::<(Vec<char>, Vec<char>)>(links@) =~= before.push(
                            (fm@.subrange(ta as int, tb as int), fm@.subrange(qa as int, qb as int)),
                        ));
                    }
                }
            } else {
                let starts_dash = prefix_in_range(fm, a, b, &dash);
                let colon = index_of_char(fm, ':', a);
                proof {
                    lemma_index_of_from(fm@, ':', a as int);
                    lemma_index_sub(fm@, ':', a as int, b as int, 0);
                }
                if !starts_dash && colon < b {
                    in_links = false;
                }
            }
        }
        proof {
            let next: FmState = (
                opt_chars_view(id),
                views::<(Vec<char>, Vec<char>)>(links@),
                in_links,
            );
            assert(next == fm_step(cur, line));
        }
        if e >= fm.len() {
            proof {
                let next: FmState = (
                    opt_chars_view(id),
                    views::<(Vec<char>, Vec<char>)>(links@),
                    in_links,
                );
                let rest = split_char_from(fm@, '\n', pos as int);
                assert(rest[0] == line);
                assert(rest.drop_first() == Seq::<Seq<char>>::empty());
                assert(fm_fold(rest, cur) == fm_fold(rest.drop_first(), fm_step(cur, rest[0])));
                assert(fm_fold(Seq::<Seq<char>>::empty(), next) == next);
                assert(fm_fold(split_char(fm@, '\n'), fm_init()) == next);
                assert(next.1 == views::<(Vec<char>, Vec<char>)>(links@));
                assert(next.0 == opt_chars_view(id));
            }
            let res = (id, links);
            proof {
                assert(res.1@ == links@);
            }
            return res;
        }
        pos = e + 1;
    }
}

/// `index_of_from` read inside `s[lo..hi]` agrees with reading `s`,
/// capped at the range's end.
pub proof fn lemma_index_sub(s: Seq<char>, c: char, lo: int, hi: int, j: int)
    requires
        0 <= lo <= hi <= s.len(),
        0 <= j <= hi - lo,
    ensures
        index_of_from(s.subrange(lo, hi), c, j) == (if index_of_from(s, c, lo + j) < hi {
            index_of_from(s, c, lo + j) - lo
        } else {
            hi - lo
        }),
    decreases hi - lo - j,
{
    let t = s.subrange(lo, hi);
    lemma_index_of_from(s, c, lo + j);
    if j == hi - lo {
    } else {
        assert(t[j] == s[lo + j]);
        if s[lo + j] != c {
            lemma_index_sub(s, c, lo, hi, j + 1);
        }
    }
}

/// Whether some link already has target `x`.
fn has_target(links: &Vec<(Vec<char>, Vec<char>)>, x: &Vec<char>) -> (b: bool)
    ensures
        b == exists|j: int|
            0 <= j < links@.len() && views::<(Vec<char>, Vec<char>)>(links@)[j].1 == x@,
{
    let mut i: usize = 0;
    while i < links.len()
        invariant
            i <= links@.len(),
            forall|j: int| 0 <= j < i ==> links@[j].1@ != x@,
        decreases links@.len() - i,
    {
        if chars_eq(&links[i].1, x) {
            proof {
                assert(views::<(Vec<char>, Vec<char>)>(links@)[i as int].1 == x@);
            }
            return true;
        }
        i = i + 1;
    }
    proof {
        if exists|j: int|
            0 <= j < links@.len() && views::<(Vec<char>, Vec<char>)>(links@)[j].1 == x@ {
            let j = choose|j: int|
                0 <= j < links@.len() && views::<(Vec<char>, Vec<char>)>(links@)[j].1 == x@;
            assert(links@[j].1@ == x@);
        }
    }
    false
}

/// `add_wiki` on vectors.
fn add_wiki_links(links: &mut Vec<(Vec<char>, Vec<char>)>, targets: &Vec<Vec<char>>)
    ensures
        views::<(Vec<char>, Vec<char>)>(final(links)@) == add_wiki(
            views::<(Vec<char>, Vec<char>)>(old(links)@),
            views::<Vec<char>>(targets@),
        ),
{
    let ghost goal = add_wiki(views::<(Vec<char>, Vec<char>)>(links@), views::<Vec<char>>(targets@));
    let mut i: usize = 0;
    proof {
        assert(views::<Vec<char>>(targets@).skip(0) =~= views::<Vec<char>>(targets@));
    }
    while i < targets.len()
        invariant
            i <= targets@.len(),
            goal == add_wiki(
                views::<(Vec<char>, Vec<char>)>(links@),
                views::<Vec<char>>(targets@).skip(i as int),
            ),
        decreases targets@.len() - i,
    {
        let ghost rest = views::<Vec<char>>(targets@).skip(i as int);
        let ghost before = views::<(Vec<char>, Vec<char>)>(links@);
        proof {
            assert(rest[0] == targets@[i as int]@);
            assert(rest.drop_first() =~= views::<Vec<char>>(targets@).skip(i + 1));
        }
        if !has_target(links, &targets[i]) {
            let w = vec!['w', 'i', 'k', 'i'];
            let tv = copy_range(&targets[i], 0, targets[i].len());
            proof {
                assert(targets@[i as int]@.subrange(0, targets@[i as int]@.len() as int) =~= targets@[i as int]@);
                assert(w@ =~= seq!['w', 'i', 'k', 'i']);
            }
            links.push((w, tv));
            proof {
                assert(views::<(Vec<char>, Vec<char>)>(links@) =~= before.push(
                    (seq!['w', 'i', 'k', 'i'], targets@[i as int]@),
                ));
            }
        }
        i = i + 1;
    }
    proof {
        assert(views::<Vec<char>>(targets@).skip(targets@.len() as int) =~= Seq::<Seq<char>>::empty());
    }
}

/// Parse any indexed file as a graph node: frontmatter id and typed
/// links (`- type: target` under `links:`) when frontmatter exists,
/// identity keyed by path when it does not; body `[[wikilinks]]` join
/// the link set as type `wiki` either way.
pub fn parse_note(path: &str, text: &str) -> (n: NoteInfo)
    ensures
        n.id@ == note_id(path@, text@),
        n.path@ == path@,
        n.body@ == note_body(text@),
        views::<(String, String)>(n.links@) == note_links(text@),
{
    let t = chars_of(text);
    let dashes = vec!['-', '-', '-'];
    let close = vec!['\n', '-', '-', '-'];
    proof {
        assert(dashes@ =~= three_dashes());
        assert(close@ =~= crate::frontmatter::fm_close());
        assert(t@.subrange(0, t@.len() as int) =~= t@);
    }
    let mut id: Option<Vec<char>> = None;
    let mut links: Vec<(Vec<char>, Vec<char>)> = Vec::new();
    let mut found = false;
    let mut body: Vec<char> = Vec::new();
    if dashes.len() <= t.len() && matches_at(&t, &dashes, 0) {
        proof {
            assert(t@.subrange(0, 3) =~= t@.subrange(0, three_dashes().len() as int));
        }
        match find_chars(&t, &close, 3) {
            Some(end) => {
                proof {
                    lemma_find_from_props(t@, crate::frontmatter::fm_close(), 3);
                }
                let fm = copy_range(&t, 3, end);
                let (i, l) = read_note_fm(&fm);
                id = i;
                links = l;
                let a = strip_all_prefix_from(&t, end, t.len(), &close);
                let (x, y) = trim_bounds(&t, a, t.len());
                body = copy_range(&t, x, y);
                found = true;
            },
            None => {},
        }
    } else {
        proof {
            if starts_with(t@, three_dashes()) {
                assert(t@.subrange(0, 3) =~= t@.subrange(0, three_dashes().len() as int));
            }
        }
    }
    if !found {
        let (x, y) = trim_bounds(&t, 0, t.len());
        body = copy_range(&t, x, y);
        proof {
            assert(views::<(Vec<char>, Vec<char>)>(links@) =~= Seq::<LinkView>::empty());
        }
    }
    proof {
        assert(body@ == note_body(t@));
        assert(views::<(Vec<char>, Vec<char>)>(links@) == note_fm_state(t@).1);
        assert(opt_chars_view(id) == note_fm_state(t@).0);
    }
    let targets = wiki_links_chars(&body);
    add_wiki_links(&mut links, &targets);
    let id_s = match id {
        Some(v) => string_of(&v),
        None => {
            let p = chars_of(path);
            string_of(&p)
        },
    };
    let mut out: Vec<(String, String)> = Vec::new();
    let mut k: usize = 0;
    while k < links.len()
        invariant
            k <= links@.len(),
            out@.len() == k,
            forall|j: int| 0 <= j < k ==> out@[j]@ == links@[j]@,
        decreases links@.len() - k,
    {
        out.push((string_of(&links[k].0), string_of(&links[k].1)));
        k = k + 1;
    }
    proof {
        assert(views::<(String, String)>(out@) =~= views::<(Vec<char>, Vec<char>)>(links@));
    }
    let p = chars_of(path);
    NoteInfo { id: id_s, path: string_of(&p), body: string_of(&body), links: out }
}

// ---------------------------------------------------------------------
// Tolerant link resolution
// ---------------------------------------------------------------------

/// A note's file stem, empty when its path has none.
pub open spec fn note_stem(path: Seq<char>) -> Seq<char> {
    match crate::paths::file_stem(path) {
        Some(st) => st,
        None => Seq::empty(),
    }
}

/// Note `i` has stem `st`, and every note with that stem has its id.
pub open spec fn owns(notes: Seq<(Seq<char>, Seq<char>)>, st: Seq<char>, i: int) -> bool {
    &&& 0 <= i < notes.len()
    &&& note_stem(notes[i].1) == st
    &&& forall|j: int|
        0 <= j < notes.len() && note_stem(notes[j].1) == st ==> notes[j].0 == notes[i].0
}

/// The id every note with this stem carries, when they all carry the
/// same one (and there is at least one); `None` otherwise.
pub open spec fn stem_owner(notes: Seq<(Seq<char>, Seq<char>)>, st: Seq<char>) -> Option<Seq<char>> {
    if exists|i: int| owns(notes, st, i) {
        Some(notes[choose|i: int| owns(notes, st, i)].0)
    } else {
        None
    }
}

/// Some note has stem `st`.
pub open spec fn has_stem(notes: Seq<(Seq<char>, Seq<char>)>, st: Seq<char>) -> bool {
    exists|i: int| 0 <= i < notes.len() && note_stem(notes[i].1) == st
}

/// All notes with stem `st` carry id `x`.
pub open spec fn all_stem_ids(notes: Seq<(Seq<char>, Seq<char>)>, st: Seq<char>, x: Seq<char>) -> bool {
    forall|j: int| 0 <= j < notes.len() && note_stem(notes[j].1) == st ==> notes[j].0 == x
}

pub proof fn lemma_stem_owner(notes: Seq<(Seq<char>, Seq<char>)>, st: Seq<char>)
    ensures
        match stem_owner(notes, st) {
            Some(x) => has_stem(notes, st) && all_stem_ids(notes, st, x),
            None => !has_stem(notes, st) || forall|x: Seq<char>| !all_stem_ids(notes, st, x),
        },
{
    if exists|i: int| owns(notes, st, i) {
        let i = choose|i: int| owns(notes, st, i);
        assert(0 <= i < notes.len() && note_stem(notes[i].1) == st);
    } else {
        if has_stem(notes, st) {
            assert forall|x: Seq<char>| !all_stem_ids(notes, st, x) by {
                if all_stem_ids(notes, st, x) {
                    let i = choose|i: int| 0 <= i < notes.len() && note_stem(notes[i].1) == st;
                    assert(owns(notes, st, i));
                }
            }
        }
    }
}

/// Resolution over (id, path) notes: an exact frontmatter id first, then
/// the filename stem, and the stem only when it names exactly one id.
pub open spec fn resolve_spec(notes: Seq<(Seq<char>, Seq<char>)>, target: Seq<char>) -> Option<
    Seq<char>,
> {
    if exists|i: int| 0 <= i < notes.len() && notes[i].0 == target {
        Some(target)
    } else {
        stem_owner(notes, link_stem_spec(target))
    }
}

/// A note's (id, path) as plain text.
pub open spec fn note_key(n: NoteInfo) -> (Seq<char>, Seq<char>) {
    (n.id@, n.path@)
}

/// The stem table as plain text: (stem, owning id or nothing).
pub open spec fn stem_table(v: Seq<(Vec<char>, Option<Vec<char>>)>) -> Seq<(Seq<char>, Option<Seq<char>>)> {
    v.map_values(|e: (Vec<char>, Option<Vec<char>>)| (e.0@, opt_chars_view(e.1)))
}

/// The stem table agrees with the notes: one entry per distinct stem,
/// each holding that stem's owner.
pub open spec fn table_ok(notes: Seq<(Seq<char>, Seq<char>)>, table: Seq<(Seq<char>, Option<Seq<char>>)>) -> bool {
    &&& forall|a: int, b: int| 0 <= a < b < table.len() ==> table[a].0 != table[b].0
    &&& forall|k: int| 0 <= k < table.len() ==> (#[trigger] table[k]).1 == stem_owner(notes, table[k].0)
    &&& forall|k: int| 0 <= k < table.len() ==> has_stem(notes, (#[trigger] table[k]).0)
    &&& forall|i: int|
        0 <= i < notes.len() ==> exists|k: int|
            0 <= k < table.len() && table[k].0 == note_stem((#[trigger] notes[i]).1)
}

#[verifier::spinoff_prover]
#[verifier::rlimit(30)]
proof fn lemma_table_update(
    prev: Seq<(Seq<char>, Seq<char>)>,
    key: (Seq<char>, Seq<char>),
    table: Seq<(Seq<char>, Option<Seq<char>>)>,
    k: int,
)
    requires
        table_ok(prev, table),
        0 <= k < table.len(),
        table[k].0 == note_stem(key.1),
    ensures
        table_ok(
            prev.push(key),
            table.update(
                k,
                (
                    table[k].0,
                    if table[k].1 == Some(key.0) {
                        Some(key.0)
                    } else {
                        None::<Seq<char>>
                    },
                ),
            ),
        ),
{
    let next = prev.push(key);
    let nt = table.update(
        k,
        (
            table[k].0,
            if table[k].1 == Some(key.0) {
                Some(key.0)
            } else {
                None::<Seq<char>>
            },
        ),
    );
    lemma_resolver_step(prev, key);
    assert(has_stem(prev, note_stem(key.1)));
    assert forall|j: int| 0 <= j < nt.len() implies has_stem(next, (#[trigger] nt[j]).0) by {
        let i = choose|i: int| 0 <= i < prev.len() && note_stem(prev[i].1) == table[j].0;
        assert(next[i] == prev[i]);
    }
    assert forall|j: int| 0 <= j < nt.len() implies (#[trigger] nt[j]).1 == stem_owner(next, nt[j].0) by {
        if j != k {
            assert(table[j].0 != table[k].0);
        }
    }
    assert forall|i: int| 0 <= i < next.len() implies exists|j: int|
        0 <= j < nt.len() && nt[j].0 == note_stem((#[trigger] next[i]).1) by {
        if i < prev.len() {
            assert(next[i] == prev[i]);
            let j = choose|j: int| 0 <= j < table.len() && table[j].0 == note_stem(prev[i].1);
            assert(nt[j].0 == table[j].0);
        } else {
            assert(nt[k].0 == note_stem(key.1));
        }
    }
}

proof fn lemma_table_push(
    prev: Seq<(Seq<char>, Seq<char>)>,
    key: (Seq<char>, Seq<char>),
    table: Seq<(Seq<char>, Option<Seq<char>>)>,
)
    requires
        table_ok(prev, table),
        forall|k: int| 0 <= k < table.len() ==> table[k].0 != note_stem(key.1),
    ensures
        table_ok(prev.push(key), table.push((note_stem(key.1), Some(key.0)))),
{
    let next = prev.push(key);
    let st = note_stem(key.1);
    let nt = table.push((st, Some(key.0)));
    let n = table.len() as int;
    assert(!has_stem(prev, st)) by {
        if has_stem(prev, st) {
            let i = choose|i: int| 0 <= i < prev.len() && note_stem(prev[i].1) == st;
            let j = choose|j: int| 0 <= j < table.len() && table[j].0 == note_stem(prev[i].1);
        }
    }
    lemma_resolver_step(prev, key);
    assert forall|j: int| 0 <= j < nt.len() implies has_stem(next, (#[trigger] nt[j]).0) by {
        if j < n {
            let i = choose|i: int| 0 <= i < prev.len() && note_stem(prev[i].1) == table[j].0;
            assert(next[i] == prev[i]);
        } else {
            assert(note_stem(next[prev.len() as int].1) == st);
        }
    }
    assert forall|j: int| 0 <= j < nt.len() implies (#[trigger] nt[j]).1 == stem_owner(next, nt[j].0) by {
        if j < n {
            assert(nt[j] == table[j]);
        }
    }
    assert forall|i: int| 0 <= i < next.len() implies exists|j: int|
        0 <= j < nt.len() && nt[j].0 == note_stem((#[trigger] next[i]).1) by {
        if i < prev.len() {
            assert(next[i] == prev[i]);
            let j = choose|j: int| 0 <= j < table.len() && table[j].0 == note_stem(prev[i].1);
            assert(nt[j] == table[j]);
        } else {
            assert(nt[n].0 == st);
        }
    }
}

/// Tolerant link resolution: ids, and per stem the one id it names or
/// nothing when the stem is ambiguous.
pub struct Resolver {
    ids: Vec<Vec<char>>,
    by_stem: Vec<(Vec<char>, Option<Vec<char>>)>,
    notes: Ghost<Seq<(Seq<char>, Seq<char>)>>,
}

impl Resolver {
    pub closed spec fn notes(&self) -> Seq<(Seq<char>, Seq<char>)> {
        self.notes@
    }

    pub closed spec fn wf(&self) -> bool {
        &&& self.ids@.len() == self.notes@.len()
        &&& forall|i: int|
            0 <= i < self.notes@.len() ==> (#[trigger] self.ids@[i])@ == self.notes@[i].0
        &&& table_ok(self.notes@, stem_table(self.by_stem@))
    }

    fn find_stem(&self, st: &Vec<char>) -> (r: Option<usize>)
        ensures
            match r {
                Some(k) => k < self.by_stem@.len() && stem_table(self.by_stem@)[k as int].0 == st@,
                None => forall|k: int|
                    0 <= k < self.by_stem@.len() ==> stem_table(self.by_stem@)[k].0 != st@,
            },
    {
        let mut k: usize = 0;
        while k < self.by_stem.len()
            invariant
                k <= self.by_stem@.len(),
                forall|j: int| 0 <= j < k ==> stem_table(self.by_stem@)[j].0 != st@,
            decreases self.by_stem@.len() - k,
        {
            if chars_eq(&self.by_stem[k].0, st) {
                return Some(k);
            }
            k = k + 1;
        }
        None
    }

    /// Add one note, given its id and its file stem.
    fn add_note(&mut self, idv: Vec<char>, stem: Vec<char>, Ghost(key): Ghost<(Seq<char>, Seq<char>)>)
        requires
            old(self).wf(),
            key.0 == idv@,
            note_stem(key.1) == stem@,
        ensures
            final(self).wf(),
            final(self).notes() == old(self).notes().push(key),
    {
        let ghost prev = self.notes@;
        let ghost table = stem_table(self.by_stem@);
        let id_copy = copy_range(&idv, 0, idv.len());
        proof {
            assert(idv@.subrange(0, idv@.len() as int) =~= idv@);
        }
        self.ids.push(id_copy);
        match self.find_stem(&stem) {
            Some(k) => {
                let keep = match &self.by_stem[k].1 {
                    Some(x) => chars_eq(x, &idv),
                    None => false,
                };
                if !keep {
                    let (kk, _) = self.by_stem.remove(k);
                    self.by_stem.insert(k, (kk, None));
                }
                proof {
                    lemma_table_update(prev, key, table, k as int);
                    assert(stem_table(self.by_stem@) =~= table.update(
                        k as int,
                        (
                            table[k as int].0,
                            if table[k as int].1 == Some(key.0) {
                                Some(key.0)
                            } else {
                                None::<Seq<char>>
                            },
                        ),
                    ));
                }
            },
            None => {
                self.by_stem.push((stem, Some(idv)));
                proof {
                    lemma_table_push(prev, key, table);
                    assert(stem_table(self.by_stem@) =~= table.push((note_stem(key.1), Some(key.0))));
                }
            },
        }
        self.notes = Ghost(prev.push(key));
    }

    /// Build the resolver over every note.
    pub fn build(notes: &Vec<NoteInfo>) -> (r: Resolver)
        ensures
            r.wf(),
            r.notes() == notes@.map_values(|n: NoteInfo| note_key(n)),
    {
        let ghost all = notes@.map_values(|n: NoteInfo| note_key(n));
        let mut r = Resolver { ids: Vec::new(), by_stem: Vec::new(), notes: Ghost(Seq::empty()) };
        let mut i: usize = 0;
        proof {
            assert(all.take(0) =~= Seq::<(Seq<char>, Seq<char>)>::empty());
            assert(stem_table(r.by_stem@) =~= Seq::<(Seq<char>, Option<Seq<char>>)>::empty());
        }
        while i < notes.len()
            invariant
                i <= notes@.len(),
                all == notes@.map_values(|n: NoteInfo| note_key(n)),
                r.notes@ == all.take(i as int),
                r.wf(),
            decreases notes@.len() - i,
        {
            let ghost key = all[i as int];
            let idv = chars_of(notes[i].id.as_str());
            let stem_s = crate::paths::file_stem_str(notes[i].path.as_str());
            let stem = match stem_s {
                Some(x) => chars_of(x.as_str()),
                None => Vec::new(),
            };
            proof {
                assert(key == (notes@[i as int].id@, notes@[i as int].path@));
                assert(all.take(i + 1) =~= all.take(i as int).push(key));
            }
            r.add_note(idv, stem, Ghost(key));
            i = i + 1;
        }
        proof {
            assert(all.take(notes@.len() as int) =~= all);
        }
        r
    }

    /// Resolve a link target: an exact id first, then the filename stem
    /// when it names exactly one note.
    pub fn resolve(&self, target: &str) -> (r: Option<String>)
        requires
            self.wf(),
        ensures
            match r {
                Some(x) => resolve_spec(self.notes(), target@) == Some(x@),
                None => resolve_spec(self.notes(), target@) is None,
            },
    {
        let t = chars_of(target);
        let mut i: usize = 0;
        while i < self.ids.len()
            invariant
                self.wf(),
                t@ == target@,
                i <= self.ids@.len(),
                forall|j: int| 0 <= j < i ==> self.notes@[j].0 != t@,
            decreases self.ids@.len() - i,
        {
            if chars_eq(&self.ids[i], &t) {
                proof {
                    assert(self.ids@[i as int]@ == self.notes@[i as int].0);
                    assert(self.notes@[i as int].0 == t@);
                    assert(self.notes()[i as int].0 == target@);
                    assert(resolve_spec(self.notes(), target@) == Some(target@));
                }
                return Some(string_of(&t));
            }
            proof {
                assert(self.ids@[i as int]@ == self.notes@[i as int].0);
            }
            i = i + 1;
        }
        let st_s = link_stem(target);
        let st = chars_of(st_s.as_str());
        proof {
            lemma_stem_owner(self.notes@, st@);
        }
        match self.find_stem(&st) {
            None => {
                proof {
                    if has_stem(self.notes@, st@) {
                        let i = choose|i: int|
                            0 <= i < self.notes@.len() && note_stem(self.notes@[i].1) == st@;
                        let j = choose|j: int|
                            0 <= j < self.by_stem@.len() && stem_table(self.by_stem@)[j].0
                                == note_stem(self.notes@[i].1);
                    }
                }
                None
            },
            Some(k) => {
                proof {
                    assert(stem_table(self.by_stem@)[k as int].1 == opt_chars_view(self.by_stem@[k as int].1));
                }
                match &self.by_stem[k].1 {
                    Some(x) => Some(string_of(x)),
                    None => None,
                }
            },
        }
    }
}

proof fn lemma_resolver_step(prev: Seq<(Seq<char>, Seq<char>)>, key: (Seq<char>, Seq<char>))
    ensures
        forall|st: Seq<char>|
            st != note_stem(key.1) ==> #[trigger] stem_owner(prev.push(key), st) == stem_owner(
                prev,
                st,
            ),
        stem_owner(prev.push(key), note_stem(key.1)) == (if has_stem(prev, note_stem(key.1)) {
            if stem_owner(prev, note_stem(key.1)) == Some(key.0) {
                Some(key.0)
            } else {
                None::<Seq<char>>
            }
        } else {
            Some(key.0)
        }),
{
    let next = prev.push(key);
    assert forall|st: Seq<char>| st != note_stem(key.1) implies #[trigger] stem_owner(next, st)
        == stem_owner(prev, st) by {
        assert forall|i: int| owns(prev, st, i) <==> owns(next, st, i) by {
            if owns(prev, st, i) {
                assert forall|j: int|
                    0 <= j < next.len() && note_stem(next[j].1) == st implies next[j].0
                    == next[i].0 by {
                    assert(j < prev.len());
                    assert(next[j] == prev[j]);
                }
            }
            if owns(next, st, i) {
                assert(i < prev.len());
                assert forall|j: int|
                    0 <= j < prev.len() && note_stem(prev[j].1) == st implies prev[j].0
                    == prev[i].0 by {
                    assert(next[j] == prev[j]);
                }
            }
        }
        if exists|i: int| owns(prev, st, i) {
            let a = choose|i: int| owns(prev, st, i);
            let b = choose|i: int| owns(next, st, i);
            assert(owns(next, st, a));
            assert(next[b] == prev[b]);
            assert(prev[a].0 == prev[b].0);
        }
    }
    let st = note_stem(key.1);
    lemma_stem_owner(prev, st);
    lemma_stem_owner(next, st);
    let n = prev.len() as int;
    assert(next[n] == key);
    if has_stem(prev, st) {
        if stem_owner(prev, st) == Some(key.0) {
            assert forall|j: int| 0 <= j < next.len() && note_stem(next[j].1) == st implies next[j].0
                == key.0 by {
                if j < n {
                    assert(next[j] == prev[j]);
                }
            }
            assert(all_stem_ids(next, st, key.0));
            assert(has_stem(next, st));
            if stem_owner(next, st) is None {
                assert(!all_stem_ids(next, st, key.0));
            }
            let y = stem_owner(next, st)->0;
            assert(all_stem_ids(next, st, y));
            assert(next[n].0 == y);
        } else {
            let i = choose|i: int| 0 <= i < prev.len() && note_stem(prev[i].1) == st;
            assert(next[i] == prev[i]);
            if stem_owner(next, st) is Some {
                let y = stem_owner(next, st)->0;
                assert(all_stem_ids(next, st, y));
                assert(next[n].0 == y);
                assert(y == key.0);
                assert(all_stem_ids(prev, st, key.0)) by {
                    assert forall|j: int|
                        0 <= j < prev.len() && note_stem(prev[j].1) == st implies prev[j].0
                        == key.0 by {
                        assert(next[j] == prev[j]);
                    }
                }
                match stem_owner(prev, st) {
                    Some(z) => {
                        assert(prev[i].0 == z);
                        assert(prev[i].0 == key.0);
                    },
                    None => {
                        assert(!all_stem_ids(prev, st, key.0));
                    },
                }
            }
        }
    } else {
        assert(has_stem(next, st)) by {
            assert(note_stem(next[n].1) == st);
        }
        assert(all_stem_ids(next, st, key.0)) by {
            assert forall|j: int| 0 <= j < next.len() && note_stem(next[j].1) == st implies next[j].0
                == key.0 by {
                if j < n {
                    assert(next[j] == prev[j]);
                    assert(has_stem(prev, st));
                }
            }
        }
        if stem_owner(next, st) is None {
            assert(!all_stem_ids(next, st, key.0));
        }
        let y = stem_owner(next, st)->0;
        assert(next[n].0 == y);
    }
}

// ---------------------------------------------------------------------
// Link targets of files
// ---------------------------------------------------------------------

/// The `id:` of a leading `---` block, read line by line after the
/// opening line: a closing `---` line ends the search.
pub open spec fn fid_scan(ls: Seq<Seq<char>>) -> Option<Seq<char>>
    decreases ls.len(),
{
    if ls.len() == 0 {
        None
    } else {
        let l = trim(ls[0]);
        if l == three_dashes() {
            None
        } else if starts_with(l, seq!['i', 'd', ':']) {
            Some(unquote_spec(l.skip(3)))
        } else {
            fid_scan(ls.drop_first())
        }
    }
}

/// The id of a file's leading frontmatter, when its first line is `---`.
pub open spec fn frontmatter_id_spec(t: Seq<char>) -> Option<Seq<char>> {
    let ls = split_char(t, '\n');
    if trim(ls[0]) != three_dashes() {
        None
    } else {
        fid_scan(ls.drop_first())
    }
}

/// Whether `s[a..b]` is exactly `---`.
fn is_dashes(s: &Vec<char>, a: usize, b: usize) -> (r: bool)
    requires
        a <= b <= s@.len(),
    ensures
        r == (s@.subrange(a as int, b as int) == three_dashes()),
{
    if b - a == 3 && s[a] == '-' && s[a + 1] == '-' && s[a + 2] == '-' {
        proof {
            assert(s@.subrange(a as int, b as int) =~= three_dashes());
        }
        true
    } else {
        proof {
            let x = s@.subrange(a as int, b as int);
            if x == three_dashes() {
                assert(x.len() == 3 && x[0] == s@[a as int] && x[1] == s@[a + 1] && x[2] == s@[a + 2]);
            }
        }
        false
    }
}

/// The id of a file's leading frontmatter, if any (a present `id:` line
/// gives its unquoted value, possibly empty).
pub fn frontmatter_id(text: &str) -> (r: Option<String>)
    ensures
        match r {
            Some(v) => frontmatter_id_spec(text@) == Some(v@),
            None => frontmatter_id_spec(text@) is None,
        },
{
    let t = chars_of(text);
    let id_pre = vec!['i', 'd', ':'];
    proof {
        assert(id_pre@ =~= seq!['i', 'd', ':']);
    }
    let e0 = index_of_char(&t, '\n', 0);
    proof {
        lemma_split_step(t@, '\n', 0);
    }
    let (a0, b0) = trim_bounds(&t, 0, e0);
    if !is_dashes(&t, a0, b0) {
        return None;
    }
    if e0 >= t.len() {
        proof {
            assert(split_char(t@, '\n').drop_first() =~= Seq::<Seq<char>>::empty());
        }
        return None;
    }
    let mut pos = e0 + 1;
    loop
        invariant
            pos <= t@.len(),
            t@ == text@,
            id_pre@ == seq!['i', 'd', ':'],
            frontmatter_id_spec(t@) == fid_scan(split_char_from(t@, '\n', pos as int)),
        decreases t@.len() - pos,
    {
        let e = index_of_char(&t, '\n', pos);
        proof {
            lemma_split_step(t@, '\n', pos as int);
        }
        let (a, b) = trim_bounds(&t, pos, e);
        if is_dashes(&t, a, b) {
            return None;
        }
        if prefix_in_range(&t, a, b, &id_pre) {
            let (ua, ub) = unquote_bounds(&t, a + 3, b);
            proof {
                assert(t@.subrange(a as int, b as int).skip(3) =~= t@.subrange(a + 3, b as int));
            }
            return Some(string_of_range(&t, ua, ub));
        }
        if e >= t.len() {
            proof {
                assert(fid_scan(Seq::<Seq<char>>::empty()) is None);
            }
            return None;
        }
        pos = e + 1;
    }
}

/// The wikilink target a note is addressable by: its frontmatter id
/// when its text (if it could be read) has one, else its filename stem.
pub open spec fn target_ref_spec(path: Seq<char>, text: Option<Seq<char>>) -> Seq<char> {
    match text {
        Some(t) => match frontmatter_id_spec(t) {
            Some(id) => id,
            None => note_stem(path),
        },
        None => note_stem(path),
    }
}

/// The wikilink target this note is addressable by, given the note's
/// path and its text (`None` when the file could not be read).
pub fn target_ref_for_path(path: &str, text: Option<&str>) -> (r: String)
    ensures
        r@ == target_ref_spec(path@, match text {
            Some(t) => Some(t@),
            None => None,
        }),
{
    let fid = match text {
        Some(t) => frontmatter_id(t),
        None => None,
    };
    match fid {
        Some(id) => id,
        None => match crate::paths::file_stem_str(path) {
            Some(st) => st,
            None => string_of(&Vec::new()),
        },
    }
}

/// Indexable file type: markdown only.
pub fn indexable(path: &str) -> (b: bool)
    ensures
        b == (crate::paths::extension(path@) == Some(seq!['m', 'd'])),
{
    crate::paths::has_md_extension(path)
}

} // verus!
