//! YAML-lite frontmatter: the `---` block that opens an atomic note, the
//! scalar fields read out of it, and the body that follows it.

use vstd::prelude::*;
use crate::text::{
    chars_of, copy_range, find, find_chars, find_from, index_of_char, lemma_find_from_props,
    lemma_split_step, match_at, matches_at, split_char, split_char_from, string_of, string_of_range,
    trim, trim_bounds,
};

verus! {

/// `---` followed by a newline: how a frontmatter block opens.
pub open spec fn fm_open() -> Seq<char> {
    seq!['-', '-', '-', '\n']
}

/// A newline followed by `---`: how a frontmatter block closes.
pub open spec fn fm_close() -> Seq<char> {
    seq!['\n', '-', '-', '-']
}

pub open spec fn starts_with(s: Seq<char>, p: Seq<char>) -> bool {
    p.len() <= s.len() && s.subrange(0, p.len() as int) == p
}

pub open spec fn ends_with(s: Seq<char>, p: Seq<char>) -> bool {
    p.len() <= s.len() && s.subrange(s.len() - p.len(), s.len() as int) == p
}

/// A YAML scalar, bare or quoted: trimmed, then one pair of matching
/// `"` or `'` delimiters removed.
pub open spec fn unquote_spec(s: Seq<char>) -> Seq<char> {
    let t = trim(s);
    if t.len() >= 2 && ((t[0] == '"' && t.last() == '"') || (t[0] == '\'' && t.last() == '\'')) {
        t.subrange(1, t.len() - 1)
    } else {
        t
    }
}

/// The bounds of `unquote_spec(s[lo..hi])` inside `s`.
pub fn unquote_bounds(s: &Vec<char>, lo: usize, hi: usize) -> (r: (usize, usize))
    requires
        lo <= hi <= s.len(),
    ensures
        lo <= r.0 <= r.1 <= hi,
        s@.subrange(r.0 as int, r.1 as int) == unquote_spec(s@.subrange(lo as int, hi as int)),
{
    let (a, b) = trim_bounds(s, lo, hi);
    let ghost t = s@.subrange(a as int, b as int);
    if b - a >= 2 && ((s[a] == '"' && s[b - 1] == '"') || (s[a] == '\'' && s[b - 1] == '\'')) {
        proof {
            assert(t[0] == s@[a as int]);
            assert(t.last() == s@[b - 1]);
            assert(t.subrange(1, t.len() - 1) =~= s@.subrange(a + 1, b - 1));
        }
        (a + 1, b - 1)
    } else {
        proof {
            if t.len() >= 2 {
                assert(t[0] == s@[a as int]);
                assert(t.last() == s@[b - 1]);
            }
        }
        (a, b)
    }
}

/// YAML scalars arrive bare or quoted; link targets and ids compare
/// equal either way.
pub fn unquote(s: &str) -> (r: String)
    ensures
        r@ == unquote_spec(s@),
{
    let cs = chars_of(s);
    let (a, b) = unquote_bounds(&cs, 0, cs.len());
    proof {
        assert(cs@.subrange(0, cs@.len() as int) =~= cs@);
    }
    string_of_range(&cs, a, b)
}

/// The value of `field` on the first frontmatter line (trimmed) that
/// starts with `field:` and whose unquoted value is not empty.
pub open spec fn field_in_lines(lines: Seq<Seq<char>>, prefix: Seq<char>) -> Option<Seq<char>>
    decreases lines.len(),
{
    if lines.len() == 0 {
        None
    } else {
        let l = trim(lines[0]);
        if starts_with(l, prefix) && unquote_spec(l.skip(prefix.len() as int)).len() > 0 {
            Some(unquote_spec(l.skip(prefix.len() as int)))
        } else {
            field_in_lines(lines.drop_first(), prefix)
        }
    }
}

/// Where the closing delimiter of a frontmatter block starts, when the
/// text opens with one (`---\n`) and closes it (`\n---`).
pub open spec fn fm_end(t: Seq<char>) -> Option<int> {
    if starts_with(t, fm_open()) {
        find_from(t, fm_close(), 4)
    } else {
        None
    }
}

/// The lines of the frontmatter block, when there is one.
pub open spec fn fm_lines(t: Seq<char>) -> Seq<Seq<char>>
    recommends
        fm_end(t) is Some,
{
    split_char(t.subrange(4, fm_end(t)->0), '\n')
}

/// `read_frontmatter_field`: the field's value, when the text has a
/// closed frontmatter block and a line in it carries the field with a
/// nonempty value.
pub open spec fn frontmatter_field(t: Seq<char>, field: Seq<char>) -> Option<Seq<char>> {
    match fm_end(t) {
        None => None,
        Some(_) => field_in_lines(fm_lines(t), field.push(':')),
    }
}

/// The first line (trimmed) of `fm[pos..]` that carries `prefix` with a
/// nonempty value, as bounds into `fm`.
fn scan_field(fm: &Vec<char>, prefix: &Vec<char>) -> (r: Option<(usize, usize)>)
    ensures
        match r {
            Some((a, b)) => a <= b <= fm.len() && field_in_lines(split_char(fm@, '\n'), prefix@)
                == Some(fm@.subrange(a as int, b as int)),
            None => field_in_lines(split_char(fm@, '\n'), prefix@) is None,
        },
{
    let mut pos: usize = 0;
    loop
        invariant
            pos <= fm.len(),
            field_in_lines(split_char(fm@, '\n'), prefix@) == field_in_lines(
                split_char_from(fm@, '\n', pos as int),
                prefix@,
            ),
        decreases fm.len() - pos,
    {
        let e = index_of_char(fm, '\n', pos);
        proof {
            lemma_split_step(fm@, '\n', pos as int);
        }
        let ghost lines = split_char_from(fm@, '\n', pos as int);
        let (a, b) = trim_bounds(fm, pos, e);
        let ghost l = fm@.subrange(a as int, b as int);
        if b - a >= prefix.len() && matches_at(fm, prefix, a) {
            let (ua, ub) = unquote_bounds(fm, a + prefix.len(), b);
            proof {
                assert(l.subrange(0, prefix@.len() as int) =~= fm@.subrange(
                    a as int,
                    a + prefix@.len(),
                ));
                assert(l.skip(prefix@.len() as int) =~= fm@.subrange(a + prefix@.len(), b as int));
            }
            if ub > ua {
                return Some((ua, ub));
            }
        } else {
            proof {
                if starts_with(l, prefix@) {
                    assert(l.subrange(0, prefix@.len() as int) =~= fm@.subrange(
                        a as int,
                        a + prefix@.len(),
                    ));
                }
            }
        }
        if e >= fm.len() {
            proof {
                assert(lines.drop_first() =~= Seq::<Seq<char>>::empty());
                assert(field_in_lines(Seq::<Seq<char>>::empty(), prefix@) is None);
            }
            return None;
        }
        pos = e + 1;
    }
}

/// Read a single scalar YAML frontmatter field by name, tolerating bare
/// and quoted values. `None` when the text has no closed frontmatter
/// block or no line in it gives the field a nonempty value.
pub fn read_frontmatter_field(text: &str, field: &str) -> (r: Option<String>)
    ensures
        match r {
            Some(v) => frontmatter_field(text@, field@) == Some(v@),
            None => frontmatter_field(text@, field@) is None,
        },
{
    let t = chars_of(text);
    let open = vec!['-', '-', '-', '\n'];
    let close = vec!['\n', '-', '-', '-'];
    proof {
        assert(open@ =~= fm_open());
        assert(close@ =~= fm_close());
    }
    if !matches_at(&t, &open, 0) {
        return None;
    }
    proof {
        assert(t@.subrange(0, 4) =~= t@.subrange(0, fm_open().len() as int));
    }
    let end = match find_chars(&t, &close, 4) {
        None => return None,
        Some(e) => e,
    };
    proof {
        lemma_find_from_props(t@, fm_close(), 4);
    }
    let fm = copy_range(&t, 4, end);
    let mut prefix = chars_of(field);
    prefix.push(':');
    match scan_field(&fm, &prefix) {
        None => None,
        Some((a, b)) => Some(string_of_range(&fm, a, b)),
    }
}

/// The `id:` line out of the frontmatter, quoted or bare, when it has a
/// nonempty value.
pub fn read_frontmatter_id(text: &str) -> (r: Option<String>)
    ensures
        match r {
            Some(v) => frontmatter_field(text@, seq!['i', 'd']) == Some(v@),
            None => frontmatter_field(text@, seq!['i', 'd']) is None,
        },
{
    let r = read_frontmatter_field(text, "id");
    proof {
        reveal_strlit("id");
        assert("id"@ =~= seq!['i', 'd']);
    }
    r
}

/// Cut a string to at most `cap` characters, marking the cut with `…`.
pub open spec fn cap_chars_spec(s: Seq<char>, cap: nat) -> Seq<char> {
    if s.len() <= cap {
        s
    } else {
        s.take(cap as int).push('…')
    }
}

pub fn cap_chars(s: &str, cap: usize) -> (r: String)
    ensures
        r@ == cap_chars_spec(s@, cap as nat),
{
    let mut cs = chars_of(s);
    if cs.len() <= cap {
        return string_of(&cs);
    }
    let mut out = copy_range(&cs, 0, cap);
    out.push('…');
    string_of(&out)
}

/// Remove every leading occurrence of the nonempty pattern `p`
/// (`str::trim_start_matches`).
pub open spec fn strip_all_prefix(s: Seq<char>, p: Seq<char>) -> Seq<char>
    decreases s.len(),
{
    if p.len() > 0 && starts_with(s, p) {
        strip_all_prefix(s.skip(p.len() as int), p)
    } else {
        s
    }
}

/// Remove every leading `c` (`str::trim_start_matches(c)`).
pub open spec fn strip_leading(s: Seq<char>, c: char) -> Seq<char>
    decreases s.len(),
{
    if s.len() > 0 && s[0] == c {
        strip_leading(s.drop_first(), c)
    } else {
        s
    }
}

/// The start of `strip_all_prefix(s[lo..hi], p)` inside `s`.
pub fn strip_all_prefix_from(s: &Vec<char>, lo: usize, hi: usize, p: &Vec<char>) -> (r: usize)
    requires
        lo <= hi <= s.len(),
    ensures
        lo <= r <= hi,
        s@.subrange(r as int, hi as int) == strip_all_prefix(s@.subrange(lo as int, hi as int), p@),
{
    let mut i = lo;
    while p.len() > 0 && p.len() <= hi - i && matches_at(s, p, i)
        invariant
            lo <= i <= hi <= s.len(),
            strip_all_prefix(s@.subrange(lo as int, hi as int), p@) == strip_all_prefix(
                s@.subrange(i as int, hi as int),
                p@,
            ),
        decreases hi - i,
    {
        proof {
            assert(s@.subrange(i as int, hi as int).subrange(0, p@.len() as int) =~= s@.subrange(
                i as int,
                i + p@.len(),
            ));
            assert(s@.subrange(i as int, hi as int).skip(p@.len() as int) =~= s@.subrange(
                i + p@.len(),
                hi as int,
            ));
        }
        i = i + p.len();
    }
    proof {
        let t = s@.subrange(i as int, hi as int);
        if p@.len() > 0 && starts_with(t, p@) {
            assert(t.subrange(0, p@.len() as int) =~= s@.subrange(i as int, i + p@.len()));
        }
    }
    i
}

/// The start of `strip_leading(s[lo..hi], c)` inside `s`.
pub fn strip_leading_from(s: &Vec<char>, lo: usize, hi: usize, c: char) -> (r: usize)
    requires
        lo <= hi <= s.len(),
    ensures
        lo <= r <= hi,
        s@.subrange(r as int, hi as int) == strip_leading(s@.subrange(lo as int, hi as int), c),
{
    let mut i = lo;
    while i < hi && s[i] == c
        invariant
            lo <= i <= hi <= s.len(),
            strip_leading(s@.subrange(lo as int, hi as int), c) == strip_leading(
                s@.subrange(i as int, hi as int),
                c,
            ),
        decreases hi - i,
    {
        proof {
            assert(s@.subrange(i as int, hi as int).drop_first() =~= s@.subrange(
                i as int + 1,
                hi as int,
            ));
        }
        i = i + 1;
    }
    i
}

/// `strip_frontmatter`: everything after the closing frontmatter
/// delimiter, leading newlines dropped; the whole text when there is no
/// closed block. An empty block (`---\n---`) closes immediately.
pub open spec fn strip_frontmatter_spec(t: Seq<char>) -> Seq<char> {
    if !starts_with(t, fm_open()) {
        t
    } else {
        let rest = t.skip(4);
        if starts_with(rest, seq!['-', '-', '-']) {
            strip_leading(rest.skip(3), '\n')
        } else {
            match find(rest, fm_close()) {
                Some(end) => strip_leading(strip_all_prefix(rest.skip(end), fm_close()), '\n'),
                None => t,
            }
        }
    }
}

proof fn lemma_find_shift(t: Seq<char>, p: Seq<char>, k: int, j: int)
    requires
        0 <= k <= t.len(),
        0 <= j,
    ensures
        match find_from(t.skip(k), p, j) {
            Some(i) => find_from(t, p, j + k) == Some(i + k),
            None => find_from(t, p, j + k) is None,
        },
    decreases t.len() + 1 - (j + k),
{
    let s = t.skip(k);
    if j + p.len() > s.len() {
    } else {
        assert(s.subrange(j, j + p.len()) =~= t.subrange(j + k, j + k + p.len()));
        if match_at(s, p, j) {
        } else {
            lemma_find_shift(t, p, k, j + 1);
        }
    }
}

/// Everything after the closing frontmatter delimiter (or the whole text
/// when no frontmatter is present).
pub fn strip_frontmatter(text: &str) -> (r: String)
    ensures
        r@ == strip_frontmatter_spec(text@),
{
    let t = chars_of(text);
    let open = vec!['-', '-', '-', '\n'];
    let close = vec!['\n', '-', '-', '-'];
    let dashes = vec!['-', '-', '-'];
    proof {
        assert(open@ =~= fm_open());
        assert(close@ =~= fm_close());
    }
    if !matches_at(&t, &open, 0) {
        proof {
            assert(!starts_with(t@, fm_open())) by {
                if starts_with(t@, fm_open()) {
                    assert(t@.subrange(0, 4) =~= t@.subrange(0, fm_open().len() as int));
                }
            }
        }
        return string_of(&t);
    }
    let ghost rest = t@.skip(4);
    proof {
        assert(t@.subrange(0, 4) =~= t@.subrange(0, fm_open().len() as int));
    }
    if matches_at(&t, &dashes, 4) {
        let s = strip_leading_from(&t, 7, t.len(), '\n');
        proof {
            assert(rest.subrange(0, 3) =~= t@.subrange(4, 7));
            assert(rest.skip(3) =~= t@.subrange(7, t@.len() as int));
        }
        return string_of_range(&t, s, t.len());
    }
    proof {
        if starts_with(rest, seq!['-', '-', '-']) {
            assert(rest.subrange(0, 3) =~= t@.subrange(4, 7));
        }
        lemma_find_shift(t@, fm_close(), 4, 0);
        lemma_find_from_props(t@, fm_close(), 4);
    }
    match find_chars(&t, &close, 4) {
        None => string_of(&t),
        Some(end) => {
            let a = strip_all_prefix_from(&t, end, t.len(), &close);
            let b = strip_leading_from(&t, a, t.len(), '\n');
            proof {
                assert(rest.skip(end - 4) =~= t@.subrange(end as int, t@.len() as int));
            }
            string_of_range(&t, b, t.len())
        },
    }
}


/// In `p + j + "\n---" + rest`, where no line of `j` opens a delimiter,
/// the first delimiter from the end of `p` is the one after `j`.
pub proof fn lemma_close_after(t: Seq<char>, p: Seq<char>, j: Seq<char>, rest: Seq<char>)
    requires
        t == p + j + fm_close() + rest,
        crate::text::no_dash_lines(j),
    ensures
        find_from(t, fm_close(), p.len() as int) == Some(p.len() + j.len() as int),
        t.subrange(p.len() as int, p.len() + j.len() as int) == j,
        t.subrange(p.len() + j.len() as int, t.len() as int) == fm_close() + rest,
        t.skip(p.len() as int) == j + fm_close() + rest,
{
    let a: int = p.len() as int;
    let end: int = a + j.len();
    assert(t.subrange(end, end + 4) =~= fm_close());
    assert forall|q: int| a <= q < end implies !match_at(t, fm_close(), q) by {
        assert(t[q] == j[q - a]);
        if j[q - a] == '\n' {
            assert(t[q + 1] == j[q - a + 1]);
            assert(t.subrange(q, q + 4)[1] == t[q + 1]);
        } else {
            assert(t.subrange(q, q + 4)[0] == t[q]);
        }
    }
    crate::text::lemma_find_first(t, fm_close(), a, end);
    assert(t.subrange(a, end) =~= j);
    assert(t.subrange(end, t.len() as int) =~= fm_close() + rest);
    assert(t.skip(a) =~= j + fm_close() + rest);
}

/// What follows a closing delimiter and a blank line is the body, less
/// its leading newlines.
pub proof fn lemma_body_after_close(b: Seq<char>)
    ensures
        strip_leading(strip_all_prefix(fm_close() + (seq!['\n', '\n'] + b), fm_close()), '\n')
            == strip_leading(b, '\n'),
{
    let u = seq!['\n', '\n'] + b;
    let tail = fm_close() + u;
    assert(strip_all_prefix(u, fm_close()) == u) by {
        if starts_with(u, fm_close()) {
            assert(u.subrange(0, 4)[1] == u[1]);
            assert(u[1] == '\n');
            assert(fm_close()[1] == '-');
        }
    }
    assert(strip_all_prefix(tail, fm_close()) == u) by {
        assert(tail.subrange(0, 4) =~= fm_close());
        assert(tail.skip(4) =~= u);
    }
    let u1 = seq!['\n'] + b;
    assert(u.drop_first() =~= u1);
    assert(u1.drop_first() =~= b);
    assert(strip_leading(u1, '\n') == strip_leading(b, '\n'));
    assert(strip_leading(u, '\n') == strip_leading(b, '\n'));
}

} // verus!
