//! Paragraph-accumulating segmentation of note text for embedding.
//! Paragraphs gather into segments of about `SEGMENT_TARGET_BYTES`; a
//! segment never exceeds the hard cap, because text longer than the cap
//! is cut at the last character boundary that fits, so a single giant
//! paragraph (a voice transcript) never exceeds the embedder's context.

use vstd::prelude::*;
use crate::text::{
    byte_len, byte_len_range, char_len_utf8, chars_of, copy_range, find_chars,
    lemma_byte_len_append, lemma_byte_len_bounds, lemma_byte_len_push, lemma_find_from_props,
    lemma_split_str_step, split_str, split_str_from, string_of, trim, trim_bounds, utf8_len, views,
};

verus! {

/// The size segments gather up to before a new one starts.
pub const SEGMENT_TARGET_BYTES: usize = 1200;

/// The size no segment may exceed.
pub const SEGMENT_HARD_CAP: usize = 4800;

/// The smallest cap the indexer shrinks segments to.
pub const SEGMENT_MIN_CAP: usize = 600;

pub open spec fn para_break() -> Seq<char> {
    seq!['\n', '\n']
}

/// The number of leading characters of `s` from `k` on whose UTF-8
/// encoding still fits in `cap` bytes.
pub open spec fn fit_from(s: Seq<char>, cap: nat, k: int) -> int
    decreases s.len() - k,
{
    if 0 <= k < s.len() && byte_len(s.take(k + 1)) <= cap {
        fit_from(s, cap, k + 1)
    } else {
        k
    }
}

/// The longest prefix of `s` whose encoding fits in `cap` bytes: a cut
/// at the last character boundary at or before byte `cap`.
pub open spec fn fit(s: Seq<char>, cap: nat) -> int {
    fit_from(s, cap, 0)
}

pub proof fn lemma_fit_from(s: Seq<char>, cap: nat, k: int)
    requires
        0 <= k <= s.len(),
        byte_len(s.take(k)) <= cap,
    ensures
        k <= fit_from(s, cap, k) <= s.len(),
        byte_len(s.take(fit_from(s, cap, k))) <= cap,
        fit_from(s, cap, k) < s.len() ==> byte_len(s.take(fit_from(s, cap, k) + 1)) > cap,
    decreases s.len() - k,
{
    if 0 <= k < s.len() && byte_len(s.take(k + 1)) <= cap {
        lemma_fit_from(s, cap, k + 1);
    }
}

/// Every character of `s` is at most `cap` bytes long, so a cut under
/// `cap` always makes progress.
pub open spec fn chars_fit(s: Seq<char>, cap: nat) -> bool {
    forall|i: int| 0 <= i < s.len() ==> utf8_len(#[trigger] s[i]) <= cap
}

/// Every character of every paragraph of `text` is at most `cap` bytes
/// long: the texts segmentation can cut at `cap`. On any other text the
/// cut never advances.
pub open spec fn paragraphs_fit(text: Seq<char>, cap: nat) -> bool {
    forall|k: int|
        0 <= k < split_str(text, para_break()).len() ==> chars_fit(
            #[trigger] split_str(text, para_break())[k],
            cap,
        )
}

pub proof fn lemma_fit(s: Seq<char>, cap: nat)
    requires
        s.len() > 0,
        utf8_len(s[0]) <= cap,
    ensures
        1 <= fit(s, cap) <= s.len(),
        byte_len(s.take(fit(s, cap))) <= cap,
        fit(s, cap) < s.len() ==> byte_len(s.take(fit(s, cap) + 1)) > cap,
{
    assert(s.take(0) =~= Seq::<char>::empty());
    assert(s.take(1) =~= Seq::<char>::empty().push(s[0]));
    lemma_byte_len_push(Seq::<char>::empty(), s[0]);
    lemma_fit_from(s, cap, 0);
}

/// Cut text longer than `cap` bytes into full-size pieces until what is
/// left fits.
pub open spec fn flush(segs: Seq<Seq<char>>, cur: Seq<char>, cap: nat) -> (Seq<Seq<char>>, Seq<char>)
    decreases cur.len(),
{
    if byte_len(cur) > cap && fit(cur, cap) >= 1 {
        proof {
            assert(cur.take(0) =~= Seq::<char>::empty());
            lemma_fit_from(cur, cap, 0);
        }
        let k = fit(cur, cap);
        flush(segs.push(cur.take(k)), cur.skip(k), cap)
    } else {
        (segs, cur)
    }
}

/// One paragraph's effect: close the current segment when the paragraph
/// would take it past `target`, join with a blank line, add the
/// paragraph, cut anything past `cap`.
pub open spec fn seg_step(
    st: (Seq<Seq<char>>, Seq<char>),
    para: Seq<char>,
    target: nat,
    cap: nat,
) -> (Seq<Seq<char>>, Seq<char>) {
    let segs = st.0;
    let cur = st.1;
    let closed = cur.len() > 0 && byte_len(cur) + byte_len(para) > target;
    let segs1 = if closed {
        segs.push(cur)
    } else {
        segs
    };
    let cur1 = if closed {
        Seq::<char>::empty()
    } else {
        cur
    };
    let cur2 = if cur1.len() > 0 {
        cur1 + para_break()
    } else {
        cur1
    };
    flush(segs1, cur2 + para, cap)
}

pub open spec fn seg_fold(
    paras: Seq<Seq<char>>,
    st: (Seq<Seq<char>>, Seq<char>),
    target: nat,
    cap: nat,
) -> (Seq<Seq<char>>, Seq<char>)
    decreases paras.len(),
{
    if paras.len() == 0 {
        st
    } else {
        seg_fold(paras.drop_first(), seg_step(st, paras[0], target, cap), target, cap)
    }
}

/// The segments that are not blank, in order.
pub open spec fn nonblank(segs: Seq<Seq<char>>) -> Seq<Seq<char>>
    decreases segs.len(),
{
    if segs.len() == 0 {
        segs
    } else if trim(segs.last()).len() > 0 {
        nonblank(segs.drop_last()).push(segs.last())
    } else {
        nonblank(segs.drop_last())
    }
}

pub open spec fn min_nat(a: nat, b: nat) -> nat {
    if a <= b {
        a
    } else {
        b
    }
}

/// `segment_with_cap`: the paragraphs of `text` (split at blank lines)
/// gathered and cut as above; blank segments dropped.
pub open spec fn segments_spec(text: Seq<char>, cap: nat) -> Seq<Seq<char>> {
    let target = min_nat(SEGMENT_TARGET_BYTES as nat, cap);
    let st = seg_fold(split_str(text, para_break()), (Seq::empty(), Seq::empty()), target, cap);
    let segs = if trim(st.1).len() > 0 {
        st.0.push(st.1)
    } else {
        st.0
    };
    nonblank(segs)
}

/// Every segment fits in `cap` bytes.
pub open spec fn all_fit(segs: Seq<Seq<char>>, cap: nat) -> bool {
    forall|i: int| 0 <= i < segs.len() ==> byte_len(#[trigger] segs[i]) <= cap
}

pub proof fn lemma_flush_fits(segs: Seq<Seq<char>>, cur: Seq<char>, cap: nat)
    requires
        chars_fit(cur, cap),
        all_fit(segs, cap),
    ensures
        all_fit(flush(segs, cur, cap).0, cap),
        byte_len(flush(segs, cur, cap).1) <= cap,
        chars_fit(flush(segs, cur, cap).1, cap),
    decreases cur.len(),
{
    if byte_len(cur) > cap {
        lemma_byte_len_bounds(cur);
        lemma_fit(cur, cap);
        let k = fit(cur, cap);
        assert forall|i: int| 0 <= i < cur.skip(k).len() implies utf8_len(
            #[trigger] cur.skip(k)[i],
        ) <= cap by {
            assert(cur.skip(k)[i] == cur[k + i]);
        }
        let s2 = segs.push(cur.take(k));
        assert forall|i: int| 0 <= i < s2.len() implies byte_len(#[trigger] s2[i]) <= cap by {
            if i < segs.len() {
                assert(s2[i] == segs[i]);
            }
        }
        lemma_flush_fits(s2, cur.skip(k), cap);
    }
}

/// Joining two texts whose characters fit, with a blank line between
/// them when the first is not empty, keeps every character fitting.
proof fn lemma_chars_fit_join(cur: Seq<char>, para: Seq<char>, cap: nat)
    requires
        chars_fit(cur, cap),
        chars_fit(para, cap),
    ensures
        chars_fit((if cur.len() > 0 { cur + para_break() } else { cur }) + para, cap),
{
    let c2 = if cur.len() > 0 { cur + para_break() } else { cur };
    if cur.len() > 0 {
        assert(utf8_len(cur[0]) <= cap);
        assert(utf8_len('\n') == 1);
    }
    assert forall|i: int| 0 <= i < (c2 + para).len() implies utf8_len(#[trigger] (c2 + para)[i]) <= cap by {
        if i < cur.len() {
            assert((c2 + para)[i] == cur[i]);
        } else if i < c2.len() {
            assert((c2 + para)[i] == '\n');
        } else {
            assert((c2 + para)[i] == para[i - c2.len()]);
        }
    }
}

pub proof fn lemma_fold_fits(paras: Seq<Seq<char>>, st: (Seq<Seq<char>>, Seq<char>), target: nat, cap: nat)
    requires
        forall|k: int| 0 <= k < paras.len() ==> chars_fit(#[trigger] paras[k], cap),
        chars_fit(st.1, cap),
        all_fit(st.0, cap),
        byte_len(st.1) <= cap,
    ensures
        all_fit(seg_fold(paras, st, target, cap).0, cap),
        byte_len(seg_fold(paras, st, target, cap).1) <= cap,
        chars_fit(seg_fold(paras, st, target, cap).1, cap),
    decreases paras.len(),
{
    if paras.len() > 0 {
        let para = paras[0];
        let segs = st.0;
        let cur = st.1;
        let closed = cur.len() > 0 && byte_len(cur) + byte_len(para) > target;
        let segs1 = if closed {
            segs.push(cur)
        } else {
            segs
        };
        assert forall|i: int| 0 <= i < segs1.len() implies byte_len(#[trigger] segs1[i]) <= cap by {
            if i < segs.len() {
                assert(segs1[i] == segs[i]);
            }
        }
        let cur1 = if closed {
            Seq::<char>::empty()
        } else {
            cur
        };
        let cur2 = if cur1.len() > 0 {
            cur1 + para_break()
        } else {
            cur1
        };
        assert(chars_fit(para, cap));
        lemma_chars_fit_join(cur1, para, cap);
        lemma_flush_fits(segs1, cur2 + para, cap);
        assert forall|k: int| 0 <= k < paras.drop_first().len() implies chars_fit(
            #[trigger] paras.drop_first()[k],
            cap,
        ) by {
            assert(paras.drop_first()[k] == paras[k + 1]);
        }
        lemma_fold_fits(paras.drop_first(), seg_step(st, para, target, cap), target, cap);
    }
}

pub proof fn lemma_nonblank(segs: Seq<Seq<char>>, cap: nat)
    requires
        all_fit(segs, cap),
    ensures
        all_fit(nonblank(segs), cap),
        forall|i: int| 0 <= i < nonblank(segs).len() ==> trim(#[trigger] nonblank(segs)[i]).len() > 0,
    decreases segs.len(),
{
    if segs.len() > 0 {
        let d = segs.drop_last();
        assert forall|i: int| 0 <= i < d.len() implies byte_len(#[trigger] d[i]) <= cap by {
            assert(d[i] == segs[i]);
        }
        lemma_nonblank(d, cap);
        let n = nonblank(segs);
        if trim(segs.last()).len() > 0 {
            assert forall|i: int| 0 <= i < n.len() implies byte_len(#[trigger] n[i]) <= cap && trim(
                n[i],
            ).len() > 0 by {
                if i < nonblank(d).len() {
                    assert(n[i] == nonblank(d)[i]);
                }
            }
        }
    }
}

// ---------------------------------------------------------------------
// Joined paragraphs stay near the target
// ---------------------------------------------------------------------

/// Two paragraphs joined: the text holds a blank line (`\n\n`).
pub open spec fn joins_paragraphs(s: Seq<char>) -> bool {
    exists|i: int| crate::text::match_at(s, para_break(), i)
}

/// Joined text stays within `bound` bytes.
pub open spec fn join_bounded(s: Seq<char>, bound: nat) -> bool {
    joins_paragraphs(s) ==> byte_len(s) <= bound
}

/// A blank line inside a slice of `s` is a blank line of `s`.
proof fn lemma_joins_sub(s: Seq<char>, lo: int, hi: int)
    requires
        0 <= lo <= hi <= s.len(),
        joins_paragraphs(s.subrange(lo, hi)),
    ensures
        joins_paragraphs(s),
{
    let sub = s.subrange(lo, hi);
    let i = choose|i: int| crate::text::match_at(sub, para_break(), i);
    assert(s.subrange(lo + i, lo + i + 2) =~= sub.subrange(i, i + 2));
    assert(crate::text::match_at(s, para_break(), lo + i));
}

/// The two sides of a cut, and what their bytes add up to.
proof fn lemma_cut_bytes(s: Seq<char>, k: int)
    requires
        0 <= k <= s.len(),
    ensures
        byte_len(s.take(k)) <= byte_len(s),
        byte_len(s.skip(k)) <= byte_len(s),
{
    assert(s =~= s.take(k) + s.skip(k));
    lemma_byte_len_append(s.take(k), s.skip(k));
}

/// No piece of a split at blank lines holds a blank line.
proof fn lemma_pieces_unjoined(s: Seq<char>, start: int)
    ensures
        forall|k: int|
            0 <= k < split_str_from(s, para_break(), start).len() ==> !joins_paragraphs(
                #[trigger] split_str_from(s, para_break(), start)[k],
            ),
    decreases s.len() + 1 - start,
{
    let p = para_break();
    if start < 0 || start > s.len() {
    } else {
        lemma_find_from_props(s, p, start);
        let pieces = split_str_from(s, p, start);
        let end = match crate::text::find_from(s, p, start) {
            Some(e) => e,
            None => s.len() as int,
        };
        let piece = s.subrange(start, end);
        assert(pieces[0] == piece);
        assert(!joins_paragraphs(piece)) by {
            if joins_paragraphs(piece) {
                let i = choose|i: int| crate::text::match_at(piece, p, i);
                assert(s.subrange(start + i, start + i + 2) =~= piece.subrange(i, i + 2));
                assert(crate::text::match_at(s, p, start + i));
            }
        }
        match crate::text::find_from(s, p, start) {
            Some(e) => {
                lemma_pieces_unjoined(s, e + 2);
                assert forall|k: int| 0 <= k < pieces.len() implies !joins_paragraphs(
                    #[trigger] pieces[k],
                ) by {
                    if k > 0 {
                        assert(pieces[k] == split_str_from(s, p, e + 2)[k - 1]);
                    }
                }
            },
            None => {},
        }
    }
}

proof fn lemma_flush_joins(segs: Seq<Seq<char>>, cur: Seq<char>, cap: nat, bound: nat)
    requires
        forall|i: int| 0 <= i < segs.len() ==> join_bounded(#[trigger] segs[i], bound),
        join_bounded(cur, bound),
    ensures
        forall|i: int|
            0 <= i < flush(segs, cur, cap).0.len() ==> join_bounded(
                #[trigger] flush(segs, cur, cap).0[i],
                bound,
            ),
        join_bounded(flush(segs, cur, cap).1, bound),
    decreases cur.len(),
{
    if byte_len(cur) > cap && fit(cur, cap) >= 1 {
        assert(cur.take(0) =~= Seq::<char>::empty());
        lemma_fit_from(cur, cap, 0);
        let k = fit(cur, cap);
        lemma_cut_bytes(cur, k);
        if joins_paragraphs(cur.take(k)) {
            assert(cur.take(k) =~= cur.subrange(0, k));
            lemma_joins_sub(cur, 0, k);
        }
        if joins_paragraphs(cur.skip(k)) {
            assert(cur.skip(k) =~= cur.subrange(k, cur.len() as int));
            lemma_joins_sub(cur, k, cur.len() as int);
        }
        let s2 = segs.push(cur.take(k));
        assert forall|i: int| 0 <= i < s2.len() implies join_bounded(#[trigger] s2[i], bound) by {
            if i < segs.len() {
                assert(s2[i] == segs[i]);
            }
        }
        lemma_flush_joins(s2, cur.skip(k), cap, bound);
    }
}

/// `a`, a blank line, then `b`: its bytes are theirs and two more.
proof fn lemma_join_bytes(a: Seq<char>, b: Seq<char>)
    ensures
        byte_len(a + para_break() + b) == byte_len(a) + 2 + byte_len(b),
{
    lemma_byte_len_append(a + para_break(), b);
    lemma_byte_len_append(a, para_break());
    assert(para_break() =~= seq!['\n'].push('\n'));
    assert(seq!['\n'] =~= Seq::<char>::empty().push('\n'));
    lemma_byte_len_push(Seq::<char>::empty(), '\n');
    lemma_byte_len_push(seq!['\n'], '\n');
    assert(utf8_len('\n') == 1);
}

proof fn lemma_fold_joins(paras: Seq<Seq<char>>, st: (Seq<Seq<char>>, Seq<char>), target: nat, cap: nat)
    requires
        forall|k: int| 0 <= k < paras.len() ==> !joins_paragraphs(#[trigger] paras[k]),
        forall|i: int| 0 <= i < st.0.len() ==> join_bounded(#[trigger] st.0[i], target + 2),
        join_bounded(st.1, target + 2),
    ensures
        forall|i: int|
            0 <= i < seg_fold(paras, st, target, cap).0.len() ==> join_bounded(
                #[trigger] seg_fold(paras, st, target, cap).0[i],
                target + 2,
            ),
        join_bounded(seg_fold(paras, st, target, cap).1, target + 2),
    decreases paras.len(),
{
    if paras.len() > 0 {
        let para = paras[0];
        let segs = st.0;
        let cur = st.1;
        let closed = cur.len() > 0 && byte_len(cur) + byte_len(para) > target;
        let segs1 = if closed {
            segs.push(cur)
        } else {
            segs
        };
        let cur1 = if closed {
            Seq::<char>::empty()
        } else {
            cur
        };
        let cur2 = if cur1.len() > 0 {
            cur1 + para_break()
        } else {
            cur1
        };
        assert forall|i: int| 0 <= i < segs1.len() implies join_bounded(#[trigger] segs1[i], target + 2) by {
            if i < segs.len() {
                assert(segs1[i] == segs[i]);
            }
        }
        if cur1.len() > 0 {
            lemma_join_bytes(cur1, para);
        } else {
            assert(cur2 + para =~= para);
        }
        lemma_flush_joins(segs1, cur2 + para, cap, target + 2);
        assert forall|k: int| 0 <= k < paras.drop_first().len() implies !joins_paragraphs(
            #[trigger] paras.drop_first()[k],
        ) by {
            assert(paras.drop_first()[k] == paras[k + 1]);
        }
        lemma_fold_joins(paras.drop_first(), seg_step(st, para, target, cap), target, cap);
    }
}

proof fn lemma_nonblank_joins(segs: Seq<Seq<char>>, bound: nat)
    requires
        forall|i: int| 0 <= i < segs.len() ==> join_bounded(#[trigger] segs[i], bound),
    ensures
        forall|i: int| 0 <= i < nonblank(segs).len() ==> join_bounded(#[trigger] nonblank(segs)[i], bound),
    decreases segs.len(),
{
    if segs.len() > 0 {
        let d = segs.drop_last();
        assert forall|i: int| 0 <= i < d.len() implies join_bounded(#[trigger] d[i], bound) by {
            assert(d[i] == segs[i]);
        }
        lemma_nonblank_joins(d, bound);
        let n = nonblank(segs);
        assert forall|i: int| 0 <= i < n.len() implies join_bounded(#[trigger] n[i], bound) by {
            if i < nonblank(d).len() {
                assert(n[i] == nonblank(d)[i]);
            }
        }
    }
}

/// A segment that joins two or more paragraphs (it holds the blank line
/// they were joined with) stays within the target size, counting the
/// blank line's two bytes on top: a paragraph that would take the
/// segment past the target starts a new one instead.
pub proof fn law_joined_segments_within_target(text: Seq<char>, cap: nat)
    ensures
        forall|i: int|
            0 <= i < segments_spec(text, cap).len() && joins_paragraphs(
                #[trigger] segments_spec(text, cap)[i],
            ) ==> byte_len(segments_spec(text, cap)[i]) <= min_nat(SEGMENT_TARGET_BYTES as nat, cap)
                + 2,
{
    let target = min_nat(SEGMENT_TARGET_BYTES as nat, cap);
    let all = split_str(text, para_break());
    lemma_pieces_unjoined(text, 0);
    let st0: (Seq<Seq<char>>, Seq<char>) = (Seq::empty(), Seq::empty());
    assert(!joins_paragraphs(Seq::<char>::empty()));
    lemma_fold_joins(all, st0, target, cap);
    let st = seg_fold(all, st0, target, cap);
    let segs = if trim(st.1).len() > 0 {
        st.0.push(st.1)
    } else {
        st.0
    };
    assert forall|i: int| 0 <= i < segs.len() implies join_bounded(#[trigger] segs[i], target + 2) by {
        if i < st.0.len() {
            assert(segs[i] == st.0[i]);
        }
    }
    lemma_nonblank_joins(segs, target + 2);
}

// ---------------------------------------------------------------------
// Nothing lost, nothing repeated
// ---------------------------------------------------------------------

/// The characters of `s` that are not whitespace, in order.
pub open spec fn content(s: Seq<char>) -> Seq<char>
    decreases s.len(),
{
    if s.len() == 0 {
        Seq::empty()
    } else if crate::text::is_ws(s.last()) {
        content(s.drop_last())
    } else {
        content(s.drop_last()).push(s.last())
    }
}

/// The non-whitespace characters of all of `segs`, in order.
pub open spec fn contents(segs: Seq<Seq<char>>) -> Seq<char>
    decreases segs.len(),
{
    if segs.len() == 0 {
        Seq::empty()
    } else {
        contents(segs.drop_last()) + content(segs.last())
    }
}

proof fn lemma_content_append(a: Seq<char>, b: Seq<char>)
    ensures
        content(a + b) == content(a) + content(b),
    decreases b.len(),
{
    if b.len() == 0 {
        assert(a + b =~= a);
        assert(content(a) + Seq::<char>::empty() =~= content(a));
    } else {
        assert((a + b).drop_last() =~= a + b.drop_last());
        lemma_content_append(a, b.drop_last());
        if !crate::text::is_ws(b.last()) {
            assert(content(a) + content(b.drop_last()).push(b.last()) =~= (content(a) + content(
                b.drop_last(),
            )).push(b.last()));
        }
    }
}

proof fn lemma_contents_concat(a: Seq<Seq<char>>, b: Seq<Seq<char>>)
    ensures
        contents(a + b) == contents(a) + contents(b),
    decreases b.len(),
{
    if b.len() == 0 {
        assert(a + b =~= a);
        assert(contents(a) + Seq::<char>::empty() =~= contents(a));
    } else {
        assert((a + b).drop_last() =~= a + b.drop_last());
        lemma_contents_concat(a, b.drop_last());
        assert(contents(a) + (contents(b.drop_last()) + content(b.last())) =~= contents(a)
            + contents(b.drop_last()) + content(b.last()));
    }
}

proof fn lemma_contents_one(x: Seq<char>)
    ensures
        contents(seq![x]) == content(x),
{
    assert(seq![x].drop_last() =~= Seq::<Seq<char>>::empty());
    assert(seq![x].last() == x);
    assert(contents(Seq::<Seq<char>>::empty()) == Seq::<char>::empty());
    assert(Seq::<char>::empty() + content(x) =~= content(x));
}

/// A blank line holds no content.
proof fn lemma_content_break()
    ensures
        content(para_break()) == Seq::<char>::empty(),
{
    assert(crate::text::is_ws('\n'));
    assert(para_break().drop_last() =~= seq!['\n']);
    assert(para_break().last() == '\n');
    assert(seq!['\n'].drop_last() =~= Seq::<char>::empty());
    assert(seq!['\n'].last() == '\n');
    assert(content(Seq::<char>::empty()) == Seq::<char>::empty());
    assert(content(seq!['\n']) == Seq::<char>::empty());
}

/// Trimming drops only whitespace.
proof fn lemma_content_trim(s: Seq<char>)
    ensures
        content(trim(s)) == content(s),
{
    lemma_content_trim_start(s);
    lemma_content_trim_end(crate::text::trim_start(s));
}

proof fn lemma_content_trim_start(s: Seq<char>)
    ensures
        content(crate::text::trim_start(s)) == content(s),
    decreases s.len(),
{
    if s.len() > 0 && crate::text::is_ws(s[0]) {
        lemma_content_trim_start(s.drop_first());
        assert(s =~= seq![s[0]] + s.drop_first());
        lemma_content_append(seq![s[0]], s.drop_first());
        assert(seq![s[0]].drop_last() =~= Seq::<char>::empty());
        assert(seq![s[0]].last() == s[0]);
        assert(content(Seq::<char>::empty()) == Seq::<char>::empty());
        assert(content(seq![s[0]]) =~= Seq::<char>::empty());
        assert(Seq::<char>::empty() + content(s.drop_first()) =~= content(s.drop_first()));
    }
}

proof fn lemma_content_trim_end(s: Seq<char>)
    ensures
        content(crate::text::trim_end(s)) == content(s),
    decreases s.len(),
{
    if s.len() > 0 && crate::text::is_ws(s.last()) {
        lemma_content_trim_end(s.drop_last());
    }
}

/// The pieces of a split at blank lines hold all the content of what
/// was split.
proof fn lemma_split_content(s: Seq<char>, start: int)
    requires
        0 <= start <= s.len(),
    ensures
        contents(split_str_from(s, para_break(), start)) == content(s.subrange(start, s.len() as int)),
    decreases s.len() + 1 - start,
{
    let p = para_break();
    lemma_find_from_props(s, p, start);
    match crate::text::find_from(s, p, start) {
        None => {
            lemma_contents_one(s.subrange(start, s.len() as int));
        },
        Some(e) => {
            lemma_split_content(s, e + 2);
            let piece = s.subrange(start, e);
            let rest = split_str_from(s, p, e + 2);
            lemma_contents_concat(seq![piece], rest);
            lemma_contents_one(piece);
            assert(s.subrange(e, e + 2) == p);
            assert(s.subrange(start, s.len() as int) =~= piece + p + s.subrange(e + 2, s.len() as int));
            lemma_content_append(piece + p, s.subrange(e + 2, s.len() as int));
            lemma_content_append(piece, p);
            lemma_content_break();
            assert(content(piece) + Seq::<char>::empty() =~= content(piece));
        },
    }
}

proof fn lemma_flush_content(segs: Seq<Seq<char>>, cur: Seq<char>, cap: nat)
    ensures
        contents(flush(segs, cur, cap).0) + content(flush(segs, cur, cap).1) == contents(segs)
            + content(cur),
    decreases cur.len(),
{
    if byte_len(cur) > cap && fit(cur, cap) >= 1 {
        assert(cur.take(0) =~= Seq::<char>::empty());
        lemma_fit_from(cur, cap, 0);
        let k = fit(cur, cap);
        lemma_flush_content(segs.push(cur.take(k)), cur.skip(k), cap);
        assert(cur =~= cur.take(k) + cur.skip(k));
        lemma_content_append(cur.take(k), cur.skip(k));
        assert(segs.push(cur.take(k)).drop_last() =~= segs);
        assert(contents(segs) + content(cur.take(k)) + content(cur.skip(k)) =~= contents(segs) + (
        content(cur.take(k)) + content(cur.skip(k))));
    }
}

proof fn lemma_fold_content(paras: Seq<Seq<char>>, st: (Seq<Seq<char>>, Seq<char>), target: nat, cap: nat)
    ensures
        contents(seg_fold(paras, st, target, cap).0) + content(seg_fold(paras, st, target, cap).1)
            == contents(st.0) + content(st.1) + contents(paras),
    decreases paras.len(),
{
    if paras.len() == 0 {
        assert(contents(st.0) + content(st.1) + Seq::<char>::empty() =~= contents(st.0) + content(
            st.1,
        ));
    } else {
        let para = paras[0];
        let segs = st.0;
        let cur = st.1;
        let closed = cur.len() > 0 && byte_len(cur) + byte_len(para) > target;
        let segs1 = if closed {
            segs.push(cur)
        } else {
            segs
        };
        let cur1 = if closed {
            Seq::<char>::empty()
        } else {
            cur
        };
        let cur2 = if cur1.len() > 0 {
            cur1 + para_break()
        } else {
            cur1
        };
        lemma_flush_content(segs1, cur2 + para, cap);
        lemma_content_append(cur2, para);
        if cur1.len() > 0 {
            lemma_content_append(cur1, para_break());
            lemma_content_break();
            assert(content(cur1) + Seq::<char>::empty() =~= content(cur1));
        }
        if closed {
            assert(segs.push(cur).drop_last() =~= segs);
            assert(content(Seq::<char>::empty()) == Seq::<char>::empty());
            assert(contents(segs) + content(cur) + Seq::<char>::empty() =~= contents(segs) + content(
                cur,
            ));
        }
        // what the step leaves holds what it was given
        assert(contents(segs1) + content(cur2 + para) =~= contents(segs) + content(cur) + content(
            para,
        ));
        lemma_fold_content(paras.drop_first(), seg_step(st, para, target, cap), target, cap);
        assert(paras =~= seq![para] + paras.drop_first());
        lemma_contents_concat(seq![para], paras.drop_first());
        lemma_contents_one(para);
        assert(contents(segs) + content(cur) + content(para) + contents(paras.drop_first())
            =~= contents(segs) + content(cur) + (content(para) + contents(paras.drop_first())));
    }
}

proof fn lemma_nonblank_content(segs: Seq<Seq<char>>)
    ensures
        contents(nonblank(segs)) == contents(segs),
    decreases segs.len(),
{
    if segs.len() > 0 {
        lemma_nonblank_content(segs.drop_last());
        if trim(segs.last()).len() == 0 {
            lemma_content_trim(segs.last());
            assert(trim(segs.last()) =~= Seq::<char>::empty());
            assert(contents(segs.drop_last()) + Seq::<char>::empty() =~= contents(segs.drop_last()));
        } else {
            assert(nonblank(segs).drop_last() =~= nonblank(segs.drop_last()));
        }
    }
}

/// Segmentation loses nothing and repeats nothing: the non-whitespace
/// characters of the segments, read in order, are exactly those of the
/// text.
pub proof fn law_segments_keep_content(text: Seq<char>, cap: nat)
    ensures
        contents(segments_spec(text, cap)) == content(text),
{
    let target = min_nat(SEGMENT_TARGET_BYTES as nat, cap);
    let all = split_str(text, para_break());
    let st0: (Seq<Seq<char>>, Seq<char>) = (Seq::empty(), Seq::empty());
    lemma_split_content(text, 0);
    assert(text.subrange(0, text.len() as int) =~= text);
    lemma_fold_content(all, st0, target, cap);
    assert(contents(Seq::<Seq<char>>::empty()) == Seq::<char>::empty());
    assert(content(Seq::<char>::empty()) == Seq::<char>::empty());
    assert(Seq::<char>::empty() + Seq::<char>::empty() + contents(all) =~= contents(all));
    let st = seg_fold(all, st0, target, cap);
    let segs = if trim(st.1).len() > 0 {
        st.0.push(st.1)
    } else {
        st.0
    };
    if trim(st.1).len() > 0 {
        assert(st.0.push(st.1).drop_last() =~= st.0);
    } else {
        lemma_content_trim(st.1);
        assert(trim(st.1) =~= Seq::<char>::empty());
        assert(contents(st.0) + Seq::<char>::empty() =~= contents(st.0));
    }
    lemma_nonblank_content(segs);
}

/// Cut `cur` until what is left fits in `cap` bytes, pushing the pieces.
fn flush_exec(segs: &mut Vec<Vec<char>>, cur: Vec<char>, cur_bytes: u128, cap: usize) -> (r: (
    Vec<char>,
    usize,
))
    requires
        chars_fit(cur@, cap as nat),
        cur_bytes == byte_len(cur@),
    ensures
        (views::<Vec<char>>(final(segs)@), r.0@) == flush(views::<Vec<char>>(old(segs)@), cur@, cap as nat),
        r.1 == byte_len(r.0@),
        r.1 <= cap,
        chars_fit(r.0@, cap as nat),
{
    let mut cur = cur;
    let mut cur_bytes = cur_bytes;
    let ghost goal = flush(views::<Vec<char>>(segs@), cur@, cap as nat);
    while cur_bytes > cap as u128
        invariant
            chars_fit(cur@, cap as nat),
            cur_bytes == byte_len(cur@),
            goal == flush(views::<Vec<char>>(segs@), cur@, cap as nat),
        decreases cur@.len(),
    {
        proof {
            lemma_byte_len_bounds(cur@);
            lemma_fit(cur@, cap as nat);
        }
        let mut k: usize = 0;
        let mut acc: usize = 0;
        proof {
            assert(cur@.take(0) =~= Seq::<char>::empty());
        }
        while k < cur.len() && char_len_utf8(cur[k]) <= cap - acc
            invariant
                k <= cur@.len(),
                acc == byte_len(cur@.take(k as int)),
                acc <= cap,
                fit(cur@, cap as nat) == fit_from(cur@, cap as nat, k as int),
            decreases cur@.len() - k,
        {
            proof {
                assert(cur@.take(k + 1) =~= cur@.take(k as int).push(cur@[k as int]));
                lemma_byte_len_push(cur@.take(k as int), cur@[k as int]);
            }
            acc = acc + char_len_utf8(cur[k]);
            k = k + 1;
        }
        proof {
            if k < cur@.len() {
                assert(cur@.take(k + 1) =~= cur@.take(k as int).push(cur@[k as int]));
                lemma_byte_len_push(cur@.take(k as int), cur@[k as int]);
            }
            assert(cur@ =~= cur@.take(k as int) + cur@.skip(k as int));
            lemma_byte_len_append(cur@.take(k as int), cur@.skip(k as int));
        }
        let seg = copy_range(&cur, 0, k);
        let rest = copy_range(&cur, k, cur.len());
        let ghost before = views::<Vec<char>>(segs@);
        segs.push(seg);
        proof {
            assert(views::<Vec<char>>(segs@) =~= before.push(cur@.take(k as int)));
            assert(rest@ =~= cur@.skip(k as int));
            assert forall|i: int| 0 <= i < rest@.len() implies utf8_len(#[trigger] rest@[i])
                <= cap by {
                assert(rest@[i] == cur@[k + i]);
            }
        }
        cur_bytes = cur_bytes - acc as u128;
        cur = rest;
    }
    (cur, cur_bytes as usize)
}

/// Paragraph-accumulating segmentation under a byte cap. Every character
/// of a paragraph must fit in the cap (any cap of four bytes or more takes
/// every text; smaller caps take text whose characters are that short):
/// a wider character could never be cut off.
pub fn segment_with_cap(text: &str, hard_cap: usize) -> (r: Vec<String>)
    requires
        paragraphs_fit(text@, hard_cap as nat),
        4 * text@.len() <= usize::MAX,
    ensures
        views::<String>(r@) == segments_spec(text@, hard_cap as nat),
        forall|i: int| 0 <= i < r@.len() ==> byte_len((#[trigger] r@[i])@) <= hard_cap,
        forall|i: int| 0 <= i < r@.len() ==> trim((#[trigger] r@[i])@).len() > 0,
{
    let t = chars_of(text);
    let target = if SEGMENT_TARGET_BYTES < hard_cap {
        SEGMENT_TARGET_BYTES
    } else {
        hard_cap
    };
    let brk = vec!['\n', '\n'];
    proof {
        assert(brk@ =~= para_break());
        lemma_byte_len_bounds(t@);
    }
    let ghost cap = hard_cap as nat;
    let ghost tgt = min_nat(SEGMENT_TARGET_BYTES as nat, cap);
    let ghost all = split_str(t@, para_break());
    let mut segs: Vec<Vec<char>> = Vec::new();
    let mut cur: Vec<char> = Vec::new();
    let mut cur_bytes: usize = 0;
    let mut pos: usize = 0;
    proof {
        assert(views::<Vec<char>>(segs@) =~= Seq::<Seq<char>>::empty());
        assert(cur@ =~= Seq::<char>::empty());
    }
    loop
        invariant_except_break
            seg_fold(all, (Seq::empty(), Seq::empty()), tgt, cap) == seg_fold(
                split_str_from(t@, para_break(), pos as int),
                (views::<Vec<char>>(segs@), cur@),
                tgt,
                cap,
            ),
        invariant
            pos <= t@.len(),
            t@ == text@,
            brk@ == para_break(),
            forall|k: int|
                0 <= k < split_str_from(t@, para_break(), pos as int).len() ==> chars_fit(
                    #[trigger] split_str_from(t@, para_break(), pos as int)[k],
                    hard_cap as nat,
                ),
            chars_fit(cur@, hard_cap as nat),
            4 * t@.len() <= usize::MAX,
            target as nat == tgt,
            cap == hard_cap as nat,
            tgt == min_nat(SEGMENT_TARGET_BYTES as nat, cap),
            cur_bytes == byte_len(cur@),
            cur_bytes <= hard_cap,
            all == split_str(t@, para_break()),
        ensures
            seg_fold(all, (Seq::empty(), Seq::empty()), tgt, cap) == (views::<Vec<char>>(segs@), cur@),
        decreases t@.len() - pos,
    {
        proof {
            lemma_split_str_step(t@, para_break(), pos as int);
            lemma_find_from_props(t@, para_break(), pos as int);
        }
        let (e, next, last) = match find_chars(&t, &brk, pos) {
            Some(e) => (e, e + 2, false),
            None => (t.len(), t.len(), true),
        };
        proof {
            lemma_byte_len_bounds(t@.subrange(pos as int, e as int));
        }
        let para_bytes = byte_len_range(&t, pos, e);
        let ghost para = t@.subrange(pos as int, e as int);
        let ghost st = (views::<Vec<char>>(segs@), cur@);
        if cur.len() > 0 && (para_bytes > target || cur_bytes > target - para_bytes) {
            let done = cur;
            segs.push(done);
            cur = Vec::new();
            cur_bytes = 0;
            proof {
                assert(views::<Vec<char>>(segs@) =~= st.0.push(st.1));
                assert(byte_len(Seq::<char>::empty()) == 0);
            }
        }
        let ghost segs1 = views::<Vec<char>>(segs@);
        let ghost cur1 = cur@;
        let mut wide: u128 = cur_bytes as u128;
        assert(wide == byte_len(cur1));
        if cur.len() > 0 {
            cur.push('\n');
            cur.push('\n');
            wide = wide + 2;
            proof {
                let c0 = cur1;
                assert(cur@ =~= c0 + para_break());
                lemma_byte_len_append(c0, para_break());
                assert(para_break().drop_last() =~= seq!['\n']);
                assert(seq!['\n'].drop_last() =~= Seq::<char>::empty());
                assert(utf8_len('\n') == 1);
                assert(seq!['\n'] =~= Seq::<char>::empty().push('\n'));
                lemma_byte_len_push(Seq::<char>::empty(), '\n');
                assert(byte_len(Seq::<char>::empty()) == 0);
                assert(byte_len(seq!['\n']) == 1);
                assert(para_break() =~= seq!['\n'].push('\n'));
                lemma_byte_len_push(seq!['\n'], '\n');
                assert(byte_len(para_break()) == 2);
            }
        }
        let ghost c2 = cur@;
        assert(wide == byte_len(c2));
        crate::text::push_range(&mut cur, &t, pos, e);
        wide = wide + para_bytes as u128;
        proof {
            lemma_byte_len_append(c2, para);
            assert(cur@ == c2 + para);
        }
        proof {
            assert(chars_fit(para, cap));
            lemma_chars_fit_join(cur1, para, cap);
            assert(cur@ == (if cur1.len() > 0 {
                cur1 + para_break()
            } else {
                cur1
            }) + para);
        }
        let (c, b) = flush_exec(&mut segs, cur, wide, hard_cap);
        cur = c;
        cur_bytes = b;
        proof {
            let closed = st.1.len() > 0 && byte_len(st.1) + byte_len(para) > tgt;
            assert(segs1 == (if closed {
                st.0.push(st.1)
            } else {
                st.0
            }));
            assert(cur1 == (if closed {
                Seq::<char>::empty()
            } else {
                st.1
            }));
            assert(c2 == (if cur1.len() > 0 {
                cur1 + para_break()
            } else {
                cur1
            }));
            assert((views::<Vec<char>>(segs@), cur@) == seg_step(st, para, tgt, cap));
        }
        if last {
            proof {
                let rest = split_str_from(t@, para_break(), pos as int);
                assert(rest.drop_first() == Seq::<Seq<char>>::empty());
                assert(seg_fold(rest, st, tgt, cap) == seg_fold(
                    rest.drop_first(),
                    seg_step(st, rest[0], tgt, cap),
                    tgt,
                    cap,
                ));
                assert(seg_fold(Seq::<Seq<char>>::empty(), seg_step(st, para, tgt, cap), tgt, cap)
                    == seg_step(st, para, tgt, cap));
            }
            break;
        }
        pos = next;
    }
    let ghost st_end = (views::<Vec<char>>(segs@), cur@);
    proof {
        lemma_fold_fits(all, (Seq::empty(), Seq::empty()), tgt, cap);
    }
    let (a, b) = trim_bounds(&cur, 0, cur.len());
    proof {
        assert(cur@.subrange(0, cur@.len() as int) =~= cur@);
    }
    if b > a {
        segs.push(cur);
    }
    let ghost pushed = views::<Vec<char>>(segs@);
    proof {
        if trim(st_end.1).len() > 0 {
            assert(pushed =~= st_end.0.push(st_end.1));
        } else {
            assert(pushed =~= st_end.0);
        }
        assert(all_fit(pushed, cap)) by {
            assert forall|i: int| 0 <= i < pushed.len() implies byte_len(#[trigger] pushed[i]) <= cap by {
                if i < st_end.0.len() {
                    assert(pushed[i] == st_end.0[i]);
                }
            }
        }
        lemma_nonblank(pushed, cap);
    }
    // keep the nonblank segments
    let mut out: Vec<String> = Vec::new();
    let mut i: usize = 0;
    proof {
        assert(pushed.take(0) =~= Seq::<Seq<char>>::empty());
        assert(views::<String>(out@) =~= Seq::<Seq<char>>::empty());
    }
    while i < segs.len()
        invariant
            i <= segs@.len(),
            pushed == views::<Vec<char>>(segs@),
            views::<String>(out@) == nonblank(pushed.take(i as int)),
        decreases segs@.len() - i,
    {
        let (a, b) = trim_bounds(&segs[i], 0, segs[i].len());
        proof {
            assert(segs@[i as int]@.subrange(0, segs@[i as int]@.len() as int) =~= segs@[i as int]@);
            assert(pushed.take(i + 1).drop_last() =~= pushed.take(i as int));
            assert(pushed.take(i + 1).last() == segs@[i as int]@);
        }
        if b > a {
            let ghost before = views::<String>(out@);
            out.push(string_of(&segs[i]));
            proof {
                assert(views::<String>(out@) =~= before.push(segs@[i as int]@));
            }
        }
        i = i + 1;
    }
    proof {
        assert(pushed.take(segs@.len() as int) =~= pushed);
        assert forall|j: int| 0 <= j < out@.len() implies byte_len((#[trigger] out@[j])@) <= hard_cap
            && trim(out@[j]@).len() > 0 by {
            assert(out@[j]@ == views::<String>(out@)[j]);
        }
    }
    out
}

/// Segmentation at the standard hard cap.
pub fn segment(text: &str) -> (r: Vec<String>)
    requires
        4 * text@.len() <= usize::MAX,
    ensures
        views::<String>(r@) == segments_spec(text@, SEGMENT_HARD_CAP as nat),
        forall|i: int| 0 <= i < r@.len() ==> byte_len((#[trigger] r@[i])@) <= SEGMENT_HARD_CAP,
        forall|i: int| 0 <= i < r@.len() ==> trim((#[trigger] r@[i])@).len() > 0,
{
    segment_with_cap(text, SEGMENT_HARD_CAP)
}


/// The cap to re-segment with after the embedder refused segments cut
/// at `cap`: half of it, unless that falls below `SEGMENT_MIN_CAP`,
/// when the failure stands.
pub fn smaller_cap(cap: usize) -> (r: Option<usize>)
    ensures
        r == (if cap / 2 >= SEGMENT_MIN_CAP {
            Some(cap / 2)
        } else {
            None::<usize>
        }),
{
    if cap / 2 >= SEGMENT_MIN_CAP {
        Some(cap / 2)
    } else {
        None
    }
}

} // verus!
