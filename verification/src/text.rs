//! Character-level text primitives shared by every parser in the crate:
//! whitespace, trimming, searching, splitting, UTF-8 byte lengths and
//! decimal numbers, each with the meaning the standard library gives it.

use vstd::prelude::*;
use vstd::std_specs::iter::IteratorSpec;

verus! {

/// The plain values of a vector's elements.
pub open spec fn views<T: View>(v: Seq<T>) -> Seq<T::V> {
    v.map_values(|x: T| x@)
}

// ---------------------------------------------------------------------
// Conversions between strings and character vectors
// ---------------------------------------------------------------------

/// The characters of a string slice, in order.
pub(crate) fn chars_of(s: &str) -> (v: Vec<char>)
    ensures
        v@ == s@,
{
    broadcast use vstd::string::axiom_spec_iter, vstd::string::next_postcondition;
    let mut it = s.chars();
    let mut v: Vec<char> = Vec::new();
    loop
        invariant
            v@ + it.remaining() == s@,
            it.decrease() is Some,
        ensures
            v@ == s@,
        decreases it.decrease()->0,
    {
        match it.next() {
            Some(c) => {
                v.push(c);
            },
            None => {
                break;
            },
        }
    }
    v
}

/// A string holding exactly the characters `v[lo..hi]`.
///
/// Trusted: collects the characters with `FromIterator<&char> for String`;
/// the contract claims the string's characters are the slice's, in order.
#[verifier::external_body]
pub(crate) fn string_of_range(v: &Vec<char>, lo: usize, hi: usize) -> (s: String)
    requires
        lo <= hi <= v.len(),
    ensures
        s@ == v@.subrange(lo as int, hi as int),
{
    v[lo..hi].iter().collect::<String>()
}

/// A string holding exactly the characters of `v`.
pub fn string_of(v: &Vec<char>) -> (s: String)
    ensures
        s@ == v@,
{
    let s = string_of_range(v, 0, v.len());
    proof {
        assert(v@.subrange(0, v@.len() as int) =~= v@);
    }
    s
}

/// Appends the characters of `s` to `out`.
pub fn push_str(out: &mut Vec<char>, s: &str)
    ensures
        final(out)@ == old(out)@ + s@,
{
    let cs = chars_of(s);
    push_all(out, &cs);
}

/// Appends the characters of `src` to `out`.
pub fn push_all(out: &mut Vec<char>, src: &Vec<char>)
    ensures
        final(out)@ == old(out)@ + src@,
{
    push_range(out, src, 0, src.len());
    proof {
        assert(src@.subrange(0, src@.len() as int) =~= src@);
    }
}

/// Appends the characters `src[lo..hi]` to `out`.
pub fn push_range(out: &mut Vec<char>, src: &Vec<char>, lo: usize, hi: usize)
    requires
        lo <= hi <= src.len(),
    ensures
        final(out)@ == old(out)@ + src@.subrange(lo as int, hi as int),
{
    let ghost start = out@;
    let mut i = lo;
    while i < hi
        invariant
            lo <= i <= hi <= src.len(),
            out@ == start + src@.subrange(lo as int, i as int),
        decreases hi - i,
    {
        proof {
            assert(src@.subrange(lo as int, i as int + 1) =~= src@.subrange(lo as int, i as int).push(src@[i as int]));
        }
        out.push(src[i]);
        i = i + 1;
    }
}

/// The characters `src[lo..hi]` as a new vector.
pub fn copy_range(src: &Vec<char>, lo: usize, hi: usize) -> (r: Vec<char>)
    requires
        lo <= hi <= src.len(),
    ensures
        r@ == src@.subrange(lo as int, hi as int),
{
    let mut r: Vec<char> = Vec::new();
    push_range(&mut r, src, lo, hi);
    proof {
        assert(Seq::<char>::empty() + src@.subrange(lo as int, hi as int) =~= src@.subrange(lo as int, hi as int));
    }
    r
}

/// Whether two character vectors hold the same characters.
pub fn chars_eq(a: &Vec<char>, b: &Vec<char>) -> (r: bool)
    ensures
        r == (a@ == b@),
{
    if a.len() != b.len() {
        return false;
    }
    let mut i: usize = 0;
    while i < a.len()
        invariant
            a.len() == b.len(),
            i <= a.len(),
            forall|k: int| 0 <= k < i ==> a@[k] == b@[k],
        decreases a.len() - i,
    {
        if a[i] != b[i] {
            return false;
        }
        i = i + 1;
    }
    proof {
        assert(a@ =~= b@);
    }
    true
}

/// Whether a string and a character vector hold the same characters.
pub fn str_eq_chars(a: &str, b: &Vec<char>) -> (r: bool)
    ensures
        r == (a@ == b@),
{
    let av = chars_of(a);
    chars_eq(&av, b)
}

/// Whether two strings hold the same characters.
pub fn str_eq(a: &str, b: &str) -> (r: bool)
    ensures
        r == (a@ == b@),
{
    let av = chars_of(a);
    let bv = chars_of(b);
    chars_eq(&av, &bv)
}

// ---------------------------------------------------------------------
// Whitespace and trimming
// ---------------------------------------------------------------------

/// `char::is_whitespace`: the Unicode `White_Space` property.
pub open spec fn is_ws(c: char) -> bool {
    let u = c as u32;
    ||| 9 <= u && u <= 13
    ||| u == 32
    ||| u == 0x85
    ||| u == 0xA0
    ||| u == 0x1680
    ||| 0x2000 <= u && u <= 0x200A
    ||| u == 0x2028
    ||| u == 0x2029
    ||| u == 0x202F
    ||| u == 0x205F
    ||| u == 0x3000
}

pub fn char_is_ws(c: char) -> (b: bool)
    ensures
        b == is_ws(c),
{
    let u = c as u32;
    (9 <= u && u <= 13) || u == 32 || u == 0x85 || u == 0xA0 || u == 0x1680 || (0x2000 <= u && u
        <= 0x200A) || u == 0x2028 || u == 0x2029 || u == 0x202F || u == 0x205F || u == 0x3000
}

/// `str::trim_start`: leading whitespace removed.
pub open spec fn trim_start(s: Seq<char>) -> Seq<char>
    decreases s.len(),
{
    if s.len() > 0 && is_ws(s[0]) {
        trim_start(s.drop_first())
    } else {
        s
    }
}

/// `str::trim_end`: trailing whitespace removed.
pub open spec fn trim_end(s: Seq<char>) -> Seq<char>
    decreases s.len(),
{
    if s.len() > 0 && is_ws(s.last()) {
        trim_end(s.drop_last())
    } else {
        s
    }
}

/// `str::trim`: whitespace removed from both ends.
pub open spec fn trim(s: Seq<char>) -> Seq<char> {
    trim_end(trim_start(s))
}

/// The bounds of `trim(s[lo..hi])` inside `s`.
pub fn trim_bounds(s: &Vec<char>, lo: usize, hi: usize) -> (r: (usize, usize))
    requires
        lo <= hi <= s.len(),
    ensures
        lo <= r.0 <= r.1 <= hi,
        s@.subrange(r.0 as int, r.1 as int) == trim(s@.subrange(lo as int, hi as int)),
{
    let mut i = lo;
    while i < hi && char_is_ws(s[i])
        invariant
            lo <= i <= hi <= s.len(),
            trim_start(s@.subrange(lo as int, hi as int)) == trim_start(
                s@.subrange(i as int, hi as int),
            ),
        decreases hi - i,
    {
        proof {
            assert(s@.subrange(i as int, hi as int).drop_first() =~= s@.subrange(
                i as int + 1,
                hi as int,
            ));
        }
        i = i + 1;
    }
    assert(trim_start(s@.subrange(i as int, hi as int)) == s@.subrange(i as int, hi as int));
    let mut j = hi;
    while j > i && char_is_ws(s[j - 1])
        invariant
            lo <= i <= j <= hi <= s.len(),
            trim_end(s@.subrange(i as int, hi as int)) == trim_end(s@.subrange(i as int, j as int)),
        decreases j - i,
    {
        proof {
            assert(s@.subrange(i as int, j as int).drop_last() =~= s@.subrange(
                i as int,
                j as int - 1,
            ));
        }
        j = j - 1;
    }
    (i, j)
}

/// The characters of `trim(s)` as a vector.
pub fn trimmed_chars(s: &str) -> (r: Vec<char>)
    ensures
        r@ == trim(s@),
{
    let cs = chars_of(s);
    let (a, b) = trim_bounds(&cs, 0, cs.len());
    proof {
        assert(cs@.subrange(0, cs@.len() as int) =~= cs@);
    }
    copy_range(&cs, a, b)
}

/// Trimming text that neither starts nor ends in whitespace changes nothing.
pub proof fn lemma_trim_unchanged(s: Seq<char>)
    requires
        s.len() == 0 || (!is_ws(s[0]) && !is_ws(s.last())),
    ensures
        trim(s) == s,
{
}

// ---------------------------------------------------------------------
// Searching
// ---------------------------------------------------------------------

/// `p` occurs in `s` starting at index `i`.
pub open spec fn match_at(s: Seq<char>, p: Seq<char>, i: int) -> bool {
    0 <= i && i + p.len() <= s.len() && s.subrange(i, i + p.len()) == p
}

/// `str::find` from `start`: the first index `i >= start` where `p` occurs.
pub open spec fn find_from(s: Seq<char>, p: Seq<char>, start: int) -> Option<int>
    decreases s.len() + 1 - start,
{
    if start < 0 || start + p.len() > s.len() {
        None
    } else if match_at(s, p, start) {
        Some(start)
    } else {
        find_from(s, p, start + 1)
    }
}

/// `str::find`: the first index where `p` occurs.
pub open spec fn find(s: Seq<char>, p: Seq<char>) -> Option<int> {
    find_from(s, p, 0)
}

pub proof fn lemma_find_from_props(s: Seq<char>, p: Seq<char>, start: int)
    requires
        0 <= start,
    ensures
        match find_from(s, p, start) {
            Some(i) => start <= i && match_at(s, p, i) && forall|j: int|
                start <= j < i ==> !match_at(s, p, j),
            None => forall|j: int| start <= j ==> !match_at(s, p, j),
        },
    decreases s.len() + 1 - start,
{
    if start < 0 || start + p.len() > s.len() {
    } else if match_at(s, p, start) {
    } else {
        lemma_find_from_props(s, p, start + 1);
    }
}

/// Whether `p` occurs in `s` at index `i`.
pub fn matches_at(s: &Vec<char>, p: &Vec<char>, i: usize) -> (b: bool)
    ensures
        b == match_at(s@, p@, i as int),
{
    if i > s.len() || p.len() > s.len() - i {
        return false;
    }
    let mut k: usize = 0;
    while k < p.len()
        invariant
            i + p.len() <= s.len(),
            k <= p.len(),
            forall|m: int| 0 <= m < k ==> s@[i + m] == p@[m],
        decreases p.len() - k,
    {
        if s[i + k] != p[k] {
            proof {
                assert(s@.subrange(i as int, i + p.len())[k as int] != p@[k as int]);
            }
            return false;
        }
        k = k + 1;
    }
    proof {
        assert(s@.subrange(i as int, i + p.len()) =~= p@);
    }
    true
}

/// `str::find` from `start`, with the index taken in the whole vector.
pub fn find_chars(s: &Vec<char>, p: &Vec<char>, start: usize) -> (r: Option<usize>)
    ensures
        match r {
            Some(i) => find_from(s@, p@, start as int) == Some(i as int),
            None => find_from(s@, p@, start as int) is None,
        },
{
    let mut i = start;
    while i <= s.len() && p.len() <= s.len() - i
        invariant
            start <= i,
            find_from(s@, p@, start as int) == find_from(s@, p@, i as int),
        decreases s.len() + 1 - i,
    {
        if matches_at(s, p, i) {
            return Some(i);
        }
        if i == s.len() {
            proof {
                assert(s@.subrange(i as int, i as int) =~= p@);
            }
            return None;
        }
        i = i + 1;
    }
    None
}

/// First index `>= start` holding `c`, or `s.len()` when there is none.
pub open spec fn index_of_from(s: Seq<char>, c: char, start: int) -> int
    decreases s.len() - start,
{
    if start >= s.len() {
        s.len() as int
    } else if s[start] == c {
        start
    } else {
        index_of_from(s, c, start + 1)
    }
}

pub proof fn lemma_index_of_from(s: Seq<char>, c: char, start: int)
    requires
        0 <= start,
    ensures
        start <= index_of_from(s, c, start) || (start > s.len() && index_of_from(s, c, start)
            == s.len()),
        index_of_from(s, c, start) <= s.len() || start > s.len(),
        index_of_from(s, c, start) < s.len() ==> s[index_of_from(s, c, start)] == c,
        forall|j: int| start <= j < index_of_from(s, c, start) && j < s.len() ==> s[j] != c,
    decreases s.len() - start,
{
    if start >= s.len() {
    } else if s[start] == c {
    } else {
        lemma_index_of_from(s, c, start + 1);
    }
}

/// First index `>= start` holding `c`, or `s.len()`.
pub fn index_of_char(s: &Vec<char>, c: char, start: usize) -> (r: usize)
    requires
        start <= s.len(),
    ensures
        r as int == index_of_from(s@, c, start as int),
        start <= r <= s.len(),
{
    proof {
        lemma_index_of_from(s@, c, start as int);
    }
    let mut i = start;
    while i < s.len() && s[i] != c
        invariant
            start <= i <= s.len(),
            index_of_from(s@, c, start as int) == index_of_from(s@, c, i as int),
        decreases s.len() - i,
    {
        i = i + 1;
    }
    i
}

/// Last index `< end` holding `c`, or `-1` when there is none.
pub open spec fn last_index_before(s: Seq<char>, c: char, end: int) -> int
    decreases end,
{
    if end <= 0 {
        -1
    } else if s[end - 1] == c {
        end - 1
    } else {
        last_index_before(s, c, end - 1)
    }
}

pub proof fn lemma_last_index_before(s: Seq<char>, c: char, end: int)
    requires
        end <= s.len(),
    ensures
        -1 <= last_index_before(s, c, end) < end || (end <= 0 && last_index_before(s, c, end)
            == -1),
        last_index_before(s, c, end) >= 0 ==> s[last_index_before(s, c, end)] == c,
        forall|j: int| last_index_before(s, c, end) < j < end && 0 <= j ==> s[j] != c,
    decreases end,
{
    if end <= 0 {
    } else if s[end - 1] == c {
    } else {
        lemma_last_index_before(s, c, end - 1);
    }
}

/// Last index `< end` holding `c`, if any.
pub fn rfind_char(s: &Vec<char>, c: char, end: usize) -> (r: Option<usize>)
    requires
        end <= s.len(),
    ensures
        match r {
            Some(i) => last_index_before(s@, c, end as int) == i as int,
            None => last_index_before(s@, c, end as int) == -1,
        },
{
    let mut j = end;
    while j > 0 && s[j - 1] != c
        invariant
            j <= end <= s.len(),
            last_index_before(s@, c, end as int) == last_index_before(s@, c, j as int),
        decreases j,
    {
        j = j - 1;
    }
    if j == 0 {
        None
    } else {
        Some(j - 1)
    }
}

// ---------------------------------------------------------------------
// Splitting
// ---------------------------------------------------------------------

/// `str::split(c)` applied to `s[start..]`.
pub open spec fn split_char_from(s: Seq<char>, c: char, start: int) -> Seq<Seq<char>>
    decreases s.len() + 1 - start,
{
    if start < 0 || start > s.len() {
        seq![]
    } else {
        let e = index_of_from(s, c, start);
        proof {
            lemma_index_of_from(s, c, start);
        }
        if e >= s.len() {
            seq![s.subrange(start, s.len() as int)]
        } else {
            seq![s.subrange(start, e)] + split_char_from(s, c, e + 1)
        }
    }
}

/// `str::split(c)`: the pieces between occurrences of `c`.
pub open spec fn split_char(s: Seq<char>, c: char) -> Seq<Seq<char>> {
    split_char_from(s, c, 0)
}

/// One step of walking the pieces of `split_char_from`.
pub proof fn lemma_split_step(s: Seq<char>, c: char, start: int)
    requires
        0 <= start <= s.len(),
    ensures
        index_of_from(s, c, start) < s.len() ==> split_char_from(s, c, start) == seq![
            s.subrange(start, index_of_from(s, c, start)),
        ] + split_char_from(s, c, index_of_from(s, c, start) + 1),
        index_of_from(s, c, start) >= s.len() ==> split_char_from(s, c, start) == seq![
            s.subrange(start, s.len() as int),
        ],
        split_char_from(s, c, start).len() > 0,
        split_char_from(s, c, start)[0] == s.subrange(start, index_of_from(s, c, start)),
        split_char_from(s, c, start).drop_first() == (if index_of_from(s, c, start) < s.len() {
            split_char_from(s, c, index_of_from(s, c, start) + 1)
        } else {
            Seq::<Seq<char>>::empty()
        }),
{
    lemma_index_of_from(s, c, start);
    let e = index_of_from(s, c, start);
    if e < s.len() {
        let rest = split_char_from(s, c, e + 1);
        assert((seq![s.subrange(start, e)] + rest).drop_first() =~= rest);
    } else {
        assert(seq![s.subrange(start, s.len() as int)].drop_first() =~= Seq::<Seq<char>>::empty());
    }
}


/// `str::split(p)` applied to `s[start..]`, for a nonempty pattern.
pub open spec fn split_str_from(s: Seq<char>, p: Seq<char>, start: int) -> Seq<Seq<char>>
    decreases s.len() + 1 - start,
{
    if start < 0 || start > s.len() || p.len() == 0 {
        seq![]
    } else {
        match find_from(s, p, start) {
            None => seq![s.subrange(start, s.len() as int)],
            Some(e) => {
                proof {
                    lemma_find_from_props(s, p, start);
                }
                seq![s.subrange(start, e)] + split_str_from(s, p, e + p.len())
            },
        }
    }
}

/// `str::split(p)`: the pieces between non-overlapping occurrences of
/// `p`, found left to right.
pub open spec fn split_str(s: Seq<char>, p: Seq<char>) -> Seq<Seq<char>> {
    split_str_from(s, p, 0)
}

pub proof fn lemma_split_str_step(s: Seq<char>, p: Seq<char>, start: int)
    requires
        0 <= start <= s.len(),
        p.len() > 0,
    ensures
        split_str_from(s, p, start).len() > 0,
        match find_from(s, p, start) {
            Some(e) => {
                &&& start <= e
                &&& e + p.len() <= s.len()
                &&& split_str_from(s, p, start)[0] == s.subrange(start, e)
                &&& split_str_from(s, p, start).drop_first() == split_str_from(s, p, e + p.len())
            },
            None => {
                &&& split_str_from(s, p, start)[0] == s.subrange(start, s.len() as int)
                &&& split_str_from(s, p, start).drop_first() == Seq::<Seq<char>>::empty()
            },
        },
{
    lemma_find_from_props(s, p, start);
    match find_from(s, p, start) {
        Some(e) => {
            let rest = split_str_from(s, p, e + p.len());
            assert((seq![s.subrange(start, e)] + rest).drop_first() =~= rest);
        },
        None => {
            assert(seq![s.subrange(start, s.len() as int)].drop_first() =~= Seq::<Seq<char>>::empty());
        },
    }
}

// ---------------------------------------------------------------------
// UTF-8 lengths
// ---------------------------------------------------------------------

/// `char::len_utf8`.
pub open spec fn utf8_len(c: char) -> nat {
    let u = c as u32;
    if u < 0x80 {
        1
    } else if u < 0x800 {
        2
    } else if u < 0x10000 {
        3
    } else {
        4
    }
}

/// `str::len`: the number of bytes in the UTF-8 encoding.
pub open spec fn byte_len(s: Seq<char>) -> nat
    decreases s.len(),
{
    if s.len() == 0 {
        0
    } else {
        byte_len(s.drop_last()) + utf8_len(s.last())
    }
}

pub fn char_len_utf8(c: char) -> (n: usize)
    ensures
        n == utf8_len(c),
        1 <= n <= 4,
{
    let u = c as u32;
    if u < 0x80 {
        1
    } else if u < 0x800 {
        2
    } else if u < 0x10000 {
        3
    } else {
        4
    }
}

pub proof fn lemma_byte_len_push(s: Seq<char>, c: char)
    ensures
        byte_len(s.push(c)) == byte_len(s) + utf8_len(c),
{
    assert(s.push(c).drop_last() =~= s);
}

pub proof fn lemma_byte_len_append(a: Seq<char>, b: Seq<char>)
    ensures
        byte_len(a + b) == byte_len(a) + byte_len(b),
    decreases b.len(),
{
    if b.len() == 0 {
        assert(a + b =~= a);
    } else {
        assert((a + b).drop_last() =~= a + b.drop_last());
        lemma_byte_len_append(a, b.drop_last());
    }
}

pub proof fn lemma_byte_len_bounds(s: Seq<char>)
    ensures
        s.len() <= byte_len(s) <= 4 * s.len(),
    decreases s.len(),
{
    if s.len() > 0 {
        lemma_byte_len_bounds(s.drop_last());
    }
}

/// The UTF-8 length of `s[lo..hi]`, when it fits in a `usize`.
pub fn byte_len_range(s: &Vec<char>, lo: usize, hi: usize) -> (n: usize)
    requires
        lo <= hi <= s.len(),
        4 * s.len() <= usize::MAX,
    ensures
        n == byte_len(s@.subrange(lo as int, hi as int)),
{
    let mut n: usize = 0;
    let mut i = lo;
    while i < hi
        invariant
            lo <= i <= hi <= s.len(),
            4 * s.len() <= usize::MAX,
            n == byte_len(s@.subrange(lo as int, i as int)),
            n <= 4 * (i - lo),
        decreases hi - i,
    {
        proof {
            assert(s@.subrange(lo as int, i as int + 1) =~= s@.subrange(lo as int, i as int).push(
                s@[i as int],
            ));
            lemma_byte_len_push(s@.subrange(lo as int, i as int), s@[i as int]);
        }
        n = n + char_len_utf8(s[i]);
        i = i + 1;
    }
    n
}

// ---------------------------------------------------------------------
// Decimal numbers
// ---------------------------------------------------------------------

pub open spec fn digit_char(d: nat) -> char
    recommends
        d < 10,
{
    if d == 0 {
        '0'
    } else if d == 1 {
        '1'
    } else if d == 2 {
        '2'
    } else if d == 3 {
        '3'
    } else if d == 4 {
        '4'
    } else if d == 5 {
        '5'
    } else if d == 6 {
        '6'
    } else if d == 7 {
        '7'
    } else if d == 8 {
        '8'
    } else {
        '9'
    }
}

pub open spec fn is_digit(c: char) -> bool {
    '0' <= c && c <= '9'
}

pub open spec fn digit_value(c: char) -> nat {
    (c as u32 - '0' as u32) as nat
}

/// `u64`'s `Display`: the shortest decimal spelling.
pub open spec fn decimal(n: nat) -> Seq<char>
    decreases n,
{
    if n < 10 {
        seq![digit_char(n)]
    } else {
        decimal(n / 10).push(digit_char(n % 10))
    }
}

/// All characters are ASCII digits.
pub open spec fn all_digits(s: Seq<char>) -> bool {
    forall|i: int| 0 <= i < s.len() ==> is_digit(#[trigger] s[i])
}

/// The year of an RFC 3339 reading: four digits, or a sign and four to
/// six digits for years outside 0 through 9999.
pub open spec fn year_text(y: Seq<char>) -> bool {
    ||| (y.len() == 4 && all_digits(y))
    ||| (5 <= y.len() <= 7 && (y[0] == '+' || y[0] == '-') && all_digits(y.drop_first()))
}

/// `-MM-DDTHH:MM:SS`, each field two ASCII digits.
pub open spec fn date_time_fields(c: Seq<char>) -> bool {
    &&& c.len() == 15
    &&& c[0] == '-' && is_digit(c[1]) && is_digit(c[2])
    &&& c[3] == '-' && is_digit(c[4]) && is_digit(c[5])
    &&& c[6] == 'T' && is_digit(c[7]) && is_digit(c[8])
    &&& c[9] == ':' && is_digit(c[10]) && is_digit(c[11])
    &&& c[12] == ':' && is_digit(c[13]) && is_digit(c[14])
}

/// Fractional seconds: none, or a `.` and one to nine digits.
pub open spec fn fraction_text(f: Seq<char>) -> bool {
    f.len() == 0 || (2 <= f.len() <= 10 && f[0] == '.' && all_digits(f.drop_first()))
}

/// An RFC 3339 reading whose zone is written `zone`: year, date and
/// time fields, optional fractional seconds, then the zone.
pub open spec fn rfc3339_text(s: Seq<char>, zone: Seq<char>) -> bool {
    exists|y: int, f: int|
        #![trigger s.take(y), s.subrange(y + 15, y + 15 + f)]
        0 <= y && 0 <= f && y + 15 + f + zone.len() == s.len() && year_text(s.take(y))
            && date_time_fields(s.subrange(y, y + 15)) && fraction_text(
            s.subrange(y + 15, y + 15 + f),
        ) && s.skip(y + 15 + f) == zone
}

/// The value of a run of ASCII digits.
pub open spec fn digits_value(s: Seq<char>) -> nat
    decreases s.len(),
{
    if s.len() == 0 {
        0
    } else {
        digits_value(s.drop_last()) * 10 + digit_value(s.last())
    }
}

/// A nonempty run of ASCII digits whose value fits in a `u64`.
pub open spec fn parse_digits(d: Seq<char>) -> Option<u64> {
    if d.len() > 0 && all_digits(d) && digits_value(d) <= u64::MAX {
        Some(digits_value(d) as u64)
    } else {
        None
    }
}

/// `<u64 as FromStr>::from_str`: an optional `+`, then one or more ASCII
/// digits whose value fits in a `u64`.
pub open spec fn parse_u64_spec(s: Seq<char>) -> Option<u64> {
    if s.len() > 0 && s[0] == '+' {
        parse_digits(s.drop_first())
    } else {
        parse_digits(s)
    }
}

proof fn lemma_digit_char(d: nat)
    requires
        d < 10,
    ensures
        is_digit(digit_char(d)),
        digit_value(digit_char(d)) == d,
        digit_char(d) != '+',
{
}

pub proof fn lemma_decimal_props(n: nat)
    ensures
        decimal(n).len() > 0,
        all_digits(decimal(n)),
        digits_value(decimal(n)) == n,
    decreases n,
{
    if n < 10 {
        lemma_digit_char(n);
        assert(decimal(n).drop_last() =~= Seq::<char>::empty());
        assert(digits_value(Seq::<char>::empty()) == 0);
        assert(digits_value(decimal(n)) == digits_value(decimal(n).drop_last()) * 10 + digit_value(decimal(n).last()));
    } else {
        lemma_decimal_props(n / 10);
        lemma_digit_char(n % 10);
        let s = decimal(n);
        assert(s.drop_last() =~= decimal(n / 10));
        assert(s.last() == digit_char(n % 10));
        assert(digits_value(s) == digits_value(decimal(n / 10)) * 10 + digit_value(s.last()));
        assert(n == (n / 10) * 10 + n % 10);
        assert(digits_value(s) == n);
        assert forall|i: int| 0 <= i < s.len() implies is_digit(#[trigger] s[i]) by {
            if i < s.len() - 1 {
                assert(s[i] == decimal(n / 10)[i]);
            }
        }
    }
}

/// Reading back a printed number gives the number.
pub proof fn lemma_parse_decimal(n: u64)
    ensures
        parse_u64_spec(decimal(n as nat)) == Some(n),
{
    lemma_decimal_props(n as nat);
    assert(is_digit(decimal(n as nat)[0]));
}

/// The decimal spelling of `n`.
pub fn u64_to_chars(n: u64) -> (r: Vec<char>)
    ensures
        r@ == decimal(n as nat),
    decreases n,
{
    if n < 10 {
        let c = digit_of(n);
        let mut r: Vec<char> = Vec::new();
        r.push(c);
        proof {
            assert(r@ =~= seq![digit_char(n as nat)]);
        }
        r
    } else {
        let mut r = u64_to_chars(n / 10);
        r.push(digit_of(n % 10));
        r
    }
}

fn digit_of(d: u64) -> (c: char)
    requires
        d < 10,
    ensures
        c == digit_char(d as nat),
{
    if d == 0 {
        '0'
    } else if d == 1 {
        '1'
    } else if d == 2 {
        '2'
    } else if d == 3 {
        '3'
    } else if d == 4 {
        '4'
    } else if d == 5 {
        '5'
    } else if d == 6 {
        '6'
    } else if d == 7 {
        '7'
    } else if d == 8 {
        '8'
    } else {
        '9'
    }
}

/// `s[lo..hi].parse::<u64>()`, with the error reduced to `None`.
pub fn parse_u64_range(s: &Vec<char>, lo: usize, hi: usize) -> (r: Option<u64>)
    requires
        lo <= hi <= s.len(),
    ensures
        r == parse_u64_spec(s@.subrange(lo as int, hi as int)),
{
    let ghost t = s@.subrange(lo as int, hi as int);
    let mut i = lo;
    if i < hi && s[i] == '+' {
        i = i + 1;
    }
    let ghost d = s@.subrange(i as int, hi as int);
    proof {
        assert(t.len() > 0 ==> t[0] == s@[lo as int]);
        if lo < hi && s@[lo as int] == '+' {
            assert(t.drop_first() =~= d);
        } else {
            assert(t =~= d);
        }
    }
    if i == hi {
        return None;
    }
    let start = i;
    let mut v: u64 = 0;
    while i < hi
        invariant
            start <= i <= hi <= s.len(),
            d == s@.subrange(start as int, hi as int),
            d.len() > 0,
            parse_u64_spec(s@.subrange(lo as int, hi as int)) == parse_digits(d),
            all_digits(s@.subrange(start as int, i as int)),
            v == digits_value(s@.subrange(start as int, i as int)),
        decreases hi - i,
    {
        let c = s[i];
        let ghost pre = s@.subrange(start as int, i as int);
        let ghost post = s@.subrange(start as int, i as int + 1);
        proof {
            assert(post.drop_last() =~= pre);
            assert(post.last() == c);
        }
        if !('0' <= c && c <= '9') {
            proof {
                assert(d[i - start] == c);
                assert(!is_digit(d[i - start]));
                assert(!all_digits(d));
            }
            return None;
        }
        let dv = (c as u32 - '0' as u32) as u64;
        if v > (u64::MAX - dv) / 10 {
            proof {
                // every further digit only grows the value
                lemma_digits_value_prefix_le(d, (i - start + 1) as int);
                assert(d.subrange(0, (i - start + 1) as int) =~= post);
                assert(digits_value(post) == v * 10 + dv);
                assert(v * 10 + dv > u64::MAX) by (nonlinear_arith)
                    requires
                        v > (u64::MAX - dv) / 10,
                        dv <= 9,
                ;
                assert(!all_digits(d) || digits_value(d) > u64::MAX);
            }
            return None;
        }
        v = v * 10 + dv;
        i = i + 1;
        proof {
            assert forall|k: int| 0 <= k < post.len() implies is_digit(#[trigger] post[k]) by {
                if k < pre.len() {
                    assert(post[k] == pre[k]);
                }
            }
        }
    }
    Some(v)
}

proof fn lemma_digits_value_prefix_le(d: Seq<char>, k: int)
    requires
        0 <= k <= d.len(),
    ensures
        digits_value(d.subrange(0, k)) <= digits_value(d) || !all_digits(d),
    decreases d.len(),
{
    if k == d.len() {
        assert(d.subrange(0, k) =~= d);
    } else {
        lemma_digits_value_prefix_le(d.drop_last(), k);
        assert(d.drop_last().subrange(0, k) =~= d.subrange(0, k));
        if all_digits(d) {
            assert(all_digits(d.drop_last())) by {
                assert forall|i: int| 0 <= i < d.drop_last().len() implies is_digit(
                    #[trigger] d.drop_last()[i],
                ) by {
                    assert(d.drop_last()[i] == d[i]);
                }
            }
        }
    }
}


// ---------------------------------------------------------------------
// Replacing
// ---------------------------------------------------------------------

/// `str::replace(p, r)` applied to `s[start..]`: each non-overlapping
/// occurrence of the nonempty `p`, found left to right, becomes `r`.
pub open spec fn replace_from(s: Seq<char>, p: Seq<char>, r: Seq<char>, start: int) -> Seq<char>
    decreases s.len() + 1 - start,
{
    if start < 0 || start > s.len() || p.len() == 0 {
        Seq::empty()
    } else {
        match find_from(s, p, start) {
            None => s.subrange(start, s.len() as int),
            Some(e) => {
                proof {
                    lemma_find_from_props(s, p, start);
                }
                s.subrange(start, e) + r + replace_from(s, p, r, e + p.len())
            },
        }
    }
}

/// `str::replace(p, r)` for a nonempty pattern.
pub open spec fn replace_spec(s: Seq<char>, p: Seq<char>, r: Seq<char>) -> Seq<char> {
    replace_from(s, p, r, 0)
}

/// Every occurrence of the nonempty `p` in `s` replaced by `r`.
#[verifier::spinoff_prover]
pub fn replace_chars(s: &Vec<char>, p: &Vec<char>, r: &Vec<char>) -> (out: Vec<char>)
    requires
        p@.len() > 0,
    ensures
        out@ == replace_spec(s@, p@, r@),
{
    let mut out: Vec<char> = Vec::new();
    let mut pos: usize = 0;
    loop
        invariant
            pos <= s@.len(),
            p@.len() > 0,
            replace_spec(s@, p@, r@) == out@ + replace_from(s@, p@, r@, pos as int),
        decreases s@.len() - pos,
    {
        proof {
            lemma_find_from_props(s@, p@, pos as int);
        }
        match find_chars(s, p, pos) {
            None => {
                push_range(&mut out, s, pos, s.len());
                proof {
                    assert(out@ + Seq::<char>::empty() =~= out@);
                }
                return out;
            },
            Some(e) => {
                let ghost before = out@;
                push_range(&mut out, s, pos, e);
                push_all(&mut out, r);
                proof {
                    assert(before + (s@.subrange(pos as int, e as int) + r@ + replace_from(
                        s@,
                        p@,
                        r@,
                        e + p@.len(),
                    )) =~= out@ + replace_from(s@, p@, r@, e + p@.len()));
                }
                pos = e + p.len();
            },
        }
    }
}

/// Replacing a pattern that does not occur changes nothing.
pub proof fn lemma_replace_absent(s: Seq<char>, p: Seq<char>, r: Seq<char>)
    requires
        p.len() > 0,
        find(s, p) is None,
    ensures
        replace_spec(s, p, r) == s,
{
    assert(s.subrange(0, s.len() as int) =~= s);
}


// ---------------------------------------------------------------------
// Joining
// ---------------------------------------------------------------------

/// `[String]::join(sep)`: the pieces with `sep` between neighbours.
pub open spec fn join_with(items: Seq<Seq<char>>, sep: Seq<char>) -> Seq<char>
    decreases items.len(),
{
    if items.len() == 0 {
        Seq::empty()
    } else if items.len() == 1 {
        items[0]
    } else {
        join_with(items.drop_last(), sep) + sep + items.last()
    }
}

/// The pieces joined with `sep`.
pub fn join_chars(items: &Vec<Vec<char>>, sep: &str) -> (r: Vec<char>)
    ensures
        r@ == join_with(views::<Vec<char>>(items@), sep@),
{
    let mut out: Vec<char> = Vec::new();
    let mut i: usize = 0;
    while i < items.len()
        invariant
            i <= items@.len(),
            out@ == join_with(views::<Vec<char>>(items@).take(i as int), sep@),
        decreases items@.len() - i,
    {
        if i > 0 {
            push_str(&mut out, sep);
        }
        push_all(&mut out, &items[i]);
        proof {
            let vs = views::<Vec<char>>(items@);
            assert(vs.take(i + 1).drop_last() =~= vs.take(i as int));
            assert(vs.take(i + 1).last() == items@[i as int]@);
            if i == 0 {
                assert(join_with(vs.take(0), sep@) =~= Seq::<char>::empty());
                assert(out@ =~= join_with(vs.take(1), sep@));
            } else {
                assert(out@ =~= join_with(vs.take(i + 1), sep@));
            }
        }
        i = i + 1;
    }
    proof {
        assert(views::<Vec<char>>(items@).take(items@.len() as int) =~= views::<Vec<char>>(items@));
    }
    out
}

/// Whether `s` begins with `p`.
pub fn starts_with_str(s: &Vec<char>, p: &str) -> (r: bool)
    ensures
        r == (p@.len() <= s@.len() && s@.subrange(0, p@.len() as int) == p@),
{
    let pv = chars_of(p);
    if pv.len() <= s.len() && matches_at(s, &pv, 0) {
        true
    } else {
        proof {
            if pv@.len() <= s@.len() && s@.subrange(0, pv@.len() as int) == pv@ {
                assert(match_at(s@, pv@, 0));
            }
        }
        false
    }
}

/// Longer prefixes hold more bytes.
pub proof fn lemma_take_bytes_increase(s: Seq<char>, i: int, j: int)
    requires
        0 <= i < j <= s.len(),
    ensures
        byte_len(s.take(i)) < byte_len(s.take(j)),
    decreases j - i,
{
    assert(s.take(j) =~= s.take(j - 1).push(s[j - 1]));
    lemma_byte_len_push(s.take(j - 1), s[j - 1]);
    if i < j - 1 {
        lemma_take_bytes_increase(s, i, j - 1);
    }
}

/// A prefix holds no more bytes than the whole.
pub proof fn lemma_take_bytes_le(s: Seq<char>, k: int)
    requires
        0 <= k <= s.len(),
    ensures
        byte_len(s.take(k)) <= byte_len(s),
{
    assert(s =~= s.take(k) + s.skip(k));
    lemma_byte_len_append(s.take(k), s.skip(k));
}

/// The decimal spelling of `n`.
pub fn u128_to_chars(n: u128) -> (r: Vec<char>)
    ensures
        r@ == decimal(n as nat),
    decreases n,
{
    if n < 10 {
        u64_to_chars(n as u64)
    } else {
        let mut r = u128_to_chars(n / 10);
        let d = u64_to_chars((n % 10) as u64);
        proof {
            assert(d@ == seq![digit_char((n % 10) as nat)]);
        }
        r.push(d[0]);
        r
    }
}

/// `a < b` for strings: lexicographic by code point, which is the
/// order of their UTF-8 bytes.
pub open spec fn lex_lt(a: Seq<char>, b: Seq<char>) -> bool
    decreases a.len(),
{
    if a.len() == 0 {
        b.len() > 0
    } else if b.len() == 0 {
        false
    } else if a[0] != b[0] {
        (a[0] as u32) < (b[0] as u32)
    } else {
        lex_lt(a.drop_first(), b.drop_first())
    }
}

/// Whether `a < b` as strings.
pub fn str_lt(a: &str, b: &str) -> (r: bool)
    ensures
        r == lex_lt(a@, b@),
{
    let av = chars_of(a);
    let bv = chars_of(b);
    let mut i: usize = 0;
    proof {
        assert(av@.skip(0) =~= av@);
        assert(bv@.skip(0) =~= bv@);
    }
    while i < av.len() && i < bv.len() && av[i] == bv[i]
        invariant
            i <= av@.len(),
            i <= bv@.len(),
            lex_lt(a@, b@) == lex_lt(av@.skip(i as int), bv@.skip(i as int)),
            av@ == a@,
            bv@ == b@,
        decreases av@.len() - i,
    {
        proof {
            assert(av@.skip(i as int).drop_first() =~= av@.skip(i + 1));
            assert(bv@.skip(i as int).drop_first() =~= bv@.skip(i + 1));
        }
        i = i + 1;
    }
    if i == av.len() {
        i < bv.len()
    } else if i == bv.len() {
        false
    } else {
        proof {
            assert(av@.skip(i as int)[0] == av@[i as int]);
            assert(bv@.skip(i as int)[0] == bv@[i as int]);
        }
        (av[i] as u32) < (bv[i] as u32)
    }
}


// ---------------------------------------------------------------------
// Lines: facts for reading back what was written line by line
// ---------------------------------------------------------------------

/// `c` does not occur in `s`.
pub open spec fn has_no(s: Seq<char>, c: char) -> bool {
    forall|j: int| 0 <= j < s.len() ==> s[j] != c
}

/// Every newline of `s` is followed, inside `s`, by something other
/// than `-`: no line of `s` after the first opens a `---` delimiter.
pub open spec fn no_dash_lines(s: Seq<char>) -> bool {
    forall|j: int| 0 <= j < s.len() && #[trigger] s[j] == '\n' ==> j + 1 < s.len() && s[j + 1] != '-'
}

/// Lines that can be joined with newlines and read back: none holds a
/// newline, and every line after the first is nonempty and does not
/// start with `-`.
pub open spec fn plain_lines(ls: Seq<Seq<char>>) -> bool {
    forall|i: int|
        0 <= i < ls.len() ==> has_no(#[trigger] ls[i], '\n') && (i > 0 ==> ls[i].len() > 0
            && ls[i][0] != '-')
}

/// `join_with` unfolded at the front.
pub proof fn lemma_join_front(ls: Seq<Seq<char>>, sep: Seq<char>)
    requires
        ls.len() >= 2,
    ensures
        join_with(ls, sep) == ls[0] + sep + join_with(ls.drop_first(), sep),
    decreases ls.len(),
{
    if ls.len() == 2 {
        assert(ls.drop_first().len() == 1);
        assert(join_with(ls.drop_last(), sep) == ls[0]);
        assert(join_with(ls.drop_first(), sep) == ls.drop_first()[0]);
    } else {
        let p = ls.drop_last();
        lemma_join_front(p, sep);
        assert(p.drop_first() =~= ls.drop_first().drop_last());
        assert(ls.drop_first().last() == ls.last());
        assert(join_with(ls.drop_first(), sep) == join_with(ls.drop_first().drop_last(), sep) + sep
            + ls.drop_first().last());
    }
}

/// A newline-joined list of plain lines opens no delimiter.
pub proof fn lemma_join_no_dash(ls: Seq<Seq<char>>)
    requires
        plain_lines(ls),
    ensures
        no_dash_lines(join_with(ls, seq!['\n'])),
        ls.len() > 0 ==> join_with(ls, seq!['\n']).len() >= ls[0].len(),
        ls.len() > 0 ==> join_with(ls, seq!['\n']).subrange(0, ls[0].len() as int) == ls[0],
    decreases ls.len(),
{
    let nl = seq!['\n'];
    if ls.len() <= 1 {
        if ls.len() == 1 {
            assert(join_with(ls, nl) == ls[0]);
            assert(ls[0].subrange(0, ls[0].len() as int) =~= ls[0]);
            assert(has_no(ls[0], '\n'));
        }
    } else {
        let p = ls.drop_last();
        assert(plain_lines(p)) by {
            assert forall|i: int| 0 <= i < p.len() implies has_no(#[trigger] p[i], '\n') && (i > 0
                ==> p[i].len() > 0 && p[i][0] != '-') by {
                assert(p[i] == ls[i]);
            }
        }
        lemma_join_no_dash(p);
        let a = join_with(p, nl);
        let l = ls.last();
        assert(has_no(ls[ls.len() - 1], '\n'));
        assert(l.len() > 0 && l[0] != '-');
        let s = a + nl + l;
        assert(join_with(ls, nl) == s);
        assert forall|j: int| 0 <= j < s.len() && #[trigger] s[j] == '\n' implies j + 1 < s.len() && s[j + 1]
            != '-' by {
            if j < a.len() {
                assert(s[j] == a[j]);
                assert(j + 1 < a.len() && a[j + 1] != '-');
                assert(s[j + 1] == a[j + 1]);
            } else if j == a.len() {
                assert(s[j + 1] == l[0]);
            } else {
                assert(s[j] == l[j - a.len() - 1]);
            }
        }
        assert(p[0] == ls[0]);
        assert(s.subrange(0, ls[0].len() as int) =~= a.subrange(0, ls[0].len() as int));
    }
}

/// A run of characters other than `c` ends where `c` is next found.
pub proof fn lemma_index_run(s: Seq<char>, c: char, p: int, q: int)
    requires
        0 <= p <= q <= s.len(),
        forall|j: int| p <= j < q ==> s[j] != c,
        q == s.len() || s[q] == c,
    ensures
        index_of_from(s, c, p) == q,
    decreases q - p,
{
    if p < q {
        lemma_index_run(s, c, p + 1, q);
    }
}

/// The first match from `start` is at `k` when `p` matches there and at
/// no earlier position.
pub proof fn lemma_find_first(s: Seq<char>, p: Seq<char>, start: int, k: int)
    requires
        0 <= start <= k,
        match_at(s, p, k),
        forall|j: int| start <= j < k ==> !match_at(s, p, j),
    ensures
        find_from(s, p, start) == Some(k),
    decreases k - start,
{
    if start < k {
        assert(!match_at(s, p, start));
        lemma_find_first(s, p, start + 1, k);
    }
}

/// Splitting a newline-joined list of lines free of `c` at `c` gives the
/// lines back, when `c` is the separator.
pub proof fn lemma_split_join(s: Seq<char>, c: char, p: int, ls: Seq<Seq<char>>)
    requires
        0 <= p <= s.len(),
        ls.len() >= 1,
        s.skip(p) == join_with(ls, seq![c]),
        forall|i: int| 0 <= i < ls.len() ==> has_no(#[trigger] ls[i], c),
    ensures
        split_char_from(s, c, p) == ls,
    decreases ls.len(),
{
    let l0 = ls[0];
    assert(has_no(ls[0], c));
    if ls.len() == 1 {
        assert(join_with(ls, seq![c]) == l0);
        assert forall|j: int| p <= j < s.len() implies s[j] != c by {
            assert(s[j] == s.skip(p)[j - p]);
        }
        lemma_index_run(s, c, p, s.len() as int);
        assert(s.subrange(p, s.len() as int) =~= s.skip(p));
        assert(split_char_from(s, c, p) =~= ls);
    } else {
        lemma_join_front(ls, seq![c]);
        let rest = join_with(ls.drop_first(), seq![c]);
        let q = p + l0.len();
        assert(s.skip(p) == l0 + seq![c] + rest);
        assert forall|j: int| p <= j < q implies s[j] != c by {
            assert(s[j] == s.skip(p)[j - p]);
            assert(s.skip(p)[j - p] == l0[j - p]);
        }
        assert(s[q] == s.skip(p)[l0.len() as int]);
        lemma_index_run(s, c, p, q);
        assert(s.subrange(p, q) =~= l0) by {
            assert forall|j: int| 0 <= j < l0.len() implies s.subrange(p, q)[j] == l0[j] by {
                assert(s[p + j] == s.skip(p)[j]);
            }
        }
        assert(s.skip(q + 1) =~= rest) by {
            assert forall|j: int| 0 <= j < rest.len() implies s.skip(q + 1)[j] == rest[j] by {
                assert(s[q + 1 + j] == s.skip(p)[l0.len() + 1 + j]);
            }
        }
        assert forall|i: int| 0 <= i < ls.drop_first().len() implies has_no(
            #[trigger] ls.drop_first()[i],
            c,
        ) by {
            assert(ls.drop_first()[i] == ls[i + 1]);
        }
        lemma_split_join(s, c, q + 1, ls.drop_first());
        lemma_split_step(s, c, p);
        assert(split_char_from(s, c, p) =~= seq![l0] + ls.drop_first());
        assert(seq![l0] + ls.drop_first() =~= ls);
    }
}


proof fn lemma_trim_start_len(s: Seq<char>)
    ensures
        trim_start(s).len() <= s.len(),
        s.len() > 0 && is_ws(s[0]) ==> trim_start(s).len() < s.len(),
    decreases s.len(),
{
    if s.len() > 0 && is_ws(s[0]) {
        lemma_trim_start_len(s.drop_first());
    }
}

proof fn lemma_trim_end_len(s: Seq<char>)
    ensures
        trim_end(s).len() <= s.len(),
        s.len() > 0 && is_ws(s.last()) ==> trim_end(s).len() < s.len(),
    decreases s.len(),
{
    if s.len() > 0 && is_ws(s.last()) {
        lemma_trim_end_len(s.drop_last());
    }
}

/// A nonempty text that trimming leaves alone neither starts nor ends
/// with whitespace.
pub proof fn lemma_trim_fixed(v: Seq<char>)
    requires
        trim(v) == v,
        v.len() > 0,
    ensures
        !is_ws(v[0]),
        !is_ws(v.last()),
{
    lemma_trim_start_len(v);
    lemma_trim_end_len(trim_start(v));
    if !is_ws(v[0]) {
        assert(trim_start(v) == v);
        lemma_trim_end_len(v);
    }
}

/// A space before a trimmed text trims away.
pub proof fn lemma_trim_lead_space(v: Seq<char>)
    requires
        trim(v) == v,
    ensures
        trim(seq![' '] + v) == v,
{
    let s = seq![' '] + v;
    assert(s.drop_first() =~= v);
    assert(is_ws(' '));
}

/// A space after a text that trimming leaves alone trims away.
pub proof fn lemma_trim_trail_space(y: Seq<char>)
    requires
        y.len() > 0,
        !is_ws(y[0]),
        !is_ws(y.last()),
    ensures
        trim(y + seq![' ']) == y,
{
    let s = y + seq![' '];
    assert(s[0] == y[0]);
    assert(trim_start(s) == s);
    assert(s.drop_last() =~= y);
    assert(is_ws(' '));
    assert(trim_end(y) == y);
}

} // verus!
