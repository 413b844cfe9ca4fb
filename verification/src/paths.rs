//! Unix path text: joining components and reading the final component,
//! its stem and its extension, as `std::path` reads them.

use vstd::prelude::*;
use crate::text::{
    chars_of, index_of_char, last_index_before, lemma_last_index_before, lemma_split_step,
    rfind_char, split_char, split_char_from, string_of, string_of_range, push_str,
};

verus! {

/// `Path::join`: an absolute component replaces the base; otherwise a
/// separator is added unless the base is empty or already ends in one.
pub open spec fn join(base: Seq<char>, comp: Seq<char>) -> Seq<char> {
    if comp.len() > 0 && comp[0] == '/' {
        comp
    } else if base.len() == 0 {
        comp
    } else if base.last() == '/' {
        base + comp
    } else {
        base + seq!['/'] + comp
    }
}

pub fn join_chars(base: &Vec<char>, comp: &Vec<char>) -> (r: Vec<char>)
    ensures
        r@ == join(base@, comp@),
{
    let mut r: Vec<char> = Vec::new();
    if comp.len() > 0 && comp[0] == '/' {
        crate::text::push_all(&mut r, comp);
        proof {
            assert(Seq::<char>::empty() + comp@ =~= comp@);
        }
        return r;
    }
    crate::text::push_all(&mut r, base);
    if base.len() > 0 && base[base.len() - 1] != '/' {
        r.push('/');
    }
    crate::text::push_all(&mut r, comp);
    proof {
        if base@.len() == 0 {
            assert(Seq::<char>::empty() + base@ + comp@ =~= comp@);
        } else if base@.last() == '/' {
            assert(Seq::<char>::empty() + base@ + comp@ =~= base@ + comp@);
        } else {
            assert((Seq::<char>::empty() + base@).push('/') + comp@ =~= base@ + seq!['/'] + comp@);
        }
    }
    r
}

/// `Path::join` on strings.
pub fn join_str(base: &str, comp: &str) -> (r: String)
    ensures
        r@ == join(base@, comp@),
{
    let b = chars_of(base);
    let c = chars_of(comp);
    let r = join_chars(&b, &c);
    string_of(&r)
}

/// A piece between separators that names something: not empty and not
/// the current directory `.`.
pub open spec fn is_named_piece(x: Seq<char>) -> bool {
    x.len() > 0 && x != seq!['.']
}

/// The last named piece, if any.
pub open spec fn last_named(pieces: Seq<Seq<char>>) -> Option<Seq<char>>
    decreases pieces.len(),
{
    if pieces.len() == 0 {
        None
    } else if is_named_piece(pieces.last()) {
        Some(pieces.last())
    } else {
        last_named(pieces.drop_last())
    }
}

/// `Path::file_name`: the final component, unless it is `..` or there
/// is none.
pub open spec fn file_name(p: Seq<char>) -> Option<Seq<char>> {
    match last_named(split_char(p, '/')) {
        Some(x) => if x == seq!['.', '.'] {
            None
        } else {
            Some(x)
        },
        None => None,
    }
}

/// `Path::file_stem`: the file name up to its last `.`, unless that dot
/// starts the name.
pub open spec fn stem_of(n: Seq<char>) -> Seq<char> {
    let i = last_index_before(n, '.', n.len() as int);
    if i <= 0 {
        n
    } else {
        n.take(i)
    }
}

/// `Path::extension`: what follows the file name's last `.`, unless
/// that dot starts the name.
pub open spec fn ext_of(n: Seq<char>) -> Option<Seq<char>> {
    let i = last_index_before(n, '.', n.len() as int);
    if i <= 0 {
        None
    } else {
        Some(n.skip(i + 1))
    }
}

pub open spec fn file_stem(p: Seq<char>) -> Option<Seq<char>> {
    match file_name(p) {
        Some(n) => Some(stem_of(n)),
        None => None,
    }
}

pub open spec fn extension(p: Seq<char>) -> Option<Seq<char>> {
    match file_name(p) {
        Some(n) => ext_of(n),
        None => None,
    }
}

/// The bounds of `last_named(split_char(p, '/'))` inside `p`.
fn last_named_bounds(p: &Vec<char>) -> (r: Option<(usize, usize)>)
    ensures
        match r {
            Some((a, b)) => a <= b <= p@.len() && last_named(split_char(p@, '/')) == Some(
                p@.subrange(a as int, b as int),
            ),
            None => last_named(split_char(p@, '/')) is None,
        },
{
    let mut pos: usize = 0;
    let mut best: Option<(usize, usize)> = None;
    let ghost mut done: Seq<Seq<char>> = Seq::empty();
    proof {
        assert(split_char(p@, '/') =~= done + split_char_from(p@, '/', 0));
    }
    loop
        invariant
            pos <= p@.len(),
            split_char(p@, '/') == done + split_char_from(p@, '/', pos as int),
            match best {
                Some((a, b)) => a <= b <= p@.len() && last_named(done) == Some(
                    p@.subrange(a as int, b as int),
                ),
                None => last_named(done) is None,
            },
        decreases p@.len() - pos,
    {
        let e = index_of_char(p, '/', pos);
        proof {
            lemma_split_step(p@, '/', pos as int);
        }
        let ghost piece = p@.subrange(pos as int, e as int);
        let named = e > pos && !(e == pos + 1 && p[pos] == '.');
        proof {
            if e == pos + 1 {
                assert(piece.len() == 1 && piece[0] == p@[pos as int]);
                if p@[pos as int] == '.' {
                    assert(piece =~= seq!['.']);
                }
            }
            if named {
                assert(is_named_piece(piece));
            } else {
                assert(!is_named_piece(piece));
            }
            assert(done.push(piece).drop_last() =~= done);
        }
        if named {
            best = Some((pos, e));
        }
        proof {
            let rest = split_char_from(p@, '/', pos as int);
            assert(rest == seq![piece] + rest.drop_first());
            assert(done + rest =~= done.push(piece) + rest.drop_first());
            done = done.push(piece);
        }
        if e >= p.len() {
            proof {
                assert(done + Seq::<Seq<char>>::empty() =~= done);
            }
            return best;
        }
        pos = e + 1;
    }
}

/// The bounds of the file name inside `p`, if it has one.
pub fn file_name_bounds(p: &Vec<char>) -> (r: Option<(usize, usize)>)
    ensures
        match r {
            Some((a, b)) => a <= b <= p@.len() && file_name(p@) == Some(
                p@.subrange(a as int, b as int),
            ),
            None => file_name(p@) is None,
        },
{
    match last_named_bounds(p) {
        None => None,
        Some((a, b)) => {
            if b - a == 2 && p[a] == '.' && p[a + 1] == '.' {
                proof {
                    assert(p@.subrange(a as int, b as int) =~= seq!['.', '.']);
                }
                None
            } else {
                proof {
                    let x = p@.subrange(a as int, b as int);
                    if x == seq!['.', '.'] {
                        assert(x.len() == 2);
                        assert(x[0] == p@[a as int] && x[1] == p@[a + 1]);
                    }
                }
                Some((a, b))
            }
        },
    }
}

/// The position of the stem/extension dot inside `p[a..b]`, if any.
fn ext_dot(p: &Vec<char>, a: usize, b: usize) -> (r: Option<usize>)
    requires
        a <= b <= p@.len(),
    ensures
        ({
            let n = p@.subrange(a as int, b as int);
            let i = last_index_before(n, '.', n.len() as int);
            match r {
                Some(d) => a < d < b && i == d - a && i > 0,
                None => i <= 0,
            }
        }),
{
    let n = crate::text::copy_range(p, a, b);
    proof {
        lemma_last_index_before(n@, '.', n@.len() as int);
    }
    match rfind_char(&n, '.', n.len()) {
        Some(i) => if i == 0 {
            None
        } else {
            Some(a + i)
        },
        None => None,
    }
}

/// `Path::file_stem` on a string.
pub fn file_stem_str(path: &str) -> (r: Option<String>)
    ensures
        match r {
            Some(s) => file_stem(path@) == Some(s@),
            None => file_stem(path@) is None,
        },
{
    let p = chars_of(path);
    match file_name_bounds(&p) {
        None => None,
        Some((a, b)) => match ext_dot(&p, a, b) {
            None => Some(string_of_range(&p, a, b)),
            Some(d) => {
                proof {
                    assert(p@.subrange(a as int, b as int).take(d - a) =~= p@.subrange(
                        a as int,
                        d as int,
                    ));
                }
                Some(string_of_range(&p, a, d))
            },
        },
    }
}

/// `Path::extension` on a string.
pub fn extension_str(path: &str) -> (r: Option<String>)
    ensures
        match r {
            Some(s) => extension(path@) == Some(s@),
            None => extension(path@) is None,
        },
{
    let p = chars_of(path);
    match file_name_bounds(&p) {
        None => None,
        Some((a, b)) => match ext_dot(&p, a, b) {
            None => None,
            Some(d) => {
                proof {
                    assert(p@.subrange(a as int, b as int).skip(d - a + 1) =~= p@.subrange(
                        d + 1,
                        b as int,
                    ));
                }
                Some(string_of_range(&p, d + 1, b))
            },
        },
    }
}

/// Whether the path's extension is exactly `md`.
pub fn has_md_extension(path: &str) -> (b: bool)
    ensures
        b == (extension(path@) == Some(seq!['m', 'd'])),
{
    match extension_str(path) {
        None => false,
        Some(e) => {
            let v = chars_of(e.as_str());
            let md = vec!['m', 'd'];
            proof {
                assert(md@ =~= seq!['m', 'd']);
            }
            crate::text::chars_eq(&v, &md)
        },
    }
}

/// A path with `suffix` appended to its text.
pub fn with_suffix(path: &str, suffix: &str) -> (r: String)
    ensures
        r@ == path@ + suffix@,
{
    let mut v = chars_of(path);
    push_str(&mut v, suffix);
    string_of(&v)
}

} // verus!
