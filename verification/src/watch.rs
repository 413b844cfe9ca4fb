//! Which workspace files the memory store watches: the always-watched
//! directories plus the configured ones, the parts of the tree that are
//! never indexed, and the workspace-relative readings that search
//! filters, the shape index and the flash filter go by.
//!
//! Whole-component prefix stripping is `std::path`'s and stands behind a
//! trusted reading below; normalization is written out as `std::path`
//! documents it.

use vstd::prelude::*;
use crate::memory::NoteInfo;
use crate::paths::{join, join_str};
use crate::text::{
    chars_of, index_of_char, join_with, lemma_split_step, split_char, split_char_from, str_eq,
    string_of, views,
};

verus! {

/// The names a path keeps of its pieces between `/`: all but the empty
/// ones and `.`, in order.
pub open spec fn path_names(pieces: Seq<Seq<char>>) -> Seq<Seq<char>>
    decreases pieces.len(),
{
    if pieces.len() == 0 {
        Seq::empty()
    } else if pieces.last().len() == 0 || pieces.last() == seq!['.'] {
        path_names(pieces.drop_last())
    } else {
        path_names(pieces.drop_last()).push(pieces.last())
    }
}

/// `Path::components` collected back into a path, as the standard
/// library documents it: repeated and trailing separators and `.`
/// components dropped, except a `.` that begins a relative path; a root
/// kept as a leading `/`.
#[verifier::opaque]
pub open spec fn normalized(p: Seq<char>) -> Seq<char> {
    let pieces = split_char(p, '/');
    let body = join_with(path_names(pieces), "/"@);
    if p.len() > 0 && p[0] == '/' {
        seq!['/'] + body
    } else if pieces[0] == seq!['.'] {
        if path_names(pieces).len() == 0 {
            seq!['.']
        } else {
            seq!['.', '/'] + body
        }
    } else {
        body
    }
}

/// `Path::strip_prefix`: what is left of `p` after the whole components
/// of `base`, or `None` when `base` is not a prefix of `p` (exactly when
/// `Path::starts_with` is false).
pub uninterp spec fn path_after(p: Seq<char>, base: Seq<char>) -> Option<Seq<char>>;

/// `p` normalized as `Path::components` collected into a `PathBuf` is.
pub fn normalize_path(p: &str) -> (r: String)
    ensures
        r@ == normalized(p@),
{
    let cs = chars_of(p);
    let mut names: Vec<Vec<char>> = Vec::new();
    let mut first_dot = false;
    let mut pos: usize = 0;
    let ghost mut done: Seq<Seq<char>> = Seq::empty();
    proof {
        assert(split_char(cs@, '/') =~= done + split_char_from(cs@, '/', 0));
    }
    loop
        invariant_except_break
            pos <= cs@.len(),
            split_char(cs@, '/') == done + split_char_from(cs@, '/', pos as int),
            pos == 0 ==> done.len() == 0,
        invariant
            cs@ == p@,
            views::<Vec<char>>(names@) == path_names(done),
            pos > 0 ==> done.len() > 0 && first_dot == (done[0] == seq!['.']),
        ensures
            split_char(cs@, '/') == done,
            done.len() > 0,
            first_dot == (done[0] == seq!['.']),
        decreases cs@.len() - pos,
    {
        let e = index_of_char(&cs, '/', pos);
        proof {
            lemma_split_step(cs@, '/', pos as int);
        }
        let ghost piece = cs@.subrange(pos as int, e as int);
        let ghost rest = split_char_from(cs@, '/', pos as int);
        let is_dot = e > pos && e - pos == 1 && cs[pos] == '.';
        proof {
            assert(rest[0] == piece);
            assert(is_dot == (piece == seq!['.'])) by {
                if is_dot {
                    assert(piece =~= seq!['.']);
                }
                if piece == seq!['.'] {
                    assert(piece.len() == 1 && piece[0] == '.');
                }
            }
        }
        if pos == 0 {
            first_dot = is_dot;
        }
        let ghost before = views::<Vec<char>>(names@);
        if e > pos && !is_dot {
            let v = crate::text::copy_range(&cs, pos, e);
            names.push(v);
            proof {
                assert(views::<Vec<char>>(names@) =~= before.push(piece));
            }
        }
        proof {
            assert(done.push(piece).drop_last() =~= done);
            assert(rest == seq![piece] + rest.drop_first());
            assert(done + rest =~= done.push(piece) + rest.drop_first());
            done = done.push(piece);
            assert(done[0] == split_char(cs@, '/')[0]);
        }
        if e >= cs.len() {
            proof {
                assert(rest.drop_first() =~= Seq::<Seq<char>>::empty());
                assert(split_char(cs@, '/') =~= done);
            }
            break;
        }
        pos = e + 1;
    }
    let body = crate::text::join_chars(&names, "/");
    let mut out: Vec<char> = Vec::new();
    if cs.len() > 0 && cs[0] == '/' {
        out.push('/');
        crate::text::push_all(&mut out, &body);
    } else if first_dot {
        out.push('.');
        if names.len() > 0 {
            out.push('/');
            crate::text::push_all(&mut out, &body);
        }
    } else {
        crate::text::push_all(&mut out, &body);
    }
    proof {
        reveal(normalized);
        assert(views::<Vec<char>>(names@).len() == names@.len());
        if cs@.len() > 0 && cs@[0] == '/' {
            assert(out@ =~= seq!['/'] + body@);
        } else if first_dot {
            if names.len() > 0 {
                assert(out@ =~= seq!['.', '/'] + body@);
            } else {
                assert(out@ =~= seq!['.']);
            }
        } else {
            assert(out@ =~= body@);
        }
    }
    string_of(&out)
}

/// Trusted: `Path::new(p).strip_prefix(base)`, the remainder read back
/// as a string; the contract claims only that the result is the named
/// remainder.
#[verifier::external_body]
fn strip_path_prefix(p: &str, base: &str) -> (r: Option<String>)
    ensures
        match r {
            Some(s) => path_after(p@, base@) == Some(s@),
            None => path_after(p@, base@) is None,
        },
{
    std::path::Path::new(p).strip_prefix(base).ok().map(|rest| rest.to_string_lossy().into_owned())
}

/// The directories watched whatever the configuration says.
pub open spec fn always_watched() -> Seq<Seq<char>> {
    seq!["knowledge"@, "loom"@, "record/moments"@]
}

/// `s` with every repeat of an earlier item left out, order kept.
pub open spec fn first_occurrences(s: Seq<Seq<char>>) -> Seq<Seq<char>>
    decreases s.len(),
{
    if s.len() == 0 {
        Seq::empty()
    } else {
        let r = first_occurrences(s.drop_last());
        if r.contains(s.last()) {
            r
        } else {
            r.push(s.last())
        }
    }
}

/// The watched directories: each of the always-watched and configured
/// directories joined onto the workspace and normalized, repeats
/// dropped.
pub open spec fn watched_dirs(workspace: Seq<char>, index_dirs: Seq<Seq<char>>) -> Seq<Seq<char>> {
    first_occurrences(
        (always_watched() + index_dirs).map_values(|d: Seq<char>| normalized(join(workspace, d))),
    )
}

/// A path component that keeps a file out of the index: hidden (a
/// leading dot, other than `.` itself), or the engine-managed `record`
/// and `channels`.
pub open spec fn excluded_piece(x: Seq<char>) -> bool {
    (x.len() > 1 && x[0] == '.') || x == "record"@ || x == "channels"@
}

/// Some piece of `rel` between separators is excluded. Empty pieces
/// and `.` are never excluded, so this reads the same as a check of
/// the path's components.
pub open spec fn has_excluded_piece(rel: Seq<char>) -> bool {
    exists|k: int| 0 <= k < split_char(rel, '/').len() && excluded_piece(#[trigger] split_char(rel, '/')[k])
}

/// `path` lies under one of `dirs`, whole components compared.
pub open spec fn under_some(dirs: Seq<Seq<char>>, path: Seq<char>) -> bool {
    exists|i: int| 0 <= i < dirs.len() && (#[trigger] path_after(path, dirs[i])) is Some
}

/// Watched: under a watched directory, and, read relative to the
/// workspace, free of excluded components. A watched directory outside
/// the workspace is taken as it is.
pub open spec fn watched_spec(workspace: Seq<char>, dirs: Seq<Seq<char>>, path: Seq<char>) -> bool {
    under_some(dirs, path) && match path_after(path, workspace) {
        None => true,
        Some(rel) => !has_excluded_piece(rel),
    }
}

/// `path` relative to the workspace, or `path` itself outside it.
pub open spec fn relative_spec(workspace: Seq<char>, path: Seq<char>) -> Seq<char> {
    match path_after(path, workspace) {
        Some(rel) => rel,
        None => path,
    }
}

/// Search's prefix filter: no prefixes admit everything; otherwise the
/// workspace-relative text must start with one of them, letter for
/// letter (so `knowledge` also admits `knowledgex/`).
pub open spec fn prefix_filter_spec(workspace: Seq<char>, path: Seq<char>, prefixes: Seq<Seq<char>>) -> bool {
    prefixes.len() == 0 || exists|k: int|
        0 <= k < prefixes.len() && crate::frontmatter::starts_with(
            relative_spec(workspace, path),
            #[trigger] prefixes[k],
        )
}

/// The path a note id stands for: the path of the first note with that
/// id, or the id itself.
pub open spec fn note_path(notes: Seq<(Seq<char>, Seq<char>)>, id: Seq<char>) -> Seq<char>
    decreases notes.len(),
{
    if notes.len() == 0 {
        id
    } else if notes[0].0 == id {
        notes[0].1
    } else {
        note_path(notes.drop_first(), id)
    }
}

/// The flash filter: with no flash directories every note may surface;
/// otherwise only notes whose path lies under one of them, each joined
/// onto the workspace and normalized.
pub open spec fn flash_allowed_spec(
    workspace: Seq<char>,
    flash_dirs: Seq<Seq<char>>,
    path: Seq<char>,
) -> bool {
    flash_dirs.len() == 0 || exists|k: int|
        0 <= k < flash_dirs.len() && (#[trigger] path_after(
            path,
            normalized(join(workspace, flash_dirs[k])),
        )) is Some
}

pub open spec fn note_keys(notes: Seq<NoteInfo>) -> Seq<(Seq<char>, Seq<char>)> {
    notes.map_values(|n: NoteInfo| (n.id@, n.path@))
}

/// The workspace and the directories the memory store watches in it.
#[derive(Debug)]
pub struct WatchedTree {
    workspace: String,
    watched: Vec<String>,
}

impl WatchedTree {
    pub closed spec fn workspace_spec(&self) -> Seq<char> {
        self.workspace@
    }

    pub closed spec fn dirs(&self) -> Seq<Seq<char>> {
        views::<String>(self.watched@)
    }

    /// The watched tree of `workspace` with the configured `index_dirs`
    /// added to the always-watched ones.
    pub fn new(workspace: &str, index_dirs: &Vec<String>) -> (r: WatchedTree)
        ensures
            r.workspace_spec() == workspace@,
            r.dirs() == watched_dirs(workspace@, views::<String>(index_dirs@)),
    {
        let mut all: Vec<String> = Vec::new();
        all.push("knowledge".to_string());
        all.push("loom".to_string());
        all.push("record/moments".to_string());
        let mut i: usize = 0;
        while i < index_dirs.len()
            invariant
                i <= index_dirs@.len(),
                views::<String>(all@) == always_watched() + views::<String>(index_dirs@).take(
                    i as int,
                ),
            decreases index_dirs@.len() - i,
        {
            proof {
                assert(views::<String>(index_dirs@).take(i + 1) =~= views::<String>(
                    index_dirs@,
                ).take(i as int).push(index_dirs@[i as int]@));
            }
            let ghost before = all@;
            let d = index_dirs[i].clone();
            proof {
                assert(d@ == index_dirs@[i as int]@);
            }
            all.push(d);
            proof {
                assert(views::<String>(all@) =~= views::<String>(before).push(d@));
                assert(views::<String>(all@) =~= always_watched() + views::<String>(
                    index_dirs@,
                ).take(i + 1));
            }
            i = i + 1;
        }
        proof {
            reveal_strlit("knowledge");
            reveal_strlit("loom");
            reveal_strlit("record/moments");
            assert(views::<String>(index_dirs@).take(index_dirs@.len() as int) =~= views::<String>(
                index_dirs@,
            ));
        }
        let ghost src = (always_watched() + views::<String>(index_dirs@)).map_values(
            |d: Seq<char>| normalized(join(workspace@, d)),
        );
        let mut watched: Vec<String> = Vec::new();
        let mut j: usize = 0;
        while j < all.len()
            invariant
                j <= all@.len(),
                views::<String>(all@) == always_watched() + views::<String>(index_dirs@),
                src == views::<String>(all@).map_values(
                    |d: Seq<char>| normalized(join(workspace@, d)),
                ),
                views::<String>(watched@) == first_occurrences(src.take(j as int)),
            decreases all@.len() - j,
        {
            proof {
                assert(src.take(j + 1).drop_last() =~= src.take(j as int));
            }
            let dir = normalize_path(join_str(workspace, all[j].as_str()).as_str());
            let seen = contains_str(&watched, dir.as_str());
            let ghost before = watched@;
            if !seen {
                watched.push(dir);
                proof {
                    assert(views::<String>(watched@) =~= views::<String>(before).push(dir@));
                }
            }
            j = j + 1;
        }
        proof {
            assert(src.take(all@.len() as int) =~= src);
        }
        WatchedTree { workspace: workspace.to_string(), watched }
    }

    /// The watched directories, in the order they were configured.
    pub fn directories(&self) -> (r: Vec<String>)
        ensures
            views::<String>(r@) == self.dirs(),
    {
        let mut out: Vec<String> = Vec::new();
        let mut i: usize = 0;
        while i < self.watched.len()
            invariant
                i <= self.watched@.len(),
                views::<String>(out@) == views::<String>(self.watched@).take(i as int),
            decreases self.watched@.len() - i,
        {
            let ghost before = views::<String>(out@);
            let d = self.watched[i].clone();
            out.push(d);
            proof {
                assert(views::<String>(out@) =~= before.push(self.watched@[i as int]@));
                assert(views::<String>(self.watched@).take(i + 1) =~= views::<String>(
                    self.watched@,
                ).take(i as int).push(self.watched@[i as int]@));
            }
            i = i + 1;
        }
        proof {
            assert(views::<String>(self.watched@).take(self.watched@.len() as int) =~= views::<String>(
                self.watched@,
            ));
        }
        out
    }

    /// Whether the memory store watches (and so indexes) `path`: under
    /// a watched directory, and no hidden, `record` or `channels`
    /// component once read relative to the workspace.
    pub fn is_watched(&self, path: &str) -> (b: bool)
        ensures
            b == watched_spec(self.workspace_spec(), self.dirs(), path@),
    {
        let mut i: usize = 0;
        let mut found = false;
        while i < self.watched.len()
            invariant
                i <= self.watched@.len(),
                found == exists|k: int| 0 <= k < i && (#[trigger] path_after(path@, self.dirs()[k])) is Some,
            decreases self.watched@.len() - i,
        {
            let under = strip_path_prefix(path, self.watched[i].as_str()).is_some();
            proof {
                assert(self.dirs()[i as int] == self.watched@[i as int]@);
            }
            found = found || under;
            i = i + 1;
        }
        if !found {
            return false;
        }
        match strip_path_prefix(path, self.workspace.as_str()) {
            None => true,
            Some(rel) => !excluded_anywhere(rel.as_str()),
        }
    }

    /// `path` relative to the workspace, or unchanged outside it.
    pub fn workspace_relative(&self, path: &str) -> (r: String)
        ensures
            r@ == relative_spec(self.workspace_spec(), path@),
    {
        match strip_path_prefix(path, self.workspace.as_str()) {
            Some(rel) => rel,
            None => path.to_string(),
        }
    }

    /// Whether `path` is an atomic note's: under the workspace's
    /// `knowledge` directory.
    pub fn is_atomic_path(&self, path: &str) -> (b: bool)
        ensures
            b == (path_after(path@, join(self.workspace_spec(), "knowledge"@)) is Some),
    {
        proof {
            reveal_strlit("knowledge");
        }
        let knowledge = join_str(self.workspace.as_str(), "knowledge");
        strip_path_prefix(path, knowledge.as_str()).is_some()
    }

    /// Search's prefix filter on a stored path.
    pub fn path_matches_prefixes(&self, file_path: &str, allowed_prefixes: &Vec<String>) -> (b: bool)
        ensures
            b == prefix_filter_spec(self.workspace_spec(), file_path@, views::<String>(allowed_prefixes@)),
    {
        if allowed_prefixes.len() == 0 {
            return true;
        }
        let rel = self.workspace_relative(file_path);
        let rc = chars_of(rel.as_str());
        let mut k: usize = 0;
        while k < allowed_prefixes.len()
            invariant
                k <= allowed_prefixes@.len(),
                rc@ == relative_spec(self.workspace_spec(), file_path@),
                forall|m: int|
                    0 <= m < k ==> !crate::frontmatter::starts_with(
                        rc@,
                        #[trigger] views::<String>(allowed_prefixes@)[m],
                    ),
            decreases allowed_prefixes@.len() - k,
        {
            if crate::text::starts_with_str(&rc, allowed_prefixes[k].as_str()) {
                proof {
                    assert(views::<String>(allowed_prefixes@)[k as int] == allowed_prefixes@[k as int]@);
                }
                return true;
            }
            k = k + 1;
        }
        false
    }

    /// The flash filter for a note: with flash directories configured,
    /// only a note whose path (looked up by id among `notes`, else the
    /// id itself) lies under one of them may surface.
    pub fn may_flash(&self, flash_dirs: &Vec<String>, note_id: &str, notes: &Vec<NoteInfo>) -> (b: bool)
        ensures
            b == flash_allowed_spec(
                self.workspace_spec(),
                views::<String>(flash_dirs@),
                note_path(note_keys(notes@), note_id@),
            ),
    {
        if flash_dirs.len() == 0 {
            return true;
        }
        let path = path_of_note(notes, note_id);
        let mut k: usize = 0;
        while k < flash_dirs.len()
            invariant
                k <= flash_dirs@.len(),
                path@ == note_path(note_keys(notes@), note_id@),
                forall|m: int|
                    0 <= m < k ==> (#[trigger] path_after(
                        path@,
                        normalized(join(self.workspace_spec(), views::<String>(flash_dirs@)[m])),
                    )) is None,
            decreases flash_dirs@.len() - k,
        {
            let prefix = normalize_path(join_str(self.workspace.as_str(), flash_dirs[k].as_str()).as_str());
            proof {
                assert(views::<String>(flash_dirs@)[k as int] == flash_dirs@[k as int]@);
            }
            if strip_path_prefix(path.as_str(), prefix.as_str()).is_some() {
                return true;
            }
            k = k + 1;
        }
        false
    }
}

/// Whether the walk over a watched directory passes an entry by: a
/// name starting with a dot, or the engine-managed `record` and
/// `channels`.
pub fn walk_skips(name: &str) -> (b: bool)
    ensures
        b == ((name@.len() > 0 && name@[0] == '.') || name@ == "record"@ || name@ == "channels"@),
{
    let cs = chars_of(name);
    (cs.len() > 0 && cs[0] == '.') || str_eq(name, "record") || str_eq(name, "channels")
}

/// Whether `s` is one of `v`.
fn contains_str(v: &Vec<String>, s: &str) -> (b: bool)
    ensures
        b == views::<String>(v@).contains(s@),
{
    let mut i: usize = 0;
    while i < v.len()
        invariant
            i <= v@.len(),
            forall|k: int| 0 <= k < i ==> views::<String>(v@)[k] != s@,
        decreases v@.len() - i,
    {
        if str_eq(v[i].as_str(), s) {
            proof {
                assert(views::<String>(v@)[i as int] == s@);
            }
            return true;
        }
        i = i + 1;
    }
    false
}

/// Whether a piece is hidden, `record` or `channels`.
fn piece_excluded(p: &Vec<char>, lo: usize, hi: usize) -> (b: bool)
    requires
        lo <= hi <= p@.len(),
    ensures
        b == excluded_piece(p@.subrange(lo as int, hi as int)),
{
    let piece = crate::text::copy_range(p, lo, hi);
    let record = vec!['r', 'e', 'c', 'o', 'r', 'd'];
    let channels = vec!['c', 'h', 'a', 'n', 'n', 'e', 'l', 's'];
    proof {
        reveal_strlit("record");
        reveal_strlit("channels");
        assert(record@ =~= "record"@);
        assert(channels@ =~= "channels"@);
    }
    (piece.len() > 1 && piece[0] == '.') || crate::text::chars_eq(&piece, &record)
        || crate::text::chars_eq(&piece, &channels)
}

/// Whether some piece of `rel` between separators is excluded.
fn excluded_anywhere(rel: &str) -> (b: bool)
    ensures
        b == has_excluded_piece(rel@),
{
    let p = chars_of(rel);
    let mut pos: usize = 0;
    let ghost mut done: Seq<Seq<char>> = Seq::empty();
    proof {
        assert(split_char(p@, '/') =~= done + split_char_from(p@, '/', 0));
    }
    loop
        invariant
            pos <= p@.len(),
            p@ == rel@,
            split_char(p@, '/') == done + split_char_from(p@, '/', pos as int),
            forall|k: int| 0 <= k < done.len() ==> !excluded_piece(#[trigger] done[k]),
        decreases p@.len() - pos,
    {
        let e = index_of_char(&p, '/', pos);
        proof {
            lemma_split_step(p@, '/', pos as int);
        }
        let ghost piece = p@.subrange(pos as int, e as int);
        let ghost rest = split_char_from(p@, '/', pos as int);
        proof {
            assert(rest[0] == piece);
        }
        if piece_excluded(&p, pos, e) {
            proof {
                assert(split_char(p@, '/')[done.len() as int] == piece);
            }
            return true;
        }
        proof {
            assert(rest == seq![piece] + rest.drop_first());
            assert(done + rest =~= done.push(piece) + rest.drop_first());
            done = done.push(piece);
        }
        if e >= p.len() {
            proof {
                assert(done + Seq::<Seq<char>>::empty() =~= done);
                assert(split_char(p@, '/') =~= done);
            }
            return false;
        }
        pos = e + 1;
    }
}

/// The path of the first note with `id`, else `id` itself.
fn path_of_note(notes: &Vec<NoteInfo>, id: &str) -> (r: String)
    ensures
        r@ == note_path(note_keys(notes@), id@),
{
    let mut i: usize = 0;
    proof {
        assert(note_keys(notes@).skip(0) =~= note_keys(notes@));
    }
    while i < notes.len()
        invariant
            i <= notes@.len(),
            note_path(note_keys(notes@), id@) == note_path(note_keys(notes@).skip(i as int), id@),
        decreases notes@.len() - i,
    {
        let ghost ks = note_keys(notes@).skip(i as int);
        proof {
            assert(ks[0] == (notes@[i as int].id@, notes@[i as int].path@));
            assert(ks.drop_first() =~= note_keys(notes@).skip(i + 1));
        }
        if str_eq(notes[i].id.as_str(), id) {
            return notes[i].path.clone();
        }
        i = i + 1;
    }
    proof {
        assert(note_keys(notes@).skip(notes@.len() as int) =~= Seq::<(Seq<char>, Seq<char>)>::empty());
    }
    id.to_string()
}

/// The watched directories never repeat.
pub proof fn law_watched_dirs_distinct(workspace: Seq<char>, index_dirs: Seq<Seq<char>>)
    ensures
        forall|i: int, j: int|
            0 <= i < j < watched_dirs(workspace, index_dirs).len() ==> watched_dirs(
                workspace,
                index_dirs,
            )[i] != watched_dirs(workspace, index_dirs)[j],
{
    lemma_first_occurrences_distinct(
        (always_watched() + index_dirs).map_values(|d: Seq<char>| normalized(join(workspace, d))),
    );
}

/// Every directory, always-watched or configured, is watched: its
/// normalized form is among the watched directories.
pub proof fn law_every_dir_watched(workspace: Seq<char>, index_dirs: Seq<Seq<char>>, d: Seq<char>)
    requires
        always_watched().contains(d) || index_dirs.contains(d),
    ensures
        watched_dirs(workspace, index_dirs).contains(normalized(join(workspace, d))),
{
    let all = always_watched() + index_dirs;
    let src = all.map_values(|x: Seq<char>| normalized(join(workspace, x)));
    let k: int = if always_watched().contains(d) {
        choose|k: int| 0 <= k < always_watched().len() && always_watched()[k] == d
    } else {
        let m = choose|m: int| 0 <= m < index_dirs.len() && index_dirs[m] == d;
        always_watched().len() + m
    };
    assert(all[k] == d);
    assert(src[k] == normalized(join(workspace, d)));
    lemma_first_occurrences_covers(src, k);
}

proof fn lemma_first_occurrences_distinct(s: Seq<Seq<char>>)
    ensures
        forall|i: int, j: int|
            0 <= i < j < first_occurrences(s).len() ==> first_occurrences(s)[i]
                != first_occurrences(s)[j],
    decreases s.len(),
{
    if s.len() > 0 {
        lemma_first_occurrences_distinct(s.drop_last());
        let r = first_occurrences(s.drop_last());
        if !r.contains(s.last()) {
            let q = r.push(s.last());
            assert forall|i: int, j: int| 0 <= i < j < q.len() implies q[i] != q[j] by {
                if j == r.len() {
                    assert(q[i] == r[i]);
                    if q[i] == q[j] {
                        assert(r.contains(s.last()));
                    }
                } else {
                    assert(q[i] == r[i] && q[j] == r[j]);
                }
            }
        }
    }
}

proof fn lemma_first_occurrences_covers(s: Seq<Seq<char>>, k: int)
    requires
        0 <= k < s.len(),
    ensures
        first_occurrences(s).contains(s[k]),
    decreases s.len(),
{
    let r = first_occurrences(s.drop_last());
    if k < s.len() - 1 {
        lemma_first_occurrences_covers(s.drop_last(), k);
        assert(s.drop_last()[k] == s[k]);
        if !r.contains(s.last()) {
            let w = choose|w: int| 0 <= w < r.len() && r[w] == s[k];
            assert(r.push(s.last())[w] == s[k]);
        }
    } else {
        if !r.contains(s.last()) {
            assert(r.push(s.last())[r.len() as int] == s.last());
        }
    }
}

} // verus!
