//! The sync sweep's decisions: which files on disk need (re)indexing,
//! which indexed files are gone, and what a changed atomic note means
//! for the shape index. The sweep itself reads the disk and the
//! database and embeds; it asks these functions what to do.

use vstd::prelude::*;
use crate::frontmatter::{frontmatter_field, read_frontmatter_field};
use crate::text::{str_eq, views};

verus! {

/// A file as (path, content hash).
pub type FileKey = (Seq<char>, Seq<char>);

/// The index already holds `f` with the same hash.
pub open spec fn unchanged(known: Seq<FileKey>, f: FileKey) -> bool {
    exists|j: int| 0 <= j < known.len() && known[j] == f
}

/// Some file on disk has path `p`.
pub open spec fn on_disk_path(on_disk: Seq<FileKey>, p: Seq<char>) -> bool {
    exists|i: int| 0 <= i < on_disk.len() && on_disk[i].0 == p
}

/// Positions of the files on disk that are new or changed, in order.
pub open spec fn to_index_spec(on_disk: Seq<FileKey>, known: Seq<FileKey>) -> Seq<int>
    decreases on_disk.len(),
{
    if on_disk.len() == 0 {
        Seq::empty()
    } else {
        let rest = to_index_spec(on_disk.drop_last(), known);
        if unchanged(known, on_disk.last()) {
            rest
        } else {
            rest.push(on_disk.len() - 1)
        }
    }
}

/// Positions of the indexed files no longer on disk, in order.
pub open spec fn removed_spec(on_disk: Seq<FileKey>, known: Seq<FileKey>) -> Seq<int>
    decreases known.len(),
{
    if known.len() == 0 {
        Seq::empty()
    } else {
        let rest = removed_spec(on_disk, known.drop_last());
        if on_disk_path(on_disk, known.last().0) {
            rest
        } else {
            rest.push(known.len() - 1)
        }
    }
}

pub open spec fn key_views(v: Seq<(String, String)>) -> Seq<FileKey> {
    views::<(String, String)>(v)
}

fn is_known(known: &Vec<(String, String)>, path: &str, hash: &str) -> (r: bool)
    ensures
        r == unchanged(key_views(known@), (path@, hash@)),
{
    let mut j: usize = 0;
    while j < known.len()
        invariant
            j <= known@.len(),
            forall|k: int| 0 <= k < j ==> key_views(known@)[k] != (path@, hash@),
        decreases known@.len() - j,
    {
        if str_eq(known[j].0.as_str(), path) && str_eq(known[j].1.as_str(), hash) {
            proof {
                assert(key_views(known@)[j as int] == (path@, hash@));
            }
            return true;
        }
        j = j + 1;
    }
    false
}

fn path_on_disk(on_disk: &Vec<(String, String)>, path: &str) -> (r: bool)
    ensures
        r == on_disk_path(key_views(on_disk@), path@),
{
    let mut i: usize = 0;
    while i < on_disk.len()
        invariant
            i <= on_disk@.len(),
            forall|k: int| 0 <= k < i ==> key_views(on_disk@)[k].0 != path@,
        decreases on_disk@.len() - i,
    {
        if str_eq(on_disk[i].0.as_str(), path) {
            proof {
                assert(key_views(on_disk@)[i as int].0 == path@);
            }
            return true;
        }
        i = i + 1;
    }
    false
}

/// Which files on disk to index and which indexed files to drop, by
/// position: `on_disk` and `known` are (path, hash) pairs.
pub fn plan_sweep(on_disk: &Vec<(String, String)>, known: &Vec<(String, String)>) -> (r: (
    Vec<usize>,
    Vec<usize>,
))
    ensures
        r.0@.map_values(|i: usize| i as int) == to_index_spec(key_views(on_disk@), key_views(known@)),
        r.1@.map_values(|i: usize| i as int) == removed_spec(key_views(on_disk@), key_views(known@)),
{
    let ghost dv = key_views(on_disk@);
    let ghost kv = key_views(known@);
    let mut index: Vec<usize> = Vec::new();
    let mut i: usize = 0;
    while i < on_disk.len()
        invariant
            i <= on_disk@.len(),
            dv == key_views(on_disk@),
            kv == key_views(known@),
            index@.map_values(|x: usize| x as int) == to_index_spec(dv.take(i as int), kv),
        decreases on_disk@.len() - i,
    {
        proof {
            assert(dv.take(i + 1).drop_last() =~= dv.take(i as int));
            assert(dv.take(i + 1).last() == (on_disk@[i as int].0@, on_disk@[i as int].1@));
        }
        let ghost before = index@;
        if !is_known(known, on_disk[i].0.as_str(), on_disk[i].1.as_str()) {
            index.push(i);
            proof {
                assert(index@.map_values(|x: usize| x as int) =~= before.map_values(|x: usize| x as int).push(
                    i as int,
                ));
            }
        }
        i = i + 1;
    }
    proof {
        assert(dv.take(on_disk@.len() as int) =~= dv);
    }
    let mut removed: Vec<usize> = Vec::new();
    let mut j: usize = 0;
    while j < known.len()
        invariant
            j <= known@.len(),
            dv == key_views(on_disk@),
            kv == key_views(known@),
            removed@.map_values(|x: usize| x as int) == removed_spec(dv, kv.take(j as int)),
        decreases known@.len() - j,
    {
        proof {
            assert(kv.take(j + 1).drop_last() =~= kv.take(j as int));
            assert(kv.take(j + 1).last() == (known@[j as int].0@, known@[j as int].1@));
        }
        let ghost before = removed@;
        if !path_on_disk(on_disk, known[j].0.as_str()) {
            removed.push(j);
            proof {
                assert(removed@.map_values(|x: usize| x as int) =~= before.map_values(|x: usize| x as int).push(
                    j as int,
                ));
            }
        }
        j = j + 1;
    }
    proof {
        assert(kv.take(known@.len() as int) =~= kv);
    }
    (index, removed)
}

/// What a changed atomic note asks of the shape index.
#[derive(Debug)]
pub enum ShapeAction {
    /// No id in its frontmatter: nothing.
    Skip,
    /// The agent wrote a `shape:` line: store it as the agent's gloss.
    UpsertAgent { id: String, shape: String },
    /// No shape line: queue a gloss unless the note already has one.
    GlossUnlessPresent { id: String },
}

/// The shape action of a changed atomic note's text.
pub open spec fn shape_action_spec(text: Seq<char>) -> (Option<Seq<char>>, Option<Seq<char>>) {
    match frontmatter_field(text, "id"@) {
        None => (None, None),
        Some(id) => (Some(id), frontmatter_field(text, "shape"@)),
    }
}

/// What a changed atomic note asks of the shape index: nothing without
/// an id; the agent's gloss when it carries a `shape:` line; a witness
/// gloss otherwise.
pub fn shape_action(text: &str) -> (r: ShapeAction)
    ensures
        match r {
            ShapeAction::Skip => shape_action_spec(text@).0 is None,
            ShapeAction::UpsertAgent { id, shape } => shape_action_spec(text@) == (
                Some(id@),
                Some(shape@),
            ),
            ShapeAction::GlossUnlessPresent { id } => shape_action_spec(text@) == (
                Some(id@),
                None::<Seq<char>>,
            ),
        },
{
    match read_frontmatter_field(text, "id") {
        None => ShapeAction::Skip,
        Some(id) => match read_frontmatter_field(text, "shape") {
            Some(shape) => ShapeAction::UpsertAgent { id, shape },
            None => ShapeAction::GlossUnlessPresent { id },
        },
    }
}

/// Every file on disk is either indexed already with its hash or
/// planned for indexing, and every planned removal is a path no file on
/// disk has.
pub proof fn law_sweep_covers(on_disk: Seq<FileKey>, known: Seq<FileKey>)
    ensures
        forall|i: int|
            0 <= i < on_disk.len() ==> unchanged(known, on_disk[i]) || to_index_spec(
                on_disk,
                known,
            ).contains(i),
        forall|k: int|
            0 <= k < removed_spec(on_disk, known).len() ==> {
                let j = #[trigger] removed_spec(on_disk, known)[k];
                0 <= j < known.len() && !on_disk_path(on_disk, known[j].0)
            },
    decreases on_disk.len() + known.len(),
{
    lemma_to_index(on_disk, known);
    lemma_removed(on_disk, known);
}

/// A sweep over an index that already holds exactly the files on disk,
/// each with its hash, plans nothing: no file to index, none to drop.
pub proof fn law_unchanged_sweep_plans_nothing(on_disk: Seq<FileKey>)
    ensures
        to_index_spec(on_disk, on_disk) == Seq::<int>::empty(),
        removed_spec(on_disk, on_disk) == Seq::<int>::empty(),
{
    assert forall|i: int| 0 <= i < on_disk.len() implies unchanged(on_disk, #[trigger] on_disk[i]) by {
        assert(0 <= i < on_disk.len() && on_disk[i] == on_disk[i]);
    }
    assert forall|j: int| 0 <= j < on_disk.len() implies on_disk_path(on_disk, #[trigger] on_disk[j].0) by {
        assert(0 <= j < on_disk.len() && on_disk[j].0 == on_disk[j].0);
    }
    lemma_nothing_to_index(on_disk, on_disk);
    lemma_nothing_removed(on_disk, on_disk);
}

proof fn lemma_nothing_to_index(on_disk: Seq<FileKey>, known: Seq<FileKey>)
    requires
        forall|i: int| 0 <= i < on_disk.len() ==> unchanged(known, #[trigger] on_disk[i]),
    ensures
        to_index_spec(on_disk, known) == Seq::<int>::empty(),
    decreases on_disk.len(),
{
    if on_disk.len() > 0 {
        let p = on_disk.drop_last();
        assert forall|i: int| 0 <= i < p.len() implies unchanged(known, #[trigger] p[i]) by {
            assert(p[i] == on_disk[i]);
        }
        lemma_nothing_to_index(p, known);
        assert(unchanged(known, on_disk[on_disk.len() - 1]));
    }
}

proof fn lemma_nothing_removed(on_disk: Seq<FileKey>, known: Seq<FileKey>)
    requires
        forall|j: int| 0 <= j < known.len() ==> on_disk_path(on_disk, (#[trigger] known[j]).0),
    ensures
        removed_spec(on_disk, known) == Seq::<int>::empty(),
    decreases known.len(),
{
    if known.len() > 0 {
        let p = known.drop_last();
        assert forall|j: int| 0 <= j < p.len() implies on_disk_path(on_disk, (#[trigger] p[j]).0) by {
            assert(p[j] == known[j]);
        }
        lemma_nothing_removed(on_disk, p);
        assert(on_disk_path(on_disk, known[known.len() - 1].0));
    }
}

proof fn lemma_to_index(on_disk: Seq<FileKey>, known: Seq<FileKey>)
    ensures
        forall|i: int|
            0 <= i < on_disk.len() ==> unchanged(known, on_disk[i]) || to_index_spec(
                on_disk,
                known,
            ).contains(i),
    decreases on_disk.len(),
{
    if on_disk.len() > 0 {
        let p = on_disk.drop_last();
        lemma_to_index(p, known);
        assert forall|i: int| 0 <= i < on_disk.len() implies unchanged(known, on_disk[i])
            || to_index_spec(on_disk, known).contains(i) by {
            let rest = to_index_spec(p, known);
            if i < on_disk.len() - 1 {
                assert(on_disk[i] == p[i]);
                if rest.contains(i) {
                    let k = choose|k: int| 0 <= k < rest.len() && rest[k] == i;
                    if !unchanged(known, on_disk.last()) {
                        assert(rest.push(on_disk.len() - 1)[k] == i);
                    }
                }
            } else {
                if !unchanged(known, on_disk.last()) {
                    let r = rest.push(on_disk.len() - 1);
                    assert(r[r.len() - 1] == i);
                }
            }
        }
    }
}

proof fn lemma_removed(on_disk: Seq<FileKey>, known: Seq<FileKey>)
    ensures
        forall|k: int|
            0 <= k < removed_spec(on_disk, known).len() ==> {
                let j = #[trigger] removed_spec(on_disk, known)[k];
                0 <= j < known.len() && !on_disk_path(on_disk, known[j].0)
            },
    decreases known.len(),
{
    if known.len() > 0 {
        let p = known.drop_last();
        lemma_removed(on_disk, p);
        assert forall|k: int| 0 <= k < removed_spec(on_disk, known).len() implies {
            let j = #[trigger] removed_spec(on_disk, known)[k];
            0 <= j < known.len() && !on_disk_path(on_disk, known[j].0)
        } by {
            let rest = removed_spec(on_disk, p);
            if k < rest.len() {
                let j = rest[k];
                assert(p[j] == known[j]);
            }
        }
    }
}


// ---------------------------------------------------------------------
// Rejection vectors at startup
// ---------------------------------------------------------------------

/// Positions of the rejection entries whose candidate id is not among
/// `known`, in file order.
pub open spec fn missing_spec(entries: Seq<Seq<char>>, known: Seq<Seq<char>>) -> Seq<int>
    decreases entries.len(),
{
    if entries.len() == 0 {
        Seq::empty()
    } else {
        let rest = missing_spec(entries.drop_last(), known);
        if known.contains(entries.last()) {
            rest
        } else {
            rest.push(entries.len() - 1)
        }
    }
}

fn contains_id(known: &Vec<String>, id: &str) -> (b: bool)
    ensures
        b == views::<String>(known@).contains(id@),
{
    let mut i: usize = 0;
    while i < known.len()
        invariant
            i <= known@.len(),
            forall|k: int| 0 <= k < i ==> views::<String>(known@)[k] != id@,
        decreases known@.len() - i,
    {
        if str_eq(known[i].as_str(), id) {
            proof {
                assert(views::<String>(known@)[i as int] == id@);
            }
            return true;
        }
        i = i + 1;
    }
    false
}

/// Which rejections of the log the vector table lacks: the positions,
/// in log order, of the entries whose candidate id is not `known`.
pub fn missing_rejections(entry_ids: &Vec<String>, known: &Vec<String>) -> (r: Vec<usize>)
    ensures
        r@.map_values(|i: usize| i as int) == missing_spec(
            views::<String>(entry_ids@),
            views::<String>(known@),
        ),
{
    let ghost ev = views::<String>(entry_ids@);
    let mut out: Vec<usize> = Vec::new();
    let mut i: usize = 0;
    while i < entry_ids.len()
        invariant
            i <= entry_ids@.len(),
            ev == views::<String>(entry_ids@),
            out@.map_values(|x: usize| x as int) == missing_spec(ev.take(i as int), views::<String>(known@)),
        decreases entry_ids@.len() - i,
    {
        proof {
            assert(ev.take(i + 1).drop_last() =~= ev.take(i as int));
            assert(ev.take(i + 1).last() == entry_ids@[i as int]@);
        }
        let ghost before = out@;
        if !contains_id(known, entry_ids[i].as_str()) {
            out.push(i);
            proof {
                assert(out@.map_values(|x: usize| x as int) =~= before.map_values(|x: usize| x as int).push(
                    i as int,
                ));
            }
        }
        i = i + 1;
    }
    proof {
        assert(ev.take(entry_ids@.len() as int) =~= ev);
    }
    out
}

/// Whether the stored rejection vectors came from another embedding
/// model: a stored vector's byte length differs from four bytes per
/// dimension of a fresh probe. No stored vector: no drift.
pub fn rejection_dims_drifted(stored_bytes: Option<u64>, probe_dims: u64) -> (b: bool)
    ensures
        b == match stored_bytes {
            Some(n) => n != 4 * probe_dims,
            None => false,
        },
{
    match stored_bytes {
        None => false,
        Some(n) => {
            if probe_dims > u64::MAX / 4 {
                true
            } else {
                n != 4 * probe_dims
            }
        },
    }
}

/// The ids a rebuild plans to embed: those of the missing entries, in
/// file order.
pub open spec fn planned_ids(entries: Seq<Seq<char>>, known: Seq<Seq<char>>) -> Seq<Seq<char>> {
    missing_spec(entries, known).map_values(|i: int| entries[i])
}

/// A second rebuild, once the first one's planned ids are known, plans
/// nothing.
pub proof fn law_second_rebuild_plans_nothing(entries: Seq<Seq<char>>, known: Seq<Seq<char>>)
    ensures
        missing_spec(entries, known + planned_ids(entries, known)) == Seq::<int>::empty(),
{
    let after = known + planned_ids(entries, known);
    let m = missing_spec(entries, known);
    assert forall|i: int| 0 <= i < entries.len() implies after.contains(#[trigger] entries[i]) by {
        law_rebuild_covers(entries, known, i);
        if known.contains(entries[i]) {
            let w = choose|w: int| 0 <= w < known.len() && known[w] == entries[i];
            assert(after[w] == entries[i]);
        } else {
            let w = choose|w: int| 0 <= w < m.len() && m[w] == i;
            assert(planned_ids(entries, known)[w] == entries[i]);
            assert(after[known.len() + w] == entries[i]);
        }
    }
    lemma_nothing_missing(entries, after);
}

proof fn lemma_nothing_missing(entries: Seq<Seq<char>>, known: Seq<Seq<char>>)
    requires
        forall|i: int| 0 <= i < entries.len() ==> known.contains(#[trigger] entries[i]),
    ensures
        missing_spec(entries, known) == Seq::<int>::empty(),
    decreases entries.len(),
{
    if entries.len() > 0 {
        let p = entries.drop_last();
        assert forall|i: int| 0 <= i < p.len() implies known.contains(#[trigger] p[i]) by {
            assert(p[i] == entries[i]);
        }
        lemma_nothing_missing(p, known);
        assert(known.contains(entries[entries.len() - 1]));
    }
}

/// After the rebuild every logged rejection is known or planned: an
/// entry left out of the plan is one the table already holds.
pub proof fn law_rebuild_covers(entries: Seq<Seq<char>>, known: Seq<Seq<char>>, i: int)
    requires
        0 <= i < entries.len(),
    ensures
        known.contains(entries[i]) || missing_spec(entries, known).contains(i),
        !(known.contains(entries[i]) && missing_spec(entries, known).contains(i)),
    decreases entries.len(),
{
    let init = entries.drop_last();
    let rest = missing_spec(init, known);
    lemma_missing_below(init, known);
    if i < entries.len() - 1 {
        law_rebuild_covers(init, known, i);
        assert(init[i] == entries[i]);
        if rest.contains(i) {
            let w = choose|w: int| 0 <= w < rest.len() && rest[w] == i;
            if !known.contains(entries.last()) {
                assert(rest.push(entries.len() - 1)[w] == i);
            }
        }
        if missing_spec(entries, known).contains(i) && !rest.contains(i) {
            let w = choose|w: int| 0 <= w < missing_spec(entries, known).len() && missing_spec(entries, known)[w] == i;
            assert(w == rest.len());
        }
    } else {
        assert(!rest.contains(i));
        if !known.contains(entries.last()) {
            assert(rest.push(i)[rest.len() as int] == i);
        } else {
            assert(missing_spec(entries, known) == rest);
        }
    }
}

proof fn lemma_missing_below(entries: Seq<Seq<char>>, known: Seq<Seq<char>>)
    ensures
        forall|w: int|
            0 <= w < missing_spec(entries, known).len() ==> 0 <= #[trigger] missing_spec(
                entries,
                known,
            )[w] < entries.len(),
    decreases entries.len(),
{
    if entries.len() > 0 {
        let init = entries.drop_last();
        lemma_missing_below(init, known);
        let rest = missing_spec(init, known);
        let all = missing_spec(entries, known);
        assert forall|w: int| 0 <= w < all.len() implies 0 <= #[trigger] all[w] < entries.len() by {
            if w < rest.len() {
                assert(all[w] == rest[w]);
            }
        }
    }
}

} // verus!
