//! The authored graph as activation sees it: every note link that
//! resolves becomes an edge, edges conduct both ways whatever their
//! type, and a bump's wave walks them outward hop by hop, touching each
//! note at most once.

use vstd::prelude::*;
use crate::frontmatter::{cap_chars, cap_chars_spec};
use crate::memory::{resolve_spec, Carrier, Flash, FlashView, NoteInfo, Resolver};
use crate::text::{str_eq, views};

verus! {

/// A link whose target resolved: (source id, target id, link type).
pub type EdgeView = (Seq<char>, Seq<char>, Seq<char>);

/// A link whose target resolved to a note.
#[derive(Debug)]
pub struct ResolvedLink {
    pub source: String,
    pub target: String,
    pub link_type: String,
}

impl View for ResolvedLink {
    type V = EdgeView;

    open spec fn view(&self) -> EdgeView {
        (self.source@, self.target@, self.link_type@)
    }
}

/// A note as the graph reads it: its id and its (type, target) links.
pub open spec fn note_links(n: NoteInfo) -> (Seq<char>, Seq<(Seq<char>, Seq<char>)>) {
    (n.id@, views::<(String, String)>(n.links@))
}

/// The edges of one note's links whose targets resolve, in link order.
pub open spec fn edges_of(
    keys: Seq<(Seq<char>, Seq<char>)>,
    id: Seq<char>,
    links: Seq<(Seq<char>, Seq<char>)>,
) -> Seq<EdgeView>
    decreases links.len(),
{
    if links.len() == 0 {
        Seq::empty()
    } else {
        let rest = edges_of(keys, id, links.drop_last());
        match resolve_spec(keys, links.last().1) {
            Some(t) => rest.push((id, t, links.last().0)),
            None => rest,
        }
    }
}

/// Every note's resolved edges, note by note.
pub open spec fn all_edges(
    keys: Seq<(Seq<char>, Seq<char>)>,
    notes: Seq<(Seq<char>, Seq<(Seq<char>, Seq<char>)>)>,
) -> Seq<EdgeView>
    decreases notes.len(),
{
    if notes.len() == 0 {
        Seq::empty()
    } else {
        all_edges(keys, notes.drop_last()) + edges_of(keys, notes.last().0, notes.last().1)
    }
}

/// The resolved edges of every note, through `resolver`: a link whose
/// target names no note, or names an ambiguous stem, is dropped.
pub fn resolve_links(notes: &Vec<NoteInfo>, resolver: &Resolver) -> (r: Vec<ResolvedLink>)
    requires
        resolver.wf(),
    ensures
        views::<ResolvedLink>(r@) == all_edges(
            resolver.notes(),
            notes@.map_values(|n: NoteInfo| note_links(n)),
        ),
{
    let ghost ns = notes@.map_values(|n: NoteInfo| note_links(n));
    let mut out: Vec<ResolvedLink> = Vec::new();
    let mut i: usize = 0;
    while i < notes.len()
        invariant
            i <= notes@.len(),
            resolver.wf(),
            ns == notes@.map_values(|n: NoteInfo| note_links(n)),
            views::<ResolvedLink>(out@) == all_edges(resolver.notes(), ns.take(i as int)),
        decreases notes@.len() - i,
    {
        let note = &notes[i];
        let ghost lv = views::<(String, String)>(note.links@);
        let ghost before = views::<ResolvedLink>(out@);
        proof {
            assert(ns.take(i + 1).drop_last() =~= ns.take(i as int));
            assert(ns.take(i + 1).last() == (note.id@, lv));
        }
        let mut j: usize = 0;
        while j < note.links.len()
            invariant
                j <= note.links@.len(),
                resolver.wf(),
                lv == views::<(String, String)>(note.links@),
                views::<ResolvedLink>(out@) == before + edges_of(
                    resolver.notes(),
                    note.id@,
                    lv.take(j as int),
                ),
            decreases note.links@.len() - j,
        {
            proof {
                assert(lv.take(j + 1).drop_last() =~= lv.take(j as int));
                assert(lv.take(j + 1).last() == note.links@[j as int]@);
            }
            let ghost mid = views::<ResolvedLink>(out@);
            match resolver.resolve(note.links[j].1.as_str()) {
                Some(t) => {
                    let edge = ResolvedLink {
                        source: note.id.clone(),
                        target: t,
                        link_type: note.links[j].0.clone(),
                    };
                    out.push(edge);
                    proof {
                        assert(views::<ResolvedLink>(out@) =~= mid.push(edge@));
                    }
                },
                None => {},
            }
            j = j + 1;
        }
        proof {
            assert(lv.take(note.links@.len() as int) =~= lv);
        }
        i = i + 1;
    }
    proof {
        assert(ns.take(notes@.len() as int) =~= ns);
    }
    out
}

/// The neighbours of `id` in edge order: for each edge, its target when
/// `id` is its source, then its source when `id` is its target. Type
/// and direction do not matter.
pub open spec fn neighbors_spec(edges: Seq<EdgeView>, id: Seq<char>) -> Seq<Seq<char>>
    decreases edges.len(),
{
    if edges.len() == 0 {
        Seq::empty()
    } else {
        let rest = neighbors_spec(edges.drop_last(), id);
        let e = edges.last();
        let a = if e.0 == id {
            rest.push(e.1)
        } else {
            rest
        };
        if e.1 == id {
            a.push(e.0)
        } else {
            a
        }
    }
}

/// The notes `id` shares an edge with, in edge order.
pub fn neighbors(edges: &Vec<ResolvedLink>, id: &str) -> (r: Vec<String>)
    ensures
        views::<String>(r@) == neighbors_spec(views::<ResolvedLink>(edges@), id@),
{
    let ghost ev = views::<ResolvedLink>(edges@);
    let mut out: Vec<String> = Vec::new();
    let mut k: usize = 0;
    while k < edges.len()
        invariant
            k <= edges@.len(),
            ev == views::<ResolvedLink>(edges@),
            views::<String>(out@) == neighbors_spec(ev.take(k as int), id@),
        decreases edges@.len() - k,
    {
        proof {
            assert(ev.take(k + 1).drop_last() =~= ev.take(k as int));
            assert(ev.take(k + 1).last() == edges@[k as int]@);
        }
        let ghost before = views::<String>(out@);
        let e = &edges[k];
        if str_eq(e.source.as_str(), id) {
            let t = e.target.clone();
            out.push(t);
            proof {
                assert(views::<String>(out@) =~= before.push(e.target@));
            }
        }
        let ghost mid = views::<String>(out@);
        if str_eq(e.target.as_str(), id) {
            let s = e.source.clone();
            out.push(s);
            proof {
                assert(views::<String>(out@) =~= mid.push(e.source@));
            }
        }
        k = k + 1;
    }
    proof {
        assert(ev.take(edges@.len() as int) =~= ev);
    }
    out
}

/// The edges the graph view shows: self-loops left out, and each
/// (source, target, type) once, at its first occurrence.
pub open spec fn shown_edges(edges: Seq<EdgeView>) -> Seq<EdgeView>
    decreases edges.len(),
{
    if edges.len() == 0 {
        Seq::empty()
    } else {
        let r = shown_edges(edges.drop_last());
        let e = edges.last();
        if e.0 == e.1 || r.contains(e) {
            r
        } else {
            r.push(e)
        }
    }
}

fn edge_eq(a: &ResolvedLink, b: &ResolvedLink) -> (r: bool)
    ensures
        r == (a@ == b@),
{
    str_eq(a.source.as_str(), b.source.as_str()) && str_eq(a.target.as_str(), b.target.as_str())
        && str_eq(a.link_type.as_str(), b.link_type.as_str())
}

/// The authored edges of the graph view: no self-loops, no repeats.
pub fn graph_edges(edges: &Vec<ResolvedLink>) -> (r: Vec<ResolvedLink>)
    ensures
        views::<ResolvedLink>(r@) == shown_edges(views::<ResolvedLink>(edges@)),
{
    let ghost ev = views::<ResolvedLink>(edges@);
    let mut out: Vec<ResolvedLink> = Vec::new();
    let mut k: usize = 0;
    while k < edges.len()
        invariant
            k <= edges@.len(),
            ev == views::<ResolvedLink>(edges@),
            views::<ResolvedLink>(out@) == shown_edges(ev.take(k as int)),
        decreases edges@.len() - k,
    {
        proof {
            assert(ev.take(k + 1).drop_last() =~= ev.take(k as int));
            assert(ev.take(k + 1).last() == edges@[k as int]@);
        }
        let e = &edges[k];
        let self_loop = str_eq(e.source.as_str(), e.target.as_str());
        let mut seen = false;
        let mut m: usize = 0;
        while m < out.len()
            invariant
                m <= out@.len(),
                seen == exists|q: int| 0 <= q < m && views::<ResolvedLink>(out@)[q] == e@,
            decreases out@.len() - m,
        {
            let same = edge_eq(&out[m], e);
            proof {
                assert(views::<ResolvedLink>(out@)[m as int] == out@[m as int]@);
            }
            seen = seen || same;
            m = m + 1;
        }
        if !self_loop && !seen {
            let ghost before = views::<ResolvedLink>(out@);
            let copy = ResolvedLink {
                source: e.source.clone(),
                target: e.target.clone(),
                link_type: e.link_type.clone(),
            };
            out.push(copy);
            proof {
                assert(views::<ResolvedLink>(out@) =~= before.push(e@));
            }
        }
        k = k + 1;
    }
    proof {
        assert(ev.take(edges@.len() as int) =~= ev);
    }
    out
}

/// Edges conduct both ways: `b` neighbours `a` exactly when `a`
/// neighbours `b`.
pub proof fn law_neighbors_symmetric(edges: Seq<EdgeView>, a: Seq<char>, b: Seq<char>)
    ensures
        neighbors_spec(edges, a).contains(b) == neighbors_spec(edges, b).contains(a),
{
    lemma_neighbors_contains(edges, a, b);
    lemma_neighbors_contains(edges, b, a);
}

/// `b` neighbours `a` exactly when some edge joins them, either way.
pub proof fn lemma_neighbors_contains(edges: Seq<EdgeView>, a: Seq<char>, b: Seq<char>)
    ensures
        neighbors_spec(edges, a).contains(b) == exists|k: int|
            0 <= k < edges.len() && ((edges[k].0 == a && edges[k].1 == b) || (edges[k].1 == a
                && edges[k].0 == b)),
    decreases edges.len(),
{
    if edges.len() > 0 {
        let init = edges.drop_last();
        lemma_neighbors_contains(init, a, b);
        let rest = neighbors_spec(init, a);
        let e = edges.last();
        let n = neighbors_spec(edges, a);
        let joined = exists|k: int|
            0 <= k < edges.len() && ((edges[k].0 == a && edges[k].1 == b) || (edges[k].1 == a
                && edges[k].0 == b));
        if n.contains(b) {
            let w = choose|w: int| 0 <= w < n.len() && n[w] == b;
            if w < rest.len() {
                assert(n[w] == rest[w]);
                assert(rest.contains(b));
                let k = choose|k: int|
                    0 <= k < init.len() && ((init[k].0 == a && init[k].1 == b) || (init[k].1 == a
                        && init[k].0 == b));
                assert(edges[k] == init[k]);
            } else {
                assert(edges[edges.len() - 1] == e);
            }
            assert(joined);
        }
        if joined {
            let k = choose|k: int|
                0 <= k < edges.len() && ((edges[k].0 == a && edges[k].1 == b) || (edges[k].1 == a
                    && edges[k].0 == b));
            if k < edges.len() - 1 {
                assert(init[k] == edges[k]);
                assert(rest.contains(b));
                let w = choose|w: int| 0 <= w < rest.len() && rest[w] == b;
                let a1 = if e.0 == a {
                    rest.push(e.1)
                } else {
                    rest
                };
                assert(a1[w] == b);
                if e.1 == a {
                    assert(a1.push(e.0)[w] == b);
                }
                assert(n.contains(b));
            } else {
                let a1 = if e.0 == a {
                    rest.push(e.1)
                } else {
                    rest
                };
                if e.0 == a && e.1 == b {
                    assert(a1[rest.len() as int] == b);
                    if e.1 == a {
                        assert(a1.push(e.0)[rest.len() as int] == b);
                    }
                } else {
                    assert(a1.push(e.0)[a1.len() as int] == b);
                }
                assert(n.contains(b));
            }
        }
    }
}

/// The graph view never shows a self-loop, and never the same edge twice.
pub proof fn law_shown_edges_clean(edges: Seq<EdgeView>)
    ensures
        forall|k: int| 0 <= k < shown_edges(edges).len() ==> (#[trigger] shown_edges(edges)[k]).0
            != shown_edges(edges)[k].1,
        forall|i: int, j: int|
            0 <= i < j < shown_edges(edges).len() ==> shown_edges(edges)[i] != shown_edges(edges)[j],
    decreases edges.len(),
{
    if edges.len() > 0 {
        law_shown_edges_clean(edges.drop_last());
        let r = shown_edges(edges.drop_last());
        let e = edges.last();
        if !(e.0 == e.1 || r.contains(e)) {
            let q = r.push(e);
            assert forall|i: int, j: int| 0 <= i < j < q.len() implies q[i] != q[j] by {
                assert(q[i] == r[i]);
                if j == r.len() {
                    if q[i] == q[j] {
                        assert(r.contains(e));
                    }
                } else {
                    assert(q[j] == r[j]);
                }
            }
            assert forall|k: int| 0 <= k < q.len() implies (#[trigger] q[k]).0 != q[k].1 by {
                if k < r.len() {
                    assert(q[k] == r[k]);
                }
            }
        }
    }
}


// ---------------------------------------------------------------------
// Activation waves
// ---------------------------------------------------------------------

/// Add each of `ns` not yet visited to `visited` and to `next`, in
/// order.
pub open spec fn discover(visited: Seq<Seq<char>>, next: Seq<Seq<char>>, ns: Seq<Seq<char>>) -> (
    Seq<Seq<char>>,
    Seq<Seq<char>>,
)
    decreases ns.len(),
{
    if ns.len() == 0 {
        (visited, next)
    } else {
        let (v, n) = discover(visited, next, ns.drop_last());
        let x = ns.last();
        if v.contains(x) {
            (v, n)
        } else {
            (v.push(x), n.push(x))
        }
    }
}

/// One hop of a wave: the neighbours of each frontier note, in frontier
/// order, that no earlier hop or note reached.
pub open spec fn expand(
    edges: Seq<EdgeView>,
    visited: Seq<Seq<char>>,
    next: Seq<Seq<char>>,
    frontier: Seq<Seq<char>>,
) -> (Seq<Seq<char>>, Seq<Seq<char>>)
    decreases frontier.len(),
{
    if frontier.len() == 0 {
        (visited, next)
    } else {
        let (v, n) = expand(edges, visited, next, frontier.drop_last());
        discover(v, n, neighbors_spec(edges, frontier.last()))
    }
}

/// The frontier's notes, each at `hop`.
pub open spec fn at_hop(frontier: Seq<Seq<char>>, hop: nat) -> Seq<(Seq<char>, nat)> {
    frontier.map_values(|x: Seq<char>| (x, hop))
}

/// The wave from hop `hop` on: the frontier bumped at this hop, then,
/// unless this was the last hop or nothing new was reached, the wave
/// from the newly reached notes. Also every note reached.
pub open spec fn wave_from(
    edges: Seq<EdgeView>,
    visited: Seq<Seq<char>>,
    frontier: Seq<Seq<char>>,
    hop: nat,
    hops: nat,
) -> (Seq<(Seq<char>, nat)>, Seq<Seq<char>>)
    decreases hops - hop,
{
    let (v, next) = expand(edges, visited, Seq::empty(), frontier);
    if hop >= hops || next.len() == 0 {
        (at_hop(frontier, hop), v)
    } else {
        let (ops, reached) = wave_from(edges, v, next, hop + 1, hops);
        (at_hop(frontier, hop) + ops, reached)
    }
}

/// A bump's wave from `origin`, at most `hops` hops out: each note it
/// touches with its hop, and every note it reached (the last hop's new
/// neighbours included, though the wave stops before bumping them).
pub open spec fn wave_spec(edges: Seq<EdgeView>, origin: Seq<char>, hops: nat) -> (
    Seq<(Seq<char>, nat)>,
    Seq<Seq<char>>,
) {
    wave_from(edges, seq![origin], seq![origin], 0, hops)
}

fn contains_string(v: &Vec<String>, s: &str) -> (b: bool)
    ensures
        b == views::<String>(v@).contains(s@),
{
    let mut i: usize = 0;
    while i < v.len()
        invariant
            i <= v@.len(),
            forall|k: int| 0 <= k < i ==> views::<String>(v@)[k] != s@,
        decreases v@.len() - i,
    {
        if str_eq(v[i].as_str(), s) {
            proof {
                assert(views::<String>(v@)[i as int] == s@);
            }
            return true;
        }
        i = i + 1;
    }
    false
}

fn expand_exec(
    edges: &Vec<ResolvedLink>,
    visited: &mut Vec<String>,
    frontier: &Vec<String>,
) -> (next: Vec<String>)
    ensures
        (views::<String>(final(visited)@), views::<String>(next@)) == expand(
            views::<ResolvedLink>(edges@),
            views::<String>(old(visited)@),
            Seq::empty(),
            views::<String>(frontier@),
        ),
{
    let ghost ev = views::<ResolvedLink>(edges@);
    let ghost fv = views::<String>(frontier@);
    let ghost v0 = views::<String>(visited@);
    let mut next: Vec<String> = Vec::new();
    let mut i: usize = 0;
    while i < frontier.len()
        invariant
            i <= frontier@.len(),
            ev == views::<ResolvedLink>(edges@),
            fv == views::<String>(frontier@),
            (views::<String>(visited@), views::<String>(next@)) == expand(
                ev,
                v0,
                Seq::empty(),
                fv.take(i as int),
            ),
        decreases frontier@.len() - i,
    {
        proof {
            assert(fv.take(i + 1).drop_last() =~= fv.take(i as int));
            assert(fv.take(i + 1).last() == frontier@[i as int]@);
        }
        let ns = neighbors(edges, frontier[i].as_str());
        let ghost nv = views::<String>(ns@);
        let ghost vs = views::<String>(visited@);
        let ghost xs = views::<String>(next@);
        let mut j: usize = 0;
        while j < ns.len()
            invariant
                j <= ns@.len(),
                nv == views::<String>(ns@),
                (views::<String>(visited@), views::<String>(next@)) == discover(
                    vs,
                    xs,
                    nv.take(j as int),
                ),
            decreases ns@.len() - j,
        {
            proof {
                assert(nv.take(j + 1).drop_last() =~= nv.take(j as int));
                assert(nv.take(j + 1).last() == ns@[j as int]@);
            }
            if !contains_string(visited, ns[j].as_str()) {
                let ghost bv = views::<String>(visited@);
                let ghost bn = views::<String>(next@);
                visited.push(ns[j].clone());
                next.push(ns[j].clone());
                proof {
                    assert(views::<String>(visited@) =~= bv.push(ns@[j as int]@));
                    assert(views::<String>(next@) =~= bn.push(ns@[j as int]@));
                }
            }
            j = j + 1;
        }
        proof {
            assert(nv.take(ns@.len() as int) =~= nv);
        }
        i = i + 1;
    }
    proof {
        assert(fv.take(frontier@.len() as int) =~= fv);
    }
    next
}

pub open spec fn op_views(ops: Seq<(String, u32)>) -> Seq<(Seq<char>, nat)> {
    ops.map_values(|o: (String, u32)| (o.0@, o.1 as nat))
}

/// Plan a bump's wave from `origin`, at most `hops` hops out: the notes
/// to bump in order, each with its hop, and every note the wave reached.
/// The application scales the bump by the per-hop factor.
pub fn plan_wave(edges: &Vec<ResolvedLink>, origin: &str, hops: u32) -> (r: (Vec<(String, u32)>, Vec<String>))
    ensures
        (op_views(r.0@), views::<String>(r.1@)) == wave_spec(
            views::<ResolvedLink>(edges@),
            origin@,
            hops as nat,
        ),
{
    let ghost ev = views::<ResolvedLink>(edges@);
    let mut ops: Vec<(String, u32)> = Vec::new();
    let mut visited: Vec<String> = Vec::new();
    visited.push(origin.to_string());
    let mut frontier: Vec<String> = Vec::new();
    frontier.push(origin.to_string());
    let mut hop: u32 = 0;
    proof {
        assert(views::<String>(visited@) =~= seq![origin@]);
        assert(views::<String>(frontier@) =~= seq![origin@]);
        assert(op_views(ops@) + wave_spec(ev, origin@, hops as nat).0 =~= wave_spec(ev, origin@, hops as nat).0);
    }
    loop
        invariant
            hop <= hops,
            ev == views::<ResolvedLink>(edges@),
            wave_spec(ev, origin@, hops as nat) == ({
                let w = wave_from(ev, views::<String>(visited@), views::<String>(frontier@), hop as nat, hops as nat);
                (op_views(ops@) + w.0, w.1)
            }),
        decreases hops - hop,
    {
        let ghost v_before = views::<String>(visited@);
        let ghost f_before = views::<String>(frontier@);
        let ghost o_before = op_views(ops@);
        let mut i: usize = 0;
        while i < frontier.len()
            invariant
                i <= frontier@.len(),
                op_views(ops@) == o_before + at_hop(views::<String>(frontier@), hop as nat).take(i as int),
            decreases frontier@.len() - i,
        {
            let ghost ob = op_views(ops@);
            ops.push((frontier[i].clone(), hop));
            proof {
                assert(op_views(ops@) =~= ob.push((frontier@[i as int]@, hop as nat)));
                assert(at_hop(views::<String>(frontier@), hop as nat).take(i + 1) =~= at_hop(
                    views::<String>(frontier@),
                    hop as nat,
                ).take(i as int).push((frontier@[i as int]@, hop as nat)));
            }
            i = i + 1;
        }
        proof {
            assert(at_hop(f_before, hop as nat).take(frontier@.len() as int) =~= at_hop(f_before, hop as nat));
        }
        let next = expand_exec(edges, &mut visited, &frontier);
        if hop >= hops || next.len() == 0 {
            return (ops, visited);
        }
        proof {
            assert(o_before + at_hop(f_before, hop as nat) + wave_from(
                ev,
                views::<String>(visited@),
                views::<String>(next@),
                (hop + 1) as nat,
                hops as nat,
            ).0 =~= o_before + (at_hop(f_before, hop as nat) + wave_from(
                ev,
                views::<String>(visited@),
                views::<String>(next@),
                (hop + 1) as nat,
                hops as nat,
            ).0));
        }
        frontier = next;
        hop = hop + 1;
    }
}


proof fn lemma_discover(visited: Seq<Seq<char>>, next: Seq<Seq<char>>, ns: Seq<Seq<char>>)
    ensures
        ({
            let (v, n) = discover(visited, next, ns);
            &&& n.len() >= next.len()
            &&& n.take(next.len() as int) == next
            &&& v == visited + n.skip(next.len() as int)
            &&& forall|k: int|
                next.len() <= k < n.len() ==> !visited.contains(#[trigger] n[k]) && ns.contains(
                    n[k],
                )
            &&& forall|i: int, j: int| next.len() <= i < j < n.len() ==> n[i] != n[j]
        }),
    decreases ns.len(),
{
    if ns.len() > 0 {
        let init = ns.drop_last();
        lemma_discover(visited, next, init);
        let (v, n) = discover(visited, next, init);
        let x = ns.last();
        assert forall|y: Seq<char>| init.contains(y) implies ns.contains(y) by {
            let w = choose|w: int| 0 <= w < init.len() && init[w] == y;
            assert(ns[w] == y);
        }
        assert(ns.contains(x)) by {
            assert(ns[ns.len() - 1] == x);
        }
        if !v.contains(x) {
            let n2 = n.push(x);
            let v2 = v.push(x);
            assert(n2.take(next.len() as int) =~= n.take(next.len() as int));
            assert(n2.skip(next.len() as int) =~= n.skip(next.len() as int).push(x));
            assert(v2 =~= visited + n2.skip(next.len() as int));
            assert(!visited.contains(x)) by {
                if visited.contains(x) {
                    let w = choose|w: int| 0 <= w < visited.len() && visited[w] == x;
                    assert(v[w] == x);
                }
            }
            assert forall|i: int, j: int| next.len() <= i < j < n2.len() implies n2[i] != n2[j] by {
                if j == n.len() {
                    if n2[i] == n2[j] {
                        assert(n[i] == x);
                        assert(v[visited.len() + i - next.len()] == n[i]);
                    }
                } else {
                    assert(n2[i] == n[i] && n2[j] == n[j]);
                }
            }
            assert forall|k: int| next.len() <= k < n2.len() implies !visited.contains(
                #[trigger] n2[k],
            ) && ns.contains(n2[k]) by {
                if k < n.len() {
                    assert(n2[k] == n[k]);
                }
            }
        }
    }
}

proof fn lemma_expand(
    edges: Seq<EdgeView>,
    visited: Seq<Seq<char>>,
    next: Seq<Seq<char>>,
    frontier: Seq<Seq<char>>,
)
    ensures
        ({
            let (v, n) = expand(edges, visited, next, frontier);
            &&& n.len() >= next.len()
            &&& n.take(next.len() as int) == next
            &&& v == visited + n.skip(next.len() as int)
            &&& forall|k: int|
                next.len() <= k < n.len() ==> !visited.contains(#[trigger] n[k]) && exists|f: int|
                    0 <= f < frontier.len() && neighbors_spec(edges, frontier[f]).contains(n[k])
            &&& forall|i: int, j: int| next.len() <= i < j < n.len() ==> n[i] != n[j]
        }),
    decreases frontier.len(),
{
    if frontier.len() > 0 {
        let init = frontier.drop_last();
        lemma_expand(edges, visited, next, init);
        let (v, n) = expand(edges, visited, next, init);
        let ns = neighbors_spec(edges, frontier.last());
        lemma_discover(v, n, ns);
        let (v2, n2) = discover(v, n, ns);
        assert(n2.take(next.len() as int) =~= n.take(next.len() as int)) by {
            assert(n2.take(n.len() as int) == n);
        }
        assert(n2.skip(next.len() as int) =~= n.skip(next.len() as int) + n2.skip(n.len() as int)) by {
            assert(n2.take(n.len() as int) == n);
        }
        assert(v2 =~= visited + n2.skip(next.len() as int));
        assert forall|k: int| next.len() <= k < n2.len() implies !visited.contains(#[trigger] n2[k])
            && exists|f: int|
            0 <= f < frontier.len() && neighbors_spec(edges, frontier[f]).contains(n2[k]) by {
            if k < n.len() {
                assert(n2[k] == n.take(n.len() as int)[k]);
                assert(n2[k] == n[k]);
                let f = choose|f: int| 0 <= f < init.len() && neighbors_spec(edges, init[f]).contains(n[k]);
                assert(frontier[f] == init[f]);
            } else {
                assert(!v.contains(n2[k]));
                if visited.contains(n2[k]) {
                    let w = choose|w: int| 0 <= w < visited.len() && visited[w] == n2[k];
                    assert(v[w] == n2[k]);
                }
                assert(frontier[frontier.len() - 1] == frontier.last());
            }
        }
        assert forall|i: int, j: int| next.len() <= i < j < n2.len() implies n2[i] != n2[j] by {
            if j < n.len() {
                assert(n2[i] == n[i] && n2[j] == n[j]);
            } else if i < n.len() {
                assert(n2[i] == n[i]);
                assert(v[visited.len() + i - next.len()] == n[i]);
                assert(v.contains(n[i]));
            }
        }
    }
}

proof fn lemma_wave(edges: Seq<EdgeView>, visited: Seq<Seq<char>>, frontier: Seq<Seq<char>>, hop: nat, hops: nat)
    requires
        hop <= hops,
    ensures
        ({
            let ops = wave_from(edges, visited, frontier, hop, hops).0;
            &&& ops.len() >= frontier.len()
            &&& ops.take(frontier.len() as int) == at_hop(frontier, hop)
            &&& forall|k: int| 0 <= k < ops.len() ==> hop <= (#[trigger] ops[k]).1 <= hops
            &&& forall|k: int| frontier.len() <= k < ops.len() ==> (#[trigger] ops[k]).1 > hop
            &&& forall|k: int|
                0 <= k < ops.len() && (#[trigger] ops[k]).1 > hop ==> exists|j: int|
                    0 <= j < k && ops[j].1 + 1 == ops[k].1 && neighbors_spec(edges, ops[j].0).contains(
                        ops[k].0,
                    )
            &&& (forall|i: int, j: int| 0 <= i < j < frontier.len() ==> frontier[i] != frontier[j])
                && (forall|i: int| 0 <= i < frontier.len() ==> visited.contains(#[trigger] frontier[i]))
                ==> (forall|i: int, j: int| 0 <= i < j < ops.len() ==> ops[i].0 != ops[j].0) && (
                forall|k: int|
                    0 <= k < ops.len() ==> frontier.contains((#[trigger] ops[k]).0) || !visited.contains(
                        ops[k].0,
                    ))
        }),
    decreases hops - hop,
{
    let (v, next) = expand(edges, visited, Seq::empty(), frontier);
    lemma_expand(edges, visited, Seq::empty(), frontier);
    assert(next.skip(0) =~= next);
    let here = at_hop(frontier, hop);
    if hop >= hops || next.len() == 0 {
        let ops = here;
        assert(ops.take(frontier.len() as int) =~= here);
        if (forall|i: int, j: int| 0 <= i < j < frontier.len() ==> frontier[i] != frontier[j]) {
            assert forall|k: int| 0 <= k < ops.len() implies frontier.contains((#[trigger] ops[k]).0)
                || !visited.contains(ops[k].0) by {
                assert(ops[k].0 == frontier[k]);
            }
        }
    } else {
        lemma_wave(edges, v, next, hop + 1, hops);
        let rest = wave_from(edges, v, next, hop + 1, hops).0;
        let ops = here + rest;
        assert(wave_from(edges, visited, frontier, hop, hops).0 == ops);
        assert(ops.take(frontier.len() as int) =~= here);
        assert forall|k: int| 0 <= k < ops.len() implies hop <= (#[trigger] ops[k]).1 <= hops by {
            if k >= frontier.len() {
                assert(ops[k] == rest[k - frontier.len()]);
            }
        }
        assert forall|k: int| frontier.len() <= k < ops.len() implies (#[trigger] ops[k]).1 > hop by {
            assert(ops[k] == rest[k - frontier.len()]);
        }
        assert forall|k: int| 0 <= k < ops.len() && (#[trigger] ops[k]).1 > hop implies exists|j: int|
            0 <= j < k && ops[j].1 + 1 == ops[k].1 && neighbors_spec(edges, ops[j].0).contains(ops[k].0) by {
            let kk = k - frontier.len();
            assert(kk >= 0);
            assert(ops[k] == rest[kk]);
            if rest[kk].1 > hop + 1 {
                let jj = choose|jj: int|
                    0 <= jj < kk && rest[jj].1 + 1 == rest[kk].1 && neighbors_spec(edges, rest[jj].0).contains(
                        rest[kk].0,
                    );
                assert(ops[jj + frontier.len()] == rest[jj]);
            } else {
                assert(kk < next.len());
                assert(rest.take(next.len() as int)[kk] == rest[kk]);
                assert(rest[kk].0 == next[kk]);
                let f = choose|f: int| 0 <= f < frontier.len() && neighbors_spec(edges, frontier[f]).contains(
                    next[kk],
                );
                assert(ops[f] == here[f]);
            }
        }
        if (forall|i: int, j: int| 0 <= i < j < frontier.len() ==> frontier[i] != frontier[j])
            && (forall|i: int| 0 <= i < frontier.len() ==> visited.contains(#[trigger] frontier[i])) {
            assert forall|i: int| 0 <= i < next.len() implies v.contains(#[trigger] next[i]) by {
                assert(v[visited.len() + i] == next[i]);
            }
            assert forall|k: int| 0 <= k < rest.len() implies !visited.contains((#[trigger] rest[k]).0) by {
                if next.contains(rest[k].0) {
                    let w = choose|w: int| 0 <= w < next.len() && next[w] == rest[k].0;
                } else {
                    assert(!v.contains(rest[k].0));
                    if visited.contains(rest[k].0) {
                        let w = choose|w: int| 0 <= w < visited.len() && visited[w] == rest[k].0;
                        assert(v[w] == rest[k].0);
                    }
                }
            }
            assert forall|i: int, j: int| 0 <= i < j < ops.len() implies ops[i].0 != ops[j].0 by {
                if j < frontier.len() {
                    assert(ops[i].0 == frontier[i] && ops[j].0 == frontier[j]);
                } else if i < frontier.len() {
                    assert(ops[i].0 == frontier[i]);
                    assert(ops[j] == rest[j - frontier.len()]);
                    assert(visited.contains(frontier[i]));
                    assert(!visited.contains(rest[j - frontier.len()].0));
                } else {
                    assert(ops[i] == rest[i - frontier.len()]);
                    assert(ops[j] == rest[j - frontier.len()]);
                }
            }
            assert forall|k: int| 0 <= k < ops.len() implies frontier.contains((#[trigger] ops[k]).0)
                || !visited.contains(ops[k].0) by {
                if k < frontier.len() {
                    assert(ops[k].0 == frontier[k]);
                } else {
                    assert(ops[k] == rest[k - frontier.len()]);
                }
            }
        }
    }
}

/// What carries a wave's bump at `hop`: the bump's own carrier at the
/// origin, propagation beyond it.
pub fn hop_carrier(carrier: Carrier, hop: u32) -> (c: Carrier)
    ensures
        c == (if hop == 0 {
            carrier
        } else {
            Carrier::Propagated
        }),
{
    if hop == 0 {
        carrier
    } else {
        Carrier::Propagated
    }
}

/// The notes a wave bumps, each with its hop.
pub open spec fn wave_ops(edges: Seq<EdgeView>, origin: Seq<char>, hops: nat) -> Seq<(Seq<char>, nat)> {
    wave_spec(edges, origin, hops).0
}

/// A wave bumps its origin first, at hop 0, and no note deeper than
/// `hops`.
pub proof fn law_wave_starts_at_origin(edges: Seq<EdgeView>, origin: Seq<char>, hops: nat)
    ensures
        wave_ops(edges, origin, hops).len() >= 1,
        wave_ops(edges, origin, hops)[0] == (origin, 0nat),
        forall|k: int|
            0 <= k < wave_ops(edges, origin, hops).len() ==> (#[trigger] wave_ops(edges, origin, hops)[k]).1
                <= hops,
{
    lemma_wave(edges, seq![origin], seq![origin], 0, hops);
    let ops = wave_ops(edges, origin, hops);
    assert(ops.take(1)[0] == ops[0]);
}

/// One wave outward: a wave touches each note at most once.
pub proof fn law_wave_touches_once(edges: Seq<EdgeView>, origin: Seq<char>, hops: nat)
    ensures
        forall|i: int, j: int|
            0 <= i < j < wave_ops(edges, origin, hops).len() ==> wave_ops(edges, origin, hops)[i].0
                != wave_ops(edges, origin, hops)[j].0,
{
    lemma_wave(edges, seq![origin], seq![origin], 0, hops);
}

/// A wave travels along edges: every note it bumps past the origin
/// neighbours a note it bumped one hop earlier.
pub proof fn law_wave_follows_edges(edges: Seq<EdgeView>, origin: Seq<char>, hops: nat, k: int)
    requires
        0 < k < wave_ops(edges, origin, hops).len(),
    ensures
        exists|j: int|
            0 <= j < k && wave_ops(edges, origin, hops)[j].1 + 1 == wave_ops(edges, origin, hops)[k].1
                && neighbors_spec(edges, wave_ops(edges, origin, hops)[j].0).contains(
                wave_ops(edges, origin, hops)[k].0,
            ),
{
    lemma_wave(edges, seq![origin], seq![origin], 0, hops);
    let ops = wave_ops(edges, origin, hops);
    assert(seq![origin].len() == 1);
    assert(ops[k].1 > 0);
}


// ---------------------------------------------------------------------
// Flashes
// ---------------------------------------------------------------------

/// A flash shows at most this many characters of a note.
pub const FLASH_TEXT_CAP: usize = 1200;

/// A flash shows at most this many neighbours.
pub const FLASH_NEIGHBOR_CAP: usize = 6;

/// A note as a flash reads it: id, body, links.
pub open spec fn flash_note(n: NoteInfo) -> (Seq<char>, Seq<char>, Seq<(Seq<char>, Seq<char>)>) {
    (n.id@, n.body@, views::<(String, String)>(n.links@))
}

/// The position of the last note with `id`: a later note with the same
/// id shadows an earlier one.
pub open spec fn last_with_id(notes: Seq<(Seq<char>, Seq<char>, Seq<(Seq<char>, Seq<char>)>)>, id: Seq<char>) -> Option<int>
    decreases notes.len(),
{
    if notes.len() == 0 {
        None
    } else if notes.last().0 == id {
        Some(notes.len() - 1)
    } else {
        last_with_id(notes.drop_last(), id)
    }
}

/// Each link whose target resolves to a note, as (link type, that
/// note's capped body), in link order.
pub open spec fn linked_texts(
    notes: Seq<(Seq<char>, Seq<char>, Seq<(Seq<char>, Seq<char>)>)>,
    keys: Seq<(Seq<char>, Seq<char>)>,
    links: Seq<(Seq<char>, Seq<char>)>,
) -> Seq<(Seq<char>, Seq<char>)>
    decreases links.len(),
{
    if links.len() == 0 {
        Seq::empty()
    } else {
        let rest = linked_texts(notes, keys, links.drop_last());
        match resolve_spec(keys, links.last().1) {
            None => rest,
            Some(t) => match last_with_id(notes, t) {
                None => rest,
                Some(k) => rest.push((links.last().0, cap_chars_spec(notes[k].1, FLASH_TEXT_CAP as nat))),
            },
        }
    }
}

/// The flash of the note `id`, when a note has that id: its capped
/// body and up to `FLASH_NEIGHBOR_CAP` linked neighbours' capped bodies.
pub open spec fn flash_spec(
    notes: Seq<(Seq<char>, Seq<char>, Seq<(Seq<char>, Seq<char>)>)>,
    keys: Seq<(Seq<char>, Seq<char>)>,
    id: Seq<char>,
) -> Option<FlashView> {
    match last_with_id(notes, id) {
        None => None,
        Some(k) => {
            let all = linked_texts(notes, keys, notes[k].2);
            Some(
                FlashView {
                    note_id: id,
                    text: cap_chars_spec(notes[k].1, FLASH_TEXT_CAP as nat),
                    neighbors: if all.len() <= FLASH_NEIGHBOR_CAP {
                        all
                    } else {
                        all.take(FLASH_NEIGHBOR_CAP as int)
                    },
                },
            )
        },
    }
}

fn last_note_with_id(notes: &Vec<NoteInfo>, id: &str) -> (r: Option<usize>)
    ensures
        match r {
            Some(k) => k < notes@.len() && last_with_id(
                notes@.map_values(|n: NoteInfo| flash_note(n)),
                id@,
            ) == Some(k as int),
            None => last_with_id(notes@.map_values(|n: NoteInfo| flash_note(n)), id@) is None,
        },
{
    let ghost ns = notes@.map_values(|n: NoteInfo| flash_note(n));
    let mut i: usize = notes.len();
    proof {
        assert(ns.take(notes@.len() as int) =~= ns);
    }
    while i > 0
        invariant
            i <= notes@.len(),
            ns == notes@.map_values(|n: NoteInfo| flash_note(n)),
            last_with_id(ns, id@) == last_with_id(ns.take(i as int), id@),
        decreases i,
    {
        let ghost pre = ns.take(i as int);
        proof {
            assert(pre.drop_last() =~= ns.take(i - 1));
            assert(pre.last() == flash_note(notes@[i - 1]));
        }
        if str_eq(notes[i - 1].id.as_str(), id) {
            return Some(i - 1);
        }
        i = i - 1;
    }
    None
}

/// The flash of the note `note_id`, built from the notes and their
/// links; `None` when no note has that id (the caller then reads the
/// file the id names).
pub fn flash_for(note_id: &str, notes: &Vec<NoteInfo>, resolver: &Resolver) -> (r: Option<Flash>)
    requires
        resolver.wf(),
    ensures
        match r {
            Some(f) => flash_spec(notes@.map_values(|n: NoteInfo| flash_note(n)), resolver.notes(), note_id@)
                == Some(f@),
            None => flash_spec(notes@.map_values(|n: NoteInfo| flash_note(n)), resolver.notes(), note_id@)
                is None,
        },
{
    let ghost ns = notes@.map_values(|n: NoteInfo| flash_note(n));
    let k = match last_note_with_id(notes, note_id) {
        None => {
            return None;
        },
        Some(k) => k,
    };
    let note = &notes[k];
    let ghost lv = views::<(String, String)>(note.links@);
    proof {
        assert(ns[k as int] == flash_note(notes@[k as int]));
    }
    let mut all: Vec<(String, String)> = Vec::new();
    let mut j: usize = 0;
    while j < note.links.len()
        invariant
            j <= note.links@.len(),
            resolver.wf(),
            ns == notes@.map_values(|n: NoteInfo| flash_note(n)),
            lv == views::<(String, String)>(note.links@),
            views::<(String, String)>(all@) == linked_texts(ns, resolver.notes(), lv.take(j as int)),
        decreases note.links@.len() - j,
    {
        proof {
            assert(lv.take(j + 1).drop_last() =~= lv.take(j as int));
            assert(lv.take(j + 1).last() == note.links@[j as int]@);
        }
        let ghost before = views::<(String, String)>(all@);
        match resolver.resolve(note.links[j].1.as_str()) {
            None => {},
            Some(t) => match last_note_with_id(notes, t.as_str()) {
                None => {},
                Some(m) => {
                    proof {
                        assert(ns[m as int] == flash_note(notes@[m as int]));
                    }
                    let entry = (note.links[j].0.clone(), cap_chars(notes[m].body.as_str(), FLASH_TEXT_CAP));
                    all.push(entry);
                    proof {
                        assert(views::<(String, String)>(all@) =~= before.push(entry@));
                    }
                },
            },
        }
        j = j + 1;
    }
    proof {
        assert(lv.take(note.links@.len() as int) =~= lv);
    }
    let mut neighbors: Vec<(String, String)> = Vec::new();
    let mut q: usize = 0;
    while q < all.len() && q < FLASH_NEIGHBOR_CAP
        invariant
            q <= all@.len(),
            q <= FLASH_NEIGHBOR_CAP,
            views::<(String, String)>(neighbors@) == views::<(String, String)>(all@).take(q as int),
        decreases all@.len() - q,
    {
        let ghost before = views::<(String, String)>(neighbors@);
        let pair = (all[q].0.clone(), all[q].1.clone());
        proof {
            assert(pair@ == all@[q as int]@);
            assert(views::<(String, String)>(all@)[q as int] == all@[q as int]@);
        }
        neighbors.push(pair);
        proof {
            assert(views::<(String, String)>(neighbors@) =~= before.push(pair@));
            assert(views::<(String, String)>(all@).take(q + 1) =~= views::<(String, String)>(all@).take(
                q as int,
            ).push(all@[q as int]@));
        }
        q = q + 1;
    }
    proof {
        if all@.len() <= FLASH_NEIGHBOR_CAP {
            assert(views::<(String, String)>(all@).take(all@.len() as int) =~= views::<(String, String)>(all@));
        }
    }
    let text = cap_chars(note.body.as_str(), FLASH_TEXT_CAP);
    let f = Flash { note_id: note_id.to_string(), text, neighbors };
    proof {
        assert(f@.neighbors == views::<(String, String)>(neighbors@));
    }
    Some(f)
}


// ---------------------------------------------------------------------
// Whom a bump reaches
// ---------------------------------------------------------------------

/// The id of the last note at `path` (a later note at the same path
/// shadows an earlier one).
pub open spec fn id_at_path(notes: Seq<(Seq<char>, Seq<char>)>, path: Seq<char>) -> Option<Seq<char>>
    decreases notes.len(),
{
    if notes.len() == 0 {
        None
    } else if notes.last().1 == path {
        Some(notes.last().0)
    } else {
        id_at_path(notes.drop_last(), path)
    }
}

pub open spec fn id_path_keys(notes: Seq<NoteInfo>) -> Seq<(Seq<char>, Seq<char>)> {
    notes.map_values(|n: NoteInfo| (n.id@, n.path@))
}

/// The id of the note at `path`, if a note is there.
pub fn note_id_at(notes: &Vec<NoteInfo>, path: &str) -> (r: Option<String>)
    ensures
        match r {
            Some(id) => id_at_path(id_path_keys(notes@), path@) == Some(id@),
            None => id_at_path(id_path_keys(notes@), path@) is None,
        },
{
    let ghost ks = id_path_keys(notes@);
    let mut i: usize = notes.len();
    proof {
        assert(ks.take(notes@.len() as int) =~= ks);
    }
    while i > 0
        invariant
            i <= notes@.len(),
            ks == id_path_keys(notes@),
            id_at_path(ks, path@) == id_at_path(ks.take(i as int), path@),
        decreases i,
    {
        let ghost pre = ks.take(i as int);
        proof {
            assert(pre.drop_last() =~= ks.take(i - 1));
            assert(pre.last() == (notes@[i - 1].id@, notes@[i - 1].path@));
        }
        if str_eq(notes[i - 1].path.as_str(), path) {
            return Some(notes[i - 1].id.clone());
        }
        i = i - 1;
    }
    None
}

/// Whom a bump at `path` reaches: the note indexed at that path, else
/// the id in the file's own frontmatter (`text`, when it could be
/// read), else the path itself.
pub fn bump_target(notes: &Vec<NoteInfo>, path: &str, text: Option<&str>) -> (r: String)
    ensures
        r@ == match id_at_path(id_path_keys(notes@), path@) {
            Some(id) => id,
            None => match text {
                Some(t) => match crate::memory::frontmatter_id_spec(t@) {
                    Some(fid) => fid,
                    None => path@,
                },
                None => path@,
            },
        },
{
    match note_id_at(notes, path) {
        Some(id) => id,
        None => match text {
            Some(t) => match crate::memory::frontmatter_id(t) {
                Some(fid) => fid,
                None => path.to_string(),
            },
            None => path.to_string(),
        },
    }
}

/// Resonance reads at most this many bytes of a text at first.
pub const RESONANCE_BYTES: usize = 4000;

/// Where the first resonance query cuts the text: its whole length, or
/// `RESONANCE_BYTES` when it is longer.
pub fn resonance_cut(text: &str) -> (r: usize)
    ensures
        r == (if crate::text::byte_len(text@) <= RESONANCE_BYTES {
            crate::text::byte_len(text@)
        } else {
            RESONANCE_BYTES as nat
        }),
{
    let cs = crate::text::chars_of(text);
    let mut n: usize = 0;
    let mut i: usize = 0;
    while i < cs.len() && n <= RESONANCE_BYTES
        invariant
            i <= cs@.len(),
            n == crate::text::byte_len(cs@.take(i as int)),
            n <= RESONANCE_BYTES + 4,
        decreases cs@.len() - i,
    {
        proof {
            assert(cs@.take(i + 1) =~= cs@.take(i as int).push(cs@[i as int]));
            crate::text::lemma_byte_len_push(cs@.take(i as int), cs@[i as int]);
        }
        n = n + crate::text::char_len_utf8(cs[i]);
        i = i + 1;
    }
    proof {
        if i == cs@.len() {
            assert(cs@.take(i as int) =~= cs@);
        } else {
            crate::text::lemma_take_bytes_increase(cs@, i as int, cs@.len() as int);
            assert(cs@.take(cs@.len() as int) =~= cs@);
        }
    }
    if n <= RESONANCE_BYTES {
        n
    } else {
        RESONANCE_BYTES
    }
}

/// Whether a text resonates at all: blank text never does.
pub fn resonates(text: &str) -> (b: bool)
    ensures
        b == (crate::text::trim(text@).len() > 0),
{
    let t = crate::text::trimmed_chars(text);
    t.len() > 0
}

} // verus!
