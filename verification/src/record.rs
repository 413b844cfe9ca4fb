//! The turn record and the witness moves: one append-only stream of
//! lines, each under a turn number, read back through a turn index.
//!
//! The index keeps the lines in physical (append) order and, beside
//! them, one group per distinct turn: the turn number and the positions
//! of that turn's lines, groups ordered by turn. Every reader answers
//! from the index exactly what a scan of the lines would answer: turn
//! order across turns, append order within a turn.

use vstd::prelude::*;
use crate::model::{duplicate_calls, ToolCallRequest, ToolCallView};
use crate::text::{push_str, string_of, views};

verus! {

/// A line of a turn-indexed stream: it has a turn number and can be
/// copied field by field.
pub trait Turned: Sized + View {
    spec fn turn_view(v: Self::V) -> u64;

    fn turn(&self) -> (t: u64)
        ensures
            t == Self::turn_view(self@),
    ;

    fn duplicate(&self) -> (r: Self)
        ensures
            r@ == self@,
    ;
}

/// The lines of `s` under turn `t`, in their order in `s`.
pub open spec fn with_turn<T: Turned>(s: Seq<T::V>, t: u64) -> Seq<T::V>
    decreases s.len(),
{
    if s.len() == 0 {
        Seq::empty()
    } else {
        let p = with_turn::<T>(s.drop_last(), t);
        if T::turn_view(s.last()) == t {
            p.push(s.last())
        } else {
            p
        }
    }
}

/// The positions in `s` of the lines under turn `t`, ascending.
pub open spec fn positions<T: Turned>(s: Seq<T::V>, t: u64) -> Seq<usize>
    decreases s.len(),
{
    if s.len() == 0 {
        Seq::empty()
    } else {
        let p = positions::<T>(s.drop_last(), t);
        if T::turn_view(s.last()) == t {
            p.push((s.len() - 1) as usize)
        } else {
            p
        }
    }
}

/// Some line of `s` is under turn `t`.
pub open spec fn has_turn<T: Turned>(s: Seq<T::V>, t: u64) -> bool {
    exists|i: int| 0 <= i < s.len() && T::turn_view(s[i]) == t
}

/// Turn numbers never decrease along `s`.
pub open spec fn turn_sorted<T: Turned>(s: Seq<T::V>) -> bool {
    forall|a: int, b: int| 0 <= a < b < s.len() ==> T::turn_view(s[a]) <= T::turn_view(s[b])
}

/// Strictly increasing numbers.
pub open spec fn strictly_increasing(s: Seq<u64>) -> bool {
    forall|a: int, b: int| 0 <= a < b < s.len() ==> s[a] < s[b]
}

pub proof fn lemma_positions<T: Turned>(s: Seq<T::V>, t: u64)
    requires
        s.len() <= usize::MAX,
    ensures
        positions::<T>(s, t).len() == with_turn::<T>(s, t).len(),
        forall|j: int|
            0 <= j < positions::<T>(s, t).len() ==> {
                let p = #[trigger] positions::<T>(s, t)[j];
                &&& p < s.len()
                &&& T::turn_view(s[p as int]) == t
                &&& with_turn::<T>(s, t)[j] == s[p as int]
            },
        forall|a: int, b: int|
            0 <= a < b < positions::<T>(s, t).len() ==> positions::<T>(s, t)[a] < positions::<T>(
                s,
                t,
            )[b],
        (positions::<T>(s, t).len() > 0) == has_turn::<T>(s, t),
        forall|j: int|
            0 <= j < with_turn::<T>(s, t).len() ==> T::turn_view(#[trigger] with_turn::<T>(s, t)[j])
                == t,
    decreases s.len(),
{
    if s.len() > 0 {
        let d = s.drop_last();
        lemma_positions::<T>(d, t);
        if has_turn::<T>(d, t) {
            let i = choose|i: int| 0 <= i < d.len() && T::turn_view(d[i]) == t;
            assert(s[i] == d[i]);
        }
        if has_turn::<T>(s, t) && T::turn_view(s.last()) != t {
            let i = choose|i: int| 0 <= i < s.len() && T::turn_view(s[i]) == t;
            assert(d[i] == s[i]);
        }
        assert forall|j: int| 0 <= j < positions::<T>(s, t).len() implies {
            let p = #[trigger] positions::<T>(s, t)[j];
            &&& p < s.len()
            &&& T::turn_view(s[p as int]) == t
            &&& with_turn::<T>(s, t)[j] == s[p as int]
        } by {
            if j < positions::<T>(d, t).len() {
                let p = positions::<T>(d, t)[j];
                assert(positions::<T>(s, t)[j] == p);
                assert(with_turn::<T>(s, t)[j] == with_turn::<T>(d, t)[j]);
                assert(s[p as int] == d[p as int]);
            }
        }
        assert forall|j: int| 0 <= j < with_turn::<T>(s, t).len() implies T::turn_view(
            #[trigger] with_turn::<T>(s, t)[j],
        ) == t by {
            if j < with_turn::<T>(d, t).len() {
                assert(with_turn::<T>(s, t)[j] == with_turn::<T>(d, t)[j]);
            }
        }
    }
}

pub proof fn lemma_with_turn_push<T: Turned>(s: Seq<T::V>, v: T::V, t: u64)
    ensures
        with_turn::<T>(s.push(v), t) == (if T::turn_view(v) == t {
            with_turn::<T>(s, t).push(v)
        } else {
            with_turn::<T>(s, t)
        }),
        positions::<T>(s.push(v), t) == (if T::turn_view(v) == t {
            positions::<T>(s, t).push(s.len() as usize)
        } else {
            positions::<T>(s, t)
        }),
{
    assert(s.push(v).drop_last() =~= s);
}

/// A read gives back what was appended: once a line is appended, its
/// turn reads as before with the line last, and every other turn reads
/// exactly as before.
pub proof fn law_read_after_append<T: Turned>(s: Seq<T::V>, v: T::V, t: u64)
    ensures
        with_turn::<T>(s.push(v), T::turn_view(v)) == with_turn::<T>(s, T::turn_view(v)).push(v),
        t != T::turn_view(v) ==> with_turn::<T>(s.push(v), t) == with_turn::<T>(s, t),
{
    lemma_with_turn_push::<T>(s, v, T::turn_view(v));
    lemma_with_turn_push::<T>(s, v, t);
}

pub proof fn lemma_with_turn_append<T: Turned>(a: Seq<T::V>, b: Seq<T::V>, t: u64)
    ensures
        with_turn::<T>(a + b, t) == with_turn::<T>(a, t) + with_turn::<T>(b, t),
    decreases b.len(),
{
    if b.len() == 0 {
        assert(a + b =~= a);
        assert(with_turn::<T>(a, t) + Seq::<T::V>::empty() =~= with_turn::<T>(a, t));
    } else {
        assert((a + b).drop_last() =~= a + b.drop_last());
        lemma_with_turn_append::<T>(a, b.drop_last(), t);
        if T::turn_view(b.last()) == t {
            assert(with_turn::<T>(a, t) + with_turn::<T>(b.drop_last(), t).push(b.last()) =~= (
            with_turn::<T>(a, t) + with_turn::<T>(b.drop_last(), t)).push(b.last()));
        }
    }
}

/// Every line of `s` is under turn `t`.
pub open spec fn all_turn<T: Turned>(s: Seq<T::V>, t: u64) -> bool {
    forall|i: int| 0 <= i < s.len() ==> T::turn_view(s[i]) == t
}

pub proof fn lemma_with_turn_uniform<T: Turned>(s: Seq<T::V>, t: u64, u: u64)
    requires
        all_turn::<T>(s, t),
    ensures
        with_turn::<T>(s, u) == (if u == t {
            s
        } else {
            Seq::<T::V>::empty()
        }),
    decreases s.len(),
{
    if s.len() > 0 {
        lemma_with_turn_uniform::<T>(s.drop_last(), t, u);
        if u == t {
            assert(s.drop_last().push(s.last()) =~= s);
        }
    }
}

/// A stream of turn-numbered lines and its turn index.
pub struct TurnIndex<T> {
    items: Vec<T>,
    groups: Vec<(u64, Vec<usize>)>,
}

impl<T: Turned> View for TurnIndex<T> {
    type V = Seq<T::V>;

    closed spec fn view(&self) -> Seq<T::V> {
        views::<T>(self.items@)
    }
}

impl<T: Turned> TurnIndex<T> {
    /// The index agrees with the lines: groups in strictly increasing
    /// turn order, each holding exactly its turn's positions, and every
    /// turn present in the lines has a group.
    pub closed spec fn wf(&self) -> bool {
        &&& self.items@.len() < usize::MAX
        &&& forall|a: int, b: int|
            0 <= a < b < self.groups@.len() ==> self.groups@[a].0 < self.groups@[b].0
        &&& forall|k: int|
            0 <= k < self.groups@.len() ==> self.groups@[k].1@ == positions::<T>(
                self@,
                self.groups@[k].0,
            )
        &&& forall|k: int| 0 <= k < self.groups@.len() ==> self.groups@[k].1@.len() > 0
        &&& forall|t: u64|
            #[trigger] has_turn::<T>(self@, t) ==> exists|k: int|
                0 <= k < self.groups@.len() && self.groups@[k].0 == t
    }

    /// The distinct turns, ascending.
    pub closed spec fn keys(&self) -> Seq<u64> {
        self.groups@.map_values(|g: (u64, Vec<usize>)| g.0)
    }

    proof fn lemma_view_index(&self, i: int)
        requires
            0 <= i < self.items@.len(),
        ensures
            self@[i] == self.items@[i]@,
            self@.len() == self.items@.len(),
    {
    }

    /// An empty stream.
    pub fn new() -> (r: Self)
        ensures
            r.wf(),
            r@ == Seq::<T::V>::empty(),
    {
        let r = TurnIndex { items: Vec::new(), groups: Vec::new() };
        proof {
            assert(r@ =~= Seq::<T::V>::empty());
        }
        r
    }

    /// The number of lines.
    pub fn len(&self) -> (n: usize)
        requires
            self.wf(),
        ensures
            n == self@.len(),
    {
        self.items.len()
    }

    /// Append one line at the end of the stream.
    pub fn push(&mut self, line: T)
        requires
            old(self).wf(),
            old(self)@.len() + 1 < usize::MAX,
        ensures
            final(self).wf(),
            final(self)@ == old(self)@.push(line@),
    {
        let ghost s = self@;
        let t = line.turn();
        let n = self.items.len();
        self.items.push(line);
        proof {
            assert(self@ =~= s.push(line@));
            assert forall|u: u64| true implies positions::<T>(self@, u) == (if u == t {
                positions::<T>(s, u).push(n)
            } else {
                positions::<T>(s, u)
            }) by {
                lemma_with_turn_push::<T>(s, line@, u);
            }
        }
        let mut k: usize = 0;
        while k < self.groups.len() && self.groups[k].0 < t
            invariant
                k <= self.groups@.len(),
                forall|j: int| 0 <= j < k ==> self.groups@[j].0 < t,
            decreases self.groups@.len() - k,
        {
            k = k + 1;
        }
        let ghost old_groups = self.groups@;
        if k < self.groups.len() && self.groups[k].0 == t {
            let (key, mut ps) = self.groups.remove(k);
            ps.push(n);
            self.groups.insert(k, (key, ps));
            proof {
                assert forall|j: int| 0 <= j < self.groups@.len() implies self.groups@[j].0
                    == old_groups[j].0 by {}
                assert forall|u: u64| #[trigger] has_turn::<T>(self@, u) implies exists|j: int|
                    0 <= j < self.groups@.len() && self.groups@[j].0 == u by {
                    if u != t {
                        assert(has_turn::<T>(s, u)) by {
                            let i = choose|i: int|
                                0 <= i < self@.len() && T::turn_view(self@[i]) == u;
                            assert(s[i] == self@[i]);
                        }
                        let j = choose|j: int| 0 <= j < old_groups.len() && old_groups[j].0 == u;
                        assert(self.groups@[j].0 == u);
                    } else {
                        assert(self.groups@[k as int].0 == u);
                    }
                }
            }
        } else {
            let mut ps: Vec<usize> = Vec::new();
            ps.push(n);
            self.groups.insert(k, (t, ps));
            proof {
                assert forall|j: int| k < j < old_groups.len() implies old_groups[j].0 > t by {
                    assert(old_groups[k as int].0 > t);
                }
                assert(!has_turn::<T>(s, t)) by {
                    if has_turn::<T>(s, t) {
                        let j = choose|j: int| 0 <= j < old_groups.len() && old_groups[j].0 == t;
                        if j < k {
                        } else {
                            assert(old_groups[k as int].0 != t);
                        }
                    }
                }
                lemma_positions::<T>(s, t);
                assert(positions::<T>(s, t) =~= Seq::<usize>::empty());
                assert(ps@ =~= Seq::<usize>::empty().push(n));
                assert forall|u: u64| #[trigger] has_turn::<T>(self@, u) implies exists|j: int|
                    0 <= j < self.groups@.len() && self.groups@[j].0 == u by {
                    if u != t {
                        assert(has_turn::<T>(s, u)) by {
                            let i = choose|i: int|
                                0 <= i < self@.len() && T::turn_view(self@[i]) == u;
                            assert(s[i] == self@[i]);
                        }
                        let j = choose|j: int| 0 <= j < old_groups.len() && old_groups[j].0 == u;
                        if j < k {
                            assert(self.groups@[j].0 == u);
                        } else {
                            assert(self.groups@[j + 1].0 == u);
                        }
                    } else {
                        assert(self.groups@[k as int].0 == u);
                    }
                }
            }
        }
    }

    /// Replace the whole stream by `lines`, in order, and rebuild the
    /// index.
    pub fn rebuild(&mut self, lines: Vec<T>)
        requires
            lines@.len() + 1 < usize::MAX,
        ensures
            final(self).wf(),
            final(self)@ == views::<T>(lines@),
    {
        *self = TurnIndex::new();
        let mut i: usize = 0;
        while i < lines.len()
            invariant
                i <= lines@.len(),
                lines@.len() + 1 < usize::MAX,
                self.wf(),
                self@ == views::<T>(lines@.subrange(0, i as int)),
            decreases lines@.len() - i,
        {
            let line = lines[i].duplicate();
            self.push(line);
            proof {
                assert(views::<T>(lines@.subrange(0, i as int + 1)) =~= views::<T>(lines@.subrange(
                    0,
                    i as int,
                )).push(lines@[i as int]@));
            }
            i = i + 1;
        }
        proof {
            assert(lines@.subrange(0, lines@.len() as int) =~= lines@);
        }
    }

    /// Copies of the lines at the given positions, in that order.
    fn copies_at(&self, ps: &Vec<usize>) -> (r: Vec<T>)
        requires
            forall|j: int| 0 <= j < ps@.len() ==> ps@[j] < self.items@.len(),
        ensures
            r@.len() == ps@.len(),
            forall|j: int| 0 <= j < ps@.len() ==> r@[j]@ == self@[ps@[j] as int],
    {
        let mut r: Vec<T> = Vec::new();
        let mut j: usize = 0;
        while j < ps.len()
            invariant
                j <= ps@.len(),
                forall|m: int| 0 <= m < ps@.len() ==> ps@[m] < self.items@.len(),
                r@.len() == j,
                forall|m: int| 0 <= m < j ==> r@[m]@ == self@[ps@[m] as int],
            decreases ps@.len() - j,
        {
            let p = ps[j];
            proof {
                self.lemma_view_index(p as int);
            }
            r.push(self.items[p].duplicate());
            j = j + 1;
        }
        r
    }

    /// The group of turn `t`, if the stream has one.
    fn group_of(&self, t: u64) -> (r: Option<usize>)
        requires
            self.wf(),
        ensures
            match r {
                Some(k) => k < self.groups@.len() && self.groups@[k as int].0 == t,
                None => !has_turn::<T>(self@, t),
            },
    {
        let mut k: usize = 0;
        while k < self.groups.len()
            invariant
                k <= self.groups@.len(),
                forall|j: int| 0 <= j < k ==> self.groups@[j].0 != t,
            decreases self.groups@.len() - k,
        {
            if self.groups[k].0 == t {
                return Some(k);
            }
            k = k + 1;
        }
        None
    }

    /// Copies of a group's lines.
    fn group_lines(&self, k: usize) -> (r: Vec<T>)
        requires
            self.wf(),
            k < self.groups@.len(),
        ensures
            views::<T>(r@) == with_turn::<T>(self@, self.groups@[k as int].0),
    {
        let t = self.groups[k].0;
        proof {
            lemma_positions::<T>(self@, t);
        }
        let r = self.copies_at(&self.groups[k].1);
        proof {
            let ps = self.groups@[k as int].1@;
            assert forall|j: int| 0 <= j < ps.len() implies views::<T>(r@)[j] == with_turn::<T>(
                self@,
                t,
            )[j] by {
                assert(ps[j] == positions::<T>(self@, t)[j]);
            }
            assert(views::<T>(r@) =~= with_turn::<T>(self@, t));
        }
        r
    }

    /// Copies of every line, in stream order.
    pub fn all_lines(&self) -> (r: Vec<T>)
        requires
            self.wf(),
        ensures
            views::<T>(r@) == self@,
    {
        let mut r: Vec<T> = Vec::new();
        let mut i: usize = 0;
        while i < self.items.len()
            invariant
                i <= self.items@.len(),
                r@.len() == i,
                forall|m: int| 0 <= m < i ==> r@[m]@ == self@[m],
            decreases self.items@.len() - i,
        {
            proof {
                self.lemma_view_index(i as int);
            }
            r.push(self.items[i].duplicate());
            i = i + 1;
        }
        proof {
            assert(views::<T>(r@) =~= self@);
        }
        r
    }

    /// Copies of the lines of turn `t`, in stream order.
    pub fn turn_lines(&self, t: u64) -> (r: Vec<T>)
        requires
            self.wf(),
        ensures
            views::<T>(r@) == with_turn::<T>(self@, t),
    {
        match self.group_of(t) {
            Some(k) => self.group_lines(k),
            None => {
                proof {
                    lemma_positions::<T>(self@, t);
                }
                let r: Vec<T> = Vec::new();
                proof {
                    assert(views::<T>(r@) =~= with_turn::<T>(self@, t));
                }
                r
            },
        }
    }

    /// Copies of the lines with `first <= turn <= last`: turn order
    /// across turns, stream order within a turn.
    pub fn range_lines(&self, first: u64, last: u64) -> (r: Vec<T>)
        requires
            self.wf(),
        ensures
            turn_sorted::<T>(views::<T>(r@)),
            forall|t: u64|
                #[trigger] with_turn::<T>(views::<T>(r@), t) == (if first <= t <= last {
                    with_turn::<T>(self@, t)
                } else {
                    Seq::<T::V>::empty()
                }),
    {
        let mut r: Vec<T> = Vec::new();
        let mut k: usize = 0;
        proof {
            assert forall|t: u64| #[trigger] with_turn::<T>(views::<T>(r@), t)
                == Seq::<T::V>::empty() by {
                assert(views::<T>(r@) =~= Seq::<T::V>::empty());
            }
        }
        while k < self.groups.len()
            invariant
                self.wf(),
                k <= self.groups@.len(),
                turn_sorted::<T>(views::<T>(r@)),
                r@.len() > 0 ==> k > 0,
                forall|j: int|
                    0 <= j < r@.len() ==> T::turn_view(#[trigger] r@[j]@) <= self.groups@[k
                        - 1].0,
                forall|t: u64|
                    #[trigger] with_turn::<T>(views::<T>(r@), t) == (if first <= t
                        <= last && (exists|j: int| 0 <= j < k && self.groups@[j].0 == t) {
                        with_turn::<T>(self@, t)
                    } else {
                        Seq::<T::V>::empty()
                    }),
            decreases self.groups@.len() - k,
        {
            let key = self.groups[k].0;
            if first <= key && key <= last {
                let g = self.group_lines(k);
                let ghost before = views::<T>(r@);
                let ghost gv = views::<T>(g@);
                proof {
                    lemma_positions::<T>(self@, key);
                }
                let mut g = g;
                r.append(&mut g);
                proof {
                    assert(views::<T>(r@) =~= before + gv);
                    assert(all_turn::<T>(gv, key));
                    assert forall|t: u64| #[trigger] with_turn::<T>(views::<T>(r@), t)
                        == (if first <= t <= last && (exists|j: int|
                        0 <= j < k + 1 && self.groups@[j].0 == t) {
                        with_turn::<T>(self@, t)
                    } else {
                        Seq::<T::V>::empty()
                    }) by {
                        lemma_with_turn_append::<T>(before, gv, t);
                        lemma_with_turn_uniform::<T>(gv, key, t);
                        if t == key {
                            assert(self.groups@[k as int].0 == t);
                            if exists|j: int| 0 <= j < k && self.groups@[j].0 == t {
                                let j = choose|j: int| 0 <= j < k && self.groups@[j].0 == t;
                                assert(self.groups@[j].0 < self.groups@[k as int].0);
                            }
                            assert(before + with_turn::<T>(self@, t) =~= with_turn::<T>(
                                self@,
                                t,
                            ) || with_turn::<T>(before, t) == Seq::<T::V>::empty());
                            assert(Seq::<T::V>::empty() + with_turn::<T>(self@, t) =~= with_turn::<
                                T,
                            >(self@, t));
                        } else {
                            assert(with_turn::<T>(before, t) + Seq::<T::V>::empty() =~= with_turn::<
                                T,
                            >(before, t));
                            if exists|j: int| 0 <= j < k + 1 && self.groups@[j].0 == t {
                                let j = choose|j: int| 0 <= j < k + 1 && self.groups@[j].0 == t;
                                assert(j < k);
                            }
                        }
                    }
                    assert forall|a: int, b: int|
                        0 <= a < b < views::<T>(r@).len() implies T::turn_view(
                        views::<T>(r@)[a],
                    ) <= T::turn_view(views::<T>(r@)[b]) by {
                        if b < before.len() {
                            assert(views::<T>(r@)[a] == before[a]);
                            assert(views::<T>(r@)[b] == before[b]);
                        } else if a < before.len() {
                            assert(views::<T>(r@)[a] == before[a]);
                            assert(before[a] == r@[a]@);
                            assert(views::<T>(r@)[b] == gv[b - before.len()]);
                            assert(self.groups@[k - 1].0 < self.groups@[k as int].0);
                        } else {
                            assert(views::<T>(r@)[a] == gv[a - before.len()]);
                            assert(views::<T>(r@)[b] == gv[b - before.len()]);
                        }
                    }
                    assert forall|j: int| 0 <= j < r@.len() implies T::turn_view(
                        #[trigger] r@[j]@,
                    ) <= self.groups@[k as int].0 by {
                        if j < before.len() {
                            assert(before[j] == r@[j]@);
                            assert(self.groups@[k - 1].0 < self.groups@[k as int].0);
                        } else {
                            assert(r@[j]@ == views::<T>(r@)[j]);
                            assert(views::<T>(r@)[j] == gv[j - before.len()]);
                        }
                    }
                }
            } else {
                proof {
                    assert forall|t: u64| #[trigger] with_turn::<T>(views::<T>(r@), t)
                        == (if first <= t <= last && (exists|j: int|
                        0 <= j < k + 1 && self.groups@[j].0 == t) {
                        with_turn::<T>(self@, t)
                    } else {
                        Seq::<T::V>::empty()
                    }) by {
                        if first <= t <= last && exists|j: int|
                            0 <= j < k + 1 && self.groups@[j].0 == t {
                            let j = choose|j: int| 0 <= j < k + 1 && self.groups@[j].0 == t;
                            assert(j < k);
                        }
                    }
                    assert forall|j: int| 0 <= j < r@.len() implies T::turn_view(
                        #[trigger] r@[j]@,
                    ) <= self.groups@[k as int].0 by {
                        assert(T::turn_view(r@[j]@) <= self.groups@[k - 1].0);
                        assert(self.groups@[k - 1].0 < self.groups@[k as int].0);
                    }
                }
            }
            k = k + 1;
        }
        proof {
            assert forall|t: u64| #[trigger] with_turn::<T>(views::<T>(r@), t) == (if first
                <= t <= last {
                with_turn::<T>(self@, t)
            } else {
                Seq::<T::V>::empty()
            }) by {
                lemma_positions::<T>(self@, t);
                if first <= t <= last && !(exists|j: int|
                    0 <= j < self.groups@.len() && self.groups@[j].0 == t) {
                    assert(!has_turn::<T>(self@, t));
                    assert(with_turn::<T>(self@, t) =~= Seq::<T::V>::empty());
                }
            }
        }
        r
    }

    /// The distinct turns up to and including `last`, ascending.
    pub fn turns_through(&self, last: u64) -> (r: Vec<u64>)
        requires
            self.wf(),
        ensures
            strictly_increasing(r@),
            forall|t: u64| #[trigger] r@.contains(t) == (t <= last && has_turn::<T>(self@, t)),
    {
        let mut r: Vec<u64> = Vec::new();
        let mut k: usize = 0;
        while k < self.groups.len()
            invariant
                self.wf(),
                k <= self.groups@.len(),
                strictly_increasing(r@),
                forall|j: int| 0 <= j < r@.len() ==> k > 0 && #[trigger] r@[j] <= self.groups@[k - 1].0,
                forall|t: u64|
                    #[trigger] r@.contains(t) == (t <= last && exists|j: int|
                        0 <= j < k && self.groups@[j].0 == t),
            decreases self.groups@.len() - k,
        {
            let key = self.groups[k].0;
            let ghost before = r@;
            if key <= last {
                r.push(key);
            }
            proof {
                lemma_positions::<T>(self@, key);
                assert forall|t: u64| #[trigger] r@.contains(t) == (t <= last && exists|j: int|
                    0 <= j < k + 1 && self.groups@[j].0 == t) by {
                    if r@.contains(t) && !before.contains(t) {
                        let i = choose|i: int| 0 <= i < r@.len() && r@[i] == t;
                        assert(i == before.len());
                        assert(self.groups@[k as int].0 == t);
                    }
                    if before.contains(t) {
                        let i = choose|i: int| 0 <= i < before.len() && before[i] == t;
                        assert(r@[i] == t);
                    }
                    if t <= last && exists|j: int| 0 <= j < k + 1 && self.groups@[j].0 == t {
                        let j = choose|j: int| 0 <= j < k + 1 && self.groups@[j].0 == t;
                        if j == k {
                            assert(r@[before.len() as int] == t);
                        }
                    }
                }
                assert forall|j: int| 0 <= j < r@.len() implies #[trigger] r@[j]
                    <= self.groups@[k as int].0 by {
                    if j < before.len() {
                        assert(before[j] == r@[j]);
                        assert(self.groups@[k - 1].0 < self.groups@[k as int].0);
                    }
                }
                assert forall|a: int, b: int| 0 <= a < b < r@.len() implies r@[a] < r@[b] by {
                    if b < before.len() {
                        assert(before[a] == r@[a] && before[b] == r@[b]);
                    } else {
                        assert(before[a] == r@[a]);
                        assert(self.groups@[k - 1].0 < self.groups@[k as int].0);
                    }
                }
            }
            k = k + 1;
        }
        proof {
            assert forall|t: u64| #[trigger] r@.contains(t) == (t <= last && has_turn::<T>(self@, t))
                by {
                lemma_positions::<T>(self@, t);
                if exists|j: int| 0 <= j < self.groups@.len() && self.groups@[j].0 == t {
                    let j = choose|j: int| 0 <= j < self.groups@.len() && self.groups@[j].0 == t;
                    assert(self.groups@[j].1@ == positions::<T>(self@, t));
                }
            }
        }
        r
    }

    /// A copy of the physically last line, if any.
    pub fn last_line(&self) -> (r: Option<T>)
        requires
            self.wf(),
        ensures
            match r {
                Some(x) => self@.len() > 0 && x@ == self@.last(),
                None => self@.len() == 0,
            },
    {
        let n = self.items.len();
        if n == 0 {
            None
        } else {
            proof {
                self.lemma_view_index(n - 1);
            }
            Some(self.items[n - 1].duplicate())
        }
    }

    /// The highest turn in the stream, or 0 for an empty stream.
    pub fn max_turn(&self) -> (r: u64)
        requires
            self.wf(),
        ensures
            self@.len() == 0 ==> r == 0,
            self@.len() > 0 ==> has_turn::<T>(self@, r) && forall|i: int|
                0 <= i < self@.len() ==> T::turn_view(#[trigger] self@[i]) <= r,
    {
        let g = self.groups.len();
        if g == 0 {
            proof {
                if self@.len() > 0 {
                    assert(has_turn::<T>(self@, T::turn_view(self@[0])));
                }
            }
            0
        } else {
            let key = self.groups[g - 1].0;
            proof {
                lemma_positions::<T>(self@, key);
                assert forall|i: int| 0 <= i < self@.len() implies T::turn_view(
                    #[trigger] self@[i],
                ) <= key by {
                    let u = T::turn_view(self@[i]);
                    assert(has_turn::<T>(self@, u));
                    let j = choose|j: int| 0 <= j < self.groups@.len() && self.groups@[j].0 == u;
                    if j < g - 1 {
                        assert(self.groups@[j].0 < self.groups@[g - 1].0);
                    }
                }
            }
            key
        }
    }
}

/// Who a record line speaks for.
#[derive(Debug, Clone, Copy, PartialEq, Eq, Structural)]
pub enum RecordRole {
    User,
    Assistant,
    Tool,
    System,
}

/// One line of `record/turns.jsonl`.
#[derive(Debug, Clone)]
pub struct RecordLine {
    pub id: String,
    pub turn: u64,
    pub channel: String,
    pub role: RecordRole,
    pub content: Option<String>,
    pub tool_calls: Option<Vec<ToolCallRequest>>,
    pub tool_call_id: Option<String>,
}

/// A record line as plain values.
pub struct RecordLineView {
    pub id: Seq<char>,
    pub turn: u64,
    pub channel: Seq<char>,
    pub role: RecordRole,
    pub content: Option<Seq<char>>,
    pub tool_calls: Option<Seq<ToolCallView>>,
    pub tool_call_id: Option<Seq<char>>,
}

pub open spec fn opt_string_view(o: Option<String>) -> Option<Seq<char>> {
    match o {
        Some(s) => Some(s@),
        None => None,
    }
}

fn duplicate_opt_string(o: &Option<String>) -> (r: Option<String>)
    ensures
        opt_string_view(r) == opt_string_view(*o),
{
    match o {
        Some(s) => Some(s.clone()),
        None => None,
    }
}

impl View for RecordLine {
    type V = RecordLineView;

    open spec fn view(&self) -> RecordLineView {
        RecordLineView {
            id: self.id@,
            turn: self.turn,
            channel: self.channel@,
            role: self.role,
            content: opt_string_view(self.content),
            tool_calls: match self.tool_calls {
                Some(v) => Some(v@.map_values(|c: ToolCallRequest| c@)),
                None => None,
            },
            tool_call_id: opt_string_view(self.tool_call_id),
        }
    }
}

impl Turned for RecordLine {
    open spec fn turn_view(v: RecordLineView) -> u64 {
        v.turn
    }

    fn turn(&self) -> (t: u64) {
        self.turn
    }

    fn duplicate(&self) -> (r: RecordLine) {
        let tool_calls = match &self.tool_calls {
            Some(v) => {
                let c = duplicate_calls(v);
                proof {
                    assert(c@.map_values(|x: ToolCallRequest| x@) =~= v@.map_values(
                        |x: ToolCallRequest| x@,
                    ));
                }
                Some(c)
            },
            None => None,
        };
        RecordLine {
            id: self.id.clone(),
            turn: self.turn,
            channel: self.channel.clone(),
            role: self.role,
            content: duplicate_opt_string(&self.content),
            tool_calls,
            tool_call_id: duplicate_opt_string(&self.tool_call_id),
        }
    }
}

/// A witness move: one line per turn in `record/moves.jsonl`.
#[derive(Debug, Clone)]
pub struct MoveLine {
    pub id: String,
    pub turn: u64,
    pub summary: String,
}

impl View for MoveLine {
    type V = (Seq<char>, u64, Seq<char>);

    open spec fn view(&self) -> (Seq<char>, u64, Seq<char>) {
        (self.id@, self.turn, self.summary@)
    }
}

impl Turned for MoveLine {
    open spec fn turn_view(v: (Seq<char>, u64, Seq<char>)) -> u64 {
        v.1
    }

    fn turn(&self) -> (t: u64) {
        self.turn
    }

    fn duplicate(&self) -> (r: MoveLine) {
        MoveLine { id: self.id.clone(), turn: self.turn, summary: self.summary.clone() }
    }
}

/// The turn record's lines and their turn index.
pub type RecordIndex = TurnIndex<RecordLine>;

/// The witness moves and their turn index.
pub type MoveIndex = TurnIndex<MoveLine>;

impl TurnIndex<RecordLine> {
    /// Whether some line of the given turn group is tagged `channel`.
    fn group_touches(&self, k: usize, channel: &str) -> (b: bool)
        requires
            self.wf(),
            k < self.groups@.len(),
        ensures
            b == exists|i: int|
                0 <= i < self@.len() && self@[i].turn == self.groups@[k as int].0 && self@[i].channel
                    == channel@,
    {
        let t = self.groups[k].0;
        proof {
            lemma_positions::<RecordLine>(self@, t);
        }
        let ps = &self.groups[k].1;
        let mut j: usize = 0;
        while j < ps.len()
            invariant
                self.wf(),
                k < self.groups@.len(),
                t == self.groups@[k as int].0,
                ps@ == positions::<RecordLine>(self@, t),
                j <= ps@.len(),
                forall|m: int| 0 <= m < j ==> self@[ps@[m] as int].channel != channel@,
            decreases ps@.len() - j,
        {
            let p = ps[j];
            proof {
                lemma_positions::<RecordLine>(self@, t);
                self.lemma_view_index(p as int);
            }
            if crate::text::str_eq(self.items[p].channel.as_str(), channel) {
                return true;
            }
            j = j + 1;
        }
        proof {
            lemma_positions::<RecordLine>(self@, t);
            assert forall|i: int|
                0 <= i < self@.len() && self@[i].turn == t implies self@[i].channel != channel@ by {
                // every line of turn t sits at one of the group's positions
                lemma_position_covers::<RecordLine>(self@, t, i);
            }
        }
        false
    }
}

proof fn lemma_position_covers<T: Turned>(s: Seq<T::V>, t: u64, i: int)
    requires
        s.len() <= usize::MAX,
        0 <= i < s.len(),
        T::turn_view(s[i]) == t,
    ensures
        exists|j: int| 0 <= j < positions::<T>(s, t).len() && positions::<T>(s, t)[j] == i,
    decreases s.len(),
{
    let d = s.drop_last();
    if i == s.len() - 1 {
        assert(positions::<T>(s, t)[positions::<T>(d, t).len() as int] == i);
    } else {
        assert(d[i] == s[i]);
        lemma_position_covers::<T>(d, t, i);
        let j = choose|j: int| 0 <= j < positions::<T>(d, t).len() && positions::<T>(d, t)[j] == i;
        assert(positions::<T>(s, t)[j] == i);
    }
}

/// Every line, in physical order.
pub fn scan(index: &RecordIndex) -> (r: Vec<RecordLine>)
    requires
        index.wf(),
    ensures
        views::<RecordLine>(r@) == index@,
{
    index.all_lines()
}

/// The lines of one turn, in physical order.
pub fn scan_turn(index: &RecordIndex, turn: u64) -> (r: Vec<RecordLine>)
    requires
        index.wf(),
    ensures
        views::<RecordLine>(r@) == with_turn::<RecordLine>(index@, turn),
{
    index.turn_lines(turn)
}

/// An inclusive turn range: chronological turn order, physical order
/// within each turn. Empty when `first > last`.
pub fn scan_turn_range(index: &RecordIndex, first: u64, last: u64) -> (r: Vec<RecordLine>)
    requires
        index.wf(),
    ensures
        turn_sorted::<RecordLine>(views::<RecordLine>(r@)),
        forall|t: u64|
            #[trigger] with_turn::<RecordLine>(views::<RecordLine>(r@), t) == (if first
                <= t <= last {
                with_turn::<RecordLine>(index@, t)
            } else {
                Seq::<RecordLineView>::empty()
            }),
{
    index.range_lines(first, last)
}

/// Distinct recorded turns through `last`, ascending.
pub fn turn_numbers_through(index: &RecordIndex, last: u64) -> (r: Vec<u64>)
    requires
        index.wf(),
    ensures
        strictly_increasing(r@),
        forall|t: u64| #[trigger] r@.contains(t) == (t <= last && has_turn::<RecordLine>(index@, t)),
{
    index.turns_through(last)
}

/// Some line of the record is under turn `t` and tagged `channel`.
pub open spec fn touches(s: Seq<RecordLineView>, channel: Seq<char>, t: u64) -> bool {
    exists|i: int| 0 <= i < s.len() && s[i].turn == t && s[i].channel == channel
}

/// Some entry of a turn listing is for turn `t`.
pub open spec fn lists_turn(r: Seq<(u64, Vec<RecordLine>)>, t: u64) -> bool {
    exists|k: int| 0 <= k < r.len() && r[k].0 == t
}

impl TurnIndex<RecordLine> {
    /// Some group before `k` is for turn `t`.
    pub closed spec fn group_before(&self, k: int, t: u64) -> bool {
        exists|j: int| 0 <= j < k && self.groups@[j].0 == t
    }

    /// Whole turns touching `channel`, in chronological turn order: each
    /// with all of its lines (whatever their channel), in physical order.
    pub fn channel_turns(&self, channel: &str) -> (r: Vec<(u64, Vec<RecordLine>)>)
        requires
            self.wf(),
        ensures
            forall|a: int, b: int| 0 <= a < b < r@.len() ==> r@[a].0 < r@[b].0,
            forall|k: int|
                0 <= k < r@.len() ==> views::<RecordLine>((#[trigger] r@[k]).1@)
                    == with_turn::<RecordLine>(self@, r@[k].0),
            forall|t: u64| #[trigger] lists_turn(r@, t) == touches(self@, channel@, t),
    {
        let mut r: Vec<(u64, Vec<RecordLine>)> = Vec::new();
        let mut k: usize = 0;
        while k < self.groups.len()
            invariant
                self.wf(),
                k <= self.groups@.len(),
                forall|a: int, b: int| 0 <= a < b < r@.len() ==> r@[a].0 < r@[b].0,
                forall|j: int|
                    0 <= j < r@.len() ==> k > 0 && #[trigger] r@[j].0 <= self.groups@[k - 1].0,
                forall|j: int|
                    0 <= j < r@.len() ==> views::<RecordLine>((#[trigger] r@[j]).1@)
                        == with_turn::<RecordLine>(self@, r@[j].0),
                forall|t: u64|
                    #[trigger] lists_turn(r@, t) == (self.group_before(k as int, t) && touches(
                        self@,
                        channel@,
                        t,
                    )),
            decreases self.groups@.len() - k,
        {
            let key = self.groups[k].0;
            let ghost before = r@;
            if self.group_touches(k, channel) {
                let lines = self.group_lines(k);
                r.push((key, lines));
            }
            proof {
                assert forall|j: int| 0 <= j < r@.len() implies #[trigger] r@[j].0
                    <= self.groups@[k as int].0 by {
                    if j < before.len() {
                        assert(r@[j] == before[j]);
                        assert(self.groups@[k - 1].0 < self.groups@[k as int].0);
                    }
                }
                assert forall|a: int, b: int| 0 <= a < b < r@.len() implies r@[a].0 < r@[b].0 by {
                    if b < before.len() {
                        assert(r@[a] == before[a] && r@[b] == before[b]);
                    } else {
                        assert(r@[a] == before[a]);
                        assert(self.groups@[k - 1].0 < self.groups@[k as int].0);
                    }
                }
                assert forall|j: int| 0 <= j < r@.len() implies views::<RecordLine>(
                    (#[trigger] r@[j]).1@,
                ) == with_turn::<RecordLine>(self@, r@[j].0) by {
                    if j < before.len() {
                        assert(r@[j] == before[j]);
                    }
                }
                assert forall|t: u64| #[trigger] lists_turn(r@, t) == (self.group_before(
                    k + 1,
                    t,
                ) && touches(self@, channel@, t)) by {
                    if lists_turn(r@, t) {
                        let j = choose|j: int| 0 <= j < r@.len() && r@[j].0 == t;
                        if j < before.len() {
                            assert(before[j].0 == t);
                            assert(lists_turn(before, t));
                        } else {
                            assert(self.groups@[k as int].0 == t);
                        }
                    }
                    if self.group_before(k + 1, t) && touches(self@, channel@, t) {
                        let j = choose|j: int| 0 <= j < k + 1 && self.groups@[j].0 == t;
                        if j < k {
                            assert(self.group_before(k as int, t));
                            assert(lists_turn(before, t));
                            let m = choose|m: int| 0 <= m < before.len() && before[m].0 == t;
                            assert(r@[m] == before[m]);
                        } else {
                            assert(r@[before.len() as int].0 == t);
                        }
                    }
                    if lists_turn(before, t) {
                        let m = choose|m: int| 0 <= m < before.len() && before[m].0 == t;
                        assert(r@[m] == before[m]);
                    }
                    if self.group_before(k as int, t) {
                        let j = choose|j: int| 0 <= j < k && self.groups@[j].0 == t;
                        assert(self.group_before(k + 1, t));
                    }
                }
            }
            k = k + 1;
        }
        proof {
            assert forall|t: u64| #[trigger] lists_turn(r@, t) == touches(self@, channel@, t) by {
                if touches(self@, channel@, t) {
                    let i = choose|i: int|
                        0 <= i < self@.len() && self@[i].turn == t && self@[i].channel == channel@;
                    assert(has_turn::<RecordLine>(self@, t));
                    let j = choose|j: int| 0 <= j < self.groups@.len() && self.groups@[j].0 == t;
                    assert(self.group_before(self.groups@.len() as int, t));
                }
            }
        }
        r
    }
}

/// Whole turns touching `channel`, in chronological turn order: each
/// with all of its lines (whatever their channel), in physical order.
pub fn scan_channel_turns(index: &RecordIndex, channel: &str) -> (r: Vec<(u64, Vec<RecordLine>)>)
    requires
        index.wf(),
    ensures
        forall|a: int, b: int| 0 <= a < b < r@.len() ==> r@[a].0 < r@[b].0,
        forall|k: int|
            0 <= k < r@.len() ==> views::<RecordLine>((#[trigger] r@[k]).1@) == with_turn::<
                RecordLine,
            >(index@, r@[k].0),
        forall|t: u64| #[trigger] lists_turn(r@, t) == touches(index@, channel@, t),
{
    index.channel_turns(channel)
}

/// The physical record tail, used for channel resume derivation.
pub fn tail(index: &RecordIndex) -> (r: Option<RecordLine>)
    requires
        index.wf(),
    ensures
        match r {
            Some(x) => index@.len() > 0 && x@ == index@.last(),
            None => index@.len() == 0,
        },
{
    index.last_line()
}

/// The highest turn number in the record, or 0 for none.
pub fn last_turn(index: &RecordIndex) -> (r: u64)
    requires
        index.wf(),
    ensures
        index@.len() == 0 ==> r == 0,
        index@.len() > 0 ==> has_turn::<RecordLine>(index@, r) && forall|i: int|
            0 <= i < index@.len() ==> (#[trigger] index@[i]).turn <= r,
{
    index.max_turn()
}

/// `workspace/record/moves.jsonl`.
pub fn moves_path(workspace: &str) -> (r: String)
    ensures
        r@ == crate::paths::join(crate::paths::join(workspace@, seq!['r', 'e', 'c', 'o', 'r', 'd']),
            seq!['m', 'o', 'v', 'e', 's', '.', 'j', 's', 'o', 'n', 'l']),
{
    let a = crate::paths::join_str(workspace, "record");
    let b = crate::paths::join_str(a.as_str(), "moves.jsonl");
    proof {
        reveal_strlit("record");
        reveal_strlit("moves.jsonl");
    }
    b
}

/// All moves in physical file order.
pub fn read_moves(index: &MoveIndex) -> (r: Vec<MoveLine>)
    requires
        index.wf(),
    ensures
        views::<MoveLine>(r@) == index@,
{
    index.all_lines()
}

/// Moves in an inclusive turn range, sorted by turn while preserving
/// append order for duplicate entries at the same turn.
pub fn read_moves_range(index: &MoveIndex, first: u64, last: u64) -> (r: Vec<MoveLine>)
    requires
        index.wf(),
    ensures
        turn_sorted::<MoveLine>(views::<MoveLine>(r@)),
        forall|t: u64|
            #[trigger] with_turn::<MoveLine>(views::<MoveLine>(r@), t) == (if first <= t
                <= last {
                with_turn::<MoveLine>(index@, t)
            } else {
                Seq::<(Seq<char>, u64, Seq<char>)>::empty()
            }),
{
    index.range_lines(first, last)
}

/// All moves in chronological turn order, preserving append order for
/// duplicates at the same turn.
pub fn read_moves_chronological(index: &MoveIndex) -> (r: Vec<MoveLine>)
    requires
        index.wf(),
    ensures
        turn_sorted::<MoveLine>(views::<MoveLine>(r@)),
        forall|t: u64|
            #[trigger] with_turn::<MoveLine>(views::<MoveLine>(r@), t) == with_turn::<
                MoveLine,
            >(index@, t),
{
    index.range_lines(0, u64::MAX)
}

/// Distinct move turn numbers, ascending.
pub fn move_turns(index: &MoveIndex) -> (r: Vec<u64>)
    requires
        index.wf(),
    ensures
        strictly_increasing(r@),
        forall|t: u64| #[trigger] r@.contains(t) == has_turn::<MoveLine>(index@, t),
{
    index.turns_through(u64::MAX)
}

/// Every turn from `first` through `last` has a move.
pub open spec fn covered(index_view: Seq<(Seq<char>, u64, Seq<char>)>, first: u64, last: u64) -> bool {
    forall|t: u64| first <= t <= last ==> has_turn::<MoveLine>(index_view, t)
}

/// The witness cursor over a sorted list of distinct move turns: the
/// highest `T` such that every turn from the first move's through `T`
/// has a move; 0 when there are no moves.
pub fn frontier(turns: &Vec<u64>) -> (r: u64)
    requires
        strictly_increasing(turns@),
    ensures
        turns@.len() == 0 ==> r == 0,
        turns@.len() > 0 ==> {
            &&& turns@[0] <= r
            &&& turns@.contains(r)
            &&& forall|t: u64| turns@[0] <= t <= r ==> #[trigger] turns@.contains(t)
            &&& r < u64::MAX ==> !turns@.contains((r + 1) as u64)
        },
{
    if turns.len() == 0 {
        return 0;
    }
    let mut frontier = turns[0];
    let mut i: usize = 1;
    while i < turns.len()
        invariant
            strictly_increasing(turns@),
            1 <= i <= turns@.len(),
            frontier == turns@[i - 1],
            forall|j: int| 0 <= j < i ==> #[trigger] turns@[j] == turns@[0] + j,
        ensures
            1 <= i <= turns@.len(),
            frontier == turns@[i - 1],
            forall|j: int| 0 <= j < i ==> #[trigger] turns@[j] == turns@[0] + j,
            i == turns@.len() || turns@[i as int] != frontier + 1,
        decreases turns@.len() - i,
    {
        if turns[i] != frontier + 1 {
            break;
        }
        frontier = turns[i];
        i = i + 1;
    }
    proof {
        assert(turns@.contains(frontier)) by {
            assert(turns@[i - 1] == frontier);
        }
        assert forall|t: u64| turns@[0] <= t <= frontier implies #[trigger] turns@.contains(t) by {
            let j = t - turns@[0];
            assert(turns@[j as int] == t);
        }
        if frontier < u64::MAX && turns@.contains((frontier + 1) as u64) {
            let j = choose|j: int| 0 <= j < turns@.len() && turns@[j] == frontier + 1;
            if j < i {
                assert(turns@[j] == turns@[0] + j);
                assert(turns@[i - 1] == turns@[0] + (i - 1));
            } else if j > i {
                assert(turns@[i as int] > turns@[i - 1]);
                assert(turns@[j] > turns@[i as int]);
            }
        }
    }
    frontier
}

/// The witness cursor: the highest turn `T` such that every turn from
/// the first move's through `T` has a move (the contiguous compression
/// frontier). No moves: the cursor is 0.
pub fn witness_cursor(index: &MoveIndex) -> (r: u64)
    requires
        index.wf(),
    ensures
        index@.len() == 0 ==> r == 0,
        index@.len() > 0 ==> {
            &&& has_turn::<MoveLine>(index@, r)
            &&& exists|first: u64|
                {
                    &&& has_turn::<MoveLine>(index@, first)
                    &&& (forall|i: int| 0 <= i < index@.len() ==> first <= (#[trigger] index@[i]).1)
                    &&& covered(index@, first, r)
                }
            &&& r < u64::MAX ==> !has_turn::<MoveLine>(index@, (r + 1) as u64)
        },
{
    let turns = move_turns(index);
    let r = frontier(&turns);
    proof {
        if index@.len() > 0 {
            assert(has_turn::<MoveLine>(index@, index@[0].1));
            assert(turns@.contains(index@[0].1));
            let first = turns@[0];
            assert(turns@.contains(first));
            assert forall|i: int| 0 <= i < index@.len() implies first <= (#[trigger] index@[i]).1 by {
                assert(has_turn::<MoveLine>(index@, index@[i].1));
                assert(turns@.contains(index@[i].1));
                let j = choose|j: int| 0 <= j < turns@.len() && turns@[j] == index@[i].1;
                if j > 0 {
                    assert(turns@[0] < turns@[j]);
                }
            }
            assert forall|t: u64| first <= t <= r implies has_turn::<MoveLine>(index@, t) by {
                assert(turns@.contains(t));
            }
        }
    }
    r
}

/// Append-only record writer's line: a new line for the record.
pub fn new_record_line(
    id: String,
    turn: u64,
    channel: &str,
    role: RecordRole,
    content: Option<&str>,
    tool_calls: Option<Vec<ToolCallRequest>>,
    tool_call_id: Option<String>,
) -> (r: RecordLine)
    ensures
        r.id@ == id@,
        r.turn == turn,
        r.channel@ == channel@,
        r.role == role,
        opt_string_view(r.content) == (match content {
            Some(c) => Some(c@),
            None => None::<Seq<char>>,
        }),
        r.tool_calls == tool_calls,
        r.tool_call_id == tool_call_id,
{
    let mut ch: Vec<char> = Vec::new();
    push_str(&mut ch, channel);
    proof {
        assert(Seq::<char>::empty() + channel@ =~= channel@);
    }
    let content = match content {
        Some(c) => {
            let mut cv: Vec<char> = Vec::new();
            push_str(&mut cv, c);
            proof {
                assert(Seq::<char>::empty() + c@ =~= c@);
            }
            Some(string_of(&cv))
        },
        None => None,
    };
    RecordLine { id, turn, channel: string_of(&ch), role, content, tool_calls, tool_call_id }
}

} // verus!
