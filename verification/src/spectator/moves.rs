//! The spectator's moves: one entry per sweep, covering the home
//! channel entries from `start` through `end`. The last move's `end`
//! is the cursor the next sweep reads from.

use vstd::prelude::*;
use crate::text::views;

verus! {

/// A single move: the ids of the first and last entries it covers, and
/// its summary.
#[derive(Debug)]
pub struct MoveEntry {
    pub start: String,
    pub end: String,
    pub summary: String,
}

impl View for MoveEntry {
    type V = (Seq<char>, Seq<char>, Seq<char>);

    open spec fn view(&self) -> (Seq<char>, Seq<char>, Seq<char>) {
        (self.start@, self.end@, self.summary@)
    }
}

fn copy_move(m: &MoveEntry) -> (r: MoveEntry)
    ensures
        r@ == m@,
{
    MoveEntry { start: m.start.clone(), end: m.end.clone(), summary: m.summary.clone() }
}

/// The last `n` moves, oldest first (all of them when there are fewer).
pub fn moves_tail(moves: &Vec<MoveEntry>, n: usize) -> (r: Vec<MoveEntry>)
    ensures
        views::<MoveEntry>(r@) == views::<MoveEntry>(moves@).skip(
            if moves@.len() <= n { 0 } else { moves@.len() - n },
        ),
{
    let start: usize = if moves.len() <= n { 0 } else { moves.len() - n };
    let mut out: Vec<MoveEntry> = Vec::new();
    let mut i: usize = start;
    while i < moves.len()
        invariant
            start <= i <= moves@.len(),
            views::<MoveEntry>(out@) == views::<MoveEntry>(moves@).subrange(start as int, i as int),
        decreases moves@.len() - i,
    {
        let ghost before = views::<MoveEntry>(out@);
        let m = copy_move(&moves[i]);
        out.push(m);
        proof {
            assert(views::<MoveEntry>(out@) =~= before.push(moves@[i as int]@));
            assert(views::<MoveEntry>(moves@).subrange(start as int, i + 1) =~= views::<MoveEntry>(
                moves@,
            ).subrange(start as int, i as int).push(moves@[i as int]@));
        }
        i = i + 1;
    }
    proof {
        assert(views::<MoveEntry>(moves@).subrange(start as int, moves@.len() as int) =~= views::<
            MoveEntry,
        >(moves@).skip(start as int));
    }
    out
}

/// The cursor: the `end` of the last move, if there is one.
pub fn read_cursor(moves: &Vec<MoveEntry>) -> (r: Option<String>)
    ensures
        match r {
            Some(c) => moves@.len() > 0 && c@ == moves@.last().end@,
            None => moves@.len() == 0,
        },
{
    if moves.len() == 0 {
        None
    } else {
        Some(moves[moves.len() - 1].end.clone())
    }
}

} // verus!
