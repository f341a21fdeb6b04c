//! Candidate stations and the best plan found by the searches.
use vstd::prelude::*;
use crate::coord::Coord;
use crate::ahc043::state::Op;

verus! {

/// A candidate station square `pos` (number `idx`) and the commuters whose
/// home or workplace it covers.
#[derive(Debug)]
pub struct Station {
    pub idx: usize,
    pub pos: Coord,
    pub home: Vec<usize>,
    pub workspace: Vec<usize>,
}

/// The best plan met: its score, its operations and how many stations it
/// builds.
#[derive(Debug)]
pub struct Best {
    pub score: i64,
    pub ops: Vec<Op>,
    pub station_num: usize,
}

impl Best {
    /// No plan yet: score 0, no operation, no station.
    pub fn new() -> (b: Best)
        ensures
            b.score == 0,
            b.ops@.len() == 0,
            b.station_num == 0,
    {
        Best { score: 0, ops: Vec::new(), station_num: 0 }
    }

    /// Keeps the plan `ops` when its score beats the best one.
    pub fn update(&mut self, score: i64, ops: Vec<Op>, station_num: usize)
        ensures
            if score > old(self).score {
                final(self).score == score && final(self).ops@ == ops@ && final(self).station_num == station_num
            } else {
                final(self).score == old(self).score && final(self).ops@ == old(self).ops@
                    && final(self).station_num == old(self).station_num
            },
    {
        if score > self.score {
            self.score = score;
            self.ops = ops;
            self.station_num = station_num;
        }
    }
}

/// Which end of the score scale a search prefers.
#[derive(Debug, PartialEq, Eq, Structural, Clone, Copy)]
pub enum ScoreOrder {
    Ascending,
    Descending,
}

impl ScoreOrder {
    /// Whether score `a` is better than score `b` in this order.
    pub fn better(self, a: i64, b: i64) -> (r: bool)
        ensures
            r == match self {
                ScoreOrder::Ascending => a < b,
                ScoreOrder::Descending => a > b,
            },
    {
        match self {
            ScoreOrder::Ascending => a < b,
            ScoreOrder::Descending => a > b,
        }
    }
}

} // verus!
