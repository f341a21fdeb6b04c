//! Beam search over packings: keep the best few packings after each box,
//! without two of the same hash, and remember how each was reached.
use vstd::prelude::*;
use rustc_hash::FxHashSet;
use crate::ahc040::input::Input;
use crate::ahc040::state::{State, Op, Pos, Shelf, law_candidate_keeps_wf, law_candidate_applicable};
use crate::sorting::{sort_pairs, pair_le, pair_order, lemma_pairs_sorted_unique, lemma_map_same_items, lemma_same_items_member};
use crate::fxset::{word_set_new, word_set_insert};

verus! {

/// A packing of the search and the step (in the track) that made it
/// (`usize::MAX`: the start).
#[derive(Debug)]
pub struct Node {
    pub track_id: usize,
    pub state: State,
}

/// A candidate step: the placement, the node it extends, the score it
/// reaches, the hash, and whether it places the last box.
#[derive(Debug, Clone, Copy)]
pub struct Cand {
    pub op: Op,
    pub parent: usize,
    pub eval_score: usize,
    pub hash: usize,
    pub is_done: bool,
}

/// The search: every step taken so far (the step before it and the
/// placement), the current nodes, and room for the next ones.
#[derive(Debug)]
pub struct BeamSearch {
    pub track: Vec<(usize, Op)>,
    pub nodes: Vec<Node>,
    pub next_nodes: Vec<Node>,
}

/// A copy of a packing.
pub fn copy_state(s: &State) -> (c: State)
    ensures
        c.n == s.n,
        c.pos@ == s.pos@,
        c.lines@ == s.lines@,
        c.W2 == s.W2,
        c.H2 == s.H2,
        c.score == s.score,
        c.hash == s.hash,
{
    let mut pos: Vec<Pos> = Vec::new();
    let mut k: usize = 0;
    while k < s.pos.len()
        invariant
            0 <= k <= s.pos@.len(),
            pos@ == s.pos@.subrange(0, k as int),
        decreases s.pos@.len() - k,
    {
        pos.push(s.pos[k]);
        k += 1;
        proof {
            assert(pos@ =~= s.pos@.subrange(0, k as int));
        }
    }
    let mut lines: Vec<Shelf> = Vec::new();
    let mut k: usize = 0;
    while k < s.lines.len()
        invariant
            0 <= k <= s.lines@.len(),
            lines@ == s.lines@.subrange(0, k as int),
        decreases s.lines@.len() - k,
    {
        let l = &s.lines[k];
        lines.push(Shelf { width: l.width, height: l.height, box_num: l.box_num, right_edge: l.right_edge, margin: l.margin });
        k += 1;
        proof {
            assert(lines@ =~= s.lines@.subrange(0, k as int));
        }
    }
    proof {
        assert(pos@ =~= s.pos@);
        assert(lines@ =~= s.lines@);
    }
    State { n: s.n, pos, lines, W2: s.W2, H2: s.H2, score: s.score, hash: s.hash }
}

/// Two packings with the same boxes, rows, sizes, score and hash have the
/// same candidates.
proof fn lemma_copy_same_cands(s: &State, t: &State, input: &Input, k: int)
    requires
        t.n == s.n,
        t.pos@ == s.pos@,
        t.lines@ == s.lines@,
        t.W2 == s.W2,
        t.H2 == s.H2,
        t.score == s.score,
        t.hash == s.hash,
    ensures
        t.cands_upto(input, k) == s.cands_upto(input, k),
    decreases k,
{
    if k > 0 {
        lemma_copy_same_cands(s, t, input, k - 1);
        let rs = s.line_rots(input, k - 1);
        assert(t.line_rots(input, k - 1) == rs);
        assert(rs.map_values(|rot: bool| t.cand_entry(input, k - 1, rot))
            =~= rs.map_values(|rot: bool| s.cand_entry(input, k - 1, rot)));
    }
}

/// The candidate of a node that placing candidate `k` of its state's
/// candidates gives.
pub open spec fn cand_from(s: &State, input: &Input, parent: usize, k: int) -> Cand {
    let c = s.cands_upto(input, s.lines@.len() as int)[k];
    Cand { op: c.2, parent, eval_score: (s.score + c.0) as usize, hash: c.1, is_done: c.3 }
}

/// `c` is one of the candidates of node `c.parent`.
pub open spec fn cand_ok(nodes: Seq<Node>, input: &Input, c: Cand) -> bool {
    &&& c.parent < nodes.len()
    &&& nodes[c.parent as int].state.can_extend(input)
    &&& exists|k: int| 0 <= k < nodes[c.parent as int].state.cands_upto(input, nodes[c.parent as int].state.lines@.len() as int).len()
        && c == #[trigger] cand_from(&nodes[c.parent as int].state, input, c.parent, k)
}

/// The placements of step `t` and of the steps before it, back to the start,
/// in the order taken (no step: `t` outside the track).
pub open spec fn trail(track: Seq<(usize, Op)>, t: int) -> Seq<Op>
    decreases t,
{
    if 0 <= t < track.len() {
        let p = track[t].0 as int;
        if p < t {
            trail(track, p).push(track[t].1)
        } else {
            seq![track[t].1]
        }
    } else {
        seq![]
    }
}

/// The candidates of node `i`: those of its state's `cand`, each with its
/// reached score, when the state can take one more box; none otherwise.
pub open spec fn node_cands(nodes: Seq<Node>, input: &Input, i: int) -> Seq<Cand> {
    let s = nodes[i].state;
    if s.can_extend(input) {
        s.cands_upto(input, s.lines@.len() as int).map(|k: int, c: (usize, usize, Op, bool)| cand_from(&s, input, i as usize, k))
    } else {
        seq![]
    }
}

/// The candidates of nodes `0..n`, node by node.
pub open spec fn all_cands(nodes: Seq<Node>, input: &Input, n: int) -> Seq<Cand>
    decreases n,
{
    if n <= 0 {
        seq![]
    } else {
        all_cands(nodes, input, n - 1) + node_cands(nodes, input, n - 1)
    }
}

/// Every candidate of nodes `0..n` belongs to its parent, and its score
/// stays within `0x8000_0000`.
proof fn lemma_all_cands_ok(nodes: Seq<Node>, input: &Input, n: int)
    requires
        0 <= n <= nodes.len(),
        nodes.len() <= usize::MAX,
    ensures
        forall|j: int| 0 <= j < all_cands(nodes, input, n).len() ==> {
            let c = #[trigger] all_cands(nodes, input, n)[j];
            &&& cand_ok(nodes, input, c)
            &&& c.parent < n
            &&& c.eval_score <= 0x8000_0000
        },
    decreases n,
{
    if n > 0 {
        lemma_all_cands_ok(nodes, input, n - 1);
        let a = all_cands(nodes, input, n - 1);
        let b = node_cands(nodes, input, n - 1);
        assert forall|j: int| 0 <= j < all_cands(nodes, input, n).len() implies {
            let c = #[trigger] all_cands(nodes, input, n)[j];
            &&& cand_ok(nodes, input, c)
            &&& c.parent < n
            &&& c.eval_score <= 0x8000_0000
        } by {
            if j >= a.len() {
                let s = nodes[n - 1].state;
                let k = j - a.len();
                law_candidate_applicable(s, input, k);
                assert(all_cands(nodes, input, n)[j] == cand_from(&s, input, (n - 1) as usize, k));
            } else {
                assert(all_cands(nodes, input, n)[j] == a[j]);
            }
        }
    }
}

impl Node {
    /// A copy of the node with candidate `cand` taken.
    pub fn new_node(&self, cand: &Cand, input: &Input) -> (r: Node)
        requires
            self.state.can_extend(input),
            exists|k: int| 0 <= k < self.state.cands_upto(input, self.state.lines@.len() as int).len()
                && *cand == #[trigger] cand_from(&self.state, input, cand.parent, k),
        ensures
            r.track_id == self.track_id,
            State::applied(self.state, r.state, cand.eval_score, cand.hash, cand.op),
            r.state.wf(input),
    {
        let mut ret = Node { track_id: self.track_id, state: copy_state(&self.state) };
        proof {
            lemma_copy_same_cands(&self.state, &ret.state, input, self.state.lines@.len() as int);
            let k = choose|k: int| 0 <= k < self.state.cands_upto(input, self.state.lines@.len() as int).len()
                && *cand == #[trigger] cand_from(&self.state, input, cand.parent, k);
            assert(*cand == cand_from(&ret.state, input, cand.parent, k));
        }
        ret.apply(cand, input);
        ret
    }

    /// Takes candidate `cand`: the state places its box with its score and
    /// hash.
    pub fn apply(&mut self, cand: &Cand, input: &Input)
        requires
            old(self).state.can_extend(input),
            exists|k: int| 0 <= k < old(self).state.cands_upto(input, old(self).state.lines@.len() as int).len()
                && *cand == #[trigger] cand_from(&old(self).state, input, cand.parent, k),
        ensures
            final(self).track_id == old(self).track_id,
            State::applied(old(self).state, final(self).state, cand.eval_score, cand.hash, cand.op),
            final(self).state.wf(input),
    {
        let ghost s0 = self.state;
        let ghost k = choose|k: int| 0 <= k < s0.cands_upto(input, s0.lines@.len() as int).len()
            && *cand == #[trigger] cand_from(&s0, input, cand.parent, k);
        proof {
            let c = s0.cands_upto(input, s0.lines@.len() as int)[k];
            assert(c.0 <= usize::MAX);
            assert(cand.eval_score == (s0.score + c.0) as usize);
            law_candidate_applicable(s0, input, k);
            assert((s0.score + c.0) as usize == s0.score + c.0);
        }
        self.state.apply(cand.eval_score, cand.hash, &cand.op, input);
        proof {
            law_candidate_keeps_wf(s0, self.state, input, k);
        }
    }
}

impl Cand {
    /// The score used to rank the final candidates.
    pub fn raw_score(&self, _input: &Input) -> (s: usize)
        ensures
            s == self.eval_score,
    {
        self.eval_score
    }
}

/// Node `nd` is what candidate `i` of `cands` made in `update`: the
/// parent's packing with the candidate taken, at step `base + i`.
pub open spec fn node_made(base: nat, nodes: Seq<Node>, cands: Seq<Cand>, nd: Node, i: int, input: &Input) -> bool {
    let c = cands[i];
    &&& nd.track_id == base + i
    &&& State::applied(nodes[c.parent as int].state, nd.state, c.eval_score, c.hash, c.op)
    &&& nd.state.wf(input)
}

/// The key that orders candidates by score, rising or falling.
pub open spec fn score_key(c: Cand, ascending: bool) -> int {
    if ascending { c.eval_score as int } else { -(c.eval_score as int) }
}

/// The sort key of each candidate with its place in `cands`.
pub open spec fn cand_keys(cands: Seq<Cand>, ascending: bool) -> Seq<(i64, usize)> {
    Seq::new(cands.len(), |j: int| (score_key(cands[j], ascending) as i64, j as usize))
}

/// `cands` in order of `score_key`, candidates of equal score in their
/// order in `cands`.
pub open spec fn sorted_cands(cands: Seq<Cand>, ascending: bool) -> Seq<Cand> {
    cand_keys(cands, ascending).sort_by(pair_order()).map_values(|pr: (i64, usize)| cands[pr.1 as int])
}

/// Sorts `cands` by score, rising when `ascending` and falling otherwise;
/// candidates of equal score keep their order.
pub fn sort_cands(cands: &mut Vec<Cand>, ascending: bool)
    requires
        forall|j: int| 0 <= j < old(cands)@.len() ==> (#[trigger] old(cands)@[j]).eval_score <= 0x8000_0000,
    ensures
        final(cands)@ == sorted_cands(old(cands)@, ascending),
        final(cands)@.to_multiset() == old(cands)@.to_multiset(),
        forall|i: int, j: int| 0 <= i < j < final(cands)@.len() ==>
            score_key(#[trigger] final(cands)@[i], ascending) <= score_key(#[trigger] final(cands)@[j], ascending),
{
    let ghost c0 = cands@;
    let n = cands.len();
    let mut pairs: Vec<(i64, usize)> = Vec::new();
    let mut i: usize = 0;
    while i < n
        invariant
            n == c0.len(),
            *cands == *old(cands),
            cands@ == c0,
            forall|j: int| 0 <= j < c0.len() ==> (#[trigger] c0[j]).eval_score <= 0x8000_0000,
            0 <= i <= n,
            pairs@ == Seq::new(i as nat, |j: int| (score_key(c0[j], ascending) as i64, j as usize)),
        decreases n - i,
    {
        let e = cands[i].eval_score as i64;
        let key: i64 = if ascending { e } else { -e };
        pairs.push((key, i));
        i += 1;
        proof {
            assert(pairs@ =~= Seq::new(i as nat, |j: int| (score_key(c0[j], ascending) as i64, j as usize)));
        }
    }
    let ghost p0 = pairs@;
    proof {
        assert(p0 =~= cand_keys(c0, ascending));
    }
    sort_pairs(&mut pairs);
    let ghost q = pairs@;
    proof {
        lemma_pairs_sorted_unique(p0, q);
    }
    proof {
        broadcast use vstd::seq_lib::group_to_multiset_ensures;
        assert forall|j: int| 0 <= j < q.len() implies (#[trigger] q[j]).1 < n && q[j] == p0[q[j].1 as int] by {
            assert(q.contains(q[j]));
            assert(p0.to_multiset().count(q[j]) > 0);
            assert(p0.contains(q[j]));
        }
    }
    let mut out: Vec<Cand> = Vec::new();
    let mut k: usize = 0;
    while k < n
        invariant
            n == c0.len(),
            cands@ == c0,
            pairs@ == q,
            q.len() == n,
            forall|j: int| 0 <= j < q.len() ==> (#[trigger] q[j]).1 < n && q[j] == p0[q[j].1 as int],
            0 <= k <= n,
            out@ == q.subrange(0, k as int).map_values(|pr: (i64, usize)| c0[pr.1 as int]),
        decreases n - k,
    {
        let idx = pairs[k].1;
        out.push(cands[idx]);
        k += 1;
        proof {
            assert(out@ =~= q.subrange(0, k as int).map_values(|pr: (i64, usize)| c0[pr.1 as int]));
        }
    }
    proof {
        let g = |pr: (i64, usize)| c0[pr.1 as int];
        assert(q.subrange(0, n as int) =~= q);
        assert(out@ =~= sorted_cands(c0, ascending));
        assert(p0.map_values(g) =~= c0);
        lemma_map_same_items(q, p0, g);
        assert forall|i: int, j: int| 0 <= i < j < out@.len() implies
            score_key(#[trigger] out@[i], ascending) <= score_key(#[trigger] out@[j], ascending) by {
            assert(pair_le(q[i], q[j]));
            assert(out@[i] == c0[q[i].1 as int]);
            assert(out@[j] == c0[q[j].1 as int]);
        }
    }
    *cands = out;
}

/// No candidate before `k` has the hash of candidate `k`.
pub open spec fn fresh_hash(cands: Seq<Cand>, k: int) -> bool {
    forall|m: int| 0 <= m < k ==> (#[trigger] cands[m]).hash != cands[k].hash
}

/// The candidates kept from `cands[..n]`: in order, each whose hash no
/// earlier candidate has, until `width` are kept.
pub open spec fn selected(cands: Seq<Cand>, width: nat, n: int) -> Seq<Cand>
    decreases n,
{
    if n <= 0 {
        seq![]
    } else {
        let prev = selected(cands, width, n - 1);
        if prev.len() < width && fresh_hash(cands, n - 1) {
            prev.push(cands[n - 1])
        } else {
            prev
        }
    }
}

/// What `selected` keeps comes from `cands[..n]`, and is at most `width`.
proof fn lemma_selected_members(cands: Seq<Cand>, width: nat, n: int)
    requires
        0 <= n <= cands.len(),
    ensures
        selected(cands, width, n).len() <= width,
        forall|j: int| 0 <= j < selected(cands, width, n).len() ==>
            exists|m: int| 0 <= m < n && cands[m] == #[trigger] selected(cands, width, n)[j],
    decreases n,
{
    if n > 0 {
        lemma_selected_members(cands, width, n - 1);
        let prev = selected(cands, width, n - 1);
        assert forall|j: int| 0 <= j < selected(cands, width, n).len() implies
            exists|m: int| 0 <= m < n && cands[m] == #[trigger] selected(cands, width, n)[j] by {
            if j < prev.len() {
                assert(selected(cands, width, n)[j] == prev[j]);
                let m = choose|m: int| 0 <= m < n - 1 && cands[m] == #[trigger] prev[j];
            } else {
                assert(selected(cands, width, n)[j] == cands[n - 1]);
            }
        }
    }
}

/// The candidates to keep: in order, each whose hash no earlier candidate
/// has, at most `width` of them.
pub fn select_cands(cands: &Vec<Cand>, width: usize) -> (r: Vec<Cand>)
    ensures
        r@ == selected(cands@, width as nat, cands@.len() as int),
{
    let mut set = word_set_new();
    let mut out: Vec<Cand> = Vec::new();
    let mut k: usize = 0;
    while k < cands.len()
        invariant
            0 <= k <= cands@.len(),
            out@ == selected(cands@, width as nat, k as int),
            out@.len() < width ==> forall|h: usize| set@.contains(h) <==> exists|m: int| 0 <= m < k && (#[trigger] cands@[m]).hash == h,
        decreases cands@.len() - k,
    {
        if out.len() >= width {
            proof {
                lemma_selected_full(cands@, width as nat, k as int, cands@.len() as int);
            }
            k = cands.len();
        } else {
            let c = cands[k];
            let fresh = word_set_insert(&mut set, c.hash);
            proof {
                if fresh {
                    assert forall|m: int| 0 <= m < k implies (#[trigger] cands@[m]).hash != cands@[k as int].hash by {
                        if cands@[m].hash == c.hash {
                            assert(set@.contains(c.hash));
                        }
                    }
                } else {
                    let m = choose|m: int| 0 <= m < k && (#[trigger] cands@[m]).hash == c.hash;
                    assert(!fresh_hash(cands@, k as int));
                }
            }
            if fresh {
                out.push(c);
            }
            k += 1;
            proof {
                assert forall|h: usize| set@.contains(h) <==> exists|m: int| 0 <= m < k && (#[trigger] cands@[m]).hash == h by {
                    if h == c.hash {
                        assert(cands@[k - 1].hash == h);
                    } else if set@.contains(h) {
                        let m = choose|m: int| 0 <= m < k - 1 && (#[trigger] cands@[m]).hash == h;
                    }
                }
            }
        }
    }
    out
}

/// Once `width` candidates are kept, no later one is.
proof fn lemma_selected_full(cands: Seq<Cand>, width: nat, k: int, n: int)
    requires
        0 <= k <= n,
        selected(cands, width, k).len() >= width,
    ensures
        selected(cands, width, n) == selected(cands, width, k),
    decreases n - k,
{
    if n > k {
        lemma_selected_full(cands, width, k, n - 1);
    }
}

/// What `solve` answers of the search `b`, whose last candidates are
/// `cands_spec`: the plans of the first `t` of them in order of rising score,
/// and the plan of one with the best score (lowest when `ascending`, highest
/// otherwise), `None` when there is none.
pub open spec fn answers(b: BeamSearch, input: &Input, r: (Vec<Vec<Op>>, Option<Vec<Op>>), t: nat, ascending: bool) -> bool {
    let all = b.cands_spec(input);
    &&& (r.1 is None <==> all.len() == 0)
    &&& (r.1 matches Some(ops) ==> exists|j: int| 0 <= j < all.len() && ops@ == b.plan(#[trigger] all[j])
        && forall|m: int| 0 <= m < all.len() ==> score_key(all[j], ascending) <= score_key(#[trigger] all[m], ascending))
    &&& r.0@.len() == if t < all.len() { t } else { all.len() }
    &&& exists|sorted: Seq<Cand>| {
        &&& sorted.to_multiset() == all.to_multiset()
        &&& forall|i: int, j: int| 0 <= i < j < sorted.len() ==> (#[trigger] sorted[i]).eval_score <= (#[trigger] sorted[j]).eval_score
        &&& forall|j: int| 0 <= j < r.0@.len() ==> (#[trigger] r.0@[j])@ == b.plan(sorted[j])
    }
}

/// One round of the search, from nodes `a` with track `ta` to nodes `b`
/// with track `tb`: the candidates of `a` in order (`sorted_cands`) are not
/// empty and the first does not place the last box, and `b` holds the nodes
/// made (as `update` makes them) from the first `width` of distinct hash
/// (`selected`), each recorded as a new step of the track.
#[verifier::opaque]
pub open spec fn beam_round(a: Seq<Node>, ta: Seq<(usize, Op)>, b: Seq<Node>, tb: Seq<(usize, Op)>, input: &Input,
    width: nat, ascending: bool) -> bool {
    let cs = sorted_cands(all_cands(a, input, a.len() as int), ascending);
    let sel = selected(cs, width, cs.len() as int);
    &&& cs.len() > 0
    &&& !cs[0].is_done
    &&& tb == ta + sel.map_values(|c: Cand| (a[c.parent as int].track_id, c.op))
    &&& b.len() == sel.len()
    &&& forall|j: int| 0 <= j < sel.len() ==> node_made(ta.len(), a, sel, #[trigger] b[j], j, input)
}

/// What `solve` finds in a round that goes on, and what `update` makes of
/// it, is a `beam_round`.
proof fn lemma_round(a: Seq<Node>, ta: Seq<(usize, Op)>, b: Seq<Node>, tb: Seq<(usize, Op)>, input: &Input,
    width: nat, ascending: bool, cs: Seq<Cand>, sel: Seq<Cand>)
    requires
        cs == sorted_cands(all_cands(a, input, a.len() as int), ascending),
        cs.len() > 0,
        !cs[0].is_done,
        sel == selected(cs, width, cs.len() as int),
        tb == ta + sel.map_values(|c: Cand| (a[c.parent as int].track_id, c.op)),
        b.len() == sel.len(),
        forall|j: int| 0 <= j < sel.len() ==> node_made(ta.len(), a, sel, #[trigger] b[j], j, input),
    ensures
        beam_round(a, ta, b, tb, input, width, ascending),
{
    reveal(beam_round);
}

/// The last candidates in the order in which `solve` reads them: sorted
/// by rising score, after the sort of the round where the search stopped
/// early (`broke`).
pub open spec fn last_order(cs: Seq<Cand>, broke: bool, ascending: bool) -> Seq<Cand> {
    sorted_cands(if broke { sorted_cands(cs, ascending) } else { cs }, true)
}

/// Of `cs[..m]`, the place of the first lowest score when `ascending`, of
/// the last highest otherwise.
pub open spec fn best_at(cs: Seq<Cand>, ascending: bool, m: int) -> int
    decreases m,
{
    if m <= 1 {
        0
    } else {
        let b = best_at(cs, ascending, m - 1);
        if (ascending && cs[m - 1].eval_score < cs[b].eval_score) || (!ascending && cs[m - 1].eval_score >= cs[b].eval_score) {
            m - 1
        } else {
            b
        }
    }
}

/// The search stops at nodes `a`: they have no candidate, or the best one
/// places the last box.
pub open spec fn beam_stops(a: Seq<Node>, input: &Input, ascending: bool) -> bool {
    let cs = sorted_cands(all_cands(a, input, a.len() as int), ascending);
    cs.len() == 0 || cs[0].is_done
}

/// `hist` lists the nodes and the track of a search of at most `depth`
/// rounds, round after round (`beam_round`), up to its last nodes: those of
/// round `depth`, or where the search stops (`beam_stops`).
pub open spec fn beam_history(hist: Seq<(Seq<Node>, Seq<(usize, Op)>)>, input: &Input, width: nat, depth: nat,
    ascending: bool) -> bool {
    &&& 1 <= hist.len() <= depth
    &&& forall|t: int| #![trigger hist[t]] 0 <= t < hist.len() - 1
        ==> beam_round(hist[t].0, hist[t].1, hist[t + 1].0, hist[t + 1].1, input, width, ascending)
    &&& (hist.len() == depth || beam_stops(hist.last().0, input, ascending))
}

impl BeamSearch {
    /// The invariant of the search: the input is valid, every node holds a
    /// valid packing and a step of the track (or none), and every step of the
    /// track follows an earlier step (or none).
    pub open spec fn wf(&self, input: &Input) -> bool {
        &&& input.wf()
        &&& forall|i: int| 0 <= i < self.nodes@.len() ==> (#[trigger] self.nodes@[i]).state.wf(input)
        &&& self.links_ok()
    }

    /// Every node holds a step of the track (or none), and every step of the
    /// track follows an earlier step (or none).
    pub open spec fn links_ok(&self) -> bool {
        &&& forall|i: int| 0 <= i < self.nodes@.len() ==> {
            let id = (#[trigger] self.nodes@[i]).track_id;
            id == usize::MAX || id < self.track@.len()
        }
        &&& forall|t: int| 0 <= t < self.track@.len() ==> {
            let p = (#[trigger] self.track@[t]).0;
            p == usize::MAX || p < t
        }
    }

    /// The placements that candidate `c` stands for: those that made its
    /// parent, then its own.
    pub open spec fn plan(&self, c: Cand) -> Seq<Op> {
        trail(self.track@, self.nodes@[c.parent as int].track_id as int).push(c.op)
    }

        /// The candidates of all current nodes.
    pub open spec fn cands_spec(&self, input: &Input) -> Seq<Cand> {
        all_cands(self.nodes@, input, self.nodes@.len() as int)
    }

    /// A search that starts from `node` alone, with no step taken.
    pub fn new(node: Node) -> (b: BeamSearch)
        ensures
            b.nodes@ == seq![node],
            b.track@.len() == 0,
            b.next_nodes@.len() == 0,
    {
        let mut nodes: Vec<Node> = Vec::new();
        nodes.push(node);
        BeamSearch { nodes, track: Vec::new(), next_nodes: Vec::new() }
    }

    /// Appends the candidates of every node, node by node, to `cands`.
    pub fn append_cands(&self, input: &Input, cands: &mut Vec<Cand>, _rng: &mut rand_pcg::Mcg128Xsl64)
        requires
            self.wf(input),
        ensures
            final(cands)@ == old(cands)@ + self.cands_spec(input),
    {
        let ghost start = cands@;
        let mut parent_idx: usize = 0;
        while parent_idx < self.nodes.len()
            invariant
                self.wf(input),
                0 <= parent_idx <= self.nodes@.len(),
                cands@ == start + all_cands(self.nodes@, input, parent_idx as int),
            decreases self.nodes@.len() - parent_idx,
        {
            let parent_node = &self.nodes[parent_idx];
            let ghost before = cands@;
            let ghost s = parent_node.state;
            let st = &parent_node.state;
            if st.pos.len() < input.wh2.len() && st.pos.len() < 10000 && st.lines.len() <= input.calc_hash.hash_map.len() {
                let cs = st.cand(input);
                let mut k: usize = 0;
                while k < cs.len()
                    invariant
                        s.can_extend(input),
                        s == self.nodes@[parent_idx as int].state,
                        *st == s,
                        0 <= parent_idx < self.nodes@.len(),
                        cs@ == s.cands_upto(input, s.lines@.len() as int),
                        0 <= k <= cs@.len(),
                        cands@ == before + node_cands(self.nodes@, input, parent_idx as int).subrange(0, k as int),
                    decreases cs@.len() - k,
                {
                    let (delta_score, hash, op, is_done) = cs[k];
                    proof {
                        law_candidate_applicable(s, input, k as int);
                    }
                    let cand = Cand { op, parent: parent_idx, eval_score: st.score + delta_score, hash, is_done };
                    cands.push(cand);
                    k += 1;
                    proof {
                        assert(cands@ =~= before + node_cands(self.nodes@, input, parent_idx as int).subrange(0, k as int));
                    }
                }
                proof {
                    assert(node_cands(self.nodes@, input, parent_idx as int).subrange(0, k as int)
                        =~= node_cands(self.nodes@, input, parent_idx as int));
                }
            } else {
                proof {
                    assert(node_cands(self.nodes@, input, parent_idx as int) =~= seq![]);
                }
            }
            parent_idx += 1;
            proof {
                assert(cands@ =~= start + all_cands(self.nodes@, input, parent_idx as int));
            }
        }
    }

    /// Replaces the nodes by one per candidate of `cands`, in order: the
    /// parent's packing with the candidate taken, each recorded as a new step
    /// of the track (after the parent's step). The old nodes move to
    /// `next_nodes`.
    pub fn update(&mut self, cands: Vec<Cand>, input: &Input)
        requires
            old(self).wf(input),
            forall|j: int| 0 <= j < cands@.len() ==> cand_ok(old(self).nodes@, input, #[trigger] cands@[j]),
            old(self).track@.len() + cands@.len() < usize::MAX,
        ensures
            final(self).wf(input),
            final(self).next_nodes@ == old(self).nodes@,
            final(self).track@ == old(self).track@ + cands@.map_values(
                |c: Cand| (old(self).nodes@[c.parent as int].track_id, c.op)),
            final(self).nodes@.len() == cands@.len(),
            forall|j: int| 0 <= j < cands@.len() ==>
                node_made(old(self).track@.len(), old(self).nodes@, cands@, #[trigger] final(self).nodes@[j], j, input),
    {
        let ghost old_track = self.track@;
        let ghost old_nodes = self.nodes@;
        self.next_nodes.clear();
        let mut j: usize = 0;
        while j < cands.len()
            invariant
                input.wf(),
                self.nodes@ == old_nodes,
                forall|i: int| 0 <= i < old_nodes.len() ==> {
                    let nd = #[trigger] old_nodes[i];
                    &&& nd.state.wf(input)
                    &&& (nd.track_id == usize::MAX || nd.track_id < old_track.len())
                },
                forall|t: int| 0 <= t < old_track.len() ==> {
                    let p = (#[trigger] old_track[t]).0;
                    p == usize::MAX || p < t
                },
                forall|i: int| 0 <= i < cands@.len() ==> cand_ok(old_nodes, input, #[trigger] cands@[i]),
                old_track.len() + cands@.len() < usize::MAX,
                0 <= j <= cands@.len(),
                self.track@ == old_track + cands@.subrange(0, j as int).map_values(
                    |c: Cand| (old_nodes[c.parent as int].track_id, c.op)),
                self.next_nodes@.len() == j,
                forall|i: int| 0 <= i < j ==> node_made(old_track.len(), old_nodes, cands@, #[trigger] self.next_nodes@[i], i, input),
            decreases cands@.len() - j,
        {
            let cand = cands[j];
            let parent_node = &self.nodes[cand.parent];
            let mut new_node = parent_node.new_node(&cand, input);
            self.track.push((parent_node.track_id, cand.op));
            new_node.track_id = self.track.len() - 1;
            let ghost nn = new_node;
            let ghost prev = self.next_nodes@;
            self.next_nodes.push(new_node);
            j += 1;
            proof {
                assert forall|i: int| 0 <= i < j implies node_made(old_track.len(), old_nodes, cands@, #[trigger] self.next_nodes@[i], i, input) by {
                    if i < j - 1 {
                        assert(self.next_nodes@[i] == prev[i]);
                    } else {
                        assert(self.next_nodes@[i] == nn);
                        assert(cands@[i] == cand);
                    }
                }
                assert(self.track@ =~= old_track + cands@.subrange(0, j as int).map_values(
                    |c: Cand| (old_nodes[c.parent as int].track_id, c.op)));
            }
        }
        std::mem::swap(&mut self.nodes, &mut self.next_nodes);
        proof {
            assert(cands@.subrange(0, j as int) =~= cands@);
            assert forall|t: int| 0 <= t < self.track@.len() implies {
                let p = (#[trigger] self.track@[t]).0;
                p == usize::MAX || p < t
            } by {
                if t >= old_track.len() {
                    let c = cands@[t - old_track.len()];
                    assert(self.track@[t] == (old_nodes[c.parent as int].track_id, c.op));
                } else {
                    assert(self.track@[t] == old_track[t]);
                }
            }
        }
    }

    /// The placements that made node `idx`, in the order taken.
    pub fn restore(&self, idx: usize) -> (r: Vec<Op>)
        requires
            self.links_ok(),
            idx < self.nodes@.len(),
        ensures
            r@ == trail(self.track@, self.nodes@[idx as int].track_id as int),
    {
        let mut idx: usize = self.nodes[idx].track_id;
        let tl: usize = self.track.len();
        let ghost t0 = idx as int;
        let mut rev: Vec<Op> = Vec::new();
        while idx != usize::MAX
            invariant
                forall|t: int| 0 <= t < self.track@.len() ==> {
                    let p = (#[trigger] self.track@[t]).0;
                    p == usize::MAX || p < t
                },
                idx == usize::MAX || idx < self.track@.len(),
                tl == self.track@.len(),
                trail(self.track@, t0) == trail(self.track@, idx as int) + rev@.reverse(),
            decreases (if idx == usize::MAX { 0 } else { idx as int + 1 }),
        {
            let (p, op) = self.track[idx];
            proof {
                let tr = trail(self.track@, p as int);
                if p == usize::MAX {
                    assert(tr =~= seq![]);
                    assert(seq![op] =~= tr.push(op));
                }
                assert(trail(self.track@, idx as int) == tr.push(op));
                assert(rev@.push(op).reverse() =~= seq![op] + rev@.reverse());
                assert(tr.push(op) + rev@.reverse() =~= tr + rev@.push(op).reverse());
            }
            rev.push(op);
            idx = p;
        }
        let mut ret: Vec<Op> = Vec::new();
        let n = rev.len();
        let mut k: usize = 0;
        while k < n
            invariant
                n == rev@.len(),
                0 <= k <= n,
                ret@ == rev@.reverse().subrange(0, k as int),
            decreases n - k,
        {
            ret.push(rev[n - 1 - k]);
            k += 1;
            proof {
                assert(ret@ =~= rev@.reverse().subrange(0, k as int));
            }
        }
        proof {
            assert(ret@ =~= rev@.reverse());
            assert(trail(self.track@, usize::MAX as int) =~= seq![]);
            assert(trail(self.track@, t0) =~= rev@.reverse());
        }
        ret
    }

    /// Runs the search: in each of `depth` rounds after the first, the
    /// candidates of the current nodes are sorted by score (rising when
    /// `is_ascending`), the search stops when the best one places the last
    /// box (or none is left), and otherwise the first `width` of distinct
    /// hash become the next nodes; each round ends by gathering the
    /// candidates of the nodes (`beam_history` lists the rounds). The result
    /// is what `answers` says of the last candidates, with `input.T` plans,
    /// read in the order of `last_order`.
    pub fn solve(
        &mut self,
        width: usize,
        depth: usize,
        input: &Input,
        rng: &mut rand_pcg::Mcg128Xsl64,
        is_ascending: bool,
    ) -> (r: (Vec<Vec<Op>>, Option<Vec<Op>>))
        requires
            old(self).wf(input),
            old(self).track@.len() + depth * width < usize::MAX,
        ensures
            final(self).wf(input),
            depth == 0 ==> r.0@.len() == 0 && r.1 is None,
            depth > 0 ==> answers(*final(self), input, r, input.T as nat, is_ascending),
            depth > 0 ==> exists|hist: Seq<(Seq<Node>, Seq<(usize, Op)>)>| {
                &&& #[trigger] beam_history(hist, input, width as nat, depth as nat, is_ascending)
                &&& hist[0] == (old(self).nodes@, old(self).track@)
                &&& hist.last() == (final(self).nodes@, final(self).track@)
                &&& ({
                    let fin = last_order(final(self).cands_spec(input), hist.len() < depth, is_ascending);
                    &&& r.0@.len() == (if input.T < fin.len() { input.T as int } else { fin.len() as int })
                    &&& forall|j: int| 0 <= j < r.0@.len() ==> (#[trigger] r.0@[j])@ == final(self).plan(fin[j])
                    &&& (r.1 is None <==> fin.len() == 0)
                    &&& (r.1 matches Some(ops) ==> ops@ == final(self).plan(fin[best_at(fin, is_ascending, fin.len() as int)]))
                })
            },
    {
        let ghost base = self.track@.len();
        let mut cands: Vec<Cand> = Vec::new();
        let mut t: usize = 0;
        let ghost mut hist: Seq<(Seq<Node>, Seq<(usize, Op)>)> = seq![(self.nodes@, self.track@)];
        while t < depth
            invariant_except_break
                t > 0 ==> cands@ == self.cands_spec(input),
            invariant
                self.wf(input),
                0 <= t <= depth,
                base + depth * width < usize::MAX,
                self.track@.len() <= base + t * width,
                t == 0 ==> cands@.len() == 0,
                t > 0 ==> cands@.to_multiset() == self.cands_spec(input).to_multiset(),
                hist.len() >= 1,
                t == 0 ==> hist.len() == 1,
                t > 0 ==> hist.len() == t,
                hist[0] == (old(self).nodes@, old(self).track@),
                hist.last() == (self.nodes@, self.track@),
                forall|q: int| #![trigger hist[q]] 0 <= q < hist.len() - 1
                    ==> beam_round(hist[q].0, hist[q].1, hist[q + 1].0, hist[q + 1].1, input, width as nat, is_ascending),
            ensures
                self.wf(input),
                depth > 0 ==> cands@.to_multiset() == self.cands_spec(input).to_multiset(),
                depth == 0 ==> cands@.len() == 0,
                depth > 0 ==> beam_history(hist, input, width as nat, depth as nat, is_ascending),
                depth > 0 && hist.len() < depth ==> cands@ == sorted_cands(self.cands_spec(input), is_ascending),
                depth > 0 && hist.len() == depth ==> cands@ == self.cands_spec(input),
                hist[0] == (old(self).nodes@, old(self).track@),
                hist.last() == (self.nodes@, self.track@),
            decreases depth - t,
        {
            if t != 0 {
                let nl = self.nodes.len();
                proof {
                    broadcast use vstd::seq_lib::group_to_multiset_ensures;
                    lemma_all_cands_ok(self.nodes@, input, self.nodes@.len() as int);
                    let all = self.cands_spec(input);
                    assert forall|j: int| 0 <= j < cands@.len() implies (#[trigger] cands@[j]).eval_score <= 0x8000_0000 by {
                        assert(cands@.contains(cands@[j]));
                        lemma_same_items_member(cands@, all, cands@[j]);
                    }
                }
                sort_cands(&mut cands, is_ascending);
                if cands.len() == 0 {
                    break;
                }
                if cands[0].is_done {
                    break;
                }
                let ghost a = self.nodes@;
                let ghost ta = self.track@;
                let sel = select_cands(&cands, width);
                proof {
                    broadcast use vstd::seq_lib::group_to_multiset_ensures;
                    lemma_all_cands_ok(self.nodes@, input, self.nodes@.len() as int);
                    lemma_selected_members(cands@, width as nat, cands@.len() as int);
                    let all = self.cands_spec(input);
                    assert forall|j: int| 0 <= j < sel@.len() implies cand_ok(self.nodes@, input, #[trigger] sel@[j]) by {
                        let m = choose|m: int| 0 <= m < cands@.len() && cands@[m] == #[trigger] sel@[j];
                        assert(cands@.contains(cands@[m]));
                        lemma_same_items_member(cands@, all, cands@[m]);
                    }
                    assert(t * width + width <= depth * width) by (nonlinear_arith)
                        requires t < depth;
                }
                self.update(sel, input);
                proof {
                    let h0 = hist;
                    hist = hist.push((self.nodes@, self.track@));
                    lemma_round(a, ta, self.nodes@, self.track@, input, width as nat, is_ascending, cands@, sel@);
                    assert forall|q: int| #![trigger hist[q]] 0 <= q < hist.len() - 1
                        implies beam_round(hist[q].0, hist[q].1, hist[q + 1].0, hist[q + 1].1, input, width as nat, is_ascending) by {
                        if q < h0.len() - 1 {
                            assert(hist[q] == h0[q] && hist[q + 1] == h0[q + 1]);
                        } else {
                            assert(hist[q] == h0.last());
                        }
                    }
                }
            }
            cands.clear();
            self.append_cands(input, &mut cands, rng);
            t += 1;
            proof {
                assert(cands@ =~= self.cands_spec(input));
                assert(t * width == (t - 1) * width + width) by (nonlinear_arith);
            }
        }
        if depth == 0 {
            return (Vec::new(), None);
        }
        proof {
            assert(beam_history(hist, input, width as nat, depth as nat, is_ascending));
        }
        let nl = self.nodes.len();
        proof {
            broadcast use vstd::seq_lib::group_to_multiset_ensures;
            lemma_all_cands_ok(self.nodes@, input, self.nodes@.len() as int);
            let all = self.cands_spec(input);
            assert forall|j: int| 0 <= j < cands@.len() implies (#[trigger] cands@[j]).eval_score <= 0x8000_0000 by {
                assert(cands@.contains(cands@[j]));
                lemma_same_items_member(cands@, all, cands@[j]);
            }
        }
        let ghost pre = cands@;
        sort_cands(&mut cands, true);
        let ghost all = self.cands_spec(input);
        let ghost fin = last_order(self.cands_spec(input), hist.len() < depth, is_ascending);
        proof {
            assert(cands@ == fin);
        }
        proof {
            broadcast use vstd::seq_lib::group_to_multiset_ensures;
            lemma_all_cands_ok(self.nodes@, input, self.nodes@.len() as int);
            assert forall|j: int| 0 <= j < cands@.len() implies cand_ok(self.nodes@, input, #[trigger] cands@[j]) by {
                assert(cands@.contains(cands@[j]));
                lemma_same_items_member(cands@, all, cands@[j]);
            }
        }
        let mut plans: Vec<Vec<Op>> = Vec::new();
        let mut k: usize = 0;
        while k < cands.len() && k < input.T
            invariant
                self.wf(input),
                forall|j: int| 0 <= j < cands@.len() ==> cand_ok(self.nodes@, input, #[trigger] cands@[j]),
                0 <= k <= cands@.len(),
                k <= input.T,
                plans@.len() == k,
                forall|j: int| 0 <= j < k ==> (#[trigger] plans@[j])@ == self.plan(cands@[j]),
            decreases cands@.len() - k,
        {
            let c = cands[k];
            let mut ops = self.restore(c.parent);
            ops.push(c.op);
            plans.push(ops);
            k += 1;
        }
        if cands.len() == 0 {
            proof {
                assert(all.to_multiset().len() == 0);
            }
            return (plans, None);
        }
        let mut best: usize = 0;
        let mut m: usize = 1;
        while m < cands.len()
            invariant
                0 <= best < m <= cands@.len(),
                forall|i: int| 0 <= i < m ==> score_key(cands@[best as int], is_ascending) <= score_key(#[trigger] cands@[i], is_ascending),
                best == best_at(cands@, is_ascending, m as int),
            decreases cands@.len() - m,
        {
            if is_ascending {
                if cands[m].eval_score < cands[best].eval_score {
                    best = m;
                }
            } else {
                if cands[m].eval_score >= cands[best].eval_score {
                    best = m;
                }
            }
            m += 1;
        }
        let bc = cands[best];
        let mut ret = self.restore(bc.parent);
        ret.push(bc.op);
        proof {
            broadcast use vstd::seq_lib::group_to_multiset_ensures;
            assert(cands@.contains(bc));
            lemma_same_items_member(cands@, all, bc);
            let j = choose|j: int| 0 <= j < all.len() && all[j] == bc;
            assert forall|i: int| 0 <= i < all.len() implies score_key(all[j], is_ascending) <= score_key(#[trigger] all[i], is_ascending) by {
                assert(all.contains(all[i]));
                lemma_same_items_member(all, cands@, all[i]);
                let i2 = choose|i2: int| 0 <= i2 < cands@.len() && cands@[i2] == all[i];
            }
            assert(ret@ == self.plan(all[j]));
            assert(cands@.to_multiset().len() == cands@.len());
            assert(all.to_multiset().len() == all.len());
            assert(cands@.len() == all.len());
            assert forall|i: int, j: int| 0 <= i < j < cands@.len() implies (#[trigger] cands@[i]).eval_score <= (#[trigger] cands@[j]).eval_score by {
                assert(score_key(cands@[i], true) <= score_key(cands@[j], true));
            }
        }
        (plans, Some(ret))
    }
}

} // verus!