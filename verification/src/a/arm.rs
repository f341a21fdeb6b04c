//! The arm: a chain of segments of lengths 2, 4, 8, ... until they reach half
//! the board, then fingertip segments of lengths 1, 2, 3, ... at its end.
use vstd::prelude::*;
use crate::coord::Coord;
use crate::a::input::Input;
use crate::ahc038::arm::{pow2, arm_lines};
use crate::text::{decimal, push_decimal, chars_to_string};

verus! {

/// The arm: segment `k` has length `lengths[k]` and hangs from node
/// `parents[k]`; the first `not_finger_arm_num` segments form a chain from
/// the base at `start`, the segments in `fingers` carry the fingertips.
#[derive(Debug)]
pub struct Arm {
    pub start: Coord,
    pub not_finger_arm_num: usize,
    pub finger_num: usize,
    pub lengths: Vec<usize>,
    pub fingers: Vec<usize>,
    pub parents: Vec<usize>,
}

/// How many chain segments (of lengths `2^v`, `2^(v+1)`, ...) get added to a
/// chain of length `sum` with `v` nodes before it reaches `half` or the
/// `vmax` nodes run out.
pub open spec fn chain_more(half: nat, vmax: nat, v: nat, sum: nat) -> nat
    decreases vmax - v,
{
    if sum < half && v < vmax { 1 + chain_more(half, vmax, v + 1, sum + pow2(v)) } else { 0 }
}

/// The number of chain segments of the arm for an `n x n` board and `v`
/// nodes.
pub open spec fn chain_count(n: usize, v: usize) -> nat {
    chain_more((n / 2) as nat, v as nat, 1, 0)
}

proof fn lemma_chain_more_bound(half: nat, vmax: nat, v: nat, sum: nat)
    requires
        v <= vmax,
    ensures
        chain_more(half, vmax, v, sum) <= vmax - v,
    decreases vmax - v,
{
    if sum < half && v < vmax {
        lemma_chain_more_bound(half, vmax, v + 1, sum + pow2(v));
    }
}

proof fn lemma_pow2_step(k: nat)
    ensures
        pow2(k + 1) == 2 * pow2(k),
{
}

impl Arm {
    /// The arm for `input`: `chain_count` chain segments of lengths `2^1`,
    /// `2^2`, ... each hanging from the previous node, then the remaining
    /// `V - 1 - chain_count` segments hang from the end of the chain with
    /// lengths `1, 2, ..., N, 1, 2, ...` and carry the fingertips; when no
    /// segment is left for them, the last chain segment is the finger.
    pub fn new(input: &Input) -> (arm: Arm)
        requires
            input.V >= 2,
            input.N >= 1,
        ensures
            ({
                let c = chain_count(input.N, input.V);
                &&& c <= input.V - 1
                &&& arm.start == (Coord { i: input.N / 2, j: input.N / 2 })
                &&& arm.lengths@.len() == input.V - 1
                &&& arm.parents@.len() == input.V - 1
                &&& forall|k: int| 0 <= k < c ==> #[trigger] arm.lengths@[k] == pow2((k + 1) as nat)
                &&& forall|k: int| 0 <= k < c ==> #[trigger] arm.parents@[k] == k
                &&& forall|k: int| c <= k < input.V - 1 ==> #[trigger] arm.lengths@[k] == (k - c) % (input.N as int) + 1
                &&& forall|k: int| c <= k < input.V - 1 ==> #[trigger] arm.parents@[k] == c
                &&& if c < input.V - 1 {
                    &&& arm.fingers@.len() == input.V - 1 - c
                    &&& forall|m: int| 0 <= m < input.V - 1 - c ==> #[trigger] arm.fingers@[m] == c + m
                } else {
                    arm.fingers@ == seq![(c - 1) as usize]
                }
                &&& arm.finger_num == arm.fingers@.len()
                &&& arm.not_finger_arm_num == input.V - arm.fingers@.len() - 1
            }),
    {
        let n = input.N;
        let vmax = input.V;
        let half = n / 2;
        let mut arm_length: Vec<usize> = Vec::new();
        let mut parents: Vec<usize> = Vec::new();
        let mut v_cnt: usize = 1;
        let mut arm_length_sum: usize = 0;
        proof {
            lemma_chain_more_bound(half as nat, vmax as nat, 1, 0);
            assert(pow2(1) == 2 * pow2(0));
        }
        while arm_length_sum < half && v_cnt < vmax
            invariant
                1 <= v_cnt <= vmax,
                half == n / 2,
                vmax == input.V,
                arm_length_sum + 2 == pow2(v_cnt as nat),
                arm_length@.len() == v_cnt - 1,
                parents@.len() == v_cnt - 1,
                chain_count(n, vmax) == v_cnt - 1 + chain_more(half as nat, vmax as nat, v_cnt as nat, arm_length_sum as nat),
                forall|k: int| 0 <= k < v_cnt - 1 ==> #[trigger] arm_length@[k] == pow2((k + 1) as nat),
                forall|k: int| 0 <= k < v_cnt - 1 ==> #[trigger] parents@[k] == k,
            decreases vmax - v_cnt,
        {
            proof {
                lemma_pow2_step(v_cnt as nat);
            }
            let length = arm_length_sum + 2;
            arm_length.push(length);
            parents.push(v_cnt - 1);
            arm_length_sum = arm_length_sum + length;
            v_cnt += 1;
        }
        let ghost c = chain_count(n, vmax);
        proof {
            assert(c == v_cnt - 1);
        }
        let mut flen: usize = 0;
        let mut fingers: Vec<usize> = Vec::new();
        let finger_parent = arm_length.len();
        while v_cnt < vmax
            invariant
                c + 1 <= v_cnt <= vmax,
                vmax == input.V,
                n == input.N,
                n >= 1,
                finger_parent == c,
                flen == v_cnt - 1 - c,
                arm_length@.len() == v_cnt - 1,
                parents@.len() == v_cnt - 1,
                fingers@.len() == v_cnt - 1 - c,
                forall|k: int| 0 <= k < c ==> #[trigger] arm_length@[k] == pow2((k + 1) as nat),
                forall|k: int| 0 <= k < c ==> #[trigger] parents@[k] == k,
                forall|k: int| c <= k < v_cnt - 1 ==> #[trigger] arm_length@[k] == (k - c) % (n as int) + 1,
                forall|k: int| c <= k < v_cnt - 1 ==> #[trigger] parents@[k] == c,
                forall|m: int| 0 <= m < v_cnt - 1 - c ==> #[trigger] fingers@[m] == c + m,
            decreases vmax - v_cnt,
        {
            arm_length.push(flen % n + 1);
            fingers.push(v_cnt - 1);
            parents.push(finger_parent);
            flen += 1;
            v_cnt += 1;
        }
        if fingers.len() == 0 {
            proof {
                assert(c == vmax - 1);
            }
            fingers.push(arm_length.len() - 1);
            proof {
                assert(fingers@ =~= seq![(c - 1) as usize]);
            }
        }
        let finger_num = fingers.len();
        Arm {
            start: Coord::new(n / 2, n / 2),
            finger_num,
            not_finger_arm_num: vmax - finger_num - 1,
            lengths: arm_length,
            fingers,
            parents,
        }
    }

    /// The arm description: the number of nodes, a line `parent length` per
    /// segment, and the start square.
    pub open spec fn text(&self) -> Seq<char> {
        decimal((self.lengths@.len() + 1) as nat) + seq!['\n'] + arm_lines(self.parents@, self.lengths@, self.lengths@.len() as int)
            + decimal(self.start.i as nat) + seq![' '] + decimal(self.start.j as nat) + seq!['\n']
    }

    /// The arm description that the answer starts with: `text`.
    pub fn output(&self) -> (s: String)
        requires
            self.parents@.len() == self.lengths@.len(),
            self.lengths@.len() < usize::MAX,
        ensures
            s@ == self.text(),
    {
        let mut out: Vec<char> = Vec::new();
        push_decimal(&mut out, self.lengths.len() + 1);
        out.push('\n');
        let ghost head = out@;
        let mut k: usize = 0;
        while k < self.lengths.len()
            invariant
                self.parents@.len() == self.lengths@.len(),
                0 <= k <= self.lengths@.len(),
                out@ == head + arm_lines(self.parents@, self.lengths@, k as int),
            decreases self.lengths@.len() - k,
        {
            push_decimal(&mut out, self.parents[k]);
            out.push(' ');
            push_decimal(&mut out, self.lengths[k]);
            out.push('\n');
            proof {
                assert(out@ =~= head + arm_lines(self.parents@, self.lengths@, k + 1));
            }
            k += 1;
        }
        push_decimal(&mut out, self.start.i);
        out.push(' ');
        push_decimal(&mut out, self.start.j);
        out.push('\n');
        proof {
            assert(out@ =~= self.text());
        }
        chars_to_string(&out)
    }
}

} // verus!
