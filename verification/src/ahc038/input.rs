//! The instance: an `N x N` board, `V` arm nodes, the start (`S`) and target
//! (`T`) boards, the arm, the hash words and the scores of the search.
use vstd::prelude::*;
use crate::ahc038::arm::Arm;
use crate::ahc038::hash::CalcHash;

verus! {

/// The score of a grab and of a release.
pub const GRAB_SCORE: usize = 1;
pub const RELEASE_SCORE: usize = 2;

/// `M` takoyaki have to move; a solution is complete at `necessary_score`.
#[derive(Debug)]
pub struct Input {
    pub N: usize,
    pub M: usize,
    pub V: usize,
    pub S: Vec<Vec<char>>,
    pub T: Vec<Vec<char>>,
    pub arm: Arm,
    pub calc_hash: CalcHash,
    pub grab_score: usize,
    pub release_score: usize,
    pub necessary_score: usize,
}

/// The rows of a board as values.
pub open spec fn rows(s: Seq<Vec<char>>) -> Seq<Seq<char>> {
    s.map_values(|r: Vec<char>| r@)
}

/// The number of squares `(i, 0..k)` that hold a takoyaki in `s` and not
/// in `t`.
pub open spec fn row_moves(s: Seq<Seq<char>>, t: Seq<Seq<char>>, i: int, k: int) -> nat
    decreases k,
{
    if k <= 0 { 0 } else { row_moves(s, t, i, k - 1) + if s[i][k - 1] == '1' && t[i][k - 1] == '0' { 1nat } else { 0 } }
}

/// `row_moves` over the rows `0..r` of width `n`.
pub open spec fn moves_total(s: Seq<Seq<char>>, t: Seq<Seq<char>>, n: int, r: int) -> nat
    decreases r,
{
    if r <= 0 { 0 } else { moves_total(s, t, n, r - 1) + row_moves(s, t, r - 1, n) }
}

proof fn lemma_row_moves_le(s: Seq<Seq<char>>, t: Seq<Seq<char>>, i: int, k: int)
    requires
        0 <= k,
    ensures
        row_moves(s, t, i, k) <= k,
    decreases k,
{
    if k > 0 {
        lemma_row_moves_le(s, t, i, k - 1);
    }
}

proof fn lemma_moves_total_le(s: Seq<Seq<char>>, t: Seq<Seq<char>>, n: int, r: int)
    requires
        0 <= r,
        0 <= n,
    ensures
        moves_total(s, t, n, r) <= r * n,
    decreases r,
{
    if r > 0 {
        lemma_moves_total_le(s, t, n, r - 1);
        lemma_row_moves_le(s, t, r - 1, n);
        assert((r - 1) * n + n == r * n) by (nonlinear_arith);
    }
}

/// The number of squares that hold a takoyaki at the start and not at the
/// end: `moves_total`.
pub fn count_moves(N: usize, S: &Vec<Vec<char>>, T: &Vec<Vec<char>>) -> (m: usize)
    requires
        S@.len() >= N,
        T@.len() >= N,
        forall|i: int| 0 <= i < N ==> (#[trigger] S@[i])@.len() >= N && T@[i]@.len() >= N,
        N * N <= usize::MAX,
    ensures
        m == moves_total(rows(S@), rows(T@), N as int, N as int),
{
    let ghost s = rows(S@);
    let ghost t = rows(T@);
    let mut m: usize = 0;
    let mut i: usize = 0;
    while i < N
        invariant
            S@.len() >= N,
            T@.len() >= N,
            forall|i: int| 0 <= i < N ==> (#[trigger] S@[i])@.len() >= N && T@[i]@.len() >= N,
            N * N <= usize::MAX,
            s == rows(S@),
            t == rows(T@),
            0 <= i <= N,
            m == moves_total(s, t, N as int, i as int),
        decreases N - i,
    {
        proof {
            assert(s[i as int] == S@[i as int]@);
            assert(t[i as int] == T@[i as int]@);
            lemma_moves_total_le(s, t, N as int, i as int);
            lemma_row_moves_le(s, t, i as int, N as int);
            assert(i * N + N <= N * N) by (nonlinear_arith)
                requires i < N;
        }
        let mut j: usize = 0;
        while j < N
            invariant
                S@.len() >= N,
                T@.len() >= N,
                forall|i: int| 0 <= i < N ==> (#[trigger] S@[i])@.len() >= N && T@[i]@.len() >= N,
                s[i as int] == S@[i as int]@,
                t[i as int] == T@[i as int]@,
                0 <= i < N,
                0 <= j <= N,
                moves_total(s, t, N as int, i as int) + N <= usize::MAX,
                m == moves_total(s, t, N as int, i as int) + row_moves(s, t, i as int, j as int),
            decreases N - j,
        {
            proof {
                lemma_row_moves_le(s, t, i as int, j as int);
            }
            if S[i][j] == '1' && T[i][j] == '0' {
                m += 1;
            }
            j += 1;
        }
        i += 1;
    }
    m
}

impl Input {
    /// The instance with its derived values: `M` the number of takoyaki to
    /// move (`count_moves`), and the score of moving them all.
    pub fn new(N: usize, V: usize, S: Vec<Vec<char>>, T: Vec<Vec<char>>, arm: Arm, calc_hash: CalcHash) -> (input: Input)
        requires
            S@.len() >= N,
            T@.len() >= N,
            forall|i: int| 0 <= i < N ==> (#[trigger] S@[i])@.len() >= N && T@[i]@.len() >= N,
            3 * N * N <= usize::MAX,
        ensures
            input.N == N,
            input.V == V,
            input.S@ == S@,
            input.T@ == T@,
            input.M == moves_total(rows(S@), rows(T@), N as int, N as int),
            input.grab_score == GRAB_SCORE,
            input.release_score == RELEASE_SCORE,
            input.necessary_score == input.M * (GRAB_SCORE + RELEASE_SCORE),
    {
        proof {
            assert(N * N <= 3 * N * N) by (nonlinear_arith);
        }
        let M = count_moves(N, &S, &T);
        proof {
            lemma_moves_total_le(rows(S@), rows(T@), N as int, N as int);
            assert(M * 3 <= 3 * N * N) by (nonlinear_arith)
                requires M <= N * N;
        }
        Input {
            N,
            M,
            V,
            S,
            T,
            arm,
            calc_hash,
            grab_score: GRAB_SCORE,
            release_score: RELEASE_SCORE,
            necessary_score: M * (GRAB_SCORE + RELEASE_SCORE),
        }
    }
}

} // verus!
