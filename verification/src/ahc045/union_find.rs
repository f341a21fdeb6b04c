//! Disjoint sets with union by size and path compression.
use vstd::prelude::*;

verus! {

/// How many entries of `s` equal `r`.
pub open spec fn count_of(s: Seq<int>, r: int) -> nat
    decreases s.len(),
{
    if s.len() == 0 {
        0
    } else {
        count_of(s.drop_last(), r) + if s.last() == r { 1nat } else { 0nat }
    }
}

proof fn lemma_count_le_len(s: Seq<int>, r: int)
    ensures
        count_of(s, r) <= s.len(),
    decreases s.len(),
{
    if s.len() > 0 {
        lemma_count_le_len(s.drop_last(), r);
    }
}

/// In the identity sequence `0..k` each value below `k` occurs once.
proof fn lemma_count_identity(k: nat, r: int)
    ensures
        count_of(Seq::new(k, |i: int| i), r) == if 0 <= r < k { 1nat } else { 0nat },
    decreases k,
{
    if k > 0 {
        let s = Seq::new(k, |i: int| i);
        assert(s.drop_last() =~= Seq::new((k - 1) as nat, |i: int| i));
        lemma_count_identity((k - 1) as nat, r);
    }
}

/// Renaming `rb` to `ra` (two different values) moves the count of `rb` to
/// `ra` and keeps every other count.
proof fn lemma_count_merge(s: Seq<int>, ra: int, rb: int, r: int)
    requires
        ra != rb,
    ensures
        count_of(s.map_values(|x: int| if x == rb { ra } else { x }), r) == if r == ra {
            count_of(s, ra) + count_of(s, rb)
        } else if r == rb {
            0
        } else {
            count_of(s, r)
        },
    decreases s.len(),
{
    let f = |x: int| if x == rb { ra } else { x };
    if s.len() > 0 {
        lemma_count_merge(s.drop_last(), ra, rb, r);
        assert(s.map_values(f).drop_last() =~= s.drop_last().map_values(f));
    } else {
        assert(s.map_values(f).len() == 0);
    }
}

/// Disjoint sets over `0..n`: `parent[x]` is the parent of `x`, or minus the
/// size of its set where `x` is the root. `repr` (the view) gives the root
/// of each element's set; `rank` bounds the height below each element.
pub struct UnionFind {
    pub parent: Vec<isize>,
    pub repr: Ghost<Seq<int>>,
    pub rank: Ghost<Seq<nat>>,
}

impl View for UnionFind {
    type V = Seq<int>;

    open spec fn view(&self) -> Seq<int> {
        self.repr@
    }
}

impl UnionFind {
    /// The number of elements.
    pub open spec fn size(&self) -> nat {
        self.parent@.len()
    }

    /// `x` and `y` lie in one set.
    pub open spec fn same_spec(&self, x: int, y: int) -> bool {
        self@[x] == self@[y]
    }

    /// The invariant: roots are their own representatives and hold minus the
    /// size of their set; every other element points to an element of its
    /// own set with a higher rank; ranks stay below the set's size.
    pub open spec fn wf(&self) -> bool {
        let n = self.parent@.len();
        &&& n <= isize::MAX
        &&& self.repr@.len() == n
        &&& self.rank@.len() == n
        &&& forall|x: int| 0 <= x < n ==> {
            let r = #[trigger] self.repr@[x];
            &&& 0 <= r < n
            &&& self.parent@[r] < 0
            &&& self.repr@[r] == r
            &&& self.rank@[x] <= self.rank@[r]
        }
        &&& forall|x: int| 0 <= x < n ==> {
            let p = #[trigger] self.parent@[x];
            if p < 0 {
                &&& self.repr@[x] == x
                &&& -p == count_of(self.repr@, x)
                &&& self.rank@[x] < count_of(self.repr@, x)
            } else {
                &&& p < n
                &&& self.repr@[p as int] == self.repr@[x]
                &&& self.rank@[p as int] > self.rank@[x]
            }
        }
    }

    /// `n` sets of one element each.
    pub fn new(n: usize) -> (u: UnionFind)
        requires
            n <= isize::MAX,
        ensures
            u.wf(),
            u.size() == n,
            forall|x: int| 0 <= x < n ==> #[trigger] u@[x] == x,
    {
        let mut parent: Vec<isize> = Vec::new();
        let mut i: usize = 0;
        while i < n
            invariant
                0 <= i <= n,
                parent@ == Seq::new(i as nat, |k: int| -1isize),
            decreases n - i,
        {
            parent.push(-1);
            i += 1;
            proof {
                assert(parent@ =~= Seq::new(i as nat, |k: int| -1isize));
            }
        }
        let ghost repr = Seq::new(n as nat, |k: int| k);
        proof {
            assert forall|x: int| 0 <= x < n implies count_of(repr, x) == 1 by {
                lemma_count_identity(n as nat, x);
            }
        }
        UnionFind { parent, repr: Ghost(repr), rank: Ghost(Seq::new(n as nat, |k: int| 0nat)) }
    }

    /// The root of the set of `a`; every element passed on the way now
    /// points to it directly. The sets stay as they were.
    pub fn root(&mut self, a: usize) -> (r: usize)
        requires
            old(self).wf(),
            a < old(self).size(),
        ensures
            final(self).wf(),
            final(self)@ == old(self)@,
            final(self).size() == old(self).size(),
            r == old(self)@[a as int],
    {
        let ghost a0 = a as int;
        let mut a: usize = a;
        let mut path: Vec<usize> = Vec::new();
        while self.parent[a] >= 0
            invariant
                self.wf(),
                self@ == old(self)@,
                self.size() == old(self).size(),
                a < self.size(),
                self.repr@[a as int] == self.repr@[a0],
                forall|k: int| 0 <= k < path@.len() ==> {
                    let y = #[trigger] path@[k] as int;
                    &&& 0 <= y < self.size()
                    &&& self.parent@[y] >= 0
                    &&& self.repr@[y] == self.repr@[a0]
                    &&& self.rank@[y] < self.rank@[a as int]
                },
            decreases self.size() - self.rank@[a as int],
        {
            proof {
                let r = self.repr@[a as int];
                assert(self.rank@[a as int] <= self.rank@[r]);
                lemma_count_le_len(self.repr@, r);
            }
            path.push(a);
            a = self.parent[a] as usize;
        }
        let mut k: usize = 0;
        while k < path.len()
            invariant
                self.wf(),
                self@ == old(self)@,
                self.size() == old(self).size(),
                a < self.size(),
                self.parent@[a as int] < 0,
                self.repr@[a as int] == self.repr@[a0],
                0 <= k <= path@.len(),
                forall|k: int| 0 <= k < path@.len() ==> {
                    let y = #[trigger] path@[k] as int;
                    &&& 0 <= y < self.size()
                    &&& self.parent@[y] >= 0
                    &&& self.repr@[y] == self.repr@[a0]
                    &&& self.rank@[y] < self.rank@[a as int]
                },
            decreases path@.len() - k,
        {
            let x = path[k];
            self.parent.set(x, a as isize);
            k += 1;
        }
        proof {
            assert(self.repr@[a as int] == a);
        }
        a
    }

    /// Joins the sets of `a` and `b`; `true` when they were apart. The root
    /// of the larger set (of `a`'s on a tie) becomes the root of both.
    pub fn unite(&mut self, a: usize, b: usize) -> (joined: bool)
        requires
            old(self).wf(),
            a < old(self).size(),
            b < old(self).size(),
        ensures
            final(self).wf(),
            final(self).size() == old(self).size(),
            joined == !old(self).same_spec(a as int, b as int),
            forall|x: int, y: int| 0 <= x < old(self).size() && 0 <= y < old(self).size() ==>
                (#[trigger] final(self).same_spec(x, y) <==> old(self).same_spec(x, y)
                    || (old(self).same_spec(x, a as int) && old(self).same_spec(y, b as int))
                    || (old(self).same_spec(x, b as int) && old(self).same_spec(y, a as int))),
    {
        let ghost s0 = self@;
        let mut ra = self.root(a);
        let mut rb = self.root(b);
        if ra == rb {
            return false;
        }
        if self.parent[rb] < self.parent[ra] {
            let t = ra;
            ra = rb;
            rb = t;
        }
        let ghost old_repr = self.repr@;
        let ghost old_rank = self.rank@;
        let ghost f = |x: int| if x == rb as int { ra as int } else { x };
        proof {
            lemma_count_merge(old_repr, ra as int, rb as int, ra as int);
            lemma_count_le_len(self.repr@.map_values(f), ra as int);
        }
        let pa = self.parent[ra];
        let pb = self.parent[rb];
        self.parent.set(ra, pa + pb);
        self.parent.set(rb, ra as isize);
        let ghost new_rank: nat = if old_rank[ra as int] > old_rank[rb as int] + 1 {
            old_rank[ra as int]
        } else {
            old_rank[rb as int] + 1
        };
        self.repr = Ghost(old_repr.map_values(f));
        self.rank = Ghost(old_rank.update(ra as int, new_rank));
        proof {
            let n = self.parent@.len() as int;
            assert forall|x: int| 0 <= x < n implies {
                let r = #[trigger] self.repr@[x];
                &&& 0 <= r < n
                &&& self.parent@[r] < 0
                &&& self.repr@[r] == r
                &&& self.rank@[x] <= self.rank@[r]
            } by {
                let r0 = old_repr[x];
                assert(old_rank[x] <= old_rank[r0]);
            }
            assert forall|x: int| 0 <= x < n implies {
                let p = #[trigger] self.parent@[x];
                if p < 0 {
                    &&& self.repr@[x] == x
                    &&& -p == count_of(self.repr@, x)
                    &&& self.rank@[x] < count_of(self.repr@, x)
                } else {
                    &&& p < n
                    &&& self.repr@[p as int] == self.repr@[x]
                    &&& self.rank@[p as int] > self.rank@[x]
                }
            } by {
                lemma_count_merge(old_repr, ra as int, rb as int, x);
                if x != ra as int && x != rb as int {
                    let p = self.parent@[x];
                    if p >= 0 {
                        assert(old_repr[p as int] == old_repr[x]);
                        assert(old_rank[x] <= old_rank[old_repr[x]]);
                    }
                }
            }
        }
        true
    }

    /// Whether `a` and `b` lie in one set. The sets stay as they were.
    pub fn same(&mut self, a: usize, b: usize) -> (r: bool)
        requires
            old(self).wf(),
            a < old(self).size(),
            b < old(self).size(),
        ensures
            final(self).wf(),
            final(self)@ == old(self)@,
            final(self).size() == old(self).size(),
            r == old(self).same_spec(a as int, b as int),
    {
        let x = self.root(a);
        let y = self.root(b);
        x == y
    }
}

} // verus!
