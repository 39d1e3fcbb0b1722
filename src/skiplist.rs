use rand::Rng;
use vstd::prelude::*;

verus! {

/// Most levels a node may have.
pub const MAX_LEVELS: usize = 32;
/// Chance, in percent, that a new node gets one more level.
pub const DEFAULT_SKIP_PERCENTAGE: usize = 25;

/// Whether `(s1, m1)` comes before `(s2, m2)`: by score, then by member.
pub open spec fn key_lt(a: (i64, i64), b: (i64, i64)) -> bool {
    a.0 < b.0 || (a.0 == b.0 && a.1 < b.1)
}

/// Position after `p` of the first entry whose height exceeds `l`; `hs.len()` if none.
pub open spec fn next_at(hs: Seq<nat>, l: nat, p: int) -> int
    decreases hs.len() - p,
{
    if p + 1 >= hs.len() {
        hs.len() as int
    } else if hs[p + 1] > l {
        p + 1
    } else {
        next_at(hs, l, p + 1)
    }
}

pub proof fn lemma_next_at_basic(hs: Seq<nat>, l: nat, p: int)
    requires
        -1 <= p < hs.len(),
    ensures
        p < next_at(hs, l, p) <= hs.len(),
        next_at(hs, l, p) < hs.len() ==> hs[next_at(hs, l, p)] > l,
        forall|q: int| p < q < next_at(hs, l, p) ==> hs[q] <= l,
    decreases hs.len() - p,
{
    if p + 1 < hs.len() && hs[p + 1] <= l {
        lemma_next_at_basic(hs, l, p + 1);
    }
}

/// `next_at` is the first position after `p` above level `l`.
pub proof fn lemma_next_at_unique(hs: Seq<nat>, l: nat, p: int, q: int)
    requires
        -1 <= p < q <= hs.len(),
        q < hs.len() ==> hs[q] > l,
        forall|i: int| p < i < q ==> hs[i] <= l,
    ensures
        next_at(hs, l, p) == q,
    decreases hs.len() - p,
{
    if p + 1 < q {
        lemma_next_at_unique(hs, l, p + 1, q);
    }
}

/// How `next_at` changes when an entry of height `h` is inserted at `at`.
#[verifier::rlimit(100)]
pub proof fn lemma_next_at_insert(hs: Seq<nat>, at: int, h: nat, l: nat, p: int)
    requires
        0 <= at <= hs.len(),
        -1 <= p <= hs.len(),
    ensures
        ({
            let hs2 = hs.insert(at, h);
            let old_next = next_at(hs, l, p);
            &&& p < at ==> next_at(hs2, l, p) == (if old_next < at {
                old_next
            } else if h > l {
                at
            } else {
                old_next + 1
            })
            &&& p >= at ==> next_at(hs2, l, p + 1) == next_at(hs, l, p) + 1
            &&& p == at - 1 ==> next_at(hs2, l, at) == next_at(hs, l, p) + 1
        }),
{
    let hs2 = hs.insert(at, h);
    if p == at - 1 {
        lemma_next_at_basic(hs, l, p);
        lemma_next_at_unique(hs2, l, at, next_at(hs, l, p) + 1);
    }
    if p < hs.len() {
        lemma_next_at_basic(hs, l, p);
    }
    let old_next = next_at(hs, l, p);
    if p < at {
        if old_next < at {
            lemma_next_at_unique(hs2, l, p, old_next);
        } else if h > l {
            lemma_next_at_unique(hs2, l, p, at);
        } else {
            if p == hs.len() {
            } else {
                lemma_next_at_unique(hs2, l, p, old_next + 1);
            }
        }
    } else {
        if p < hs.len() {
            lemma_next_at_unique(hs2, l, p + 1, old_next + 1);
        } else {
            assert(next_at(hs2, l, p + 1) == hs2.len());
        }
    }
}

/// How `next_at` changes when the entry at `at` is removed.
#[verifier::rlimit(100)]
pub proof fn lemma_next_at_remove(hs: Seq<nat>, at: int, l: nat, p: int)
    requires
        0 <= at < hs.len(),
        -1 <= p < hs.len(),
        p != at,
    ensures
        ({
            let hs2 = hs.remove(at);
            let old_next = next_at(hs, l, p);
            &&& p < at ==> next_at(hs2, l, p) == (if old_next < at {
                old_next
            } else if old_next == at {
                next_at(hs, l, at) - 1
            } else {
                old_next - 1
            })
            &&& p > at ==> next_at(hs2, l, p - 1) == next_at(hs, l, p) - 1
        }),
{
    let hs2 = hs.remove(at);
    lemma_next_at_basic(hs, l, p);
    lemma_next_at_basic(hs, l, at);
    let old_next = next_at(hs, l, p);
    if p < at {
        if old_next < at {
            lemma_next_at_unique(hs2, l, p, old_next);
        } else if old_next == at {
            lemma_next_at_unique(hs2, l, p, next_at(hs, l, at) - 1);
        } else {
            lemma_next_at_unique(hs2, l, p, old_next - 1);
        }
    } else {
        lemma_next_at_unique(hs2, l, p - 1, old_next - 1);
    }
}

/// A score bound, inclusive or exclusive.
#[derive(Clone, Copy)]
pub struct Bound {
    pub bound: i64,
    pub exclusive: bool,
}

impl Bound {
    pub fn new(bound: i64, exclusive: bool) -> (r: Self)
        ensures
            r == (Bound { bound, exclusive }),
    {
        Bound { bound, exclusive }
    }

    pub fn new_exclusive(bound: i64) -> (r: Self)
        ensures
            r == (Bound { bound, exclusive: true }),
    {
        Bound { bound, exclusive: true }
    }

    pub fn new_inclusive(bound: i64) -> (r: Self)
        ensures
            r == (Bound { bound, exclusive: false }),
    {
        Bound { bound, exclusive: false }
    }

    /// The same value with the other exclusivity.
    pub fn toggle(&self) -> (r: Self)
        ensures
            r == (Bound { bound: self.bound, exclusive: !self.exclusive }),
    {
        Bound { bound: self.bound, exclusive: !self.exclusive }
    }
}

/// `s` does not exceed `b` as an upper bound.
pub open spec fn below(b: Bound, s: i64) -> bool {
    s < b.bound || (s == b.bound && !b.exclusive)
}

/// `s` reaches `b` as a lower bound.
pub open spec fn above(b: Bound, s: i64) -> bool {
    s > b.bound || (s == b.bound && !b.exclusive)
}

/// A prefix of the order: the entries before a key, or those whose score does
/// not exceed a bound.
#[derive(Clone, Copy)]
pub enum Cut {
    Before(i64, i64),
    Below(Bound),
}

pub open spec fn in_cut(c: Cut, k: (i64, i64)) -> bool {
    match c {
        Cut::Before(s, m) => key_lt(k, (s, m)),
        Cut::Below(b) => below(b, k.0),
    }
}

fn in_cut_exec(c: &Cut, score: i64, data: i64) -> (r: bool)
    ensures
        r == in_cut(*c, (score, data)),
{
    match c {
        Cut::Before(s, m) => score < *s || (score == *s && data < *m),
        Cut::Below(b) => score < b.bound || (score == b.bound && !b.exclusive),
    }
}

/// An entry of a range query: score, member and the number of levels of its node.
pub struct RangeItem {
    pub score: i64,
    pub data: i64,
    pub skiplevel: usize,
}

struct Node {
    score: i64,
    data: i64,
    levels: Vec<Option<usize>>,
    spans: Vec<usize>,
    backward: Option<usize>,
}

/// An ordered set of (score, member) pairs. Nodes live in an arena and link to
/// each other by index; a node of height `h` has a forward link on each of the
/// levels below `h`, with the number of nodes that link skips.
pub struct Skiplist {
    nodes: Vec<Node>,
    free: Vec<usize>,
    level_links: Vec<Option<usize>>,
    level_spans: Vec<usize>,
    level: usize,
    length: usize,
    skip_percentage: usize,
    order: Ghost<Seq<usize>>,
}

impl View for Skiplist {
    type V = Seq<(i64, i64)>;

    closed spec fn view(&self) -> Seq<(i64, i64)> {
        Seq::new(self.order@.len(), |r: int| self.key_at(r))
    }
}

/// The entries of `v` that lie within both bounds, in order.
pub open spec fn filter_range(v: Seq<(i64, i64)>, min: Option<Bound>, max: Option<Bound>) -> Seq<(i64, i64)>
    decreases v.len(),
{
    if v.len() == 0 {
        Seq::empty()
    } else if in_range(v.last().0, min, max) {
        filter_range(v.drop_last(), min, max).push(v.last())
    } else {
        filter_range(v.drop_last(), min, max)
    }
}

/// Number of entries of `v` within both bounds.
pub open spec fn count_in_range(v: Seq<(i64, i64)>, min: Option<Bound>, max: Option<Bound>) -> nat {
    filter_range(v, min, max).len()
}

/// `s` lies within both optional bounds.
pub open spec fn in_range(s: i64, min: Option<Bound>, max: Option<Bound>) -> bool {
    &&& (match min {
        Some(b) => above(b, s),
        None => true,
    })
    &&& (match max {
        Some(b) => below(b, s),
        None => true,
    })
}

/// `v` is strictly increasing in (score, member) order.
pub open spec fn sorted(v: Seq<(i64, i64)>) -> bool {
    forall|i: int, j: int| 0 <= i < j < v.len() ==> key_lt(#[trigger] v[i], #[trigger] v[j])
}

impl Skiplist {
    closed spec fn node_at(&self, r: int) -> Node {
        self.nodes@[self.order@[r] as int]
    }

    closed spec fn key_at(&self, r: int) -> (i64, i64) {
        (self.node_at(r).score, self.node_at(r).data)
    }

    /// Heights of the nodes, in order.
    pub closed spec fn spec_heights(&self) -> Seq<nat> {
        Seq::new(self.order@.len(), |r: int| self.node_at(r).levels@.len())
    }

    /// Number of levels in use.
    pub closed spec fn spec_level(&self) -> nat {
        self.level as nat
    }

    closed spec fn fwd(&self, p: int, l: int) -> Option<usize> {
        if p == -1 {
            self.level_links@[l]
        } else {
            self.node_at(p).levels@[l]
        }
    }

    closed spec fn spn(&self, p: int, l: int) -> usize {
        if p == -1 {
            self.level_spans@[l]
        } else {
            self.node_at(p).spans@[l]
        }
    }

    closed spec fn target(&self, q: int) -> Option<usize> {
        if q < self.order@.len() {
            Some(self.order@[q])
        } else {
            None
        }
    }

    /// Position `p` has a link on level `l`: the head does on every level in use,
    /// a node on the levels below its height.
    closed spec fn has_level(&self, p: int, l: int) -> bool {
        &&& 0 <= l < self.level
        &&& -1 <= p < self.order@.len()
        &&& (p == -1 || l < self.node_at(p).levels@.len())
    }

    closed spec fn links_ok(&self) -> bool {
        forall|p: int, l: int|
            #[trigger] self.has_level(p, l) ==> self.fwd(p, l) == self.target(next_at(self.spec_heights(), l as nat, p))
                && self.spn(p, l) == next_at(self.spec_heights(), l as nat, p) - p - 1
    }

    /// The arena, the order and the links agree.
    pub closed spec fn wf(&self) -> bool {
        &&& self.level == self.level_links@.len()
        &&& self.level == self.level_spans@.len()
        &&& self.level <= MAX_LEVELS
        &&& self.length == self.order@.len()
        &&& self.nodes@.len() < usize::MAX
        &&& forall|r: int| 0 <= r < self.order@.len() ==> #[trigger] self.order@[r] < self.nodes@.len()
        &&& forall|r1: int, r2: int|
            0 <= r1 < self.order@.len() && 0 <= r2 < self.order@.len() && r1 != r2 ==> #[trigger] self.order@[r1]
                != #[trigger] self.order@[r2]
        &&& forall|r: int|
            0 <= r < self.order@.len() ==> {
                let nd = #[trigger] self.node_at(r);
                &&& nd.levels@.len() == nd.spans@.len()
                &&& 1 <= nd.levels@.len() <= self.level
                &&& nd.backward == (if r == 0 {
                    None
                } else {
                    Some(self.order@[r - 1])
                })
            }
        &&& sorted(self@)
        &&& self.links_ok()
        &&& forall|i: int|
            0 <= i < self.free@.len() ==> #[trigger] self.free@[i] < self.nodes@.len() && forall|r: int|
                0 <= r < self.order@.len() ==> self.order@[r] != self.free@[i]
        &&& forall|i: int, j: int|
            0 <= i < self.free@.len() && 0 <= j < self.free@.len() && i != j ==> #[trigger] self.free@[i]
                != #[trigger] self.free@[j]
    }

    proof fn lemma_view(&self)
        ensures
            self@.len() == self.order@.len(),
            forall|r: int| 0 <= r < self.order@.len() ==> #[trigger] self@[r] == self.key_at(r),
            self.spec_heights().len() == self.order@.len(),
            forall|r: int| 0 <= r < self.order@.len() ==> #[trigger] self.spec_heights()[r] == self.node_at(r).levels@.len(),
    {
    }

    /// The link and span of position `p` on level `l`; `cur` is `None` for the head.
    fn link(&self, cur: Option<usize>, l: usize, Ghost(p): Ghost<int>) -> (r: (Option<usize>, usize))
        requires
            self.wf(),
            self.has_level(p, l as int),
            cur == (if p == -1 {
                None
            } else {
                Some(self.order@[p])
            }),
        ensures
            r.0 == self.fwd(p, l as int),
            r.1 == self.spn(p, l as int),
    {
        match cur {
            None => (self.level_links[l], self.level_spans[l]),
            Some(c) => {
                let nd = &self.nodes[c];
                (nd.levels[l], nd.spans[l])
            },
        }
    }
}

/// On a sorted sequence a cut is a prefix: what precedes a member of it is in it.
pub proof fn lemma_cut_monotone(c: Cut, a: (i64, i64), b: (i64, i64))
    requires
        key_lt(a, b),
        in_cut(c, b),
    ensures
        in_cut(c, a),
{
}

impl Skiplist {
    /// What the descent stops at on level `l`: the last position of the cut among
    /// those with a link on that level, the head if none.
    pub closed spec fn descent_ok(&self, c: Cut, l: int, p: int) -> bool {
        &&& self.has_level(p, l)
        &&& forall|q: int| 0 <= q <= p ==> in_cut(c, #[trigger] self@[q])
        &&& (next_at(self.spec_heights(), l as nat, p) < self.order@.len() ==> !in_cut(
            c,
            self@[next_at(self.spec_heights(), l as nat, p)],
        ))
    }

    /// Walks down from the top level, on each level moving forward while the next
    /// node is in the cut. For each level: the node it stopped at (`None` for the
    /// head) and one more than that node's position.
    #[verifier::rlimit(100)]
    fn descend(&self, c: &Cut) -> (r: (Vec<Option<usize>>, Vec<usize>))
        requires
            self.wf(),
        ensures
            r.0@.len() == self.level,
            r.1@.len() == self.level,
            forall|l: int|
                #![trigger r.1@[l]]
                0 <= l < self.level ==> {
                    let p = r.1@[l] - 1;
                    &&& self.descent_ok(*c, l, p)
                    &&& r.0@[l] == (if p == -1 {
                        None
                    } else {
                        Some(self.order@[p])
                    })
                },
    {
        let ghost hs = self.spec_heights();
        let ghost n = self.order@.len();
        proof {
            self.lemma_view();
        }
        let mut update: Vec<Option<usize>> = Vec::new();
        let mut rank: Vec<usize> = Vec::new();
        let mut i: usize = 0;
        while i < self.level
            invariant
                i <= self.level,
                update@.len() == i,
                rank@.len() == i,
            decreases self.level - i,
        {
            update.push(None);
            rank.push(0);
            i = i + 1;
        }
        let mut cur: Option<usize> = None;
        let mut cur_rank: usize = 0;
        let mut l = self.level;
        while l > 0
            invariant
                self.wf(),
                hs == self.spec_heights(),
                n == self.order@.len(),
                l <= self.level,
                update@.len() == self.level,
                rank@.len() == self.level,
                cur_rank <= n,
                cur == (if cur_rank == 0 {
                    None
                } else {
                    Some(self.order@[cur_rank - 1])
                }),
                cur_rank == 0 || l <= self.node_at(cur_rank - 1).levels@.len(),
                forall|q: int| 0 <= q < cur_rank ==> in_cut(*c, #[trigger] self@[q]),
                forall|l2: int|
                    #![trigger rank@[l2]]
                    l <= l2 < self.level ==> {
                        let p = rank@[l2] - 1;
                        &&& self.descent_ok(*c, l2, p)
                        &&& update@[l2] == (if p == -1 {
                            None
                        } else {
                            Some(self.order@[p])
                        })
                    },
            decreases l,
        {
            l = l - 1;
            let mut go = true;
            while go
                invariant
                    self.wf(),
                    hs == self.spec_heights(),
                    n == self.order@.len(),
                    l < self.level,
                    cur_rank <= n,
                    cur == (if cur_rank == 0 {
                        None
                    } else {
                        Some(self.order@[cur_rank - 1])
                    }),
                    self.has_level(cur_rank - 1, l as int),
                    forall|q: int| 0 <= q < cur_rank ==> in_cut(*c, #[trigger] self@[q]),
                    !go ==> self.descent_ok(*c, l as int, cur_rank - 1),
                decreases n - cur_rank + (if go {
                    1int
                } else {
                    0int
                }),
            {
                let ghost p = cur_rank - 1;
                proof {
                    lemma_next_at_basic(hs, l as nat, p);
                    assert(self.has_level(p, l as int));
                }
                let (nx, sp) = self.link(cur, l, Ghost(p));
                let mut advanced = false;
                if let Some(x) = nx {
                    let ghost q = next_at(hs, l as nat, p);
                    let nd = &self.nodes[x];
                    if in_cut_exec(c, nd.score, nd.data) {
                        proof {
                            assert(self@[q] == self.key_at(q));
                            assert forall|q2: int| 0 <= q2 < q + 1 implies in_cut(*c, #[trigger] self@[q2]) by {
                                if q2 > p && q2 < q {
                                    assert(key_lt(self@[q2], self@[q]));
                                    lemma_cut_monotone(*c, self@[q2], self@[q]);
                                }
                            }
                            assert(self.has_level(q, l as int));
                        }
                        cur = Some(x);
                        cur_rank = cur_rank + sp + 1;
                        advanced = true;
                    }
                }
                if !advanced {
                    go = false;
                    proof {
                        let q = next_at(hs, l as nat, p);
                        if q < n {
                            assert(self@[q] == self.key_at(q));
                        }
                    }
                }
            }
            update.set(l, cur);
            rank.set(l, cur_rank);
        }
        (update, rank)
    }
}

/// When the entries within the bounds are exactly the positions `lo..hi`, the
/// filtered sequence is that slice.
#[verifier::rlimit(100)]
pub proof fn lemma_filter_slice(v: Seq<(i64, i64)>, min: Option<Bound>, max: Option<Bound>, lo: int, hi: int)
    requires
        0 <= lo,
        hi <= v.len(),
        forall|q: int| 0 <= q < v.len() ==> (in_range(#[trigger] v[q].0, min, max) <==> lo <= q < hi),
    ensures
        filter_range(v, min, max) == (if lo < hi {
            v.subrange(lo, hi)
        } else {
            Seq::<(i64, i64)>::empty()
        }),
    decreases v.len(),
{
    if v.len() > 0 {
        let n = v.len() as int;
        let hi2 = if hi < n - 1 { hi } else { n - 1 };
        let lo2 = if lo < n - 1 { lo } else { n - 1 };
        let w = v.drop_last();
        assert forall|q: int| 0 <= q < w.len() implies (in_range(#[trigger] w[q].0, min, max) <==> lo2 <= q < hi2) by {
            assert(w[q] == v[q]);
        }
        lemma_filter_slice(w, min, max, lo2, hi2);
        assert(in_range(v[n - 1].0, min, max) <==> lo <= n - 1 < hi);
        if lo2 < hi2 {
            assert(w.subrange(lo2, hi2) =~= v.subrange(lo2, hi2));
        }
        if lo < hi {
            if hi == n {
                assert(v.subrange(lo, hi) =~= v.subrange(lo, n - 1).push(v.last()));
            }
        }
        assert(filter_range(v, min, max) =~= (if lo < hi {
            v.subrange(lo, hi)
        } else {
            Seq::<(i64, i64)>::empty()
        }));
    }
}

/// `k` is the length of the prefix of `v` that the cut takes.
pub open spec fn is_cut_len(v: Seq<(i64, i64)>, c: Cut, k: int) -> bool {
    &&& 0 <= k <= v.len()
    &&& forall|q: int| 0 <= q < k ==> in_cut(c, #[trigger] v[q])
    &&& forall|q: int| k <= q < v.len() ==> !in_cut(c, #[trigger] v[q])
}

impl Skiplist {
    /// An empty list.
    pub fn new() -> (r: Self)
        ensures
            r.wf(),
            r@ == Seq::<(i64, i64)>::empty(),
            r.spec_level() == 0,
            r.spec_arena_len() == 0,
    {
        let r = Skiplist {
            nodes: Vec::new(),
            free: Vec::new(),
            level_links: Vec::new(),
            level_spans: Vec::new(),
            level: 0,
            length: 0,
            skip_percentage: DEFAULT_SKIP_PERCENTAGE,
            order: Ghost(Seq::empty()),
        };
        proof {
            assert(r@ =~= Seq::<(i64, i64)>::empty());
        }
        r
    }

    /// Number of entries.
    pub fn len(&self) -> (r: usize)
        requires
            self.wf(),
        ensures
            r == self@.len(),
    {
        self.length
    }

    /// The entries of a well-formed list are strictly increasing.
    pub proof fn lemma_sorted(&self)
        requires
            self.wf(),
        ensures
            sorted(self@),
    {
    }

    /// Number of arena slots, in use or free.
    pub fn arena_len(&self) -> (r: usize)
        ensures
            r == self.spec_arena_len(),
    {
        self.nodes.len()
    }

    /// Number of levels in use.
    pub fn level(&self) -> (r: usize)
        ensures
            r == self.spec_level(),
    {
        self.level
    }

    /// The descent's stop on level 0 bounds the cut.
    proof fn lemma_cut_from_descent(&self, c: Cut, p: int)
        requires
            self.wf(),
            self.level > 0,
            self.descent_ok(c, 0, p),
        ensures
            is_cut_len(self@, c, p + 1),
            p + 1 < self.order@.len() ==> next_at(self.spec_heights(), 0, p) == p + 1,
            p + 1 >= self.order@.len() ==> next_at(self.spec_heights(), 0, p) == self.order@.len(),
    {
        self.lemma_view();
        let hs = self.spec_heights();
        let n = self.order@.len() as int;
        if p + 1 < n {
            assert(hs[p + 1] >= 1);
            lemma_next_at_unique(hs, 0, p, p + 1);
            assert forall|q: int| p + 1 <= q < n implies !in_cut(c, #[trigger] self@[q]) by {
                if q > p + 1 && in_cut(c, self@[q]) {
                    lemma_cut_monotone(c, self@[p + 1], self@[q]);
                }
            }
        } else {
            lemma_next_at_unique(hs, 0, p, n);
        }
    }

    /// Length of the prefix that `c` takes, by a descent that adds up spans.
    #[verifier::rlimit(100)]
    fn cut_len(&self, c: &Cut) -> (r: usize)
        requires
            self.wf(),
        ensures
            is_cut_len(self@, *c, r as int),
    {
        if self.level == 0 {
            proof {
                self.lemma_view();
                if self.order@.len() > 0 {
                    assert(self.node_at(0).levels@.len() >= 1);
                }
            }
            return 0;
        }
        let (_update, rank) = self.descend(c);
        proof {
            assert(self.descent_ok(*c, 0, rank@[0] - 1));
            self.lemma_cut_from_descent(*c, rank@[0] - 1);
        }
        rank[0]
    }

    /// Number of entries whose score does not exceed `up`.
    pub fn count_element_upto(&self, up: &Bound) -> (r: usize)
        requires
            self.wf(),
        ensures
            r == count_in_range(self@, None, Some(*up)),
    {
        let c = Cut::Below(*up);
        let r = self.cut_len(&c);
        proof {
            lemma_filter_slice(self@, None, Some(*up), 0, r as int);
        }
        r
    }

    /// Number of entries whose score lies within both bounds.
    #[verifier::rlimit(100)]
    pub fn range_count(&self, min: Option<Bound>, max: Option<Bound>) -> (r: usize)
        requires
            self.wf(),
        ensures
            r == count_in_range(self@, min, max),
    {
        let n = self.length;
        let hi = match max {
            Some(b) => self.cut_len(&Cut::Below(b)),
            None => n,
        };
        let lo = match min {
            Some(b) => self.cut_len(&Cut::Below(b.toggle())),
            None => 0,
        };
        proof {
            self.lemma_view();
            lemma_filter_slice(self@, min, max, lo as int, hi as int);
        }
        if hi >= lo {
            hi - lo
        } else {
            0
        }
    }

    /// Whether `(score, data)` is in the list.
    #[verifier::rlimit(100)]
    pub fn contains(&self, score: i64, data: &i64) -> (r: bool)
        requires
            self.wf(),
        ensures
            r == self@.contains((score, *data)),
    {
        let c = Cut::Before(score, *data);
        proof {
            self.lemma_view();
        }
        if self.level == 0 {
            proof {
                if self.order@.len() > 0 {
                    assert(self.node_at(0).levels@.len() >= 1);
                }
            }
            return false;
        }
        let (update, rank) = self.descend(&c);
        let ghost p = rank@[0] - 1;
        proof {
            assert(self.descent_ok(c, 0, p));
            self.lemma_cut_from_descent(c, p);
        }
        let (nx, _) = self.link(update[0], 0, Ghost(p));
        let r = match nx {
            Some(x) => self.nodes[x].score == score && self.nodes[x].data == *data,
            None => false,
        };
        proof {
            if p + 1 < self.order@.len() {
                assert(self@[p + 1] == self.key_at(p + 1));
            }
            assert forall|q: int| 0 <= q < self@.len() && #[trigger] self@[q] == (score, *data) implies q == p + 1 by {
                assert(!in_cut(c, self@[q]));
                if q > p + 1 {
                    assert(key_lt(self@[p + 1], self@[q]));
                }
            }
        }
        r
    }
}

impl Skiplist {
    /// Sets link and span of node `c` on level `l`; nothing else changes.
    fn set_node_link(&mut self, c: usize, l: usize, to: Option<usize>, span: usize)
        requires
            c < old(self).nodes@.len(),
            l < old(self).nodes@[c as int].levels@.len(),
            l < old(self).nodes@[c as int].spans@.len(),
        ensures
            final(self).nodes@.len() == old(self).nodes@.len(),
            forall|a: int| 0 <= a < old(self).nodes@.len() && a != c ==> #[trigger] final(self).nodes@[a] == old(self).nodes@[a],
            final(self).nodes@[c as int].levels@ == old(self).nodes@[c as int].levels@.update(l as int, to),
            final(self).nodes@[c as int].spans@ == old(self).nodes@[c as int].spans@.update(l as int, span),
            final(self).nodes@[c as int].score == old(self).nodes@[c as int].score,
            final(self).nodes@[c as int].data == old(self).nodes@[c as int].data,
            final(self).nodes@[c as int].backward == old(self).nodes@[c as int].backward,
            final(self).level_links == old(self).level_links,
            final(self).level_spans == old(self).level_spans,
            final(self).level == old(self).level,
            final(self).length == old(self).length,
            final(self).free == old(self).free,
            final(self).order == old(self).order,
    {
        let mut nd = Node { score: 0, data: 0, levels: Vec::new(), spans: Vec::new(), backward: None };
        std::mem::swap(&mut self.nodes[c], &mut nd);
        nd.levels.set(l, to);
        nd.spans.set(l, span);
        std::mem::swap(&mut self.nodes[c], &mut nd);
    }

    /// Sets the backward link of node `c`; nothing else changes.
    fn set_backward(&mut self, c: usize, to: Option<usize>)
        requires
            c < old(self).nodes@.len(),
        ensures
            final(self).nodes@.len() == old(self).nodes@.len(),
            forall|a: int| 0 <= a < old(self).nodes@.len() && a != c ==> #[trigger] final(self).nodes@[a] == old(self).nodes@[a],
            final(self).nodes@[c as int].levels == old(self).nodes@[c as int].levels,
            final(self).nodes@[c as int].spans == old(self).nodes@[c as int].spans,
            final(self).nodes@[c as int].score == old(self).nodes@[c as int].score,
            final(self).nodes@[c as int].data == old(self).nodes@[c as int].data,
            final(self).nodes@[c as int].backward == to,
            final(self).level_links == old(self).level_links,
            final(self).level_spans == old(self).level_spans,
            final(self).level == old(self).level,
            final(self).length == old(self).length,
            final(self).free == old(self).free,
            final(self).order == old(self).order,
    {
        let mut nd = Node { score: 0, data: 0, levels: Vec::new(), spans: Vec::new(), backward: None };
        std::mem::swap(&mut self.nodes[c], &mut nd);
        nd.backward = to;
        std::mem::swap(&mut self.nodes[c], &mut nd);
    }
}

/// The links after an insertion at position `at`: the predecessor of the new
/// node on each of its levels now links to it, and every link that passes over
/// it on a higher level spans one more node.
#[verifier::rlimit(100)]
proof fn lemma_insert_links(mid: Skiplist, new: Skiplist, c: Cut, ps: Seq<int>, at: int, idx: usize, h: nat)
    requires
        mid.wf(),
        1 <= h <= mid.level,
        ps.len() == mid.level,
        forall|l: int| 0 <= l < mid.level ==> mid.descent_ok(c, l, #[trigger] ps[l]),
        is_cut_len(mid@, c, at),
        new.order@ == mid.order@.insert(at, idx),
        new.level == mid.level,
        new.level_links@.len() == mid.level,
        new.level_spans@.len() == mid.level,
        forall|l: int|
            0 <= l < mid.level ==> #[trigger] new.level_links@[l] == (if ps[l] == -1 && l < h {
                Some(idx)
            } else {
                mid.level_links@[l]
            }),
        forall|l: int|
            0 <= l < mid.level ==> #[trigger] new.level_spans@[l] == (if ps[l] == -1 {
                if l < h {
                    at
                } else {
                    mid.level_spans@[l] + 1
                }
            } else {
                mid.level_spans@[l] as int
            }),
        forall|p: int|
            0 <= p < mid.order@.len() ==> (#[trigger] new.nodes@[mid.order@[p] as int]).levels@.len()
                == mid.node_at(p).levels@.len(),
        forall|p: int, l: int|
            0 <= p < mid.order@.len() && 0 <= l < mid.node_at(p).levels@.len() ==> #[trigger] new.nodes@[mid.order@[p] as int].levels@[l]
                == (if p == ps[l] && l < h {
                Some(idx)
            } else {
                mid.node_at(p).levels@[l]
            }),
        forall|p: int, l: int|
            0 <= p < mid.order@.len() && 0 <= l < mid.node_at(p).levels@.len() ==> #[trigger] new.nodes@[mid.order@[p] as int].spans@[l]
                == (if p == ps[l] {
                if l < h {
                    at - p - 1
                } else {
                    mid.node_at(p).spans@[l] + 1
                }
            } else {
                mid.node_at(p).spans@[l] as int
            }),
        new.nodes@[idx as int].levels@.len() == h,
        forall|l: int|
            0 <= l < h ==> #[trigger] new.nodes@[idx as int].levels@[l] == mid.fwd(ps[l], l)
                && new.nodes@[idx as int].spans@[l] == mid.spn(ps[l], l) - (at - 1 - ps[l]),
    ensures
        new.links_ok(),
        new.spec_heights() == mid.spec_heights().insert(at, h),
{
    let hs = mid.spec_heights();
    let hs2 = hs.insert(at, h);
    let n = mid.order@.len() as int;
    mid.lemma_view();
    new.lemma_view();
    assert forall|r: int| 0 <= r < n + 1 implies #[trigger] new.node_at(r) == (if r < at {
        new.nodes@[mid.order@[r] as int]
    } else if r == at {
        new.nodes@[idx as int]
    } else {
        new.nodes@[mid.order@[r - 1] as int]
    }) by {}
    assert(new.spec_heights() =~= hs2);
    // where each descent stopped, relative to the insertion position
    assert forall|l: int| 0 <= l < mid.level implies -1 <= #[trigger] ps[l] < at && next_at(hs, l as nat, ps[l]) >= at by {
        assert(mid.descent_ok(c, l, ps[l]));
        lemma_next_at_basic(hs, l as nat, ps[l]);
        let q = next_at(hs, l as nat, ps[l]);
        if ps[l] >= at {
            assert(in_cut(c, mid@[at]));
        }
        if q < at {
            assert(in_cut(c, mid@[q]));
        }
    }
    assert forall|p: int, l: int| #[trigger] new.has_level(p, l) implies new.fwd(p, l) == new.target(
        next_at(hs2, l as nat, p),
    ) && new.spn(p, l) == next_at(hs2, l as nat, p) - p - 1 by {
        let pl = ps[l];
        let q = next_at(hs, l as nat, pl);
        lemma_next_at_basic(hs, l as nat, pl);
        if p == at {
            // the new node
            lemma_next_at_insert(hs, at, h, l as nat, at - 1);
            if pl < at - 1 {
                lemma_next_at_basic(hs, l as nat, at - 1);
                lemma_next_at_unique(hs, l as nat, at - 1, q);
            }
            assert(mid.has_level(pl, l));
        } else if p > at {
            assert(mid.has_level(p - 1, l));
            lemma_next_at_insert(hs, at, h, l as nat, p - 1);
            lemma_next_at_basic(hs, l as nat, p - 1);
        } else if p == pl {
            assert(mid.has_level(p, l));
            lemma_next_at_insert(hs, at, h, l as nat, p);
        } else {
            assert(mid.has_level(p, l));
            lemma_next_at_insert(hs, at, h, l as nat, p);
            lemma_next_at_basic(hs, l as nat, p);
            if p > pl {
                assert(hs[p] > l);
            }
            let qp = next_at(hs, l as nat, p);
            if qp > pl {
                assert(pl >= 0);
                assert(hs[pl] > l);
            }
        }
    }
}

impl Skiplist {
    /// Number of arena slots, in use or free.
    pub closed spec fn spec_arena_len(&self) -> nat {
        self.nodes@.len()
    }

    /// Adds one level to the head when it has fewer than `level`; the new head
    /// link is empty and spans every node.
    #[verifier::rlimit(100)]
    fn grow_head(&mut self, level: usize, c: Cut, update: &mut Vec<Option<usize>>, rank: &mut Vec<usize>)
        requires
            old(self).wf(),
            level <= MAX_LEVELS,
            old(update)@.len() == old(self).level,
            old(rank)@.len() == old(self).level,
            forall|l: int|
                #![trigger old(rank)@[l]]
                0 <= l < old(self).level ==> {
                    let p = old(rank)@[l] - 1;
                    &&& old(self).descent_ok(c, l, p)
                    &&& old(update)@[l] == (if p == -1 {
                        None
                    } else {
                        Some(old(self).order@[p])
                    })
                },
        ensures
            final(self).wf(),
            final(self).level == (if old(self).level < level {
                level
            } else {
                old(self).level
            }),
            final(self).order == old(self).order,
            final(self).nodes == old(self).nodes,
            final(self).free == old(self).free,
            final(self).length == old(self).length,
            final(self)@ == old(self)@,
            final(self).spec_heights() == old(self).spec_heights(),
            final(update)@.len() == final(self).level,
            final(rank)@.len() == final(self).level,
            forall|l: int|
                #![trigger final(rank)@[l]]
                0 <= l < final(self).level ==> {
                    let p = final(rank)@[l] - 1;
                    &&& final(self).descent_ok(c, l, p)
                    &&& final(update)@[l] == (if p == -1 {
                        None
                    } else {
                        Some(final(self).order@[p])
                    })
                },
    {
        while self.level < level
            invariant
                self.wf(),
                level <= MAX_LEVELS,
                self.order == old(self).order,
                self.nodes == old(self).nodes,
                self.free == old(self).free,
                self.length == old(self).length,
                old(self).level <= self.level,
                self.level == old(self).level || self.level <= level,
                update@.len() == self.level,
                rank@.len() == self.level,
                forall|l: int|
                    #![trigger rank@[l]]
                    0 <= l < self.level ==> {
                        let p = rank@[l] - 1;
                        &&& self.descent_ok(c, l, p)
                        &&& update@[l] == (if p == -1 {
                            None
                        } else {
                            Some(self.order@[p])
                        })
                    },
            decreases level - self.level,
        {
            let ghost prev = *self;
            let ghost hs = self.spec_heights();
            let ghost n = self.order@.len() as int;
            let ghost nl = self.level as int;
            proof {
                self.lemma_view();
                assert forall|q: int| -1 < q < n implies hs[q] <= nl by {
                    assert(self.node_at(q).levels@.len() <= self.level);
                }
                lemma_next_at_unique(hs, nl as nat, -1, n);
            }
            self.level_links.push(None);
            self.level_spans.push(self.length);
            update.push(None);
            rank.push(0);
            self.level = self.level + 1;
            proof {
                assert(self.spec_heights() == hs);
                assert(self@ == prev@);
                assert forall|p: int, l: int| #[trigger] self.has_level(p, l) implies self.fwd(p, l) == self.target(
                    next_at(hs, l as nat, p),
                ) && self.spn(p, l) == next_at(hs, l as nat, p) - p - 1 by {
                    if l < nl {
                        assert(prev.has_level(p, l));
                    } else {
                        if p >= 0 {
                            assert(self.node_at(p).levels@.len() <= nl);
                        }
                    }
                }
                assert(self.links_ok());
                assert(sorted(self@));
                assert forall|r: int| 0 <= r < self.order@.len() implies {
                    let nd = #[trigger] self.node_at(r);
                    &&& nd.levels@.len() == nd.spans@.len()
                    &&& 1 <= nd.levels@.len() <= self.level
                    &&& nd.backward == (if r == 0 {
                        None
                    } else {
                        Some(self.order@[r - 1])
                    })
                } by {
                    assert(self.node_at(r) == prev.node_at(r));
                }
                assert(self.wf());
                assert forall|l: int| #![trigger rank@[l]] 0 <= l < self.level implies {
                    let p = rank@[l] - 1;
                    &&& self.descent_ok(c, l, p)
                    &&& update@[l] == (if p == -1 {
                        None
                    } else {
                        Some(self.order@[p])
                    })
                } by {
                    if l < nl {
                        assert(prev.descent_ok(c, l, rank@[l] - 1));
                    }
                }
            }
        }
    }
}

impl Skiplist {
    /// Links and spans of the node that goes in at `at` with `level` levels: on
    /// each level, where its predecessor linked, less the nodes now before it.
    #[verifier::rlimit(100)]
    fn new_node_links(
        &self,
        update: &Vec<Option<usize>>,
        rank: &Vec<usize>,
        at: usize,
        level: usize,
        Ghost(c): Ghost<Cut>,
        Ghost(ps): Ghost<Seq<int>>,
    ) -> (r: (Vec<Option<usize>>, Vec<usize>))
        requires
            self.wf(),
            level <= self.level,
            update@.len() == self.level,
            rank@.len() == self.level,
            ps.len() == self.level,
            forall|l2: int| 0 <= l2 < self.level ==> #[trigger] ps[l2] == rank@[l2] - 1,
            forall|l2: int|
                #![trigger rank@[l2]]
                0 <= l2 < self.level ==> {
                    let p = rank@[l2] - 1;
                    &&& self.descent_ok(c, l2, p)
                    &&& update@[l2] == (if p == -1 {
                        None
                    } else {
                        Some(self.order@[p])
                    })
                },
            forall|l2: int|
                0 <= l2 < self.level ==> -1 <= #[trigger] ps[l2] < at && next_at(self.spec_heights(), l2 as nat, ps[l2])
                    >= at,
        ensures
            r.0@.len() == level,
            r.1@.len() == level,
            forall|l2: int|
                0 <= l2 < level ==> #[trigger] r.0@[l2] == self.fwd(ps[l2], l2) && r.1@[l2] == self.spn(ps[l2], l2) - (at
                    - 1 - ps[l2]),
    {
        let ghost hs = self.spec_heights();
        let mut levels: Vec<Option<usize>> = Vec::new();
        let mut spans: Vec<usize> = Vec::new();
        let mut l: usize = 0;
        while l < level
            invariant
                self.wf(),
                level <= self.level,
                l <= level,
                levels@.len() == l,
                spans@.len() == l,
                update@.len() == self.level,
                rank@.len() == self.level,
                ps.len() == self.level,
                hs == self.spec_heights(),
                forall|l2: int| 0 <= l2 < self.level ==> #[trigger] ps[l2] == rank@[l2] - 1,
                forall|l2: int|
                    #![trigger rank@[l2]]
                    0 <= l2 < self.level ==> {
                        let p = rank@[l2] - 1;
                        &&& self.descent_ok(c, l2, p)
                        &&& update@[l2] == (if p == -1 {
                            None
                        } else {
                            Some(self.order@[p])
                        })
                    },
                forall|l2: int| 0 <= l2 < self.level ==> -1 <= #[trigger] ps[l2] < at && next_at(hs, l2 as nat, ps[l2]) >= at,
                forall|l2: int|
                    0 <= l2 < l ==> #[trigger] levels@[l2] == self.fwd(ps[l2], l2) && spans@[l2] == self.spn(ps[l2], l2) - (at
                        - 1 - ps[l2]),
            decreases level - l,
        {
            let ghost pl = ps[l as int];
            proof {
                assert(self.descent_ok(c, l as int, rank@[l as int] - 1));
                assert(self.has_level(pl, l as int));
            }
            let (nx, sp) = self.link(update[l], l, Ghost(pl));
            levels.push(nx);
            spans.push(sp - (at - rank[l]));
            l = l + 1;
        }
        (levels, spans)
    }

    /// Points the predecessor of the new node on each of its levels at it, and
    /// adds one to the span of each higher link that passes over it.
    #[verifier::rlimit(100)]
    fn link_predecessors(
        &mut self,
        update: &Vec<Option<usize>>,
        rank: &Vec<usize>,
        at: usize,
        idx: usize,
        level: usize,
        Ghost(ps): Ghost<Seq<int>>,
    )
        requires
            old(self).wf(),
            level <= old(self).level,
            old(self).order@.len() + 1 < usize::MAX,
            update@.len() == old(self).level,
            rank@.len() == old(self).level,
            ps.len() == old(self).level,
            forall|l2: int| 0 <= l2 < old(self).level ==> #[trigger] ps[l2] == rank@[l2] - 1,
            forall|l2: int|
                #![trigger rank@[l2]]
                0 <= l2 < old(self).level ==> {
                    let p = rank@[l2] - 1;
                    &&& old(self).has_level(p, l2)
                    &&& update@[l2] == (if p == -1 {
                        None
                    } else {
                        Some(old(self).order@[p])
                    })
                },
            forall|l2: int|
                0 <= l2 < old(self).level ==> -1 <= #[trigger] ps[l2] < at && next_at(old(self).spec_heights(), l2 as nat, ps[l2])
                    >= at,
        ensures
            final(self).level == old(self).level,
            final(self).order == old(self).order,
            final(self).free == old(self).free,
            final(self).length == old(self).length,
            final(self).nodes@.len() == old(self).nodes@.len(),
            final(self).level_links@.len() == old(self).level,
            final(self).level_spans@.len() == old(self).level,
            forall|p: int|
                0 <= p < old(self).order@.len() ==> {
                    let a = #[trigger] old(self).order@[p] as int;
                    &&& final(self).nodes@[a].levels@.len() == old(self).nodes@[a].levels@.len()
                    &&& final(self).nodes@[a].spans@.len() == old(self).nodes@[a].spans@.len()
                    &&& final(self).nodes@[a].score == old(self).nodes@[a].score
                    &&& final(self).nodes@[a].data == old(self).nodes@[a].data
                    &&& final(self).nodes@[a].backward == old(self).nodes@[a].backward
                },
            forall|p: int, l2: int|
                0 <= p < old(self).order@.len() && 0 <= l2 < old(self).node_at(p).levels@.len()
                    ==> #[trigger] final(self).nodes@[old(self).order@[p] as int].levels@[l2] == (if l2 < old(self).level && p
                    == ps[l2] && l2 < level {
                    Some(idx)
                } else {
                    old(self).node_at(p).levels@[l2]
                }),
            forall|p: int, l2: int|
                0 <= p < old(self).order@.len() && 0 <= l2 < old(self).node_at(p).levels@.len()
                    ==> #[trigger] final(self).nodes@[old(self).order@[p] as int].spans@[l2] == (if l2 < old(self).level && p
                    == ps[l2] {
                    if l2 < level {
                        at - p - 1
                    } else {
                        old(self).node_at(p).spans@[l2] + 1
                    }
                } else {
                    old(self).node_at(p).spans@[l2] as int
                }),
            forall|l2: int|
                0 <= l2 < old(self).level ==> #[trigger] final(self).level_links@[l2] == (if l2 < old(self).level && ps[l2]
                    == -1 && l2 < level {
                    Some(idx)
                } else {
                    old(self).level_links@[l2]
                }),
            forall|l2: int|
                0 <= l2 < old(self).level ==> #[trigger] final(self).level_spans@[l2] == (if l2 < old(self).level && ps[l2]
                    == -1 {
                    if l2 < level {
                        at as int
                    } else {
                        old(self).level_spans@[l2] + 1
                    }
                } else {
                    old(self).level_spans@[l2] as int
                }),
    {
        let ghost mid = *self;
        let ghost hs = self.spec_heights();
        let ghost n = self.order@.len() as int;
        let mut l: usize = 0;
        while l < self.level
            invariant
                mid.wf(),
                level <= mid.level,
                l <= mid.level,
                self.level == mid.level,
                self.order == mid.order,
                self.free == mid.free,
                self.length == mid.length,
                self.nodes@.len() == mid.nodes@.len(),
                self.level_links@.len() == mid.level,
                self.level_spans@.len() == mid.level,
                update@.len() == mid.level,
                rank@.len() == mid.level,
                ps.len() == mid.level,
                hs == mid.spec_heights(),
                n == mid.order@.len(),
                n + 1 < usize::MAX,
                forall|l2: int| 0 <= l2 < mid.level ==> #[trigger] ps[l2] == rank@[l2] - 1,
                forall|l2: int|
                    #![trigger rank@[l2]]
                    0 <= l2 < mid.level ==> {
                        let p = rank@[l2] - 1;
                        &&& mid.has_level(p, l2)
                        &&& update@[l2] == (if p == -1 {
                            None
                        } else {
                            Some(mid.order@[p])
                        })
                    },
                forall|l2: int| 0 <= l2 < mid.level ==> -1 <= #[trigger] ps[l2] < at && next_at(hs, l2 as nat, ps[l2]) >= at,
                forall|p: int|
                    0 <= p < n ==> {
                        let a = #[trigger] mid.order@[p] as int;
                        &&& self.nodes@[a].levels@.len() == mid.nodes@[a].levels@.len()
                        &&& self.nodes@[a].spans@.len() == mid.nodes@[a].spans@.len()
                        &&& self.nodes@[a].score == mid.nodes@[a].score
                        &&& self.nodes@[a].data == mid.nodes@[a].data
                        &&& self.nodes@[a].backward == mid.nodes@[a].backward
                    },
                forall|p: int, l2: int|
                    0 <= p < n && 0 <= l2 < mid.node_at(p).levels@.len() ==> #[trigger] self.nodes@[mid.order@[p] as int].levels@[l2]
                        == (if l2 < l && p == ps[l2] && l2 < level {
                        Some(idx)
                    } else {
                        mid.node_at(p).levels@[l2]
                    }),
                forall|p: int, l2: int|
                    0 <= p < n && 0 <= l2 < mid.node_at(p).levels@.len() ==> #[trigger] self.nodes@[mid.order@[p] as int].spans@[l2]
                        == (if l2 < l && p == ps[l2] {
                        if l2 < level {
                            at - p - 1
                        } else {
                            mid.node_at(p).spans@[l2] + 1
                        }
                    } else {
                        mid.node_at(p).spans@[l2] as int
                    }),
                forall|l2: int|
                    0 <= l2 < mid.level ==> #[trigger] self.level_links@[l2] == (if l2 < l && ps[l2] == -1 && l2 < level {
                        Some(idx)
                    } else {
                        mid.level_links@[l2]
                    }),
                forall|l2: int|
                    0 <= l2 < mid.level ==> #[trigger] self.level_spans@[l2] == (if l2 < l && ps[l2] == -1 {
                        if l2 < level {
                            at as int
                        } else {
                            mid.level_spans@[l2] + 1
                        }
                    } else {
                        mid.level_spans@[l2] as int
                    }),
            decreases mid.level - l,
        {
            let ghost pl = ps[l as int];
            let ghost prev = *self;
            proof {
                assert(mid.has_level(pl, l as int));
                lemma_next_at_basic(hs, l as nat, pl);
            }
            match update[l] {
                None => {
                    if l < level {
                        self.level_links.set(l, Some(idx));
                        self.level_spans.set(l, at - rank[l]);
                    } else {
                        let sp = self.level_spans[l];
                        self.level_spans.set(l, sp + 1);
                    }
                },
                Some(u) => {
                    proof {
                        assert(u == mid.order@[pl]);
                        assert(mid.node_at(pl).levels@.len() == mid.node_at(pl).spans@.len());
                    }
                    if l < level {
                        self.set_node_link(u, l, Some(idx), at - rank[l]);
                    } else {
                        let lk = self.nodes[u].levels[l];
                        let sp = self.nodes[u].spans[l];
                        self.set_node_link(u, l, lk, sp + 1);
                    }
                    proof {
                        assert forall|p: int| 0 <= p < n && p != pl implies #[trigger] mid.order@[p] != u by {}
                    }
                },
            }
            l = l + 1;
        }
    }

    /// Where `(score, data)` goes: the descent towards it and its position, or
    /// `None` when it is already present.
    #[verifier::rlimit(100)]
    fn insert_position(&self, score: i64, data: i64) -> (r: Option<(Vec<Option<usize>>, Vec<usize>, usize)>)
        requires
            self.wf(),
        ensures
            r is None <==> self@.contains((score, data)),
            r is Some ==> {
                let (update, rank, at) = r->Some_0;
                &&& update@.len() == self.level
                &&& rank@.len() == self.level
                &&& is_cut_len(self@, Cut::Before(score, data), at as int)
                &&& forall|l: int|
                    #![trigger rank@[l]]
                    0 <= l < self.level ==> {
                        let p = rank@[l] - 1;
                        &&& self.descent_ok(Cut::Before(score, data), l, p)
                        &&& update@[l] == (if p == -1 {
                            None
                        } else {
                            Some(self.order@[p])
                        })
                    }
            },
    {
        let c = Cut::Before(score, data);
        proof {
            self.lemma_view();
        }
        let mut update: Vec<Option<usize>> = Vec::new();
        let mut rank: Vec<usize> = Vec::new();
        if self.level > 0 {
            let (u, rk) = self.descend(&c);
            update = u;
            rank = rk;
            let ghost p = rank@[0] - 1;
            proof {
                assert(self.descent_ok(c, 0, p));
                self.lemma_cut_from_descent(c, p);
            }
            let (nx, _) = self.link(update[0], 0, Ghost(p));
            if let Some(x) = nx {
                if self.nodes[x].score == score && self.nodes[x].data == data {
                    proof {
                        assert(self@[p + 1] == self.key_at(p + 1));
                    }
                    return None;
                }
            }
            proof {
                if p + 1 < self.order@.len() {
                    assert(self@[p + 1] == self.key_at(p + 1));
                }
                if self@.contains((score, data)) {
                    let q = choose|q: int| 0 <= q < self@.len() && self@[q] == (score, data);
                    assert(!in_cut(c, self@[q]));
                    if q > p + 1 {
                        assert(key_lt(self@[p + 1], self@[q]));
                    }
                }
            }
        } else {
            proof {
                if self.order@.len() > 0 {
                    assert(self.node_at(0).levels@.len() >= 1);
                }
            }
        }
        let ghost old_level = self.level;
        let at: usize = if self.level > 0 {
            rank[0]
        } else {
            0
        };
        proof {
            if old_level > 0 {
                assert(self.descent_ok(c, 0, rank@[0] - 1));
                self.lemma_cut_from_descent(c, rank@[0] - 1);
            }
            assert(is_cut_len(self@, c, at as int));
            assert(!self@.contains((score, data)));
        }
        Some((update, rank, at))
    }

    /// Inserts `(score, data)` with a node of `level` levels, returning the node's
    /// arena index, or `None`, changing nothing, when the pair is already present.
    #[verifier::rlimit(100)]
    pub fn do_insert(&mut self, data: i64, score: i64, level: usize) -> (r: Option<usize>)
        requires
            old(self).wf(),
            1 <= level <= MAX_LEVELS,
            old(self)@.len() + 1 < usize::MAX,
            old(self).spec_arena_len() + 1 < usize::MAX,
        ensures
            final(self).wf(),
            old(self)@.contains((score, data)) ==> r is None && final(self)@ == old(self)@
                && final(self).spec_heights() == old(self).spec_heights() && final(self).spec_level() == old(self).spec_level(),
            !old(self)@.contains((score, data)) ==> r is Some && final(self).spec_level() == (if old(self).spec_level() < level {
                level as nat
            } else {
                old(self).spec_level()
            }) && final(self)@ == old(self)@.insert(count_before(old(self)@, (score, data)) as int, (score, data))
                && final(self).spec_heights() == old(self).spec_heights().insert(
                count_before(old(self)@, (score, data)) as int,
                level as nat,
            ),
            final(self).spec_arena_len() <= old(self).spec_arena_len() + 1,
    {
        let c = Cut::Before(score, data);
        proof {
            self.lemma_view();
        }
        let (mut update, mut rank, at) = match self.insert_position(score, data) {
            Some(x) => x,
            None => return None,
        };
        self.grow_head(level, c, &mut update, &mut rank);
        let ghost grown = *self;
        let idx: usize = if self.free.len() > 0 {
            let f = self.free.pop().unwrap();
            proof {
                assert(f == grown.free@[grown.free@.len() - 1]);
                assert forall|i: int| 0 <= i < self.free@.len() implies #[trigger] self.free@[i] != f by {
                    assert(self.free@[i] == grown.free@[i]);
                }
            }
            f
        } else {
            self.nodes.len()
        };
        let ghost mid = *self;
        let ghost ps = Seq::new(self.level as nat, |l: int| rank@[l] - 1);
        let ghost hs = self.spec_heights();
        let ghost n = self.order@.len() as int;
        proof {
            assert(mid.wf()) by {
                assert forall|i: int| 0 <= i < mid.free@.len() implies #[trigger] mid.free@[i] < mid.nodes@.len() && forall|r: int|
                    0 <= r < mid.order@.len() ==> mid.order@[r] != mid.free@[i] by {
                    assert(mid.free@[i] == grown.free@[i]);
                }
                assert forall|i: int, j: int|
                    0 <= i < mid.free@.len() && 0 <= j < mid.free@.len() && i != j implies #[trigger] mid.free@[i]
                        != #[trigger] mid.free@[j] by {
                    assert(mid.free@[i] == grown.free@[i]);
                    assert(mid.free@[j] == grown.free@[j]);
                }
                lemma_same_links(mid, grown);
                assert(grown.wf());
                assert(mid.links_ok());
                assert(sorted(mid@));
                assert(mid.level == mid.level_links@.len());
                assert(mid.nodes@.len() < usize::MAX);
                assert(forall|r: int| 0 <= r < mid.order@.len() ==> #[trigger] mid.order@[r] < mid.nodes@.len());
                assert(forall|r: int|
                    0 <= r < mid.order@.len() ==> {
                        let nd = #[trigger] mid.node_at(r);
                        &&& nd.levels@.len() == nd.spans@.len()
                        &&& 1 <= nd.levels@.len() <= mid.level
                        &&& nd.backward == (if r == 0 {
                            None
                        } else {
                            Some(mid.order@[r - 1])
                        })
                    });
            }
            assert forall|r: int| 0 <= r < n implies #[trigger] self.order@[r] != idx by {
                if grown.free@.len() > 0 {
                    assert(idx == grown.free@[grown.free@.len() - 1]);
                }
            }
            assert forall|l: int| 0 <= l < mid.level implies mid.descent_ok(c, l, #[trigger] ps[l]) && -1 <= ps[l] < at
                && next_at(hs, l as nat, ps[l]) >= at by {
                assert(grown.descent_ok(c, l, rank@[l] - 1));
                lemma_same_links(mid, grown);
                lemma_next_at_basic(hs, l as nat, ps[l]);
                let q = next_at(hs, l as nat, ps[l]);
                if ps[l] >= at {
                    assert(in_cut(c, mid@[at as int]));
                }
                if q < at {
                    assert(in_cut(c, mid@[q]));
                }
            }
        }
        proof {
            lemma_same_links(mid, grown);
            assert forall|l2: int|
                #![trigger rank@[l2]]
                0 <= l2 < mid.level implies {
                    let p = rank@[l2] - 1;
                    &&& mid.descent_ok(c, l2, p)
                    &&& update@[l2] == (if p == -1 {
                        None
                    } else {
                        Some(mid.order@[p])
                    })
                } by {
                assert(grown.descent_ok(c, l2, rank@[l2] - 1));
            }
        }
        let (levels, spans) = self.new_node_links(&update, &rank, at, level, Ghost(c), Ghost(ps));
        self.link_predecessors(&update, &rank, at, idx, level, Ghost(ps));
        let backward = update[0];
        let succ = levels[0];
        let node = Node { score, data, levels, spans, backward };
        if idx == self.nodes.len() {
            self.nodes.push(node);
        } else {
            self.nodes.set(idx, node);
        }
        if let Some(x) = succ {
            proof {
                assert(mid.has_level(ps[0], 0));
                assert(x == mid.order@[next_at(hs, 0, ps[0])]);
            }
            self.set_backward(x, Some(idx));
        }
        self.length = self.length + 1;
        proof {
            self.order = Ghost(mid.order@.insert(at as int, idx));
            self.lemma_insert_done(mid, c, ps, at as int, idx, level as nat);
            lemma_same_links(mid, grown);
            lemma_count_before(old(self)@, (score, data), at as int);
        }
        Some(idx)
    }
}

impl Skiplist {
    /// The state that `do_insert` builds is well formed and holds the new pair at `at`.
    #[verifier::rlimit(100)]
    proof fn lemma_insert_done(&self, mid: Skiplist, c: Cut, ps: Seq<int>, at: int, idx: usize, h: nat)
        requires
            mid.wf(),
            c == Cut::Before(self.nodes@[idx as int].score, self.nodes@[idx as int].data),
            1 <= h <= mid.level,
            ps.len() == mid.level,
            forall|l: int| 0 <= l < mid.level ==> mid.descent_ok(c, l, #[trigger] ps[l]),
            forall|l: int| 0 <= l < mid.level ==> -1 <= #[trigger] ps[l] < at,
            is_cut_len(mid@, c, at),
            !mid@.contains((self.nodes@[idx as int].score, self.nodes@[idx as int].data)),
            forall|r: int| 0 <= r < mid.order@.len() ==> #[trigger] mid.order@[r] != idx,
            forall|i: int| 0 <= i < mid.free@.len() ==> #[trigger] mid.free@[i] != idx,
            idx <= mid.nodes@.len(),
            self.nodes@.len() == (if idx == mid.nodes@.len() {
                mid.nodes@.len() + 1
            } else {
                mid.nodes@.len() + 0
            }),
            mid.nodes@.len() + 1 < usize::MAX,
            self.order@ == mid.order@.insert(at, idx),
            self.level == mid.level,
            self.length == mid.length + 1,
            self.free == mid.free,
            self.level_links@.len() == mid.level,
            self.level_spans@.len() == mid.level,
            forall|l: int|
                0 <= l < mid.level ==> #[trigger] self.level_links@[l] == (if l < mid.level && ps[l] == -1 && l < h {
                    Some(idx)
                } else {
                    mid.level_links@[l]
                }),
            forall|l: int|
                0 <= l < mid.level ==> #[trigger] self.level_spans@[l] == (if l < mid.level && ps[l] == -1 {
                    if l < h {
                        at
                    } else {
                        mid.level_spans@[l] + 1
                    }
                } else {
                    mid.level_spans@[l] as int
                }),
            forall|p: int|
                0 <= p < mid.order@.len() ==> {
                    let a = #[trigger] mid.order@[p] as int;
                    &&& self.nodes@[a].levels@.len() == mid.nodes@[a].levels@.len()
                    &&& self.nodes@[a].spans@.len() == mid.nodes@[a].spans@.len()
                    &&& self.nodes@[a].score == mid.nodes@[a].score
                    &&& self.nodes@[a].data == mid.nodes@[a].data
                    &&& self.nodes@[a].backward == (if p == at {
                        Some(idx)
                    } else {
                        mid.nodes@[a].backward
                    })
                },
            forall|p: int, l: int|
                0 <= p < mid.order@.len() && 0 <= l < mid.node_at(p).levels@.len() ==> #[trigger] self.nodes@[mid.order@[p] as int].levels@[l]
                    == (if l < mid.level && p == ps[l] && l < h {
                    Some(idx)
                } else {
                    mid.node_at(p).levels@[l]
                }),
            forall|p: int, l: int|
                0 <= p < mid.order@.len() && 0 <= l < mid.node_at(p).levels@.len() ==> #[trigger] self.nodes@[mid.order@[p] as int].spans@[l]
                    == (if l < mid.level && p == ps[l] {
                    if l < h {
                        at - p - 1
                    } else {
                        mid.node_at(p).spans@[l] + 1
                    }
                } else {
                    mid.node_at(p).spans@[l] as int
                }),
            self.nodes@[idx as int].levels@.len() == h,
            self.nodes@[idx as int].spans@.len() == h,
            self.nodes@[idx as int].backward == (if at == 0 {
                None
            } else {
                Some(mid.order@[at - 1])
            }),
            forall|l: int|
                0 <= l < h ==> #[trigger] self.nodes@[idx as int].levels@[l] == mid.fwd(ps[l], l)
                    && self.nodes@[idx as int].spans@[l] == mid.spn(ps[l], l) - (at - 1 - ps[l]),
        ensures
            self.wf(),
            self@ == mid@.insert(at, (self.nodes@[idx as int].score, self.nodes@[idx as int].data)),
            self.spec_heights() == mid.spec_heights().insert(at, h),
    {
        let n = mid.order@.len() as int;
        let key = (self.nodes@[idx as int].score, self.nodes@[idx as int].data);
        mid.lemma_view();
        self.lemma_view();
        assert forall|p: int| 0 <= p < n implies (#[trigger] mid.node_at(p)).levels@.len() <= mid.level by {}
        lemma_insert_links(mid, *self, c, ps, at, idx, h);
        assert forall|r: int| 0 <= r < n + 1 implies #[trigger] self.key_at(r) == (if r < at {
            mid.key_at(r)
        } else if r == at {
            key
        } else {
            mid.key_at(r - 1)
        }) by {}
        assert(self@ =~= mid@.insert(at, key));
        // order
        assert forall|r1: int, r2: int|
            0 <= r1 < self.order@.len() && 0 <= r2 < self.order@.len() && r1 != r2 implies #[trigger] self.order@[r1]
                != #[trigger] self.order@[r2] by {
            if r1 != at && r2 != at {
                let a = if r1 < at { r1 } else { r1 - 1 };
                let b = if r2 < at { r2 } else { r2 - 1 };
                assert(mid.order@[a] != mid.order@[b]);
            } else if r1 == at {
                let b = if r2 < at { r2 } else { r2 - 1 };
                assert(mid.order@[b] != idx);
            } else {
                let a = if r1 < at { r1 } else { r1 - 1 };
                assert(mid.order@[a] != idx);
            }
        }
        // node shape and backward links
        assert forall|r: int| 0 <= r < self.order@.len() implies {
            let nd = #[trigger] self.node_at(r);
            &&& nd.levels@.len() == nd.spans@.len()
            &&& 1 <= nd.levels@.len() <= self.level
            &&& nd.backward == (if r == 0 {
                None
            } else {
                Some(self.order@[r - 1])
            })
        } by {
            if r < at {
                assert(mid.node_at(r).levels@.len() >= 1);
            } else if r > at {
                assert(mid.node_at(r - 1).levels@.len() >= 1);
            }
        }
        // order of keys
        assert forall|i: int, j: int| 0 <= i < j < self@.len() implies key_lt(#[trigger] self@[i], #[trigger] self@[j]) by {
            if i < at && j < at {
                assert(key_lt(mid@[i], mid@[j]));
            } else if i > at && j > at {
                assert(key_lt(mid@[i - 1], mid@[j - 1]));
            } else if i < at && j > at {
                assert(key_lt(mid@[i], mid@[j - 1]));
            } else if i == at {
                assert(!in_cut(c, mid@[j - 1]));
                assert(mid@[j - 1] != key);
            } else {
                assert(in_cut(c, mid@[i]));
            }
        }
        // free slots
        assert forall|i: int|
            0 <= i < self.free@.len() implies #[trigger] self.free@[i] < self.nodes@.len() && forall|r: int|
                0 <= r < self.order@.len() ==> self.order@[r] != self.free@[i] by {
            assert forall|r: int| 0 <= r < self.order@.len() implies self.order@[r] != self.free@[i] by {
                if r < at {
                    assert(mid.order@[r] != mid.free@[i]);
                } else if r > at {
                    assert(mid.order@[r - 1] != mid.free@[i]);
                }
            }
        }
        assert forall|r: int| 0 <= r < self.order@.len() implies #[trigger] self.order@[r] < self.nodes@.len() by {
            if r < at {
                assert(mid.order@[r] < mid.nodes@.len());
            } else if r > at {
                assert(mid.order@[r - 1] < mid.nodes@.len());
            }
        }
    }
}

/// Two lists that differ only in their free slots have the same links, entries
/// and descents.
#[verifier::rlimit(100)]
proof fn lemma_same_links(a: Skiplist, b: Skiplist)
    requires
        a.nodes == b.nodes,
        a.order == b.order,
        a.level == b.level,
        a.level_links == b.level_links,
        a.level_spans == b.level_spans,
        a.length == b.length,
    ensures
        a.links_ok() == b.links_ok(),
        a@ == b@,
        a.spec_heights() == b.spec_heights(),
        forall|c: Cut, l: int, p: int| #[trigger] a.descent_ok(c, l, p) == b.descent_ok(c, l, p),
        forall|r: int| #[trigger] a.node_at(r) == b.node_at(r),
{
    assert(a@ =~= b@);
    assert(a.spec_heights() =~= b.spec_heights());
    assert forall|p: int, l: int| #[trigger] a.has_level(p, l) == b.has_level(p, l) by {}
    if a.links_ok() {
        assert forall|p: int, l: int| #[trigger] b.has_level(p, l) implies b.fwd(p, l) == b.target(
            next_at(b.spec_heights(), l as nat, p),
        ) && b.spn(p, l) == next_at(b.spec_heights(), l as nat, p) - p - 1 by {
            assert(a.has_level(p, l));
        }
    }
    if b.links_ok() {
        assert forall|p: int, l: int| #[trigger] a.has_level(p, l) implies a.fwd(p, l) == a.target(
            next_at(a.spec_heights(), l as nat, p),
        ) && a.spn(p, l) == next_at(a.spec_heights(), l as nat, p) - p - 1 by {
            assert(b.has_level(p, l));
        }
    }
}

/// The links after removing the node at position `at`: its predecessor on each
/// of its levels takes over its link and its span, and every link that passed
/// over it on a higher level spans one node less.
#[verifier::rlimit(100)]
proof fn lemma_remove_links(mid: Skiplist, new: Skiplist, c: Cut, ps: Seq<int>, at: int)
    requires
        mid.wf(),
        0 <= at < mid.order@.len(),
        ps.len() == mid.level,
        forall|l: int| 0 <= l < mid.level ==> mid.descent_ok(c, l, #[trigger] ps[l]),
        forall|l: int| 0 <= l < mid.level ==> -1 <= #[trigger] ps[l] < at && next_at(mid.spec_heights(), l as nat, ps[l]) >= at,
        new.order@ == mid.order@.remove(at),
        new.level == mid.level,
        new.level_links@.len() == mid.level,
        new.level_spans@.len() == mid.level,
        forall|l: int|
            0 <= l < mid.level ==> #[trigger] new.level_links@[l] == (if ps[l] == -1 && l < mid.node_at(at).levels@.len() {
                mid.node_at(at).levels@[l]
            } else {
                mid.level_links@[l]
            }),
        forall|l: int|
            0 <= l < mid.level ==> #[trigger] new.level_spans@[l] == (if ps[l] == -1 {
                if l < mid.node_at(at).levels@.len() {
                    mid.level_spans@[l] + mid.node_at(at).spans@[l]
                } else {
                    mid.level_spans@[l] - 1
                }
            } else {
                mid.level_spans@[l] as int
            }),
        forall|p: int|
            0 <= p < mid.order@.len() && p != at ==> (#[trigger] new.nodes@[mid.order@[p] as int]).levels@.len()
                == mid.node_at(p).levels@.len(),
        forall|p: int, l: int|
            0 <= p < mid.order@.len() && p != at && 0 <= l < mid.node_at(p).levels@.len()
                ==> #[trigger] new.nodes@[mid.order@[p] as int].levels@[l] == (if p == ps[l] && l < mid.node_at(at).levels@.len() {
                mid.node_at(at).levels@[l]
            } else {
                mid.node_at(p).levels@[l]
            }),
        forall|p: int, l: int|
            0 <= p < mid.order@.len() && p != at && 0 <= l < mid.node_at(p).levels@.len()
                ==> #[trigger] new.nodes@[mid.order@[p] as int].spans@[l] == (if p == ps[l] {
                if l < mid.node_at(at).levels@.len() {
                    mid.node_at(p).spans@[l] + mid.node_at(at).spans@[l]
                } else {
                    mid.node_at(p).spans@[l] - 1
                }
            } else {
                mid.node_at(p).spans@[l] as int
            }),
    ensures
        new.links_ok(),
        new.spec_heights() == mid.spec_heights().remove(at),
{
    let hs = mid.spec_heights();
    let hs2 = hs.remove(at);
    let n = mid.order@.len() as int;
    let h = mid.node_at(at).levels@.len();
    mid.lemma_view();
    new.lemma_view();
    assert forall|r: int| 0 <= r < n - 1 implies #[trigger] new.node_at(r) == (if r < at {
        new.nodes@[mid.order@[r] as int]
    } else {
        new.nodes@[mid.order@[r + 1] as int]
    }) by {}
    assert(new.spec_heights() =~= hs2);
    assert forall|p: int, l: int| #[trigger] new.has_level(p, l) implies new.fwd(p, l) == new.target(
        next_at(hs2, l as nat, p),
    ) && new.spn(p, l) == next_at(hs2, l as nat, p) - p - 1 by {
        let pl = ps[l];
        let q = next_at(hs, l as nat, pl);
        lemma_next_at_basic(hs, l as nat, pl);
        assert(mid.has_level(pl, l));
        if p >= at {
            assert(mid.has_level(p + 1, l));
            lemma_next_at_remove(hs, at, l as nat, p + 1);
            lemma_next_at_basic(hs, l as nat, p + 1);
        } else if p == pl {
            lemma_next_at_remove(hs, at, l as nat, p);
            if l < h {
                assert(hs[at] > l);
                assert(q == at);
                assert(mid.has_level(at, l));
                lemma_next_at_basic(hs, l as nat, at);
            } else {
                assert(q != at);
            }
        } else {
            assert(mid.has_level(p, l));
            lemma_next_at_remove(hs, at, l as nat, p);
            lemma_next_at_basic(hs, l as nat, p);
            if p > pl {
                assert(hs[p] > l);
            }
            let qp = next_at(hs, l as nat, p);
            if qp > pl {
                assert(pl >= 0);
                assert(hs[pl] > l);
            }
        }
    }
}

impl Skiplist {
    /// Hands the links of the node at `at` (arena index `x`) to its predecessors
    /// on its levels, and takes one from the span of each higher link over it.
    #[verifier::rlimit(100)]
    fn unlink_predecessors(
        &mut self,
        update: &Vec<Option<usize>>,
        rank: &Vec<usize>,
        x: usize,
        at: usize,
        Ghost(ps): Ghost<Seq<int>>,
    )
        requires
            old(self).wf(),
            at < old(self).order@.len(),
            x == old(self).order@[at as int],
            update@.len() == old(self).level,
            rank@.len() == old(self).level,
            ps.len() == old(self).level,
            forall|l2: int| 0 <= l2 < old(self).level ==> #[trigger] ps[l2] == rank@[l2] - 1,
            forall|l2: int|
                #![trigger rank@[l2]]
                0 <= l2 < old(self).level ==> {
                    let p = rank@[l2] - 1;
                    &&& old(self).has_level(p, l2)
                    &&& update@[l2] == (if p == -1 {
                        None
                    } else {
                        Some(old(self).order@[p])
                    })
                },
            forall|l2: int|
                0 <= l2 < old(self).level ==> -1 <= #[trigger] ps[l2] < at && next_at(old(self).spec_heights(), l2 as nat, ps[l2])
                    >= at,
        ensures
            final(self).level == old(self).level,
            final(self).order == old(self).order,
            final(self).free == old(self).free,
            final(self).length == old(self).length,
            final(self).nodes@.len() == old(self).nodes@.len(),
            final(self).nodes@[x as int] == old(self).nodes@[x as int],
            final(self).level_links@.len() == old(self).level,
            final(self).level_spans@.len() == old(self).level,
            forall|p: int|
                0 <= p < old(self).order@.len() ==> {
                    let a = #[trigger] old(self).order@[p] as int;
                    &&& final(self).nodes@[a].levels@.len() == old(self).nodes@[a].levels@.len()
                    &&& final(self).nodes@[a].spans@.len() == old(self).nodes@[a].spans@.len()
                    &&& final(self).nodes@[a].score == old(self).nodes@[a].score
                    &&& final(self).nodes@[a].data == old(self).nodes@[a].data
                    &&& final(self).nodes@[a].backward == old(self).nodes@[a].backward
                },
            forall|p: int, l: int|
                0 <= p < old(self).order@.len() && p != at && 0 <= l < old(self).node_at(p).levels@.len()
                    ==> #[trigger] final(self).nodes@[old(self).order@[p] as int].levels@[l] == (if p == ps[l] && l < old(
                    self,
                ).node_at(at as int).levels@.len() {
                    old(self).node_at(at as int).levels@[l]
                } else {
                    old(self).node_at(p).levels@[l]
                }),
            forall|p: int, l: int|
                0 <= p < old(self).order@.len() && p != at && 0 <= l < old(self).node_at(p).levels@.len()
                    ==> #[trigger] final(self).nodes@[old(self).order@[p] as int].spans@[l] == (if p == ps[l] {
                    if l < old(self).node_at(at as int).levels@.len() {
                        old(self).node_at(p).spans@[l] + old(self).node_at(at as int).spans@[l]
                    } else {
                        old(self).node_at(p).spans@[l] - 1
                    }
                } else {
                    old(self).node_at(p).spans@[l] as int
                }),
            forall|l: int|
                0 <= l < old(self).level ==> #[trigger] final(self).level_links@[l] == (if ps[l] == -1 && l < old(
                    self,
                ).node_at(at as int).levels@.len() {
                    old(self).node_at(at as int).levels@[l]
                } else {
                    old(self).level_links@[l]
                }),
            forall|l: int|
                0 <= l < old(self).level ==> #[trigger] final(self).level_spans@[l] == (if ps[l] == -1 {
                    if l < old(self).node_at(at as int).levels@.len() {
                        old(self).level_spans@[l] + old(self).node_at(at as int).spans@[l]
                    } else {
                        old(self).level_spans@[l] - 1
                    }
                } else {
                    old(self).level_spans@[l] as int
                }),
    {
        let ghost mid = *self;
        let ghost hs = self.spec_heights();
        let ghost n = self.order@.len() as int;
        let ghost h = mid.node_at(at as int).levels@.len();
        let xh = self.nodes[x].levels.len();
        proof {
            mid.lemma_view();
        }
        let mut l: usize = 0;
        while l < self.level
            invariant
                mid.wf(),
                l <= mid.level,
                at < n,
                x == mid.order@[at as int],
                xh == h,
                h == mid.node_at(at as int).levels@.len(),
                self.level == mid.level,
                self.order == mid.order,
                self.free == mid.free,
                self.length == mid.length,
                self.nodes@.len() == mid.nodes@.len(),
                self.nodes@[x as int] == mid.nodes@[x as int],
                self.level_links@.len() == mid.level,
                self.level_spans@.len() == mid.level,
                update@.len() == mid.level,
                rank@.len() == mid.level,
                ps.len() == mid.level,
                hs == mid.spec_heights(),
                n == mid.order@.len(),
                forall|l2: int| 0 <= l2 < mid.level ==> #[trigger] ps[l2] == rank@[l2] - 1,
                forall|l2: int|
                    #![trigger rank@[l2]]
                    0 <= l2 < mid.level ==> {
                        let p = rank@[l2] - 1;
                        &&& mid.has_level(p, l2)
                        &&& update@[l2] == (if p == -1 {
                            None
                        } else {
                            Some(mid.order@[p])
                        })
                    },
                forall|l2: int| 0 <= l2 < mid.level ==> -1 <= #[trigger] ps[l2] < at && next_at(hs, l2 as nat, ps[l2]) >= at,
                forall|p: int|
                    0 <= p < n ==> {
                        let a = #[trigger] mid.order@[p] as int;
                        &&& self.nodes@[a].levels@.len() == mid.nodes@[a].levels@.len()
                        &&& self.nodes@[a].spans@.len() == mid.nodes@[a].spans@.len()
                        &&& self.nodes@[a].score == mid.nodes@[a].score
                        &&& self.nodes@[a].data == mid.nodes@[a].data
                        &&& self.nodes@[a].backward == mid.nodes@[a].backward
                    },
                forall|p: int, l2: int|
                    0 <= p < n && p != at && 0 <= l2 < mid.node_at(p).levels@.len()
                        ==> #[trigger] self.nodes@[mid.order@[p] as int].levels@[l2] == (if l2 < l && p == ps[l2] && l2 < h {
                        mid.node_at(at as int).levels@[l2]
                    } else {
                        mid.node_at(p).levels@[l2]
                    }),
                forall|p: int, l2: int|
                    0 <= p < n && p != at && 0 <= l2 < mid.node_at(p).levels@.len()
                        ==> #[trigger] self.nodes@[mid.order@[p] as int].spans@[l2] == (if l2 < l && p == ps[l2] {
                        if l2 < h {
                            mid.node_at(p).spans@[l2] + mid.node_at(at as int).spans@[l2]
                        } else {
                            mid.node_at(p).spans@[l2] - 1
                        }
                    } else {
                        mid.node_at(p).spans@[l2] as int
                    }),
                forall|l2: int|
                    0 <= l2 < mid.level ==> #[trigger] self.level_links@[l2] == (if l2 < l && ps[l2] == -1 && l2 < h {
                        mid.node_at(at as int).levels@[l2]
                    } else {
                        mid.level_links@[l2]
                    }),
                forall|l2: int|
                    0 <= l2 < mid.level ==> #[trigger] self.level_spans@[l2] == (if l2 < l && ps[l2] == -1 {
                        if l2 < h {
                            mid.level_spans@[l2] + mid.node_at(at as int).spans@[l2]
                        } else {
                            mid.level_spans@[l2] - 1
                        }
                    } else {
                        mid.level_spans@[l2] as int
                    }),
            decreases mid.level - l,
        {
            let ghost pl = ps[l as int];
            proof {
                assert(mid.has_level(pl, l as int));
                lemma_next_at_basic(hs, l as nat, pl);
                if (l as int) < h {
                    assert(mid.has_level(at as int, l as int));
                    lemma_next_at_basic(hs, l as nat, at as int);
                    assert(hs[at as int] == h);
                    assert(hs[at as int] > l);
                    assert(next_at(hs, l as nat, pl) == at);
                } else {
                    assert(hs[at as int] <= l);
                }
                assert(mid.node_at(at as int) == mid.nodes@[x as int]);
            }
            let (xl, xs): (Option<usize>, usize) = if l < xh {
                (self.nodes[x].levels[l], self.nodes[x].spans[l])
            } else {
                (None, 0)
            };
            match update[l] {
                None => {
                    let sp = self.level_spans[l];
                    if l < xh {
                        self.level_links.set(l, xl);
                        self.level_spans.set(l, sp + xs);
                    } else {
                        self.level_spans.set(l, sp - 1);
                    }
                },
                Some(u) => {
                    proof {
                        assert(u == mid.order@[pl]);
                        assert(mid.node_at(pl).levels@.len() == mid.node_at(pl).spans@.len());
                        assert(u != x);
                    }
                    let lk = self.nodes[u].levels[l];
                    let sp = self.nodes[u].spans[l];
                    if l < xh {
                        self.set_node_link(u, l, xl, sp + xs);
                    } else {
                        self.set_node_link(u, l, lk, sp - 1);
                    }
                    proof {
                        assert forall|p: int| 0 <= p < n && p != pl implies #[trigger] mid.order@[p] != u by {}
                    }
                },
            }
            l = l + 1;
        }
    }
}

impl Skiplist {
    /// The state that `remove` builds is well formed and lacks the entry at `at`.
    #[verifier::rlimit(100)]
    proof fn lemma_remove_done(&self, mid: Skiplist, c: Cut, ps: Seq<int>, at: int)
        requires
            mid.wf(),
            0 <= at < mid.order@.len(),
            ps.len() == mid.level,
            forall|l: int| 0 <= l < mid.level ==> mid.descent_ok(c, l, #[trigger] ps[l]),
            forall|l: int| 0 <= l < mid.level ==> -1 <= #[trigger] ps[l] < at && next_at(mid.spec_heights(), l as nat, ps[l]) >= at,
            self.order@ == mid.order@.remove(at),
            self.level == mid.level,
            self.length == mid.length - 1,
            self.free@ == mid.free@.push(mid.order@[at]),
            self.nodes@.len() == mid.nodes@.len(),
            self.level_links@.len() == mid.level,
            self.level_spans@.len() == mid.level,
            forall|l: int|
                0 <= l < mid.level ==> #[trigger] self.level_links@[l] == (if ps[l] == -1 && l < mid.node_at(at).levels@.len() {
                    mid.node_at(at).levels@[l]
                } else {
                    mid.level_links@[l]
                }),
            forall|l: int|
                0 <= l < mid.level ==> #[trigger] self.level_spans@[l] == (if ps[l] == -1 {
                    if l < mid.node_at(at).levels@.len() {
                        mid.level_spans@[l] + mid.node_at(at).spans@[l]
                    } else {
                        mid.level_spans@[l] - 1
                    }
                } else {
                    mid.level_spans@[l] as int
                }),
            forall|p: int|
                0 <= p < mid.order@.len() && p != at ==> {
                    let a = #[trigger] mid.order@[p] as int;
                    &&& self.nodes@[a].levels@.len() == mid.nodes@[a].levels@.len()
                    &&& self.nodes@[a].spans@.len() == mid.nodes@[a].spans@.len()
                    &&& self.nodes@[a].score == mid.nodes@[a].score
                    &&& self.nodes@[a].data == mid.nodes@[a].data
                    &&& self.nodes@[a].backward == (if p == at + 1 {
                        mid.node_at(at).backward
                    } else {
                        mid.nodes@[a].backward
                    })
                },
            forall|p: int, l: int|
                0 <= p < mid.order@.len() && p != at && 0 <= l < mid.node_at(p).levels@.len()
                    ==> #[trigger] self.nodes@[mid.order@[p] as int].levels@[l] == (if p == ps[l] && l < mid.node_at(
                    at,
                ).levels@.len() {
                    mid.node_at(at).levels@[l]
                } else {
                    mid.node_at(p).levels@[l]
                }),
            forall|p: int, l: int|
                0 <= p < mid.order@.len() && p != at && 0 <= l < mid.node_at(p).levels@.len()
                    ==> #[trigger] self.nodes@[mid.order@[p] as int].spans@[l] == (if p == ps[l] {
                    if l < mid.node_at(at).levels@.len() {
                        mid.node_at(p).spans@[l] + mid.node_at(at).spans@[l]
                    } else {
                        mid.node_at(p).spans@[l] - 1
                    }
                } else {
                    mid.node_at(p).spans@[l] as int
                }),
        ensures
            self.wf(),
            self@ == mid@.remove(at),
            self.spec_heights() == mid.spec_heights().remove(at),
    {
        let n = mid.order@.len() as int;
        let x = mid.order@[at];
        mid.lemma_view();
        self.lemma_view();
        lemma_remove_links(mid, *self, c, ps, at);
        assert forall|r: int| 0 <= r < n - 1 implies #[trigger] self.key_at(r) == (if r < at {
            mid.key_at(r)
        } else {
            mid.key_at(r + 1)
        }) by {
            if r >= at {
                assert(mid.order@[r + 1] != x);
            } else {
                assert(mid.order@[r] != x);
            }
        }
        assert(self@ =~= mid@.remove(at));
        assert forall|r1: int, r2: int|
            0 <= r1 < self.order@.len() && 0 <= r2 < self.order@.len() && r1 != r2 implies #[trigger] self.order@[r1]
                != #[trigger] self.order@[r2] by {
            let a = if r1 < at { r1 } else { r1 + 1 };
            let b = if r2 < at { r2 } else { r2 + 1 };
            assert(mid.order@[a] != mid.order@[b]);
        }
        assert forall|r: int| 0 <= r < self.order@.len() implies {
            let nd = #[trigger] self.node_at(r);
            &&& nd.levels@.len() == nd.spans@.len()
            &&& 1 <= nd.levels@.len() <= self.level
            &&& nd.backward == (if r == 0 {
                None
            } else {
                Some(self.order@[r - 1])
            })
        } by {
            let a = if r < at { r } else { r + 1 };
            assert(mid.order@[a] != x);
            assert(mid.node_at(a).levels@.len() >= 1);
        }
        assert forall|i: int, j: int| 0 <= i < j < self@.len() implies key_lt(#[trigger] self@[i], #[trigger] self@[j]) by {
            let a = if i < at { i } else { i + 1 };
            let b = if j < at { j } else { j + 1 };
            assert(key_lt(mid@[a], mid@[b]));
        }
        assert forall|i: int|
            0 <= i < self.free@.len() implies #[trigger] self.free@[i] < self.nodes@.len() && forall|r: int|
                0 <= r < self.order@.len() ==> self.order@[r] != self.free@[i] by {
            assert forall|r: int| 0 <= r < self.order@.len() implies self.order@[r] != self.free@[i] by {
                let a = if r < at { r } else { r + 1 };
                if i < mid.free@.len() {
                    assert(mid.order@[a] != mid.free@[i]);
                } else {
                    assert(mid.order@[a] != mid.order@[at]);
                }
            }
        }
        assert forall|i: int, j: int|
            0 <= i < self.free@.len() && 0 <= j < self.free@.len() && i != j implies #[trigger] self.free@[i]
                != #[trigger] self.free@[j] by {
            if i < mid.free@.len() && j < mid.free@.len() {
            } else if i < mid.free@.len() {
                assert(mid.order@[at] != mid.free@[i]);
            } else {
                assert(mid.order@[at] != mid.free@[j]);
            }
        }
        assert forall|r: int| 0 <= r < self.order@.len() implies #[trigger] self.order@[r] < self.nodes@.len() by {
            let a = if r < at { r } else { r + 1 };
            assert(mid.order@[a] < mid.nodes@.len());
        }
    }

    /// Removes `(score, data)`; false, changing nothing, when it is not present.
    #[verifier::rlimit(100)]
    pub fn remove(&mut self, score: i64, data: &i64) -> (r: bool)
        requires
            old(self).wf(),
        ensures
            final(self).wf(),
            r == old(self)@.contains((score, *data)),
            !r ==> final(self)@ == old(self)@ && final(self).spec_heights() == old(self).spec_heights(),
            forall|k: int|
                0 <= k < old(self)@.len() && old(self)@[k] == (score, *data) ==> final(self)@ == old(self)@.remove(k)
                    && final(self).spec_heights() == old(self).spec_heights().remove(k),
            final(self).spec_level() == old(self).spec_level(),
            final(self).spec_arena_len() == old(self).spec_arena_len(),
    {
        let c = Cut::Before(score, *data);
        proof {
            self.lemma_view();
        }
        if self.level == 0 {
            proof {
                if self.order@.len() > 0 {
                    assert(self.node_at(0).levels@.len() >= 1);
                }
            }
            return false;
        }
        let (update, rank) = self.descend(&c);
        let ghost p0 = rank@[0] - 1;
        proof {
            assert(self.descent_ok(c, 0, p0));
            self.lemma_cut_from_descent(c, p0);
        }
        let (nx, _) = self.link(update[0], 0, Ghost(p0));
        let x = match nx {
            Some(x) => x,
            None => {
                proof {
                    if self@.contains((score, *data)) {
                        let q = choose|q: int| 0 <= q < self@.len() && self@[q] == (score, *data);
                        assert(!in_cut(c, self@[q]));
                    }
                }
                return false;
            },
        };
        proof {
            assert(self@[p0 + 1] == self.key_at(p0 + 1));
        }
        if !(self.nodes[x].score == score && self.nodes[x].data == *data) {
            proof {
                if self@.contains((score, *data)) {
                    let q = choose|q: int| 0 <= q < self@.len() && self@[q] == (score, *data);
                    assert(!in_cut(c, self@[q]));
                    if q > p0 + 1 {
                        assert(key_lt(self@[p0 + 1], self@[q]));
                    }
                }
            }
            return false;
        }
        let at = rank[0];
        let ghost mid = *self;
        let ghost hs = self.spec_heights();
        let ghost ps = Seq::new(self.level as nat, |l: int| rank@[l] - 1);
        proof {
            assert forall|l: int| 0 <= l < mid.level implies mid.descent_ok(c, l, #[trigger] ps[l]) && -1 <= ps[l] < at
                && next_at(hs, l as nat, ps[l]) >= at by {
                assert(mid.descent_ok(c, l, rank@[l] - 1));
                lemma_next_at_basic(hs, l as nat, ps[l]);
                let q = next_at(hs, l as nat, ps[l]);
                if ps[l] >= at {
                    assert(in_cut(c, mid@[at as int]));
                }
                if q < at {
                    assert(in_cut(c, mid@[q]));
                }
            }
            assert forall|l2: int|
                #![trigger rank@[l2]]
                0 <= l2 < mid.level implies {
                    let p = rank@[l2] - 1;
                    &&& mid.has_level(p, l2)
                    &&& update@[l2] == (if p == -1 {
                        None
                    } else {
                        Some(mid.order@[p])
                    })
                } by {
                assert(mid.descent_ok(c, l2, rank@[l2] - 1));
            }
        }
        self.unlink_predecessors(&update, &rank, x, at, Ghost(ps));
        let succ = self.nodes[x].levels[0];
        let back = self.nodes[x].backward;
        proof {
            assert(mid.has_level(at as int, 0));
            lemma_next_at_basic(hs, 0, at as int);
            if at + 1 < mid.order@.len() {
                assert(hs[at + 1] >= 1);
                lemma_next_at_unique(hs, 0, at as int, at + 1);
            }
            assert(succ == mid.target(at + 1));
        }
        if let Some(y) = succ {
            proof {
                assert(y == mid.order@[at + 1]);
                assert forall|p: int| 0 <= p < mid.order@.len() && p != at + 1 implies #[trigger] mid.order@[p] != y by {}
            }
            self.set_backward(y, back);
        }
        self.free.push(x);
        self.length = self.length - 1;
        proof {
            self.order = Ghost(mid.order@.remove(at as int));
            self.lemma_remove_done(mid, c, ps, at as int);
            assert forall|k: int| 0 <= k < mid@.len() && mid@[k] == (score, *data) implies k == at by {
                if k != at {
                    assert(key_lt(mid@[k], mid@[at as int]) || key_lt(mid@[at as int], mid@[k]));
                }
            }
        }
        true
    }
}

/// Relies on rand::Rng::gen_ratio over rand::thread_rng: true with chance
/// `numerator` in 100. It panics when the numerator exceeds the denominator,
/// which `requires` rules out. As documented, a numerator of 0 always gives
/// false and one equal to the denominator always gives true.
#[verifier::external_body]
fn chance(numerator: u32) -> (r: bool)
    requires
        numerator <= 100,
    ensures
        numerator == 0 ==> !r,
        numerator == 100 ==> r,
{
    rand::thread_rng().gen_ratio(numerator, 100)
}

/// `b` is `a` with `(score, data)` added at its place by a node of height `h`,
/// between 1 and `MAX_LEVELS`.
pub open spec fn inserted_with_height(a: Skiplist, b: Skiplist, score: i64, data: i64, h: nat) -> bool {
    &&& 1 <= h <= MAX_LEVELS
    &&& b.spec_level() == (if a.spec_level() < h {
        h
    } else {
        a.spec_level()
    })
    &&& b@ == a@.insert(count_before(a@, (score, data)) as int, (score, data))
    &&& b.spec_heights() == a.spec_heights().insert(count_before(a@, (score, data)) as int, h)
}

/// Number of entries of `v` that come before `key`.
pub open spec fn count_before(v: Seq<(i64, i64)>, key: (i64, i64)) -> nat
    decreases v.len(),
{
    if v.len() == 0 {
        0
    } else {
        count_before(v.drop_last(), key) + (if key_lt(v.last(), key) {
            1nat
        } else {
            0nat
        })
    }
}

/// The prefix that precedes `key` has `count_before` entries.
pub proof fn lemma_count_before(v: Seq<(i64, i64)>, key: (i64, i64), k: int)
    requires
        is_cut_len(v, Cut::Before(key.0, key.1), k),
    ensures
        count_before(v, key) == k,
    decreases v.len(),
{
    if v.len() > 0 {
        let n = v.len() as int;
        let w = v.drop_last();
        let k2 = if k < n { k } else { n - 1 };
        assert forall|q: int| 0 <= q < k2 implies in_cut(Cut::Before(key.0, key.1), #[trigger] w[q]) by {
            assert(w[q] == v[q]);
        }
        assert forall|q: int| k2 <= q < w.len() implies !in_cut(Cut::Before(key.0, key.1), #[trigger] w[q]) by {
            assert(w[q] == v[q]);
        }
        lemma_count_before(w, key, k2);
        assert(in_cut(Cut::Before(key.0, key.1), v[n - 1]) <==> n - 1 < k);
    }
}

/// Lower end, as a position, of the entries that reach `min`.
pub open spec fn range_start(v: Seq<(i64, i64)>, min: Option<Bound>) -> int {
    match min {
        Some(b) => count_in_range(v, None, Some(Bound { bound: b.bound, exclusive: !b.exclusive })) as int,
        None => 0,
    }
}

impl Skiplist {
    /// A node height: one, plus one for each success of a trial with the list's
    /// chance, at most `MAX_LEVELS`.
    fn random_level(&self) -> (r: usize)
        ensures
            1 <= r <= MAX_LEVELS,
    {
        let p: u32 = if self.skip_percentage <= 100 {
            self.skip_percentage as u32
        } else {
            100
        };
        let mut level: usize = 1;
        while level < MAX_LEVELS && chance(p)
            invariant
                1 <= level <= MAX_LEVELS,
                p <= 100,
            decreases MAX_LEVELS - level,
        {
            level = level + 1;
        }
        level
    }

    /// Inserts `(score, data)` with a node of random height; false, changing
    /// nothing, when the pair is already present.
    pub fn insert(&mut self, data: i64, score: i64) -> (r: bool)
        requires
            old(self).wf(),
            old(self)@.len() + 1 < usize::MAX,
            old(self).spec_arena_len() + 1 < usize::MAX,
        ensures
            final(self).wf(),
            r == !old(self)@.contains((score, data)),
            !r ==> final(self)@ == old(self)@ && final(self).spec_heights() == old(self).spec_heights()
                && final(self).spec_level() == old(self).spec_level(),
            r ==> exists|h: nat| #[trigger] inserted_with_height(*old(self), *final(self), score, data, h),
            final(self).spec_arena_len() <= old(self).spec_arena_len() + 1,
    {
        let level = self.random_level();
        let placed = self.do_insert(data, score, level);
        proof {
            if !old(self)@.contains((score, data)) {
                assert(placed is Some);
                assert(inserted_with_height(*old(self), *self, score, data, level as nat));
            }
        }
        placed.is_some()
    }

    /// Removes every entry; returns how many there were.
    pub fn clear(&mut self) -> (r: usize)
        requires
            old(self).wf(),
        ensures
            final(self).wf(),
            r == old(self)@.len(),
            final(self)@ == Seq::<(i64, i64)>::empty(),
            final(self).spec_level() == 0,
            final(self).spec_arena_len() == 0,
    {
        let count = self.length;
        let pct = self.skip_percentage;
        *self = Skiplist::new();
        self.skip_percentage = pct;
        proof {
            assert(self@ =~= Seq::<(i64, i64)>::empty());
        }
        count
    }

    /// Span of the link of arena node `node` on level `l`, if it has that level.
    pub closed spec fn spec_node_span(&self, node: int, l: int) -> Option<usize> {
        if 0 <= node < self.nodes@.len() && 0 <= l < self.nodes@[node].spans@.len() {
            Some(self.nodes@[node].spans@[l])
        } else {
            None
        }
    }

    /// Span of the head's link on level `l`, if that level is in use.
    pub closed spec fn spec_head_span(&self, l: int) -> Option<usize> {
        if 0 <= l < self.level {
            Some(self.level_spans@[l])
        } else {
            None
        }
    }

    /// Span of the link of arena node `node` on level `l`, if it has that level.
    pub fn node_span(&self, node: usize, l: usize) -> (r: Option<usize>)
        ensures
            r == self.spec_node_span(node as int, l as int),
    {
        if node < self.nodes.len() && l < self.nodes[node].spans.len() {
            Some(self.nodes[node].spans[l])
        } else {
            None
        }
    }

    /// Span of the head's link on level `l`, if that level is in use.
    pub fn head_span(&self, l: usize) -> (r: Option<usize>)
        requires
            self.wf(),
        ensures
            r == self.spec_head_span(l as int),
    {
        if l < self.level {
            Some(self.level_spans[l])
        } else {
            None
        }
    }

    /// The entries whose score lies within both bounds, in order, after skipping
    /// `offset` of them, at most `limit` of them (`0`: no limit), each with the
    /// height of its node.
    #[verifier::rlimit(100)]
    pub fn do_range(&self, min: Option<Bound>, max: Option<Bound>, offset: usize, limit: usize) -> (r: Vec<RangeItem>)
        requires
            self.wf(),
        ensures
            ({
                let f = filter_range(self@, min, max);
                let s = if offset < f.len() {
                    offset as int
                } else {
                    f.len() as int
                };
                let e = if limit == 0 || s + limit > f.len() {
                    f.len() as int
                } else {
                    s + limit
                };
                &&& r@.len() == e - s
                &&& forall|i: int| 0 <= i < r@.len() ==> (#[trigger] r@[i].score, r@[i].data) == f[s + i]
                &&& forall|i: int|
                    0 <= i < r@.len() ==> #[trigger] r@[i].skiplevel == self.spec_heights()[range_start(self@, min) + s + i]
            }),
    {
        let ghost v = self@;
        let ghost hs = self.spec_heights();
        let ghost n = self.order@.len() as int;
        proof {
            self.lemma_view();
        }
        let mut result: Vec<RangeItem> = Vec::new();
        if self.level == 0 {
            proof {
                if n > 0 {
                    assert(self.node_at(0).levels@.len() >= 1);
                }
                assert(filter_range(v, min, max) == Seq::<(i64, i64)>::empty()) by {
                    assert(v.len() == 0);
                }
            }
            return result;
        }
        let hi: usize = match max {
            Some(b) => self.cut_len(&Cut::Below(b)),
            None => self.length,
        };
        let (lo, first): (usize, Option<usize>) = match min {
            Some(b) => {
                let cb = Cut::Below(b.toggle());
                let (update, rank) = self.descend(&cb);
                let ghost p = rank@[0] - 1;
                proof {
                    assert(self.descent_ok(cb, 0, p));
                    self.lemma_cut_from_descent(cb, p);
                }
                let (nx, _) = self.link(update[0], 0, Ghost(p));
                (rank[0], nx)
            },
            None => {
                proof {
                    assert(self.has_level(-1, 0));
                    if n > 0 {
                        assert(hs[0] >= 1);
                        lemma_next_at_unique(hs, 0, -1, 0);
                    } else {
                        lemma_next_at_unique(hs, 0, -1, 0);
                    }
                }
                (0, self.level_links[0])
            },
        };
        proof {
            match min {
                Some(b) => {
                    let tb = Bound { bound: b.bound, exclusive: !b.exclusive };
                    lemma_filter_slice(v, None, Some(tb), 0, lo as int);
                },
                None => {},
            }
            assert forall|q: int| 0 <= q < n implies (in_range(#[trigger] v[q].0, min, max) <==> lo <= q < hi) by {
                match min {
                    Some(b) => {
                        let tb = Bound { bound: b.bound, exclusive: !b.exclusive };
                        assert(in_cut(Cut::Below(tb), v[q]) <==> !above(b, v[q].0));
                    },
                    None => {},
                }
                match max {
                    Some(b) => {
                        assert(in_cut(Cut::Below(b), v[q]) <==> below(b, v[q].0));
                    },
                    None => {},
                }
            }
            lemma_filter_slice(v, min, max, lo as int, hi as int);
            assert(range_start(v, min) == lo);
        }
        let mut cursor = first;
        let mut pos: usize = lo;
        let mut skip = offset;
        while skip > 0 && cursor.is_some()
            invariant
                self.wf(),
                v == self@,
                hs == self.spec_heights(),
                n == self.order@.len(),
                self.level > 0,
                lo <= pos <= n,
                pos - lo + skip == offset,
                cursor == self.target(pos as int),
            decreases skip,
        {
            let c = cursor.unwrap();
            proof {
                assert(self.has_level(pos as int, 0));
                if pos + 1 < n {
                    assert(hs[pos + 1] >= 1);
                    lemma_next_at_unique(hs, 0, pos as int, pos + 1);
                } else {
                    lemma_next_at_unique(hs, 0, pos as int, n);
                }
            }
            cursor = self.nodes[c].levels[0];
            pos = pos + 1;
            skip = skip - 1;
        }
        let mut taken: usize = 0;
        let ghost start = pos as int;
        proof {
            assert(start == (if lo + offset <= n {
                lo + offset
            } else {
                n
            }));
        }
        loop
            invariant
                self.wf(),
                v == self@,
                hs == self.spec_heights(),
                n == self.order@.len(),
                self.level > 0,
                lo <= start <= pos <= n,
                hi <= n,
                start == (if lo + offset <= n {
                    lo + offset
                } else {
                    n
                }),
                forall|q: int| 0 <= q < n ==> (in_range(#[trigger] v[q].0, min, max) <==> lo <= q < hi),
                forall|q: int| lo <= q < n ==> (in_range(#[trigger] v[q].0, min, max) <==> match max {
                    Some(b) => below(b, v[q].0),
                    None => true,
                }),
                cursor == self.target(pos as int),
                taken == pos - start,
                result@.len() == taken,
                limit == 0 || taken <= limit,
                pos <= hi || pos == start,
                forall|i: int| 0 <= i < taken ==> (#[trigger] result@[i].score, result@[i].data) == v[start + i],
                forall|i: int| 0 <= i < taken ==> #[trigger] result@[i].skiplevel == hs[start + i],
            ensures
                (limit != 0 && taken == limit) || pos == n || pos >= hi,
                pos <= hi || pos == start,
                lo <= start <= pos <= n,
                taken == pos - start,
                result@.len() == taken,
                forall|i: int| 0 <= i < taken ==> (#[trigger] result@[i].score, result@[i].data) == v[start + i],
                forall|i: int| 0 <= i < taken ==> #[trigger] result@[i].skiplevel == hs[start + i],
            decreases n - pos,
        {
            if limit != 0 && taken >= limit {
                break;
            }
            let c = match cursor {
                Some(c) => c,
                None => break,
            };
            let nd = &self.nodes[c];
            proof {
                assert(v[pos as int] == self.key_at(pos as int));
                assert(in_range(v[pos as int].0, min, max) <==> lo <= pos < hi);
            }
            if let Some(b) = max {
                if !(nd.score < b.bound || (nd.score == b.bound && !b.exclusive)) {
                    break;
                }
            }
            proof {
                assert(self.has_level(pos as int, 0));
                assert(in_range(v[pos as int].0, min, max));
                if pos + 1 < n {
                    assert(hs[pos + 1] >= 1);
                    lemma_next_at_unique(hs, 0, pos as int, pos + 1);
                } else {
                    lemma_next_at_unique(hs, 0, pos as int, n);
                }
            }
            result.push(RangeItem { score: nd.score, data: nd.data, skiplevel: nd.levels.len() });
            cursor = nd.levels[0];
            pos = pos + 1;
            taken = taken + 1;
        }
        proof {
            let f = filter_range(v, min, max);
            if lo < hi {
                assert(f.len() == hi - lo);
                assert forall|i: int| 0 <= i < f.len() implies #[trigger] f[i] == v[lo + i] by {}
            } else {
                assert(f.len() == 0);
            }
        }
        result
    }
}

/// With no bounds every entry counts: `range_count(None, None)` is the length.
pub proof fn lemma_count_all(v: Seq<(i64, i64)>)
    ensures
        count_in_range(v, None, None) == v.len(),
{
    lemma_filter_slice(v, None, None, 0, v.len() as int);
    if v.len() > 0 {
        assert(v.subrange(0, v.len() as int) =~= v);
    }
}

impl Skiplist {
    /// The entry `(score, data)` with the height of its node, if present.
    #[verifier::rlimit(100)]
    pub fn do_find(&self, score: i64, data: &i64) -> (r: Option<RangeItem>)
        requires
            self.wf(),
        ensures
            r is Some <==> self@.contains((score, *data)),
            r is Some ==> r->Some_0.score == score && r->Some_0.data == *data,
            forall|k: int|
                0 <= k < self@.len() && #[trigger] self@[k] == (score, *data) ==> r is Some && r->Some_0.skiplevel
                    == self.spec_heights()[k],
    {
        let c = Cut::Before(score, *data);
        proof {
            self.lemma_view();
        }
        if self.level == 0 {
            proof {
                if self.order@.len() > 0 {
                    assert(self.node_at(0).levels@.len() >= 1);
                }
            }
            return None;
        }
        let (update, rank) = self.descend(&c);
        let ghost p = rank@[0] - 1;
        proof {
            assert(self.descent_ok(c, 0, p));
            self.lemma_cut_from_descent(c, p);
        }
        let (nx, _) = self.link(update[0], 0, Ghost(p));
        let r = match nx {
            Some(x) => {
                let nd = &self.nodes[x];
                if nd.score == score && nd.data == *data {
                    Some(RangeItem { score: nd.score, data: nd.data, skiplevel: nd.levels.len() })
                } else {
                    None
                }
            },
            None => None,
        };
        proof {
            if p + 1 < self.order@.len() {
                assert(self@[p + 1] == self.key_at(p + 1));
            }
            assert forall|q: int| 0 <= q < self@.len() && #[trigger] self@[q] == (score, *data) implies q == p + 1 by {
                assert(!in_cut(c, self@[q]));
                if q > p + 1 {
                    assert(key_lt(self@[p + 1], self@[q]));
                }
            }
        }
        r
    }

    /// `do_range` as (score, member, height) triples.
    #[verifier::rlimit(100)]
    pub fn do_range_tuple(&self, min: Option<Bound>, max: Option<Bound>, offset: usize, limit: usize) -> (r: Vec<(i64, i64, usize)>)
        requires
            self.wf(),
        ensures
            ({
                let f = filter_range(self@, min, max);
                let s = if offset < f.len() {
                    offset as int
                } else {
                    f.len() as int
                };
                let e = if limit == 0 || s + limit > f.len() {
                    f.len() as int
                } else {
                    s + limit
                };
                &&& r@.len() == e - s
                &&& forall|i: int| 0 <= i < r@.len() ==> ((#[trigger] r@[i]).0, r@[i].1) == f[s + i]
                &&& forall|i: int|
                    0 <= i < r@.len() ==> (#[trigger] r@[i]).2 == self.spec_heights()[range_start(self@, min) + s + i]
            }),
    {
        let items = self.do_range(min, max, offset, limit);
        let mut out: Vec<(i64, i64, usize)> = Vec::new();
        let mut i: usize = 0;
        while i < items.len()
            invariant
                i <= items@.len(),
                out@.len() == i,
                forall|j: int|
                    0 <= j < i ==> (#[trigger] out@[j]).0 == items@[j].score && out@[j].1 == items@[j].data && out@[j].2
                        == items@[j].skiplevel,
            decreases items@.len() - i,
        {
            out.push((items[i].score, items[i].data, items[i].skiplevel));
            i = i + 1;
        }
        proof {
            assert forall|j: int| 0 <= j < out@.len() implies ((#[trigger] out@[j]).0, out@[j].1) == filter_range(self@, min, max)[
                (if offset < filter_range(self@, min, max).len() {
                    offset as int
                } else {
                    filter_range(self@, min, max).len() as int
                }) + j] by {
                assert((items@[j].score, items@[j].data) == (out@[j].0, out@[j].1));
            }
        }
        out
    }
}

} // verus!
