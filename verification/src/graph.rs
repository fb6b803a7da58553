//! Dependencies between numbered nodes, and an order that respects them.

use vstd::prelude::*;

verus! {

/// How often `x` occurs in `s`.
pub open spec fn tally(s: Seq<usize>, x: usize) -> nat
    decreases s.len(),
{
    if s.len() == 0 {
        0
    } else {
        tally(s.drop_last(), x) + if s.last() == x {
            1nat
        } else {
            0nat
        }
    }
}

/// How many items of `s` do not occur in `done`.
pub open spec fn missing(s: Seq<usize>, done: Seq<usize>) -> nat
    decreases s.len(),
{
    if s.len() == 0 {
        0
    } else {
        missing(s.drop_last(), done) + if done.contains(s.last()) {
            0nat
        } else {
            1nat
        }
    }
}

/// One entry `b` for each time that `a` occurs among the sources of `b`, for the first `m` nodes.
pub open spec fn dependents_of(sources: Seq<Seq<usize>>, a: usize, m: nat) -> Seq<usize>
    decreases m,
{
    if m == 0 {
        Seq::empty()
    } else {
        dependents_of(sources, a, (m - 1) as nat) + Seq::new(
            tally(sources[m - 1], a),
            |k: int| (m - 1) as usize,
        )
    }
}

/// Whether every source is a node.
pub open spec fn sources_in_range(sources: Seq<Seq<usize>>) -> bool {
    forall|b: int, k: int|
        0 <= b < sources.len() && 0 <= k < sources[b].len() ==> (#[trigger] sources[b][k])
            < sources.len()
}

/// Whether the ranks rise from every source to the nodes that depend on it.
pub open spec fn ranks(sources: Seq<Seq<usize>>, rank: Seq<int>) -> bool {
    &&& rank.len() == sources.len()
    &&& forall|b: int, k: int|
        0 <= b < sources.len() && 0 <= k < sources[b].len() ==> rank[(
        #[trigger] sources[b][k]) as int] < rank[b]
}

/// Whether no node depends on itself, directly or through others: then the nodes can be ranked.
pub open spec fn rankable(sources: Seq<Seq<usize>>) -> bool {
    exists|rank: Seq<int>| ranks(sources, rank)
}

/// Whether `x` occurs in `order` before position `p`.
pub open spec fn before(order: Seq<usize>, p: int, x: usize) -> bool {
    exists|q: int| 0 <= q < p && q < order.len() && #[trigger] order[q] == x
}

/// Whether the order lists nodes, none twice, and each after all of its sources.
pub open spec fn respects(sources: Seq<Seq<usize>>, order: Seq<usize>) -> bool {
    &&& forall|p: int| 0 <= p < order.len() ==> (#[trigger] order[p]) < sources.len()
    &&& order.no_duplicates()
    &&& forall|p: int, k: int|
        0 <= p < order.len() && 0 <= k < sources[order[p] as int].len() ==> before(
            order,
            p,
            #[trigger] sources[order[p] as int][k],
        )
}

/// The dependencies between nodes that are numbered from zero.
pub struct Graph {
    pub sources: Vec<Vec<usize>>,
    pub dependents: Vec<Vec<usize>>,
}

/// The lists of a vector of vectors.
pub open spec fn rows(v: Seq<Vec<usize>>) -> Seq<Seq<usize>> {
    Seq::new(v.len(), |i: int| v[i]@)
}

impl Graph {
    /// For each node, the nodes that it waits for.
    pub open spec fn source_lists(&self) -> Seq<Seq<usize>> {
        rows(self.sources@)
    }

    /// Whether every source is a node, and the dependents are those that the sources imply.
    pub open spec fn wf(&self) -> bool {
        &&& sources_in_range(self.source_lists())
        &&& self.dependents@.len() == self.sources@.len()
        &&& forall|a: int|
            0 <= a < self.dependents@.len() ==> (#[trigger] self.dependents@[a])@ == dependents_of(
                self.source_lists(),
                a as usize,
                self.sources@.len(),
            )
    }
}

pub proof fn lemma_tally_push(s: Seq<usize>, y: usize, x: usize)
    ensures
        tally(s.push(y), x) == tally(s, x) + if y == x {
            1nat
        } else {
            0nat
        },
{
    assert(s.push(y).drop_last() =~= s);
}

proof fn lemma_tally_add(s: Seq<usize>, t: Seq<usize>, x: usize)
    ensures
        tally(s + t, x) == tally(s, x) + tally(t, x),
    decreases t.len(),
{
    if t.len() == 0 {
        assert(s + t =~= s);
    } else {
        lemma_tally_add(s, t.drop_last(), x);
        assert((s + t).drop_last() =~= s + t.drop_last());
    }
}

proof fn lemma_tally_repeat(n: nat, y: usize, x: usize)
    ensures
        tally(Seq::new(n, |k: int| y), x) == if x == y {
            n
        } else {
            0
        },
    decreases n,
{
    if n > 0 {
        lemma_tally_repeat((n - 1) as nat, y, x);
        assert(Seq::new(n, |k: int| y).drop_last() =~= Seq::new((n - 1) as nat, |k: int| y));
    }
}

/// A node occurs among the dependents of a source as often as the source among its sources.
pub proof fn lemma_dependents_tally(sources: Seq<Seq<usize>>, a: usize, m: nat, b: usize)
    requires
        m <= sources.len() <= usize::MAX,
    ensures
        tally(dependents_of(sources, a, m), b) == if b < m {
            tally(sources[b as int], a)
        } else {
            0
        },
    decreases m,
{
    if m > 0 {
        lemma_dependents_tally(sources, a, (m - 1) as nat, b);
        let l = dependents_of(sources, a, (m - 1) as nat);
        let y = (m - 1) as usize;
        let r = Seq::new(tally(sources[m - 1], a), |k: int| (m - 1) as usize);
        lemma_tally_add(l, r, b);
        assert(r =~= Seq::new(tally(sources[m - 1], a), |k: int| y));
        lemma_tally_repeat(tally(sources[m - 1], a), y, b);
    }
}

/// What occurs has a positive tally.
pub proof fn lemma_tally_contains(s: Seq<usize>, i: int)
    requires
        0 <= i < s.len(),
    ensures
        tally(s, s[i]) > 0,
    decreases s.len(),
{
    if i < s.len() - 1 {
        lemma_tally_contains(s.drop_last(), i);
    }
}

/// The first part of a list tallies at most what the whole list does.
pub proof fn lemma_tally_take(s: Seq<usize>, i: int, x: usize)
    requires
        0 <= i <= s.len(),
    ensures
        tally(s.take(i), x) <= tally(s, x),
{
    assert(s =~= s.take(i) + s.skip(i));
    lemma_tally_add(s.take(i), s.skip(i), x);
}

/// Once `a` is done as well, what was missing is less by as often as `a` occurs.
pub proof fn lemma_missing_push(s: Seq<usize>, done: Seq<usize>, a: usize)
    requires
        !done.contains(a),
    ensures
        missing(s, done) == missing(s, done.push(a)) + tally(s, a),
    decreases s.len(),
{
    if s.len() > 0 {
        lemma_missing_push(s.drop_last(), done, a);
        let d = done.push(a);
        assert(d[done.len() as int] == a);
        if done.contains(s.last()) {
            let i = choose|i: int| 0 <= i < done.len() && done[i] == s.last();
            assert(d[i] == s.last());
        } else if s.last() != a {
            if d.contains(s.last()) {
                let i = choose|i: int| 0 <= i < d.len() && d[i] == s.last();
                assert(done[i] == s.last());
            }
        }
    }
}

/// Nothing is missing exactly when every item is done.
pub proof fn lemma_missing_none(s: Seq<usize>, done: Seq<usize>)
    ensures
        missing(s, done) == 0 <==> forall|k: int|
            0 <= k < s.len() ==> done.contains(#[trigger] s[k]),
    decreases s.len(),
{
    if s.len() > 0 {
        let t = s.drop_last();
        lemma_missing_none(t, done);
        if missing(s, done) == 0 {
            assert forall|k: int| 0 <= k < s.len() implies done.contains(#[trigger] s[k]) by {
                if k < t.len() {
                    assert(t[k] == s[k]);
                }
            }
        } else if missing(t, done) != 0 {
            let k = choose|k: int| 0 <= k < t.len() && !done.contains(#[trigger] t[k]);
            assert(s[k] == t[k]);
        } else {
            assert(!done.contains(s[s.len() - 1]));
        }
    }
}

/// Everything is missing while nothing is done.
pub proof fn lemma_missing_all(s: Seq<usize>)
    ensures
        missing(s, Seq::empty()) == s.len(),
    decreases s.len(),
{
    if s.len() > 0 {
        lemma_missing_all(s.drop_last());
    }
}

/// Among the open nodes, one of the lowest rank.
proof fn lemma_lowest(rank: Seq<int>, open: Seq<bool>, some: int) -> (low: int)
    requires
        0 <= some < open.len(),
        open[some],
    ensures
        0 <= low < open.len(),
        open[low],
        forall|c: int| 0 <= c < open.len() && #[trigger] open[c] ==> rank[low] <= rank[c],
    decreases open.len(),
{
    let last = open.len() - 1;
    let rest = open.drop_last();
    if exists|c: int| 0 <= c < last && #[trigger] rest[c] {
        let c = choose|c: int| 0 <= c < last && #[trigger] rest[c];
        let low = lemma_lowest(rank, rest, c);
        let best = if open[last] && rank[last] < rank[low] {
            last
        } else {
            low
        };
        assert forall|c: int| 0 <= c < open.len() && #[trigger] open[c] implies rank[best]
            <= rank[c] by {
            if c < last {
                assert(rest[c]);
            }
        }
        best
    } else {
        assert forall|c: int| 0 <= c < open.len() && #[trigger] open[c] implies rank[some]
            <= rank[c] by {
            if c < last {
                assert(rest[c]);
            }
            if some < last {
                assert(rest[some]);
            }
        }
        some
    }
}

/// Nodes that each wait for another of them cannot be ranked.
pub proof fn lemma_stuck(sources: Seq<Seq<usize>>, done: Seq<usize>, some: int)
    requires
        sources_in_range(sources),
        0 <= some < sources.len() <= usize::MAX,
        !done.contains(some as usize),
        forall|b: int|
            0 <= b < sources.len() ==> (done.contains(b as usize) <==> missing(
                #[trigger] sources[b],
                done,
            ) == 0),
    ensures
        !rankable(sources),
{
    if rankable(sources) {
        let rank = choose|rank: Seq<int>| ranks(sources, rank);
        let open = Seq::new(sources.len(), |b: int| !done.contains(b as usize));
        let low = lemma_lowest(rank, open, some);
        assert(missing(sources[low], done) != 0);
        lemma_missing_none(sources[low], done);
        let k = choose|k: int|
            0 <= k < sources[low].len() && !done.contains(#[trigger] sources[low][k]);
        let c = sources[low][k] as int;
        assert(open[c]);
    }
}

/// An order that lists every node gives ranks.
proof fn lemma_order_ranks(sources: Seq<Seq<usize>>, order: Seq<usize>)
    requires
        respects(sources, order),
        sources.len() <= usize::MAX,
        forall|b: int| 0 <= b < sources.len() ==> order.contains(#[trigger] (b as usize)),
    ensures
        rankable(sources),
{
    let rank = Seq::new(
        sources.len(),
        |b: int| choose|p: int| 0 <= p < order.len() && order[p] == b,
    );
    assert forall|b: int| 0 <= b < sources.len() implies {
        let p = #[trigger] rank[b];
        0 <= p < order.len() && order[p] == b
    } by {
        assert(order.contains(b as usize));
        let p = choose|p: int| 0 <= p < order.len() && order[p] == b as usize;
        assert(0 <= p < order.len() && order[p] == b);
    }
    assert forall|b: int, k: int|
        0 <= b < sources.len() && 0 <= k < sources[b].len() implies rank[(
    #[trigger] sources[b][k]) as int] < rank[b] by {
        let p = rank[b];
        assert(before(order, p, sources[order[p] as int][k]));
        let x = sources[b][k];
        let q = choose|q: int| 0 <= q < p && q < order.len() && #[trigger] order[q] == x;
        assert(order[q] == order[rank[x as int]]);
    }
    assert(ranks(sources, rank));
}

impl Graph {
    /// The graph in which each node waits for the given sources.
    pub fn new(sources: Vec<Vec<usize>>) -> (r: Graph)
        requires
            sources_in_range(rows(sources@)),
        ensures
            r.source_lists() == rows(sources@),
            r.wf(),
    {
        let ghost lists = rows(sources@);
        let n: usize = sources.len();
        let mut dependents: Vec<Vec<usize>> = Vec::new();
        while dependents.len() < n
            invariant
                dependents@.len() <= n,
                forall|a: int| 0 <= a < dependents@.len() ==> (#[trigger] dependents@[a])@.len() == 0,
            decreases n - dependents.len(),
        {
            dependents.push(Vec::new());
        }
        assert forall|a: int| 0 <= a < n implies (#[trigger] dependents@[a])@ == dependents_of(
            lists,
            a as usize,
            0,
        ) by {
            assert(dependents@[a]@ =~= Seq::empty());
        }
        let mut b: usize = 0;
        while b < n
            invariant
                b <= n,
                n == sources@.len(),
                lists == rows(sources@),
                sources_in_range(lists),
                dependents@.len() == n,
                forall|a: int|
                    0 <= a < n ==> (#[trigger] dependents@[a])@ == dependents_of(
                        lists,
                        a as usize,
                        b as nat,
                    ),
            decreases n - b,
        {
            let ghost row = lists[b as int];
            assert forall|a: int| 0 <= a < n implies (#[trigger] dependents@[a])@ == dependents_of(
                lists,
                a as usize,
                b as nat,
            ) + Seq::new(tally(row.take(0), a as usize), |j: int| b) by {
                assert(row.take(0).len() == 0);
                assert(dependents@[a]@ =~= dependents@[a]@ + Seq::new(
                    tally(row.take(0), a as usize),
                    |j: int| b,
                ));
            }
            let mut k: usize = 0;
            while k < sources[b].len()
                invariant
                    b < n,
                    n == sources@.len(),
                    lists == rows(sources@),
                    row == lists[b as int],
                    k <= row.len(),
                    row == sources@[b as int]@,
                    sources_in_range(lists),
                    dependents@.len() == n,
                    forall|a: int|
                        0 <= a < n ==> (#[trigger] dependents@[a])@ == dependents_of(
                            lists,
                            a as usize,
                            b as nat,
                        ) + Seq::new(tally(row.take(k as int), a as usize), |j: int| b),
                decreases row.len() - k,
            {
                let ghost before_push = dependents@;
                let a: usize = sources[b][k];
                assert(a == lists[b as int][k as int]);
                dependents[a].push(b);
                proof {
                    assert(row.take(k + 1) =~= row.take(k as int).push(a));
                    assert forall|c: int| 0 <= c < n implies (#[trigger] dependents@[c])@
                        == dependents_of(lists, c as usize, b as nat) + Seq::new(
                        tally(row.take(k + 1), c as usize),
                        |j: int| b,
                    ) by {
                        lemma_tally_push(row.take(k as int), a, c as usize);
                        if c == a {
                            assert(dependents@[c]@ =~= before_push[c]@.push(b));
                            assert(dependents@[c]@ =~= dependents_of(lists, c as usize, b as nat)
                                + Seq::new(tally(row.take(k + 1), c as usize), |j: int| b));
                        } else {
                            assert(dependents@[c] == before_push[c]);
                        }
                    }
                }
                k += 1;
            }
            proof {
                assert(row.take(row.len() as int) =~= row);
                assert forall|a: int| 0 <= a < n implies (#[trigger] dependents@[a])@
                    == dependents_of(lists, a as usize, (b + 1) as nat) by {
                    assert(Seq::new(tally(lists[b as int], a as usize), |j: int| b) =~= Seq::new(
                        tally(lists[b as int], a as usize),
                        |j: int| ((b + 1) as nat - 1) as usize,
                    ));
                }
            }
            b += 1;
        }
        Graph { sources, dependents }
    }

    /// How many sources each node waits for while nothing is done, and the nodes that wait for none.
    pub(crate) fn start(&self) -> (r: (Vec<usize>, Vec<usize>))
        requires
            self.wf(),
        ensures
            r.0@.len() == self.source_lists().len(),
            forall|b: int|
                0 <= b < r.0@.len() ==> #[trigger] r.0@[b] == missing(
                    self.source_lists()[b],
                    Seq::empty(),
                ),
            forall|b: int|
                0 <= b < r.0@.len() ==> (r.1@.contains(b as usize) <==> #[trigger] r.0@[b] == 0),
            r.1@.no_duplicates(),
            forall|p: int| 0 <= p < r.1@.len() ==> (#[trigger] r.1@[p]) < r.0@.len(),
    {
        let ghost src = self.source_lists();
        let n: usize = self.sources.len();
        let mut pending: Vec<usize> = Vec::new();
        let mut queue: Vec<usize> = Vec::new();
        while pending.len() < n
            invariant
                src == self.source_lists(),
                n == src.len(),
                pending@.len() <= n,
                forall|b: int|
                    0 <= b < pending@.len() ==> #[trigger] pending@[b] == missing(
                        src[b],
                        Seq::empty(),
                    ),
                forall|b: int|
                    0 <= b < pending@.len() ==> (queue@.contains(b as usize) <==> #[trigger]
                    pending@[b] == 0),
                forall|p: int| 0 <= p < queue@.len() ==> (#[trigger] queue@[p]) < pending@.len(),
                queue@.no_duplicates(),
            decreases n - pending.len(),
        {
            let b: usize = pending.len();
            let ghost earlier = queue@;
            proof {
                lemma_missing_all(src[b as int]);
            }
            if self.sources[b].len() == 0 {
                queue.push(b);
            }
            pending.push(self.sources[b].len());
            assert forall|c: int| 0 <= c < pending@.len() implies (queue@.contains(c as usize)
                <==> #[trigger] pending@[c] == 0) by {
                lemma_contains_push(earlier, b, c as usize);
                if c == b && src[b as int].len() != 0 {
                    assert(!queue@.contains(b));
                }
            }
        }
        (pending, queue)
    }

    /// Counts down what waits for `a`, and appends what waits for nothing any more to the queue.
    pub(crate) fn release(
        &self,
        released: Ghost<Seq<usize>>,
        pending: &mut Vec<usize>,
        queue: &mut Vec<usize>,
        a: usize,
    )
        requires
            self.wf(),
            a < self.source_lists().len(),
            !released@.contains(a),
            old(pending)@.len() == self.source_lists().len(),
            forall|b: int|
                0 <= b < old(pending)@.len() ==> #[trigger] old(pending)@[b] == missing(
                    self.source_lists()[b],
                    released@,
                ),
            forall|b: int|
                0 <= b < old(pending)@.len() ==> (old(queue)@.contains(b as usize) <==> #[trigger] old(
                    pending,
                )@[b] == 0),
            old(queue)@.no_duplicates(),
            forall|p: int| 0 <= p < old(queue)@.len() ==> (#[trigger] old(queue)@[p]) < old(pending)@.len(),
        ensures
            final(pending)@.len() == old(pending)@.len(),
            forall|b: int|
                0 <= b < final(pending)@.len() ==> #[trigger] final(pending)@[b] == missing(
                    self.source_lists()[b],
                    released@.push(a),
                ),
            forall|b: int|
                0 <= b < final(pending)@.len() ==> (final(queue)@.contains(b as usize) <==> #[trigger]
                final(pending)@[b] == 0),
            final(queue)@.no_duplicates(),
            forall|p: int|
                0 <= p < final(queue)@.len() ==> (#[trigger] final(queue)@[p]) < final(pending)@.len(),
            old(queue)@.len() <= final(queue)@.len(),
            final(queue)@.take(old(queue)@.len() as int) == old(queue)@,
    {
        let ghost src = self.source_lists();
        let ghost done = released@;
        let ghost n = src.len();
        let ghost deps = self.dependents@[a as int]@;
        let ghost start = queue@;
        let total: usize = pending.len();
        proof {
            assert(deps == dependents_of(src, a, n));
            assert(deps.take(0) =~= Seq::<usize>::empty());
            assert(queue@.take(start.len() as int) =~= start);
        }
        let mut i: usize = 0;
        while i < self.dependents[a].len()
            invariant
                self.wf(),
                src == self.source_lists(),
                n == src.len(),
                n == total,
                n == self.dependents@.len(),
                a < n,
                deps == self.dependents@[a as int]@,
                deps == dependents_of(src, a, n),
                i <= deps.len(),
                !done.contains(a),
                pending@.len() == n,
                forall|b: int|
                    0 <= b < n ==> (#[trigger] pending@[b]) + tally(deps.take(i as int), b as usize)
                        == missing(src[b], done),
                forall|b: int|
                    0 <= b < n ==> (queue@.contains(b as usize) <==> #[trigger] pending@[b] == 0),
                queue@.no_duplicates(),
                forall|p: int| 0 <= p < queue@.len() ==> (#[trigger] queue@[p]) < n,
                start.len() <= queue@.len(),
                queue@.take(start.len() as int) == start,
            decreases deps.len() - i,
        {
            let b: usize = self.dependents[a][i];
            let ghost earlier = queue@;
            let ghost counts = pending@;
            proof {
                lemma_tally_contains(deps, i as int);
                lemma_dependents_tally(src, a, n, b);
                assert(deps.take(i + 1) =~= deps.take(i as int).push(b));
                lemma_tally_push(deps.take(i as int), b, b);
                lemma_tally_take(deps, i + 1, b);
                lemma_missing_push(src[b as int], done, a);
            }
            let left: usize = pending[b] - 1;
            pending.set(b, left);
            if left == 0 {
                assert(!earlier.contains(b)) by {
                    assert(counts[b as int] != 0);
                }
                queue.push(b);
                proof {
                    assert(queue@.no_duplicates()) by {
                        assert forall|x: int, y: int| 0 <= x < y < queue@.len() implies queue@[x]
                            != queue@[y] by {
                            assert(earlier[x] == queue@[x]);
                            if y == earlier.len() {
                                assert(earlier.contains(earlier[x]));
                            }
                        }
                    }
                    assert(queue@.take(start.len() as int) =~= earlier.take(start.len() as int));
                }
            }
            assert forall|c: int| 0 <= c < n implies (#[trigger] pending@[c]) + tally(
                deps.take(i + 1),
                c as usize,
            ) == missing(src[c], done) by {
                lemma_tally_push(deps.take(i as int), b, c as usize);
            }
            assert forall|c: int| 0 <= c < n implies (queue@.contains(c as usize)
                <==> #[trigger] pending@[c] == 0) by {
                lemma_contains_push(earlier, b, c as usize);
                if c != b {
                    assert(pending@[c] == counts[c]);
                }
            }
            i += 1;
        }
        proof {
            assert(deps.take(deps.len() as int) =~= deps);
            assert forall|b: int| 0 <= b < n implies #[trigger] pending@[b] == missing(
                src[b],
                done.push(a),
            ) by {
                lemma_dependents_tally(src, a, n, b as usize);
                lemma_missing_push(src[b], done, a);
            }
        }
    }

    /// Every node after all of its sources, if there is such an order.
    pub fn order(&self) -> (r: Option<Vec<usize>>)
        requires
            self.wf(),
        ensures
            match r {
                Some(order) => respects(self.source_lists(), order@) && rankable(
                    self.source_lists(),
                ) && forall|b: int|
                    0 <= b < self.source_lists().len() ==> order@.contains(
                        #[trigger] (b as usize),
                    ),
                None => !rankable(self.source_lists()),
            },
    {
        let ghost src = self.source_lists();
        let n: usize = self.sources.len();
        let (mut pending, mut order) = self.start();
        assert(respects(src, order@)) by {
            assert forall|p: int, k: int|
                0 <= p < order@.len() && 0 <= k < src[order@[p] as int].len() implies before(
                order@,
                p,
                #[trigger] src[order@[p] as int][k],
            ) by {
                assert(order@.contains(order@[p]));
                assert(pending@[order@[p] as int] == 0);
                lemma_missing_all(src[order@[p] as int]);
            }
        }
        let mut head: usize = 0;
        proof {
            assert(order@.take(0) =~= Seq::<usize>::empty());
            lemma_distinct_len(order@, n as nat);
        }
        while head < order.len()
            invariant
                self.wf(),
                src == self.source_lists(),
                n == src.len(),
                n == self.dependents@.len(),
                head <= order@.len(),
                order@.len() <= n,
                pending@.len() == n,
                respects(src, order@),
                forall|b: int|
                    0 <= b < n ==> #[trigger] pending@[b] == missing(
                        src[b],
                        order@.take(head as int),
                    ),
                forall|b: int|
                    0 <= b < n ==> (order@.contains(b as usize) <==> #[trigger] pending@[b] == 0),
            decreases n - head,
        {
            let a: usize = order[head];
            let ghost done = order@.take(head as int);
            let ghost earlier = order@;
            assert(!done.contains(a)) by {
                if done.contains(a) {
                    let i = choose|i: int| 0 <= i < done.len() && done[i] == a;
                    assert(order@[i] == order@[head as int]);
                }
            }
            self.release(Ghost(done), &mut pending, &mut order, a);
            proof {
                assert(order@.take(head + 1) =~= done.push(a)) by {
                    assert forall|i: int| 0 <= i <= head implies order@[i] == earlier[i] by {
                        assert(order@.take(earlier.len() as int)[i] == order@[i]);
                    }
                }
                assert forall|p: int| earlier.len() <= p < order@.len() implies missing(
                    src[(#[trigger] order@[p]) as int],
                    order@.take(head + 1),
                ) == 0 by {
                    assert(order@.contains(order@[p]));
                    assert(pending@[order@[p] as int] == 0);
                }
                lemma_extend_respects(src, earlier, order@, head as int);
                lemma_distinct_len(order@, n as nat);
            }
            head += 1;
        }
        assert(order@.take(head as int) =~= order@);
        let mut b: usize = 0;
        while b < n
            invariant
                self.wf(),
                src == self.source_lists(),
                n == src.len(),
                b <= n,
                pending@.len() == n,
                forall|c: int|
                    0 <= c < n ==> #[trigger] pending@[c] == missing(src[c], order@),
                forall|c: int|
                    0 <= c < n ==> (order@.contains(c as usize) <==> #[trigger] pending@[c] == 0),
                forall|c: int| 0 <= c < b ==> #[trigger] pending@[c] == 0,
            decreases n - b,
        {
            if pending[b] != 0 {
                proof {
                    assert forall|c: int| 0 <= c < n implies (order@.contains(c as usize)
                        <==> missing(#[trigger] src[c], order@) == 0) by {
                        assert(pending@[c] == missing(src[c], order@));
                    }
                    lemma_stuck(src, order@, b as int);
                }
                return None;
            }
            b += 1;
        }
        proof {
            assert forall|c: int| 0 <= c < n implies order@.contains(#[trigger] (c as usize)) by {
                assert(pending@[c] == 0);
            }
            lemma_order_ranks(src, order@);
        }
        Some(order)
    }
}

pub proof fn lemma_contains_push(s: Seq<usize>, y: usize, x: usize)
    ensures
        s.push(y).contains(x) <==> s.contains(x) || x == y,
{
    let t = s.push(y);
    assert(t[s.len() as int] == y);
    if s.contains(x) {
        let i = choose|i: int| 0 <= i < s.len() && s[i] == x;
        assert(t[i] == x);
    }
    if t.contains(x) {
        let i = choose|i: int| 0 <= i < t.len() && t[i] == x;
        assert(i < s.len() ==> s[i] == x);
    }
}

/// Nodes whose sources are all done can come next.
proof fn lemma_extend_respects(
    sources: Seq<Seq<usize>>,
    order: Seq<usize>,
    next: Seq<usize>,
    head: int,
)
    requires
        respects(sources, order),
        0 <= head < order.len() <= next.len(),
        next.take(order.len() as int) == order,
        next.no_duplicates(),
        forall|p: int| 0 <= p < next.len() ==> (#[trigger] next[p]) < sources.len(),
        forall|p: int|
            order.len() <= p < next.len() ==> missing(
                sources[(#[trigger] next[p]) as int],
                next.take(head + 1),
            ) == 0,
    ensures
        respects(sources, next),
{
    let done = next.take(head + 1);
    assert forall|p: int, k: int|
        0 <= p < next.len() && 0 <= k < sources[next[p] as int].len() implies before(
        next,
        p,
        #[trigger] sources[next[p] as int][k],
    ) by {
        let x = sources[next[p] as int][k];
        if p < order.len() {
            assert(next.take(order.len() as int)[p] == next[p]);
            assert(before(order, p, sources[order[p] as int][k]));
            let q = choose|q: int| 0 <= q < p && q < order.len() && #[trigger] order[q] == x;
            assert(next.take(order.len() as int)[q] == next[q]);
        } else {
            lemma_missing_none(sources[next[p] as int], done);
            assert(done.contains(x));
            let q = choose|q: int| 0 <= q < done.len() && done[q] == x;
            assert(next[q] == x);
        }
    }
}

/// Distinct numbers below `n` are at most `n`.
pub proof fn lemma_distinct_len(s: Seq<usize>, n: nat)
    requires
        s.no_duplicates(),
        forall|i: int| 0 <= i < s.len() ==> (#[trigger] s[i]) < n,
    ensures
        s.len() <= n,
    decreases n,
{
    if n > 0 {
        let y = (n - 1) as usize;
        if s.contains(y) {
            let i = choose|i: int| 0 <= i < s.len() && s[i] == y;
            let t = s.remove(i);
            assert forall|j: int| 0 <= j < t.len() implies (#[trigger] t[j]) < n - 1 by {
                if j < i {
                    assert(t[j] == s[j]);
                } else {
                    assert(t[j] == s[j + 1]);
                }
            }
            assert(t.no_duplicates());
            lemma_distinct_len(t, (n - 1) as nat);
        } else {
            assert forall|j: int| 0 <= j < s.len() implies (#[trigger] s[j]) < n - 1 by {
                assert(s.contains(s[j]));
            }
            lemma_distinct_len(s, (n - 1) as nat);
        }
    } else if s.len() > 0 {
        assert(s[0] < n);
    }
}

} // verus!
