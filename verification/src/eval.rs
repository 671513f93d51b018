//! The move evaluator: a bounded breadth-first search for the nearest food.

use vstd::prelude::*;
use crate::board::Board;

verus! {

/// The search's depth ceiling, and the worst rank a candidate move can get.
pub const MAX_DEPTH: i32 = 50;

/// The connection targets of cell `i`, as a set of indices.
pub open spec fn targets_set(b: Board, i: int) -> Set<int> {
    Set::new(
        |j: int|
            exists|k: int|
                0 <= k < b.nodes[i].connections.targets().len()
                    && b.nodes[i].connections.targets()[k] as int == j,
    )
}

/// All connection targets of a set of cells.
pub open spec fn expand(b: Board, s: Set<int>) -> Set<int> {
    Set::new(|j: int| exists|i: int| s.contains(i) && targets_set(b, i).contains(j))
}

/// The breadth-first frontier at depth `d` from `start`: depth zero holds the
/// start's direct targets; each later level holds the not yet enqueued
/// targets of the previous one.
pub open spec fn level(b: Board, start: int, d: nat) -> Set<int>
    decreases d, 0nat,
{
    if d == 0 {
        targets_set(b, start)
    } else {
        expand(b, level(b, start, (d - 1) as nat)).difference(seen(b, start, (d - 1) as nat))
    }
}

/// Every cell enqueued up to depth `d`.
pub open spec fn seen(b: Board, start: int, d: nat) -> Set<int>
    decreases d, 1nat,
{
    if d == 0 {
        level(b, start, 0)
    } else {
        seen(b, start, (d - 1) as nat).union(level(b, start, d))
    }
}

/// Whether some cell of the set holds food.
pub open spec fn food_in(b: Board, s: Set<int>) -> bool {
    exists|i: int| s.contains(i) && 0 <= i < b.nodes.len() && b.nodes[i].is_food
}

/// The first depth at or after `d`, up to the ceiling, whose frontier holds food.
pub open spec fn first_food_depth(b: Board, start: int, d: int) -> int
    decreases MAX_DEPTH as int - d,
{
    if d >= MAX_DEPTH as int {
        MAX_DEPTH as int
    } else if food_in(b, level(b, start, d as nat)) {
        d
    } else {
        first_food_depth(b, start, d + 1)
    }
}

/// The rank of a candidate cell: the ceiling if the cell is occupied by the
/// snake or already holds food, else the first frontier depth at which food
/// appears, capped at the ceiling.
pub open spec fn eval_spec(b: Board, start: int) -> int {
    if b.nodes[start].is_snake || b.nodes[start].is_food {
        MAX_DEPTH as int
    } else {
        first_food_depth(b, start, 0)
    }
}

proof fn lemma_first_food_depth_range(b: Board, start: int, d: int)
    requires
        0 <= d <= MAX_DEPTH as int,
    ensures
        d <= first_food_depth(b, start, d) <= MAX_DEPTH as int,
    decreases MAX_DEPTH as int - d,
{
    if d < MAX_DEPTH as int && !food_in(b, level(b, start, d as nat)) {
        lemma_first_food_depth_range(b, start, d + 1);
    }
}

/// The evaluator's rank always lies in `[0, MAX_DEPTH]`.
pub proof fn lemma_eval_range(b: Board, start: int)
    ensures
        0 <= eval_spec(b, start) <= MAX_DEPTH as int,
{
    lemma_first_food_depth_range(b, start, 0);
}

/// A start cell occupied by the snake, or itself food, is ranked with the
/// ceiling outright: no search result enters into it.
pub proof fn lemma_eval_flagged(b: Board, start: int)
    requires
        b.nodes[start].is_snake || b.nodes[start].is_food,
    ensures
        eval_spec(b, start) == MAX_DEPTH as int,
{
}

/// The indices a frontier vector holds, as a set.
pub open spec fn index_set(s: Seq<usize>) -> Set<int> {
    Set::new(|j: int| exists|k: int| 0 <= k < s.len() && s[k] as int == j)
}

/// The indices the first `k` slots of a frontier vector hold.
pub open spec fn prefix_targets(ts: Seq<usize>, k: int) -> Set<int> {
    Set::new(|j: int| exists|kk: int| 0 <= kk < k && ts[kk] as int == j)
}

/// All targets of the cells in the first `k` slots of a frontier vector.
pub open spec fn prefix_expand(b: Board, s: Seq<usize>, k: int) -> Set<int> {
    Set::new(|j: int| exists|kk: int| 0 <= kk < k && targets_set(b, s[kk] as int).contains(j))
}

proof fn lemma_index_set_push(s: Seq<usize>, t: usize)
    ensures
        index_set(s.push(t)) == index_set(s).insert(t as int),
{
    let sp = s.push(t);
    assert forall|j: int| index_set(sp).contains(j) implies index_set(s).insert(
        t as int,
    ).contains(j) by {
        let k = choose|k: int| 0 <= k < sp.len() && sp[k] as int == j;
        if k < s.len() {
            assert(s[k] as int == j);
        } else {
            assert(j == t as int);
        }
    }
    assert forall|j: int| index_set(s).insert(t as int).contains(j) implies index_set(
        sp,
    ).contains(j) by {
        if j == t as int {
            assert(sp[s.len() as int] as int == j);
        } else {
            let k = choose|k: int| 0 <= k < s.len() && s[k] as int == j;
            assert(sp[k] as int == j);
        }
    }
    assert(index_set(sp) =~= index_set(s).insert(t as int));
}

proof fn lemma_prefix_targets_step(ts: Seq<usize>, m: int)
    requires
        0 <= m < ts.len(),
    ensures
        prefix_targets(ts, m + 1) == prefix_targets(ts, m).insert(ts[m] as int),
{
    assert forall|j: int| prefix_targets(ts, m + 1).contains(j) implies prefix_targets(
        ts,
        m,
    ).insert(ts[m] as int).contains(j) by {
        let kk = choose|kk: int| 0 <= kk < m + 1 && ts[kk] as int == j;
        if kk < m {
            assert(prefix_targets(ts, m).contains(j));
        }
    }
    assert forall|j: int| prefix_targets(ts, m).insert(ts[m] as int).contains(j)
        implies prefix_targets(ts, m + 1).contains(j) by {
        if prefix_targets(ts, m).contains(j) {
            let kk = choose|kk: int| 0 <= kk < m && ts[kk] as int == j;
            assert(0 <= kk < m + 1 && ts[kk] as int == j);
        } else {
            assert(ts[m] as int == j);
        }
    }
    assert(prefix_targets(ts, m + 1) =~= prefix_targets(ts, m).insert(ts[m] as int));
}

proof fn lemma_prefix_targets_full(ts: Seq<usize>)
    ensures
        prefix_targets(ts, ts.len() as int) == index_set(ts),
{
    assert(prefix_targets(ts, ts.len() as int) =~= index_set(ts));
}

proof fn lemma_prefix_expand_step(b: Board, s: Seq<usize>, k: int)
    requires
        0 <= k < s.len(),
    ensures
        prefix_expand(b, s, k + 1) == prefix_expand(b, s, k).union(targets_set(b, s[k] as int)),
{
    assert forall|j: int| prefix_expand(b, s, k + 1).contains(j) implies prefix_expand(
        b,
        s,
        k,
    ).union(targets_set(b, s[k] as int)).contains(j) by {
        let kk = choose|kk: int| 0 <= kk < k + 1 && targets_set(b, s[kk] as int).contains(j);
        if kk < k {
            assert(prefix_expand(b, s, k).contains(j));
        }
    }
    assert forall|j: int| prefix_expand(b, s, k).union(targets_set(b, s[k] as int)).contains(j)
        implies prefix_expand(b, s, k + 1).contains(j) by {
        if prefix_expand(b, s, k).contains(j) {
            let kk = choose|kk: int| 0 <= kk < k && targets_set(b, s[kk] as int).contains(j);
            assert(0 <= kk < k + 1 && targets_set(b, s[kk] as int).contains(j));
        } else {
            assert(targets_set(b, s[k as int] as int).contains(j));
        }
    }
    assert(prefix_expand(b, s, k + 1) =~= prefix_expand(b, s, k).union(
        targets_set(b, s[k] as int),
    ));
}

proof fn lemma_prefix_expand_full(b: Board, s: Seq<usize>)
    ensures
        prefix_expand(b, s, s.len() as int) == expand(b, index_set(s)),
{
    assert forall|j: int| prefix_expand(b, s, s.len() as int).contains(j) implies expand(
        b,
        index_set(s),
    ).contains(j) by {
        let kk = choose|kk: int|
            0 <= kk < s.len() && targets_set(b, s[kk] as int).contains(j);
        assert(index_set(s).contains(s[kk] as int));
    }
    assert forall|j: int| expand(b, index_set(s)).contains(j) implies prefix_expand(
        b,
        s,
        s.len() as int,
    ).contains(j) by {
        let i = choose|i: int| index_set(s).contains(i) && targets_set(b, i).contains(j);
        let kk = choose|kk: int| 0 <= kk < s.len() && s[kk] as int == i;
        assert(targets_set(b, s[kk] as int).contains(j));
    }
    assert(prefix_expand(b, s, s.len() as int) =~= expand(b, index_set(s)));
}

impl Board {
    /// Rank a candidate move: the breadth-first depth at which food is first
    /// reached outward from `index`, or `MAX_DEPTH` when the cell is occupied
    /// or already food, or when no food lies within the depth ceiling.
    pub fn eval_move(&self, index: usize) -> (r: i32)
        requires
            self.wf_topology(),
            index < self.nodes.len(),
        ensures
            r as int == eval_spec(*self, index as int),
            0 <= r <= MAX_DEPTH,
    {
        proof {
            lemma_eval_range(*self, index as int);
        }
        if self.nodes[index].is_snake || self.nodes[index].is_food {
            return MAX_DEPTH;
        }
        let n = self.nodes.len();
        let mut visited: Vec<bool> = vec![false; n];
        let mut frontier: Vec<usize> = Vec::new();

        // depth-zero frontier: the index cell's own targets, each marked as
        // enqueued the moment it enters
        let hl = self.nodes[index].conn_len();
        let mut k: usize = 0;
        while k < hl
            invariant
                k <= hl,
                self.wf_topology(),
                index < n,
                n == self.nodes.len(),
                hl == self.nodes@[index as int].connections.targets().len(),
                visited@.len() == n,
                forall|e: int| 0 <= e < frontier@.len() ==> (#[trigger] frontier@[e]) < n,
                forall|j: int|
                    0 <= j < n ==> ((#[trigger] visited@[j]) <==> index_set(frontier@).contains(j)),
                index_set(frontier@) == prefix_targets(
                    self.nodes@[index as int].connections.targets(),
                    k as int,
                ),
            decreases hl - k,
        {
            let ghost ts = self.nodes@[index as int].connections.targets();
            let t = self.nodes[index].conn_at(k);
            proof {
                lemma_prefix_targets_step(ts, k as int);
            }
            if !visited[t] {
                let ghost fr = frontier@;
                visited.set(t, true);
                frontier.push(t);
                proof {
                    lemma_index_set_push(fr, t);
                }
            } else {
                proof {
                    assert(index_set(frontier@).contains(t as int));
                    assert(prefix_targets(ts, k + 1) =~= index_set(frontier@));
                }
            }
            k += 1;
        }
        proof {
            lemma_prefix_targets_full(self.nodes@[index as int].connections.targets());
            assert(prefix_targets(self.nodes@[index as int].connections.targets(), hl as int)
                =~= targets_set(*self, index as int));
            assert(index_set(frontier@) == level(*self, index as int, 0));
            assert(seen(*self, index as int, 0) == level(*self, index as int, 0));
        }

        let mut depth: usize = 0;
        while depth < (MAX_DEPTH as usize)
            invariant
                depth <= MAX_DEPTH as usize,
                self.wf_topology(),
                index < n,
                n == self.nodes.len(),
                !self.nodes@[index as int].is_snake,
                !self.nodes@[index as int].is_food,
                visited@.len() == n,
                forall|e: int| 0 <= e < frontier@.len() ==> (#[trigger] frontier@[e]) < n,
                index_set(frontier@) == level(*self, index as int, depth as nat),
                forall|j: int|
                    0 <= j < n ==> ((#[trigger] visited@[j]) <==> seen(
                        *self,
                        index as int,
                        depth as nat,
                    ).contains(j)),
                forall|d: int|
                    0 <= d < depth ==> !food_in(
                        *self,
                        #[trigger] level(*self, index as int, d as nat),
                    ),
                first_food_depth(*self, index as int, 0) == first_food_depth(
                    *self,
                    index as int,
                    depth as int,
                ),
            decreases MAX_DEPTH as int - depth,
        {
            // scan the frontier for food
            let mut k: usize = 0;
            let mut found = false;
            while k < frontier.len()
                invariant
                    k <= frontier@.len(),
                    n == self.nodes.len(),
                    forall|e: int| 0 <= e < frontier@.len() ==> (#[trigger] frontier@[e]) < n,
                    found <==> (exists|kk: int|
                        0 <= kk < k && self.nodes@[#[trigger] frontier@[kk] as int].is_food),
                decreases frontier@.len() - k,
            {
                if self.nodes[frontier[k]].is_food {
                    found = true;
                }
                k += 1;
            }
            if found {
                proof {
                    let kk = choose|kk: int|
                        0 <= kk < frontier@.len() && self.nodes@[#[trigger] frontier@[kk] as int].is_food;
                    assert(index_set(frontier@).contains(frontier@[kk] as int));
                    assert(food_in(*self, level(*self, index as int, depth as nat)));
                    assert(first_food_depth(*self, index as int, depth as int) == depth as int);
                    assert(first_food_depth(*self, index as int, 0) == depth as int);
                    assert(eval_spec(*self, index as int) == first_food_depth(
                        *self,
                        index as int,
                        0,
                    ));
                }
                let rank = depth as i32;
                proof {
                    assert(rank as int == depth as int);
                    assert(rank as int == eval_spec(*self, index as int));
                }
                return rank;
            }
            proof {
                assert(!food_in(*self, level(*self, index as int, depth as nat))) by {
                    if food_in(*self, level(*self, index as int, depth as nat)) {
                        let j = choose|j: int|
                            level(*self, index as int, depth as nat).contains(j) && 0 <= j
                                < self.nodes.len() && self.nodes[j].is_food;
                        assert(index_set(frontier@).contains(j));
                        let kk = choose|kk: int|
                            0 <= kk < frontier@.len() && frontier@[kk] as int == j;
                        assert(self.nodes@[frontier@[kk] as int].is_food);
                    }
                }
                assert(first_food_depth(*self, index as int, depth as int) == first_food_depth(
                    *self,
                    index as int,
                    depth + 1,
                ));
            }

            // expand to the next level, marking each cell visited as it is
            // enqueued so nothing is queued twice
            let ghost lvl = level(*self, index as int, depth as nat);
            let ghost sn = seen(*self, index as int, depth as nat);
            let mut next: Vec<usize> = Vec::new();
            let mut k: usize = 0;
            while k < frontier.len()
                invariant
                    k <= frontier@.len(),
                    self.wf_topology(),
                    n == self.nodes.len(),
                    visited@.len() == n,
                    forall|e: int| 0 <= e < frontier@.len() ==> (#[trigger] frontier@[e]) < n,
                    forall|e: int| 0 <= e < next@.len() ==> (#[trigger] next@[e]) < n,
                    index_set(next@) == prefix_expand(*self, frontier@, k as int).difference(sn),
                    forall|j: int|
                        0 <= j < n ==> ((#[trigger] visited@[j]) <==> sn.contains(j) || index_set(
                            next@,
                        ).contains(j)),
                decreases frontier@.len() - k,
            {
                let cell = frontier[k];
                let cl = self.nodes[cell].conn_len();
                let ghost ts = self.nodes@[cell as int].connections.targets();
                let mut m: usize = 0;
                while m < cl
                    invariant
                        m <= cl,
                        self.wf_topology(),
                        n == self.nodes.len(),
                        visited@.len() == n,
                        k < frontier@.len(),
                        cell == frontier@[k as int],
                        cell < n,
                        ts == self.nodes@[cell as int].connections.targets(),
                        cl == ts.len(),
                        forall|e: int| 0 <= e < next@.len() ==> (#[trigger] next@[e]) < n,
                        index_set(next@) == prefix_expand(*self, frontier@, k as int).union(
                            prefix_targets(ts, m as int),
                        ).difference(sn),
                        forall|j: int|
                            0 <= j < n ==> ((#[trigger] visited@[j]) <==> sn.contains(j)
                                || index_set(next@).contains(j)),
                    decreases cl - m,
                {
                    let t = self.nodes[cell].conn_at(m);
                    proof {
                        lemma_prefix_targets_step(ts, m as int);
                    }
                    if !visited[t] {
                        let ghost nx = next@;
                        visited.set(t, true);
                        next.push(t);
                        proof {
                            lemma_index_set_push(nx, t);
                            assert(index_set(next@) =~= prefix_expand(
                                *self,
                                frontier@,
                                k as int,
                            ).union(prefix_targets(ts, m + 1)).difference(sn));
                        }
                    } else {
                        proof {
                            assert(index_set(next@) =~= prefix_expand(
                                *self,
                                frontier@,
                                k as int,
                            ).union(prefix_targets(ts, m + 1)).difference(sn));
                        }
                    }
                    m += 1;
                }
                proof {
                    lemma_prefix_expand_step(*self, frontier@, k as int);
                    lemma_prefix_targets_full(ts);
                    assert(prefix_targets(ts, cl as int) =~= targets_set(*self, cell as int));
                    assert(index_set(next@) =~= prefix_expand(
                        *self,
                        frontier@,
                        k + 1,
                    ).difference(sn));
                }
                k += 1;
            }
            proof {
                lemma_prefix_expand_full(*self, frontier@);
                assert(index_set(next@) == level(*self, index as int, (depth + 1) as nat));
                assert(seen(*self, index as int, (depth + 1) as nat) == sn.union(
                    level(*self, index as int, (depth + 1) as nat),
                ));
            }
            frontier = next;
            depth += 1;
        }
        proof {
            assert(first_food_depth(*self, index as int, MAX_DEPTH as int) == MAX_DEPTH as int);
        }
        MAX_DEPTH
    }
}

/// One connection step: `j` is among the targets of cell `i`.
pub open spec fn edge(b: Board, i: int, j: int) -> bool {
    targets_set(b, i).contains(j)
}

/// A walk outward from `start`: the first cell follows from `start` by one
/// connection step, and every later cell from its predecessor. A portal hop
/// is one step like any other.
pub open spec fn is_walk(b: Board, start: int, p: Seq<int>) -> bool {
    &&& p.len() > 0
    &&& edge(b, start, p[0])
    &&& forall|k: int| 0 <= k < p.len() - 1 ==> edge(b, #[trigger] p[k], p[k + 1])
}

proof fn lemma_level_reachable(b: Board, start: int, d: nat, j: int)
    requires
        level(b, start, d).contains(j),
    ensures
        exists|p: Seq<int>| is_walk(b, start, p) && p.len() == d + 1 && p.last() == j,
    decreases d,
{
    if d == 0 {
        let p = seq![j];
        assert(is_walk(b, start, p) && p.len() == d + 1 && p.last() == j);
    } else {
        let prev = (d - 1) as nat;
        assert(expand(b, level(b, start, prev)).contains(j));
        let i = choose|i: int| level(b, start, prev).contains(i) && targets_set(b, i).contains(j);
        lemma_level_reachable(b, start, prev, i);
        let p0 = choose|p: Seq<int>| is_walk(b, start, p) && p.len() == d && p.last() == i;
        let p = p0.push(j);
        assert(is_walk(b, start, p)) by {
            assert forall|k: int| 0 <= k < p.len() - 1 implies edge(b, #[trigger] p[k], p[k + 1])
                by {
                if k < p0.len() - 1 {
                    assert(p[k] == p0[k] && p[k + 1] == p0[k + 1]);
                } else {
                    assert(p[k] == p0.last() && p[k + 1] == j);
                }
            }
        }
        assert(p.len() == d + 1 && p.last() == j);
    }
}

proof fn lemma_ffd_hits_food(b: Board, start: int, d: int)
    requires
        0 <= d <= MAX_DEPTH as int,
        first_food_depth(b, start, d) < MAX_DEPTH as int,
    ensures
        food_in(b, level(b, start, first_food_depth(b, start, d) as nat)),
    decreases MAX_DEPTH as int - d,
{
    if !food_in(b, level(b, start, d as nat)) {
        lemma_ffd_hits_food(b, start, d + 1);
    }
}

/// A rank below the ceiling is sound: some walk of exactly rank+1 cells leads
/// from the start to a cell holding food.
pub proof fn lemma_eval_reaches_food(b: Board, start: int)
    requires
        !b.nodes[start].is_snake,
        !b.nodes[start].is_food,
        eval_spec(b, start) < MAX_DEPTH as int,
    ensures
        exists|p: Seq<int>|
            is_walk(b, start, p) && p.len() == eval_spec(b, start) + 1 && 0 <= p.last()
                < b.nodes.len() && b.nodes[p.last()].is_food,
{
    let r = eval_spec(b, start);
    lemma_eval_range(b, start);
    lemma_ffd_hits_food(b, start, 0);
    let j = choose|j: int|
        level(b, start, r as nat).contains(j) && 0 <= j < b.nodes.len() && b.nodes[j].is_food;
    lemma_level_reachable(b, start, r as nat, j);
    let p = choose|p: Seq<int>| is_walk(b, start, p) && p.len() == r + 1 && p.last() == j;
    assert(is_walk(b, start, p) && p.len() == r + 1 && 0 <= p.last() < b.nodes.len()
        && b.nodes[p.last()].is_food);
}

proof fn lemma_seen_member(b: Board, start: int, d: nat, j: int)
    requires
        seen(b, start, d).contains(j),
    ensures
        exists|dd: int| 0 <= dd <= d && (#[trigger] level(b, start, dd as nat)).contains(j),
    decreases d,
{
    if d == 0 {
        let dd: int = 0;
        assert(seen(b, start, 0) == level(b, start, 0));
        assert(0 <= dd <= d && level(b, start, dd as nat).contains(j));
    } else {
        if level(b, start, d).contains(j) {
            let dd: int = d as int;
            assert(0 <= dd <= d && level(b, start, dd as nat).contains(j));
        } else {
            lemma_seen_member(b, start, (d - 1) as nat, j);
            let dd = choose|dd: int|
                0 <= dd <= d - 1 && (#[trigger] level(b, start, dd as nat)).contains(j);
            assert(0 <= dd <= d && level(b, start, dd as nat).contains(j));
        }
    }
}

proof fn lemma_seen_mono(b: Board, start: int, d1: nat, d2: nat, j: int)
    requires
        d1 <= d2,
        seen(b, start, d1).contains(j),
    ensures
        seen(b, start, d2).contains(j),
    decreases d2,
{
    if d1 < d2 {
        lemma_seen_mono(b, start, d1, (d2 - 1) as nat, j);
    }
}

proof fn lemma_step_into_seen(b: Board, start: int, d: nat, i: int, j: int)
    requires
        level(b, start, d).contains(i),
        edge(b, i, j),
    ensures
        seen(b, start, d + 1).contains(j),
{
    assert(expand(b, level(b, start, d)).contains(j));
    if !seen(b, start, d).contains(j) {
        assert(level(b, start, d + 1).contains(j));
    } else {
        lemma_seen_mono(b, start, d, (d + 1) as nat, j);
    }
}

proof fn lemma_walk_in_seen(b: Board, start: int, p: Seq<int>)
    requires
        is_walk(b, start, p),
    ensures
        seen(b, start, (p.len() - 1) as nat).contains(p.last()),
    decreases p.len(),
{
    if p.len() == 1 {
        assert(seen(b, start, 0) == level(b, start, 0));
        assert(targets_set(b, start).contains(p[0]));
    } else {
        let p0 = p.drop_last();
        assert(is_walk(b, start, p0)) by {
            assert(edge(b, start, p0[0]));
            assert forall|k: int| 0 <= k < p0.len() - 1 implies edge(
                b,
                #[trigger] p0[k],
                p0[k + 1],
            ) by {
                assert(p0[k] == p[k] && p0[k + 1] == p[k + 1]);
            }
        }
        lemma_walk_in_seen(b, start, p0);
        lemma_seen_member(b, start, (p0.len() - 1) as nat, p0.last());
        let dd = choose|dd: int|
            0 <= dd <= p0.len() - 1 && (#[trigger] level(b, start, dd as nat)).contains(p0.last());
        assert(edge(b, p[p.len() - 2], p[p.len() - 1]));
        assert(p[p.len() - 2] == p0.last());
        lemma_step_into_seen(b, start, dd as nat, p0.last(), p.last());
        lemma_seen_mono(b, start, (dd + 1) as nat, (p.len() - 1) as nat, p.last());
    }
}

proof fn lemma_food_level_bounds_ffd(b: Board, start: int, d: int, dfood: int)
    requires
        0 <= d <= dfood < MAX_DEPTH as int,
        food_in(b, level(b, start, dfood as nat)),
    ensures
        first_food_depth(b, start, d) <= dfood,
    decreases dfood - d,
{
    if !food_in(b, level(b, start, d as nat)) {
        lemma_food_level_bounds_ffd(b, start, d + 1, dfood);
    }
}

/// The rank is minimal: no walk of at most `MAX_DEPTH` cells reaches food in
/// fewer steps than the rank reports.
pub proof fn lemma_eval_minimal(b: Board, start: int, p: Seq<int>)
    requires
        !b.nodes[start].is_snake,
        !b.nodes[start].is_food,
        is_walk(b, start, p),
        p.len() <= MAX_DEPTH as int,
        0 <= p.last() < b.nodes.len(),
        b.nodes[p.last()].is_food,
    ensures
        eval_spec(b, start) <= p.len() - 1,
{
    lemma_walk_in_seen(b, start, p);
    lemma_seen_member(b, start, (p.len() - 1) as nat, p.last());
    let dd = choose|dd: int|
        0 <= dd <= p.len() - 1 && (#[trigger] level(b, start, dd as nat)).contains(p.last());
    assert(food_in(b, level(b, start, dd as nat)));
    lemma_food_level_bounds_ffd(b, start, 0, dd);
}

} // verus!
