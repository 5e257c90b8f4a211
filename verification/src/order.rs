//! Kahn's algorithm over task indices, with ties broken by index. The graph module turns
//! these facts about indices into facts about task IDs.

use vstd::prelude::*;
use vstd::set_lib::*;

verus! {

/// Adjacency rows: row `i` lists, without repeats, the indices task `i` requires.
pub open spec fn rows_wf(rows: Seq<Seq<usize>>) -> bool {
    forall|i: int|
        0 <= i < rows.len() ==> {
            &&& (#[trigger] rows[i]).no_duplicates()
            &&& forall|k: int| 0 <= k < rows[i].len() ==> (#[trigger] rows[i][k]) < rows.len()
        }
}

/// How many of `deps` are not yet in `done`.
pub open spec fn unfinished(deps: Seq<usize>, done: Seq<usize>) -> nat
    decreases deps.len(),
{
    if deps.len() == 0 {
        0
    } else {
        unfinished(deps.drop_last(), done) + if done.contains(deps.last()) {
            0nat
        } else {
            1nat
        }
    }
}

/// Position `p` of `ord` was released at position `k`: every prerequisite of `ord[p]` is
/// among the first `k + 1` entries, and `ord[k]` is one of them (`k == -1` when it has
/// none).
#[verifier::opaque]
pub open spec fn released_idx(rows: Seq<Seq<usize>>, ord: Seq<usize>, p: int, k: int) -> bool {
    &&& forall|d: usize| #[trigger] rows[ord[p] as int].contains(d) ==> ord.take(k + 1).contains(d)
    &&& (k == -1 || (0 <= k < p && rows[ord[p] as int].contains(ord[k])))
}

/// Entries come in order of the position that released them, then of index.
#[verifier::opaque]
pub open spec fn rank_ordered(ord: Seq<usize>, rel: Seq<int>) -> bool {
    forall|p: int, q: int|
        0 <= p < q < ord.len() ==> #[trigger] rel[p] < #[trigger] rel[q] || (rel[p] == rel[q]
            && ord[p] < ord[q])
}

/// A non-empty set of indices in which every member requires another member.
pub open spec fn idx_stuck(rows: Seq<Seq<usize>>, s: Set<usize>) -> bool {
    &&& exists|x: usize| s.contains(x)
    &&& forall|x: usize|
        s.contains(x) ==> x < rows.len() && exists|y: usize|
            #![trigger s.contains(y)]
            s.contains(y) && rows[x as int].contains(y)
}

/// No set of indices is stuck.
pub open spec fn idx_acyclic(rows: Seq<Seq<usize>>) -> bool {
    forall|s: Set<usize>| !idx_stuck(rows, s)
}

/// Pushing onto a list adds exactly the pushed value to what it contains.
proof fn lemma_contains_push(s: Seq<usize>, x: usize, y: usize)
    ensures
        s.push(x).contains(y) <==> (s.contains(y) || y == x),
{
    if s.contains(y) {
        let i = choose|i: int| 0 <= i < s.len() && s[i] == y;
        assert(s.push(x)[i] == y);
    }
    if y == x {
        assert(s.push(x)[s.len() as int] == y);
    }
    if s.push(x).contains(y) {
        let i = choose|i: int| 0 <= i < s.push(x).len() && s.push(x)[i] == y;
        if i < s.len() {
            assert(s[i] == y);
        }
    }
}

/// With nothing done, every listed index is unfinished.
proof fn lemma_unfinished_empty(deps: Seq<usize>)
    ensures
        unfinished(deps, Seq::empty()) == deps.len(),
    decreases deps.len(),
{
    if deps.len() > 0 {
        lemma_unfinished_empty(deps.drop_last());
    }
}

/// Finishing an index the list does not hold leaves its count unchanged.
proof fn lemma_unfinished_other(deps: Seq<usize>, done: Seq<usize>, x: usize)
    requires
        !deps.contains(x),
    ensures
        unfinished(deps, done.push(x)) == unfinished(deps, done),
    decreases deps.len(),
{
    if deps.len() > 0 {
        let init = deps.drop_last();
        assert(!init.contains(x)) by {
            if init.contains(x) {
                let i = choose|i: int| 0 <= i < init.len() && init[i] == x;
                assert(deps[i] == x);
            }
        }
        lemma_unfinished_other(init, done, x);
        lemma_contains_push(done, x, deps.last());
        assert(deps.last() != x) by {
            assert(deps[deps.len() - 1] == deps.last());
        }
    }
}

/// Finishing an index the list holds once lowers its count by one.
proof fn lemma_unfinished_step(deps: Seq<usize>, done: Seq<usize>, x: usize)
    requires
        deps.no_duplicates(),
        deps.contains(x),
        !done.contains(x),
    ensures
        unfinished(deps, done.push(x)) + 1 == unfinished(deps, done),
    decreases deps.len(),
{
    let init = deps.drop_last();
    lemma_contains_push(done, x, deps.last());
    if deps.last() == x {
        assert(!init.contains(x)) by {
            if init.contains(x) {
                let i = choose|i: int| 0 <= i < init.len() && init[i] == x;
                assert(deps[i] == deps[deps.len() - 1]);
            }
        }
        lemma_unfinished_other(init, done, x);
    } else {
        assert(init.contains(x)) by {
            let i = choose|i: int| 0 <= i < deps.len() && deps[i] == x;
            assert(i != deps.len() - 1);
            assert(init[i] == x);
        }
        assert(init.no_duplicates());
        lemma_unfinished_step(init, done, x);
    }
}

/// A listed index not yet done keeps the count above zero.
proof fn lemma_unfinished_zero(deps: Seq<usize>, done: Seq<usize>, d: usize)
    requires
        deps.contains(d),
        !done.contains(d),
    ensures
        unfinished(deps, done) > 0,
    decreases deps.len(),
{
    let init = deps.drop_last();
    if deps.last() != d {
        assert(init.contains(d)) by {
            let i = choose|i: int| 0 <= i < deps.len() && deps[i] == d;
            assert(i != deps.len() - 1);
            assert(init[i] == d);
        }
        lemma_unfinished_zero(init, done, d);
    }
}

/// A count above zero names a listed index not yet done.
proof fn lemma_unfinished_witness(deps: Seq<usize>, done: Seq<usize>) -> (d: usize)
    requires
        unfinished(deps, done) > 0,
    ensures
        deps.contains(d),
        !done.contains(d),
    decreases deps.len(),
{
    let init = deps.drop_last();
    if done.contains(deps.last()) {
        let d = lemma_unfinished_witness(init, done);
        let i = choose|i: int| 0 <= i < init.len() && init[i] == d;
        assert(deps[i] == d);
        d
    } else {
        assert(deps[deps.len() - 1] == deps.last());
        deps.last()
    }
}

/// The indices below `n` form a finite set of `n` elements.
proof fn lemma_usize_range(n: int)
    requires
        0 <= n <= usize::MAX + 1,
    ensures
        Set::new(|v: usize| v < n).finite(),
        Set::new(|v: usize| v < n).len() == n,
    decreases n,
{
    if n == 0 {
        assert(Set::new(|v: usize| v < n) =~= Set::empty());
    } else {
        lemma_usize_range(n - 1);
        assert(Set::new(|v: usize| v < n - 1).insert((n - 1) as usize) =~= Set::new(
            |v: usize| v < n,
        ));
    }
}

/// A list of distinct indices below `n` has at most `n` entries, and has exactly `n` just
/// when it holds every index below `n`.
pub proof fn lemma_distinct_indices(s: Seq<usize>, n: int)
    requires
        0 <= n <= usize::MAX + 1,
        s.no_duplicates(),
        forall|i: int| 0 <= i < s.len() ==> (#[trigger] s[i]) < n,
    ensures
        s.len() <= n,
        s.len() == n <==> forall|v: usize| v < n ==> s.contains(v),
{
    let a = s.to_set();
    let range = Set::new(|v: usize| v < n);
    lemma_usize_range(n);
    s.unique_seq_to_set();
    assert(a.subset_of(range));
    lemma_len_subset(a, range);
    if s.len() == n {
        lemma_subset_equality(a, range);
        assert forall|v: usize| v < n implies s.contains(v) by {
            assert(range.contains(v));
        }
    }
    if forall|v: usize| v < n ==> s.contains(v) {
        assert(range.subset_of(a));
        lemma_len_subset(range, a);
    }
}

/// A row of adjacency rows holds `x`.
pub fn row_contains(row: &Vec<usize>, x: usize) -> (r: bool)
    ensures
        r == row@.contains(x),
{
    let mut i: usize = 0;
    while i < row.len()
        invariant
            i <= row@.len(),
            forall|k: int| 0 <= k < i ==> row@[k] != x,
        decreases row@.len() - i,
    {
        if row[i] == x {
            return true;
        }
        i = i + 1;
    }
    false
}

/// The starting state of the ordering: each index's count of prerequisites, and the indices
/// with none, ascending.
fn initial_queue(rows: &Vec<Vec<usize>>) -> (res: (Vec<usize>, Vec<usize>))
    requires
        rows_wf(rows@.map_values(|r: Vec<usize>| r@)),
    ensures
        ({
            let (remaining, queue) = res;
            let rs = rows@.map_values(|r: Vec<usize>| r@);
            &&& remaining@.len() == rows@.len()
            &&& forall|u: int| 0 <= u < rows@.len() ==> #[trigger] remaining@[u] == rs[u].len()
            &&& queue@.no_duplicates()
            &&& rank_ordered(queue@, Seq::new(queue@.len(), |p: int| -1int))
            &&& forall|p: int| 0 <= p < queue@.len() ==> (#[trigger] queue@[p]) < rows@.len()
            &&& forall|u: usize| u < rows@.len() ==> (#[trigger] queue@.contains(u) <==> remaining@[u as int] == 0)
        }),
{
    let ghost rs = rows@.map_values(|r: Vec<usize>| r@);
    let n = rows.len();
    let mut remaining: Vec<usize> = Vec::new();
    let mut queue: Vec<usize> = Vec::new();
    let mut v: usize = 0;
    while v < n
        invariant
            n == rows@.len(),
            rs == rows@.map_values(|r: Vec<usize>| r@),
            v <= n,
            remaining@.len() == v,
            forall|u: int| 0 <= u < v ==> #[trigger] remaining@[u] == rs[u].len(),
            forall|p: int, q: int| 0 <= p < q < queue@.len() ==> queue@[p] < queue@[q],
            forall|p: int| 0 <= p < queue@.len() ==> (#[trigger] queue@[p]) < v,
            forall|u: usize| u < v ==> (#[trigger] queue@.contains(u) <==> remaining@[u as int] == 0),
        decreases n - v,
    {
        let len = rows[v].len();
        let ghost old_queue = queue@;
        remaining.push(len);
        if len == 0 {
            queue.push(v);
        }
        proof {
            assert forall|u: usize| u < v + 1 implies (#[trigger] queue@.contains(u)
                <==> remaining@[u as int] == 0) by {
                lemma_contains_push(old_queue, v, u);
                if old_queue.contains(u) {
                    let i = choose|i: int| 0 <= i < old_queue.len() && old_queue[i] == u;
                }
            }
        }
        v = v + 1;
    }
    proof {
        assert(queue@.no_duplicates()) by {
            assert forall|p: int, q: int| 0 <= p < queue@.len() && 0 <= q < queue@.len() && p != q
                implies queue@[p] != queue@[q] by {
                if p < q {
                    assert(queue@[p] < queue@[q]);
                } else {
                    assert(queue@[q] < queue@[p]);
                }
            }
        }
        reveal(rank_ordered);
    }
    (remaining, queue)
}

/// The state of the ordering after `head` entries of `queue` have been taken: counts of
/// prerequisites not yet taken, and a queue that holds exactly the indices with none left.
#[verifier::opaque]
pub open spec fn state_ok(
    rs: Seq<Seq<usize>>,
    remaining: Seq<usize>,
    queue: Seq<usize>,
    rel: Seq<int>,
    head: int,
) -> bool {
    &&& rows_wf(rs)
    &&& remaining.len() == rs.len()
    &&& 0 <= head <= queue.len() <= rs.len()
    &&& queue.no_duplicates()
    &&& forall|i: int| 0 <= i < queue.len() ==> (#[trigger] queue[i]) < rs.len()
    &&& rel.len() == queue.len()
    &&& forall|p: int| 0 <= p < queue.len() ==> -1 <= #[trigger] rel[p] < head
    &&& forall|p: int| 0 <= p < queue.len() ==> released_idx(rs, queue, p, #[trigger] rel[p])
    &&& rank_ordered(queue, rel)
    &&& forall|u: int| 0 <= u < rs.len() ==> #[trigger] remaining[u] == unfinished(rs[u], queue.take(head))
    &&& forall|u: usize| u < rs.len() ==> (#[trigger] queue.contains(u) <==> remaining[u as int] == 0)
}

/// Take entry `head` of the queue: every index that required it has one prerequisite fewer,
/// and those left with none join the queue in index order, released by position `head`.
#[verifier::rlimit(50)]
fn release(
    rows: &Vec<Vec<usize>>,
    head: usize,
    remaining: &mut Vec<usize>,
    queue: &mut Vec<usize>,
    rel: Ghost<Seq<int>>,
) -> (new_rel: Ghost<Seq<int>>)
    requires
        state_ok(rows@.map_values(|r: Vec<usize>| r@), old(remaining)@, old(queue)@, rel@, head as int),
        head < old(queue)@.len(),
    ensures
        state_ok(rows@.map_values(|r: Vec<usize>| r@), final(remaining)@, final(queue)@, new_rel@, head + 1),
        old(queue)@.len() <= final(queue)@.len() <= rows@.len(),
        final(queue)@.take(old(queue)@.len() as int) == old(queue)@,
{
    let ghost rs = rows@.map_values(|r: Vec<usize>| r@);
    reveal(state_ok);
    let n = rows.len();
    let id = queue[head];
    let ghost before = queue@.take(head as int);
    let ghost done = queue@.take(head + 1);
    let ghost start = queue@;
    let ghost mut rel = rel@;
    proof {
        assert(done =~= before.push(id));
        assert(!before.contains(id)) by {
            if before.contains(id) {
                let i = choose|i: int| 0 <= i < before.len() && before[i] == id;
                assert(queue@[i] == queue@[head as int]);
            }
        }
    }
    let mut d: usize = 0;
    while d < n
        invariant
            n == rows@.len(),
            rs == rows@.map_values(|r: Vec<usize>| r@),
            rows_wf(rs),
            remaining@.len() == n,
            head < start.len() <= queue@.len() <= n,
            queue@.take(start.len() as int) == start,
            id == queue@[head as int],
            before == queue@.take(head as int),
            done == queue@.take(head + 1),
            done == before.push(id),
            !before.contains(id),
            d <= n,
            queue@.no_duplicates(),
            forall|i: int| 0 <= i < queue@.len() ==> (#[trigger] queue@[i]) < n,
            rel.len() == queue@.len(),
            forall|p: int| 0 <= p < queue@.len() ==> -1 <= #[trigger] rel[p] <= head,
            forall|p: int| 0 <= p < queue@.len() && #[trigger] rel[p] == head ==> queue@[p] < d,
            forall|p: int| 0 <= p < queue@.len() ==> released_idx(rs, queue@, p, #[trigger] rel[p]),
            rank_ordered(queue@, rel),
            forall|u: int| 0 <= u < d ==> #[trigger] remaining@[u] == unfinished(rs[u], done),
            forall|u: int| d <= u < n ==> #[trigger] remaining@[u] == unfinished(rs[u], before),
            forall|u: usize| u < n ==> (#[trigger] queue@.contains(u) <==> remaining@[u as int] == 0),
        decreases n - d,
    {
        if row_contains(&rows[d], id) {
            let r = remaining[d];
            proof {
                lemma_unfinished_zero(rs[d as int], before, id);
                lemma_unfinished_step(rs[d as int], before, id);
            }
            remaining.set(d, r - 1);
            if r - 1 == 0 {
                let ghost old_queue = queue@;
                let ghost old_rel = rel;
                proof {
                    assert(!queue@.contains(d));
                }
                queue.push(d);
                proof {
                    rel = rel.push(head as int);
                    assert forall|e: usize| rs[d as int].contains(e) implies done.contains(e) by {
                        if !done.contains(e) {
                            lemma_unfinished_zero(rs[d as int], done, e);
                        }
                    }
                    lemma_push_keeps_order(rs, old_queue, old_rel, d, head as int, done);
                    assert forall|u: usize| u < n implies (#[trigger] queue@.contains(u)
                        <==> remaining@[u as int] == 0) by {
                        lemma_contains_push(old_queue, d, u);
                    }
                    assert(queue@.take(start.len() as int) =~= start);
                    assert(queue@.take(head as int) =~= before);
                    assert(queue@.take(head + 1) =~= done);
                    lemma_distinct_indices(queue@, n as int);
                }
            }
        } else {
            proof {
                lemma_unfinished_other(rs[d as int], before, id);
            }
        }
        d = d + 1;
    }
    proof {
        lemma_distinct_indices(queue@, n as int);
    }
    Ghost(rel)
}

/// Appending index `d`, released at position `h`, keeps every entry released and the
/// order by release position and index.
proof fn lemma_push_keeps_order(
    rs: Seq<Seq<usize>>,
    queue: Seq<usize>,
    rel: Seq<int>,
    d: usize,
    h: int,
    done: Seq<usize>,
)
    requires
        0 <= h < queue.len(),
        done == queue.take(h + 1),
        d < rs.len(),
        forall|e: usize| rs[d as int].contains(e) ==> done.contains(e),
        rs[d as int].contains(queue[h]),
        rel.len() == queue.len(),
        forall|p: int| 0 <= p < queue.len() ==> -1 <= #[trigger] rel[p] <= h,
        forall|p: int| 0 <= p < queue.len() && #[trigger] rel[p] == h ==> queue[p] < d,
        forall|p: int| 0 <= p < queue.len() ==> released_idx(rs, queue, p, #[trigger] rel[p]),
        rank_ordered(queue, rel),
    ensures
        forall|p: int|
            0 <= p < queue.len() + 1 ==> released_idx(rs, queue.push(d), p, #[trigger] rel.push(h)[p]),
        rank_ordered(queue.push(d), rel.push(h)),
{
    let q2 = queue.push(d);
    let r2 = rel.push(h);
    reveal(released_idx);
    reveal(rank_ordered);
    assert forall|p: int| 0 <= p < queue.len() + 1 implies released_idx(rs, q2, p, #[trigger] r2[p]) by {
        if p < queue.len() {
            assert(released_idx(rs, queue, p, rel[p]));
            assert(q2.take(r2[p] + 1) =~= queue.take(rel[p] + 1));
            assert(q2[p] == queue[p]);
        } else {
            assert(q2.take(r2[p] + 1) =~= done);
        }
    }
}

/// Kahn's algorithm with index-ordered tie breaking: indices come in order of the
/// position of their last prerequisite, then of index. The result holds every index just
/// when no set of indices is stuck; otherwise it holds those that are not held up.
pub fn rank_order(rows: &Vec<Vec<usize>>) -> (res: (Vec<usize>, Ghost<Seq<int>>))
    requires
        rows_wf(rows@.map_values(|r: Vec<usize>| r@)),
    ensures
        ({
            let (ord, rel) = res;
            let rs = rows@.map_values(|r: Vec<usize>| r@);
            &&& ord@.no_duplicates()
            &&& forall|i: int| 0 <= i < ord@.len() ==> (#[trigger] ord@[i]) < rows@.len()
            &&& rel@.len() == ord@.len()
            &&& forall|p: int| 0 <= p < ord@.len() ==> released_idx(rs, ord@, p, #[trigger] rel@[p])
            &&& rank_ordered(ord@, rel@)
            &&& (ord@.len() == rows@.len() <==> idx_acyclic(rs))
        }),
{
    let ghost rs = rows@.map_values(|r: Vec<usize>| r@);
    let n = rows.len();
    let (mut remaining, mut queue) = initial_queue(rows);
    let ghost rel0: Seq<int> = Seq::new(queue@.len(), |p: int| -1int);
    let mut rel: Ghost<Seq<int>> = Ghost(rel0);
    proof {
        assert forall|u: int| 0 <= u < n implies #[trigger] remaining@[u] == unfinished(
            rs[u],
            queue@.take(0),
        ) by {
            assert(queue@.take(0) =~= Seq::<usize>::empty());
            lemma_unfinished_empty(rs[u]);
        }
        reveal(released_idx);
        assert forall|p: int| 0 <= p < queue@.len() implies released_idx(rs, queue@, p, #[trigger] rel0[p]) by {
            assert(queue@.contains(queue@[p]));
        }
        lemma_distinct_indices(queue@, n as int);
        reveal(state_ok);
        assert(state_ok(rs, remaining@, queue@, rel@, 0));
    }
    let mut head: usize = 0;
    while head < queue.len()
        invariant
            n == rows@.len(),
            rs == rows@.map_values(|r: Vec<usize>| r@),
            state_ok(rs, remaining@, queue@, rel@, head as int),
            head <= queue@.len() <= n,
        decreases n - head,
    {
        rel = release(rows, head, &mut remaining, &mut queue, rel);
        head = head + 1;
    }
    proof {
        lemma_finished_state(rs, remaining@, queue@, rel@);
    }
    (queue, rel)
}

/// Once the whole queue has been taken, it holds every index just when no set of indices
/// is stuck.
proof fn lemma_finished_state(rs: Seq<Seq<usize>>, remaining: Seq<usize>, queue: Seq<usize>, rel: Seq<int>)
    requires
        rs.len() <= usize::MAX,
        state_ok(rs, remaining, queue, rel, queue.len() as int),
    ensures
        queue.no_duplicates(),
        forall|i: int| 0 <= i < queue.len() ==> (#[trigger] queue[i]) < rs.len(),
        rel.len() == queue.len(),
        forall|p: int| 0 <= p < queue.len() ==> released_idx(rs, queue, p, #[trigger] rel[p]),
        rank_ordered(queue, rel),
        queue.len() == rs.len() <==> idx_acyclic(rs),
{
    reveal(state_ok);
    let n = rs.len();
    lemma_distinct_indices(queue, n as int);
    if queue.len() == n {
        assert forall|s: Set<usize>| !idx_stuck(rs, s) by {
            lemma_no_stuck_set(rs, queue, rel, s, n as int);
        }
    } else {
        assert(queue.take(queue.len() as int) =~= queue);
        lemma_leftovers_stuck(rs, remaining, queue);
    }
}

/// An index the queue never held still waits on a prerequisite the queue never held.
proof fn lemma_leftover_prerequisite(rs: Seq<Seq<usize>>, queue: Seq<usize>, x: usize) -> (y: usize)
    requires
        rows_wf(rs),
        x < rs.len(),
        unfinished(rs[x as int], queue) > 0,
    ensures
        y < rs.len(),
        !queue.contains(y),
        rs[x as int].contains(y),
{
    let w = lemma_unfinished_witness(rs[x as int], queue);
    let k = choose|k: int| 0 <= k < rs[x as int].len() && rs[x as int][k] == w;
    assert(rs[x as int][k] < rs.len());
    w
}

/// When the queue ran dry before holding every index, the indices it never held are stuck.
#[verifier::spinoff_prover]
#[verifier::rlimit(100)]
proof fn lemma_leftovers_stuck(rs: Seq<Seq<usize>>, remaining: Seq<usize>, queue: Seq<usize>)
    requires
        rows_wf(rs),
        remaining.len() == rs.len(),
        exists|u: usize| u < rs.len() && !queue.contains(u),
        forall|u: int| 0 <= u < rs.len() ==> #[trigger] remaining[u] == unfinished(rs[u], queue),
        forall|u: usize| u < rs.len() ==> (#[trigger] queue.contains(u) <==> remaining[u as int] == 0),
    ensures
        !idx_acyclic(rs),
{
    let n = rs.len();
    let s = Set::new(|x: usize| x < n && !queue.contains(x));
    let missing = choose|u: usize| u < n && !queue.contains(u);
    assert(s.contains(missing));
    assert forall|x: usize| s.contains(x) implies x < rs.len() && exists|y: usize|
        #![trigger s.contains(y)]
        s.contains(y) && rs[x as int].contains(y) by {
        assert(remaining[x as int] == unfinished(rs[x as int], queue));
        let y = lemma_leftover_prerequisite(rs, queue, x);
        assert(s.contains(y));
    }
    assert(idx_stuck(rs, s));
}

/// In a stuck set, no member sits among the first `k` positions of an order in which each
/// entry is released by an earlier one.
proof fn lemma_stuck_prefix(rs: Seq<Seq<usize>>, ord: Seq<usize>, rel: Seq<int>, s: Set<usize>, k: int)
    requires
        0 <= k <= ord.len(),
        rel.len() == ord.len(),
        forall|p: int| 0 <= p < ord.len() ==> released_idx(rs, ord, p, #[trigger] rel[p]),
        idx_stuck(rs, s),
    ensures
        forall|q: int| 0 <= q < k ==> !s.contains(#[trigger] ord[q]),
    decreases k,
{
    reveal(released_idx);
    if k > 0 {
        lemma_stuck_prefix(rs, ord, rel, s, k - 1);
        let p = k - 1;
        if s.contains(ord[p]) {
            let x = ord[p];
            let y = choose|y: usize| s.contains(y) && rs[x as int].contains(y);
            assert(released_idx(rs, ord, p, rel[p]));
            let pre = ord.take(rel[p] + 1);
            assert(pre.contains(y));
            let q = choose|q: int| 0 <= q < pre.len() && pre[q] == y;
            assert(ord[q] == y);
            assert(q < k - 1);
        }
    }
}

/// When every index appears and each is released by an earlier one, no set of indices is
/// stuck: its earliest member would need a member still earlier.
proof fn lemma_no_stuck_set(rs: Seq<Seq<usize>>, ord: Seq<usize>, rel: Seq<int>, s: Set<usize>, n: int)
    requires
        rs.len() == n,
        ord.len() == n,
        rel.len() == n,
        forall|v: usize| v < n ==> ord.contains(v),
        forall|p: int| 0 <= p < n ==> released_idx(rs, ord, p, #[trigger] rel[p]),
    ensures
        !idx_stuck(rs, s),
{
    if idx_stuck(rs, s) {
        lemma_stuck_prefix(rs, ord, rel, s, n);
        let x = choose|x: usize| s.contains(x);
        assert(ord.contains(x));
        let q = choose|q: int| 0 <= q < ord.len() && ord[q] == x;
        assert(!s.contains(ord[q]));
    }
}

} // verus!
