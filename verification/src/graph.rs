use vstd::prelude::*;
use vstd::set_lib::{lemma_int_range, lemma_len_subset, set_int_range};

verus! {

/// How many times `v` occurs in `s`.
pub open spec fn count(s: Seq<usize>, v: usize) -> nat
    decreases s.len(),
{
    if s.len() == 0 {
        0
    } else {
        count(s.drop_last(), v) + if s.last() == v {
            1nat
        } else {
            0nat
        }
    }
}

/// How many edges into `v` start at one of the first `k` nodes that is not
/// in `done`; `nexts[u]` lists the targets of the edges from `u`, an edge
/// inserted twice being listed twice.
pub open spec fn pending(nexts: Seq<Seq<usize>>, v: usize, done: Seq<usize>, k: nat) -> nat
    decreases k,
{
    if k == 0 {
        0
    } else {
        pending(nexts, v, done, (k - 1) as nat) + if done.contains((k - 1) as usize) {
            0nat
        } else {
            count(nexts[k - 1], v)
        }
    }
}

/// Whether there is an edge from `u` to `v`.
pub open spec fn has_edge(nexts: Seq<Seq<usize>>, u: usize, v: usize) -> bool {
    u < nexts.len() && nexts[u as int].contains(v)
}

/// Whether every target that `nexts` lists is a node.
pub open spec fn edges_in_range(nexts: Seq<Seq<usize>>) -> bool {
    forall|u: int, j: int|
        0 <= u < nexts.len() && 0 <= j < nexts[u].len() ==> #[trigger] nexts[u][j] < nexts.len()
}

proof fn lemma_count_take_step(s: Seq<usize>, v: usize, j: int)
    requires
        0 <= j < s.len(),
    ensures
        count(s.take(j + 1), v) == count(s.take(j), v) + if s[j] == v {
            1nat
        } else {
            0nat
        },
{
    assert(s.take(j + 1).drop_last() =~= s.take(j));
}

proof fn lemma_count_take_le(s: Seq<usize>, v: usize, j: int)
    requires
        0 <= j <= s.len(),
    ensures
        count(s.take(j), v) <= count(s, v),
    decreases s.len() - j,
{
    if j < s.len() {
        lemma_count_take_le(s, v, j + 1);
        lemma_count_take_step(s, v, j);
    } else {
        assert(s.take(j) =~= s);
    }
}

proof fn lemma_count_contains(s: Seq<usize>, v: usize)
    ensures
        count(s, v) > 0 <==> s.contains(v),
    decreases s.len(),
{
    if s.len() > 0 {
        lemma_count_contains(s.drop_last(), v);
        if s.drop_last().contains(v) {
            let i = choose|i: int| 0 <= i < s.drop_last().len() && s.drop_last()[i] == v;
            assert(s[i] == v);
        }
        if s.contains(v) {
            let i = choose|i: int| 0 <= i < s.len() && s[i] == v;
            if i < s.len() - 1 {
                assert(s.drop_last()[i] == v);
            }
        }
    }
}

proof fn lemma_pending_without(nexts: Seq<Seq<usize>>, v: usize, done: Seq<usize>, k: nat, c: usize)
    requires
        !done.contains(c),
        k <= nexts.len() <= usize::MAX,
    ensures
        pending(nexts, v, done, k) == pending(nexts, v, done.push(c), k) + if c < k {
            count(nexts[c as int], v)
        } else {
            0nat
        },
    decreases k,
{
    if k > 0 {
        lemma_pending_without(nexts, v, done, (k - 1) as nat, c);
        assert(done.push(c).contains((k - 1) as usize) == (done.contains((k - 1) as usize) || (k
            - 1) as usize == c)) by {
            if done.push(c).contains((k - 1) as usize) {
                let i = choose|i: int|
                    0 <= i < done.push(c).len() && done.push(c)[i] == (k - 1) as usize;
                if i < done.len() {
                    assert(done[i] == (k - 1) as usize);
                }
            }
            if done.contains((k - 1) as usize) {
                let i = choose|i: int| 0 <= i < done.len() && done[i] == (k - 1) as usize;
                assert(done.push(c)[i] == (k - 1) as usize);
            }
            if (k - 1) as usize == c {
                assert(done.push(c)[done.len() as int] == c);
            }
        }
    }
}

proof fn lemma_pending_zero(nexts: Seq<Seq<usize>>, v: usize, done: Seq<usize>, k: nat, u: usize)
    requires
        pending(nexts, v, done, k) == 0,
        u < k,
        !done.contains(u),
    ensures
        !nexts[u as int].contains(v),
    decreases k,
{
    lemma_count_contains(nexts[u as int], v);
    if u < k - 1 {
        lemma_pending_zero(nexts, v, done, (k - 1) as nat, u);
    }
}

proof fn lemma_pending_pos(nexts: Seq<Seq<usize>>, v: usize, done: Seq<usize>, k: nat)
    requires
        pending(nexts, v, done, k) > 0,
        k <= usize::MAX + 1,
    ensures
        exists|u: usize| u < k && !done.contains(u) && #[trigger] nexts[u as int].contains(v),
    decreases k,
{
    if pending(nexts, v, done, (k - 1) as nat) > 0 {
        lemma_pending_pos(nexts, v, done, (k - 1) as nat);
    } else {
        let u = (k - 1) as usize;
        assert(u as int == k - 1);
        assert(!done.contains(u) && count(nexts[u as int], v) > 0);
        lemma_count_contains(nexts[u as int], v);
        assert(nexts[u as int].contains(v));
    }
}

proof fn lemma_pending_ge(nexts: Seq<Seq<usize>>, v: usize, done: Seq<usize>, k: nat, c: usize)
    requires
        c < k,
        !done.contains(c),
    ensures
        pending(nexts, v, done, k) >= count(nexts[c as int], v),
    decreases k,
{
    if c < k - 1 {
        lemma_pending_ge(nexts, v, done, (k - 1) as nat, c);
    }
}


proof fn lemma_distinct_bounded(s: Seq<usize>, n: nat)
    requires
        s.no_duplicates(),
        forall|i: int| 0 <= i < s.len() ==> #[trigger] s[i] < n,
    ensures
        s.len() <= n,
{
    let t = s.map_values(|x: usize| x as int);
    assert(t.no_duplicates());
    t.unique_seq_to_set();
    assert(t.to_set().subset_of(set_int_range(0, n as int))) by {
        assert forall|x: int| t.to_set().contains(x) implies set_int_range(0, n as int).contains(x) by {
            let i = choose|i: int| 0 <= i < t.len() && t[i] == x;
            assert(s[i] < n);
        }
    }
    lemma_int_range(0, n as int);
    lemma_len_subset(t.to_set(), set_int_range(0, n as int));
}

/// The invariant of the topological walk: `deg[v]` counts the edges into
/// `v` from nodes not yet emitted; emitted and ready nodes are distinct
/// and have no such edges; every node with none is emitted or ready; and
/// each emitted node follows every node with an edge into it.
pub open spec fn walk_inv(
    nexts: Seq<Seq<usize>>,
    deg: Seq<usize>,
    out: Seq<usize>,
    ready: Seq<usize>,
) -> bool {
    let n = nexts.len();
    &&& deg.len() == n
    &&& forall|v: usize| v < n ==> #[trigger] deg[v as int] == pending(nexts, v, out, n)
    &&& distinct_walk(out, ready)
    &&& forall|v: usize| #[trigger] in_walk(out, ready, v) ==> v < n && deg[v as int] == 0
    &&& forall|v: usize| v < n && #[trigger] deg[v as int] == 0 ==> in_walk(out, ready, v)
    &&& respects_edges(nexts, out)
}

/// Whether `v` has been emitted or is ready.
pub open spec fn in_walk(out: Seq<usize>, ready: Seq<usize>, v: usize) -> bool {
    out.contains(v) || ready.contains(v)
}

/// Whether no node is emitted twice, readied twice, or both emitted and ready.
pub open spec fn distinct_walk(out: Seq<usize>, ready: Seq<usize>) -> bool {
    out.no_duplicates() && ready.no_duplicates() && out.disjoint(ready)
}

/// Whether each node of `order` comes after every node with an edge into it.
pub open spec fn respects_edges(nexts: Seq<Seq<usize>>, order: Seq<usize>) -> bool {
    forall|i: int, u: usize|
        0 <= i < order.len() && #[trigger] has_edge(nexts, u, order[i]) ==> exists|k: int|
            0 <= k < i && #[trigger] order[k] == u
}

/// The invariant of the walk while the edges from `cur`, the node just
/// emitted, are taken away: the first `j` of them are gone.
pub open spec fn step_inv(
    nexts: Seq<Seq<usize>>,
    deg: Seq<usize>,
    out: Seq<usize>,
    ready: Seq<usize>,
    cur: usize,
    j: int,
) -> bool {
    let n = nexts.len();
    let row = nexts[cur as int];
    &&& deg.len() == n
    &&& cur < n
    &&& out.len() > 0
    &&& out.last() == cur
    &&& 0 <= j <= row.len()
    &&& forall|v: usize|
        v < n ==> #[trigger] deg[v as int] + count(row.take(j), v) == pending(nexts, v, out, n)
            + count(row, v)
    &&& distinct_walk(out, ready)
    &&& forall|v: usize| #[trigger] in_walk(out, ready, v) ==> v < n && deg[v as int] == 0 && count(
        row,
        v,
    ) == count(row.take(j), v)
    &&& forall|v: usize| v < n && #[trigger] deg[v as int] == 0 ==> in_walk(out, ready, v)
    &&& respects_edges(nexts, out)
}

proof fn lemma_push_contains(s: Seq<usize>, x: usize, y: usize)
    ensures
        s.push(x).contains(y) <==> s.contains(y) || y == x,
{
    if s.push(x).contains(y) {
        let i = choose|i: int| 0 <= i < s.push(x).len() && s.push(x)[i] == y;
        if i < s.len() {
            assert(s[i] == y);
        }
    }
    if s.contains(y) {
        let i = choose|i: int| 0 <= i < s.len() && s[i] == y;
        assert(s.push(x)[i] == y);
    }
    if y == x {
        assert(s.push(x)[s.len() as int] == y);
    }
}

proof fn lemma_push_no_dup(s: Seq<usize>, x: usize)
    requires
        s.no_duplicates(),
        !s.contains(x),
    ensures
        s.push(x).no_duplicates(),
{
    assert forall|a: int, b: int| 0 <= a < s.push(x).len() && 0 <= b < s.push(x).len() && a != b implies s.push(x)[a] != s.push(x)[b] by {
        if a < s.len() && b < s.len() {
        } else if a < s.len() {
            assert(s[a] == s.push(x)[a]);
        } else if b < s.len() {
            assert(s[b] == s.push(x)[b]);
        }
    }
}

/// Emitting the last ready node `cur` starts the step over its edges.
proof fn lemma_emit(
    nexts: Seq<Seq<usize>>,
    deg: Seq<usize>,
    out: Seq<usize>,
    ready: Seq<usize>,
    cur: usize,
)
    requires
        nexts.len() <= usize::MAX,
        edges_in_range(nexts),
        walk_inv(nexts, deg, out, ready.push(cur)),
    ensures
        step_inv(nexts, deg, out.push(cur), ready, cur, 0),
{
    let n = nexts.len();
    let row = nexts[cur as int];
    let out1 = out.push(cur);
    let r0 = ready.push(cur);
    lemma_push_contains(ready, cur, cur);
    assert(in_walk(out, r0, cur));
    assert(cur < n);
    assert(!out.contains(cur)) by {
        if out.contains(cur) {
            let i = choose|i: int| 0 <= i < out.len() && out[i] == cur;
            assert(r0[ready.len() as int] == cur);
        }
    }
    assert(!ready.contains(cur)) by {
        if ready.contains(cur) {
            let i = choose|i: int| 0 <= i < ready.len() && ready[i] == cur;
            assert(r0[i] == cur && r0[ready.len() as int] == cur);
        }
    }
    assert(ready.no_duplicates()) by {
        assert forall|a: int, b: int| 0 <= a < ready.len() && 0 <= b < ready.len() && a != b implies ready[a] != ready[b] by {
            assert(r0[a] == ready[a] && r0[b] == ready[b]);
        }
    }
    lemma_push_no_dup(out, cur);
    assert(out1.disjoint(ready)) by {
        assert forall|a: int, b: int| 0 <= a < out1.len() && 0 <= b < ready.len() implies out1[a] != ready[b] by {
            assert(r0[b] == ready[b]);
            if a < out.len() {
                assert(out[a] == out1[a]);
            }
        }
    }
    assert forall|v: usize| #[trigger] in_walk(out1, ready, v) implies in_walk(out, r0, v) by {
        lemma_push_contains(out, cur, v);
        lemma_push_contains(ready, cur, v);
    }
    assert forall|v: usize| #[trigger] in_walk(out, r0, v) implies in_walk(out1, ready, v) by {
        lemma_push_contains(out, cur, v);
        lemma_push_contains(ready, cur, v);
    }
    assert(deg[cur as int] == 0);
    assert(pending(nexts, cur, out, n) == 0);
    assert forall|v: usize| v < n implies #[trigger] deg[v as int] + count(row.take(0), v) == pending(
        nexts,
        v,
        out1,
        n,
    ) + count(row, v) by {
        lemma_pending_without(nexts, v, out, n, cur);
        assert(row.take(0) =~= Seq::<usize>::empty());
    }
    assert forall|v: usize| #[trigger] in_walk(out1, ready, v) implies v < n && deg[v as int] == 0
        && count(row, v) == count(row.take(0), v) by {
        assert(in_walk(out, r0, v));
        lemma_pending_ge(nexts, v, out, n, cur);
        assert(row.take(0) =~= Seq::<usize>::empty());
    }
    assert forall|v: usize| v < n && #[trigger] deg[v as int] == 0 implies in_walk(out1, ready, v) by {
        assert(in_walk(out, r0, v));
    }
    assert forall|i: int, u: usize|
        0 <= i < out1.len() && #[trigger] has_edge(nexts, u, out1[i]) implies exists|k: int|
        0 <= k < i && #[trigger] out1[k] == u by {
        if i < out.len() {
            assert(out1[i] == out[i]);
            let k = choose|k: int| 0 <= k < i && #[trigger] out[k] == u;
            assert(out1[k] == u);
        } else {
            assert(out1[i] == cur);
            if !out.contains(u) {
                lemma_pending_zero(nexts, cur, out, n, u);
            }
            let k = choose|k: int| 0 <= k < out.len() && out[k] == u;
            assert(out1[k] == u);
        }
    }
}

/// Taking away edge `j` from `cur` keeps the step invariant.
proof fn lemma_take_edge(
    nexts: Seq<Seq<usize>>,
    deg: Seq<usize>,
    out: Seq<usize>,
    ready: Seq<usize>,
    cur: usize,
    j: int,
)
    requires
        nexts.len() <= usize::MAX,
        edges_in_range(nexts),
        step_inv(nexts, deg, out, ready, cur, j),
        j < nexts[cur as int].len(),
    ensures
        ({
            let next = nexts[cur as int][j];
            let d = deg[next as int];
            &&& d >= 1
            &&& !in_walk(out, ready, next)
            &&& d - 1 == 0 ==> step_inv(
                nexts,
                deg.update(next as int, (d - 1) as usize),
                out,
                ready.push(next),
                cur,
                j + 1,
            )
            &&& d - 1 != 0 ==> step_inv(
                nexts,
                deg.update(next as int, (d - 1) as usize),
                out,
                ready,
                cur,
                j + 1,
            )
        }),
{
    let n = nexts.len();
    let row = nexts[cur as int];
    let next = row[j];
    assert(next < n);
    let d = deg[next as int];
    lemma_count_take_step(row, next, j);
    lemma_count_take_le(row, next, j + 1);
    assert(d >= 1);
    assert(!in_walk(out, ready, next));
    let deg1 = deg.update(next as int, (d - 1) as usize);
    assert forall|v: usize| v < n implies #[trigger] deg1[v as int] + count(row.take(j + 1), v)
        == pending(nexts, v, out, n) + count(row, v) by {
        lemma_count_take_step(row, v, j);
    }
    if d - 1 == 0 {
        let ready1 = ready.push(next);
        lemma_push_no_dup(ready, next);
        assert(out.disjoint(ready1)) by {
            assert forall|a: int, b: int| 0 <= a < out.len() && 0 <= b < ready1.len() implies out[a] != ready1[b] by {
                if b < ready.len() {
                    assert(ready1[b] == ready[b]);
                } else {
                    assert(out.contains(out[a]));
                }
            }
        }
        assert forall|v: usize| #[trigger] in_walk(out, ready1, v) implies v < n && deg1[v as int]
            == 0 && count(row, v) == count(row.take(j + 1), v) by {
            lemma_push_contains(ready, next, v);
            lemma_count_take_step(row, v, j);
            lemma_count_take_le(row, v, j + 1);
            if v != next {
                assert(in_walk(out, ready, v));
            }
        }
        assert forall|v: usize| v < n && #[trigger] deg1[v as int] == 0 implies in_walk(out, ready1, v) by {
            lemma_push_contains(ready, next, v);
            if v != next {
                assert(deg[v as int] == 0);
            }
        }
        assert(step_inv(nexts, deg1, out, ready1, cur, j + 1));
    } else {
        assert forall|v: usize| #[trigger] in_walk(out, ready, v) implies v < n && deg1[v as int]
            == 0 && count(row, v) == count(row.take(j + 1), v) by {
            lemma_count_take_step(row, v, j);
            lemma_count_take_le(row, v, j + 1);
        }
        assert forall|v: usize| v < n && #[trigger] deg1[v as int] == 0 implies in_walk(out, ready, v) by {
            if v != next {
                assert(deg[v as int] == 0);
            }
        }
        assert(step_inv(nexts, deg1, out, ready, cur, j + 1));
    }
}

/// With all edges from `cur` taken away, the walk invariant holds again.
proof fn lemma_step_done(
    nexts: Seq<Seq<usize>>,
    deg: Seq<usize>,
    out: Seq<usize>,
    ready: Seq<usize>,
    cur: usize,
)
    requires
        step_inv(nexts, deg, out, ready, cur, nexts[cur as int].len() as int),
    ensures
        walk_inv(nexts, deg, out, ready),
{
    let row = nexts[cur as int];
    assert(row.take(row.len() as int) =~= row);
}

/// Whether `path` walks along edges: each of its nodes has an edge to the
/// next one.
pub open spec fn is_path(nexts: Seq<Seq<usize>>, path: Seq<usize>) -> bool {
    forall|i: int, j: int|
        0 <= i && j == i + 1 && j < path.len() ==> #[trigger] has_edge(nexts, path[i], path[j])
}

/// Whether the graph has no cycle: no path of one edge or more ends where it
/// starts.
pub open spec fn is_acyclic(nexts: Seq<Seq<usize>>) -> bool {
    forall|path: Seq<usize>|
        path.len() >= 2 && #[trigger] is_path(nexts, path) ==> path[0] != path.last()
}

/// Whether every node that `order` leaves out has an edge into it from
/// another node that it leaves out.
pub open spec fn left_out_closed(nexts: Seq<Seq<usize>>, order: Seq<usize>) -> bool {
    forall|v: usize|
        v < nexts.len() && !#[trigger] order.contains(v) ==> exists|u: usize|
            u < nexts.len() && !order.contains(u) && has_edge(nexts, u, v)
}

/// A left-out node with an edge into `v`.
spec fn left_out_pred(nexts: Seq<Seq<usize>>, order: Seq<usize>, v: usize) -> usize {
    choose|u: usize| u < nexts.len() && !order.contains(u) && has_edge(nexts, u, v)
}

/// A path of `k` edges that ends at `v`, made by stepping back to left-out
/// nodes.
spec fn back_path(nexts: Seq<Seq<usize>>, order: Seq<usize>, v: usize, k: nat) -> Seq<usize>
    decreases k,
{
    if k == 0 {
        seq![v]
    } else {
        back_path(nexts, order, left_out_pred(nexts, order, v), (k - 1) as nat).push(v)
    }
}

proof fn lemma_back_path(nexts: Seq<Seq<usize>>, order: Seq<usize>, v: usize, k: nat)
    requires
        left_out_closed(nexts, order),
        v < nexts.len(),
        !order.contains(v),
    ensures
        back_path(nexts, order, v, k).len() == k + 1,
        back_path(nexts, order, v, k).last() == v,
        is_path(nexts, back_path(nexts, order, v, k)),
        forall|i: int|
            0 <= i < back_path(nexts, order, v, k).len() ==> #[trigger] back_path(
                nexts,
                order,
                v,
                k,
            )[i] < nexts.len(),
    decreases k,
{
    if k > 0 {
        let u = left_out_pred(nexts, order, v);
        assert(u < nexts.len() && !order.contains(u) && has_edge(nexts, u, v));
        lemma_back_path(nexts, order, u, (k - 1) as nat);
        let p = back_path(nexts, order, u, (k - 1) as nat);
        let q = p.push(v);
        assert(back_path(nexts, order, v, k) == q);
        assert forall|i: int, j: int| 0 <= i && j == i + 1 && j < q.len() implies #[trigger] has_edge(
            nexts,
            q[i],
            q[j],
        ) by {
            if j < p.len() {
                assert(q[i] == p[i] && q[j] == p[j]);
                assert(has_edge(nexts, p[i], p[j]));
            } else {
                assert(q[i] == p.last());
            }
        }
    }
}

/// In a graph with no cycle, some node of every non-empty set of nodes has
/// no edge into it from within the set; so an order that leaves out only
/// such closed sets leaves out nothing.
proof fn lemma_acyclic_leaves_nothing_out(nexts: Seq<Seq<usize>>, order: Seq<usize>, v: usize)
    requires
        is_acyclic(nexts),
        left_out_closed(nexts, order),
        v < nexts.len(),
        nexts.len() <= usize::MAX,
    ensures
        order.contains(v),
{
    if !order.contains(v) {
        let n = nexts.len();
        lemma_back_path(nexts, order, v, n);
        let p = back_path(nexts, order, v, n);
        if p.no_duplicates() {
            lemma_distinct_bounded(p, n);
        }
        let (i, j) = choose|i: int, j: int| 0 <= i < p.len() && 0 <= j < p.len() && i != j && p[i] == p[j];
        let (a, b) = if i < j { (i, j) } else { (j, i) };
        let c = p.subrange(a, b + 1);
        assert forall|x: int, y: int| 0 <= x && y == x + 1 && y < c.len() implies #[trigger] has_edge(
            nexts,
            c[x],
            c[y],
        ) by {
            assert(c[x] == p[a + x] && c[y] == p[a + y]);
            assert(has_edge(nexts, p[a + x], p[a + y]));
        }
        assert(is_path(nexts, c));
        assert(c[0] == c.last());
    }
}

/// A sequence without repeats of `n` nodes below `n` holds every node below
/// `n`.
proof fn lemma_distinct_full(s: Seq<usize>, n: nat, v: usize)
    requires
        s.no_duplicates(),
        s.len() == n,
        forall|i: int| 0 <= i < s.len() ==> #[trigger] s[i] < n,
        v < n,
    ensures
        s.contains(v),
{
    if !s.contains(v) {
        let t = s.map_values(|x: usize| x as int);
        assert(t.no_duplicates());
        t.unique_seq_to_set();
        let r = set_int_range(0, n as int).remove(v as int);
        assert(t.to_set().subset_of(r)) by {
            assert forall|x: int| t.to_set().contains(x) implies r.contains(x) by {
                let i = choose|i: int| 0 <= i < t.len() && t[i] == x;
                assert(s[i] < n);
                assert(s[i] != v);
            }
        }
        lemma_int_range(0, n as int);
        lemma_len_subset(t.to_set(), r);
    }
}

/// Where `v` stands in `order`.
spec fn position(order: Seq<usize>, v: usize) -> int {
    choose|i: int| 0 <= i < order.len() && order[i] == v
}

/// Along a path of nodes that all stand in an order that respects the
/// edges, the positions increase.
proof fn lemma_path_positions(nexts: Seq<Seq<usize>>, order: Seq<usize>, path: Seq<usize>, m: int)
    requires
        order.no_duplicates(),
        respects_edges(nexts, order),
        is_path(nexts, path),
        forall|i: int| 0 <= i < path.len() ==> order.contains(#[trigger] path[i]),
        1 <= m < path.len(),
    ensures
        0 <= position(order, path[0]) < position(order, path[m]) < order.len(),
        order[position(order, path[0])] == path[0],
    decreases m,
{
    let u = path[m - 1];
    let v = path[m];
    assert(has_edge(nexts, path[m - 1], path[m]));
    assert(order.contains(u) && order.contains(v));
    let pv = position(order, v);
    let pu = position(order, u);
    assert(has_edge(nexts, u, order[pv]));
    let k = choose|k: int| 0 <= k < pv && #[trigger] order[k] == u;
    assert(order[pu] == u);
    assert(k == pu);
    if m > 1 {
        lemma_path_positions(nexts, order, path, m - 1);
    }
}

/// An order of all the nodes that respects the edges leaves no room for a
/// cycle.
proof fn lemma_full_order_acyclic(nexts: Seq<Seq<usize>>, order: Seq<usize>)
    requires
        order.no_duplicates(),
        order.len() == nexts.len(),
        forall|i: int| 0 <= i < order.len() ==> #[trigger] order[i] < nexts.len(),
        respects_edges(nexts, order),
        edges_in_range(nexts),
    ensures
        is_acyclic(nexts),
{
    assert forall|path: Seq<usize>| path.len() >= 2 && #[trigger] is_path(nexts, path) implies path[0]
        != path.last() by {
        assert forall|i: int| 0 <= i < path.len() implies order.contains(#[trigger] path[i]) by {
            let v = path[i];
            if i + 1 < path.len() {
                assert(has_edge(nexts, path[i], path[i + 1]));
            } else {
                assert(has_edge(nexts, path[i - 1], path[i]));
                let u = path[i - 1];
                let row = nexts[u as int];
                let j = choose|j: int| 0 <= j < row.len() && row[j] == v;
                assert(nexts[u as int][j] < nexts.len());
            }
            lemma_distinct_full(order, nexts.len(), v);
        }
        lemma_path_positions(nexts, order, path, path.len() - 1);
    }
}

/// Whether a path leads from `u` to `v`.
pub open spec fn reaches(nexts: Seq<Seq<usize>>, u: usize, v: usize) -> bool {
    exists|path: Seq<usize>|
        #[trigger] is_path(nexts, path) && path.len() >= 1 && path[0] == u && path.last() == v
}

/// Whether `u` lies on a cycle: a path of one edge or more leads from `u`
/// back to `u`.
pub open spec fn on_cycle(nexts: Seq<Seq<usize>>, u: usize) -> bool {
    exists|path: Seq<usize>|
        #[trigger] is_path(nexts, path) && path.len() >= 2 && path[0] == u && path.last() == u
}

/// Whether `v` can be reached from a node that lies on a cycle.
pub open spec fn reachable_from_cycle(nexts: Seq<Seq<usize>>, v: usize) -> bool {
    exists|u: usize| #[trigger] on_cycle(nexts, u) && reaches(nexts, u, v)
}

/// Every node of a path whose last node stands in an order that respects
/// the edges stands in it too.
proof fn lemma_path_in_order(nexts: Seq<Seq<usize>>, order: Seq<usize>, path: Seq<usize>, i: int)
    requires
        respects_edges(nexts, order),
        is_path(nexts, path),
        path.len() >= 1,
        order.contains(path.last()),
        0 <= i < path.len(),
    ensures
        order.contains(path[i]),
    decreases path.len() - i,
{
    if i < path.len() - 1 {
        lemma_path_in_order(nexts, order, path, i + 1);
        let k = choose|k: int| 0 <= k < order.len() && order[k] == path[i + 1];
        assert(has_edge(nexts, path[i], path[i + 1]));
        assert(has_edge(nexts, path[i], order[k]));
        let k2 = choose|k2: int| 0 <= k2 < k && #[trigger] order[k2] == path[i];
    }
}

/// In a walk in topological order, the nodes left out are exactly those
/// that can be reached from a cycle.
pub proof fn lemma_left_out_exactly_cycle_reachable(
    nexts: Seq<Seq<usize>>,
    order: Seq<usize>,
    v: usize,
)
    requires
        nexts.len() <= usize::MAX,
        edges_in_range(nexts),
        is_topo_walk(nexts, order),
        v < nexts.len(),
    ensures
        !order.contains(v) <==> reachable_from_cycle(nexts, v),
{
    if !order.contains(v) {
        let n = nexts.len();
        lemma_back_path(nexts, order, v, n);
        let p = back_path(nexts, order, v, n);
        if p.no_duplicates() {
            lemma_distinct_bounded(p, n);
        }
        let (i, j) = choose|i: int, j: int| 0 <= i < p.len() && 0 <= j < p.len() && i != j && p[i] == p[j];
        let (a, b) = if i < j { (i, j) } else { (j, i) };
        let c = p.subrange(a, b + 1);
        assert forall|x: int, y: int| 0 <= x && y == x + 1 && y < c.len() implies #[trigger] has_edge(
            nexts,
            c[x],
            c[y],
        ) by {
            assert(c[x] == p[a + x] && c[y] == p[a + y]);
            assert(has_edge(nexts, p[a + x], p[a + y]));
        }
        let t = p.subrange(a, p.len() as int);
        assert forall|x: int, y: int| 0 <= x && y == x + 1 && y < t.len() implies #[trigger] has_edge(
            nexts,
            t[x],
            t[y],
        ) by {
            assert(t[x] == p[a + x] && t[y] == p[a + y]);
            assert(has_edge(nexts, p[a + x], p[a + y]));
        }
        let u = p[a];
        assert(is_path(nexts, c) && c.len() >= 2 && c[0] == u && c.last() == u);
        assert(on_cycle(nexts, u));
        assert(is_path(nexts, t) && t.len() >= 1 && t[0] == u && t.last() == v);
        assert(reaches(nexts, u, v));
    }
    if reachable_from_cycle(nexts, v) && order.contains(v) {
        let u = choose|u: usize| #[trigger] on_cycle(nexts, u) && reaches(nexts, u, v);
        let c = choose|path: Seq<usize>|
            #[trigger] is_path(nexts, path) && path.len() >= 2 && path[0] == u && path.last() == u;
        let q = choose|path: Seq<usize>|
            #[trigger] is_path(nexts, path) && path.len() >= 1 && path[0] == u && path.last() == v;
        let w = c + q.drop_first();
        assert forall|x: int, y: int| 0 <= x && y == x + 1 && y < w.len() implies #[trigger] has_edge(
            nexts,
            w[x],
            w[y],
        ) by {
            if y < c.len() {
                assert(w[x] == c[x] && w[y] == c[y]);
                assert(has_edge(nexts, c[x], c[y]));
            } else if x < c.len() {
                assert(w[x] == c.last() && c.last() == q[0]);
                assert(w[y] == q[1]);
                assert(has_edge(nexts, q[0], q[1]));
            } else {
                assert(w[x] == q[x - c.len() + 1] && w[y] == q[y - c.len() + 1]);
                assert(has_edge(nexts, q[x - c.len() + 1], q[y - c.len() + 1]));
            }
        }
        assert(w.last() == v) by {
            if q.len() == 1 {
                assert(w =~= c);
            } else {
                assert(w.last() == q.last());
            }
        }
        assert forall|i: int| 0 <= i < w.len() implies order.contains(#[trigger] w[i]) by {
            lemma_path_in_order(nexts, order, w, i);
        }
        let m = c.len() - 1;
        lemma_path_positions(nexts, order, w, m);
        assert(w[0] == w[m]);
    }
}

/// A walk with no node left ready is over: what it emitted is a walk in
/// topological order, complete exactly when the graph has no cycle.
proof fn lemma_walk_done(g: Seq<Seq<usize>>, deg: Seq<usize>, out: Seq<usize>)
    requires
        g.len() <= usize::MAX,
        edges_in_range(g),
        walk_inv(g, deg, out, Seq::empty()),
    ensures
        is_topo_walk(g, out),
        out.len() == g.len() <==> is_acyclic(g),
        is_acyclic(g) ==> forall|v: usize| v < g.len() ==> #[trigger] out.contains(v),
        forall|v: usize| v < g.len() ==> (!#[trigger] out.contains(v) <==> reachable_from_cycle(g, v)),
{
    let n = g.len();
    let ready = Seq::<usize>::empty();
    assert forall|i: int| 0 <= i < out.len() implies #[trigger] out[i] < n by {
        assert(in_walk(out, ready, out[i]));
    }
    assert forall|w: usize| w < n && !#[trigger] out.contains(w) implies exists|u: usize|
        u < n && !out.contains(u) && has_edge(g, u, w) by {
        assert(!in_walk(out, ready, w));
        assert(deg[w as int] != 0);
        lemma_pending_pos(g, w, out, n as nat);
        let u = choose|u: usize| u < n && !out.contains(u) && #[trigger] g[u as int].contains(w);
        assert(has_edge(g, u, w));
    }
    lemma_distinct_bounded(out, n as nat);
    if out.len() == n {
        lemma_full_order_acyclic(g, out);
    }
    if is_acyclic(g) {
        assert forall|v: usize| v < n implies #[trigger] out.contains(v) by {
            lemma_acyclic_leaves_nothing_out(g, out, v);
        }
        if out.len() < n {
            let t = out.map_values(|x: usize| x as int);
            assert(t.no_duplicates());
            t.unique_seq_to_set();
            assert(set_int_range(0, n as int).subset_of(t.to_set())) by {
                assert forall|x: int| set_int_range(0, n as int).contains(x) implies t.to_set().contains(x) by {
                    let v = x as usize;
                    assert(out.contains(v));
                    let i = choose|i: int| 0 <= i < out.len() && out[i] == v;
                    assert(t[i] == x);
                }
            }
            lemma_int_range(0, n as int);
            lemma_len_subset(set_int_range(0, n as int), t.to_set());
        }
    }
    assert forall|v: usize| v < g.len() implies (!#[trigger] out.contains(v) <==> reachable_from_cycle(g, v)) by {
        lemma_left_out_exactly_cycle_reachable(g, out, v);
    }
}


/// The nodes of a graph in a topological order: a node is emitted once
/// every node with an edge into it has been, taking the most recently
/// readied node first, and the nodes without incoming edges readied in
/// index order. `nexts[u]` lists the targets of the edges from `u` (an
/// edge inserted twice is listed twice) and `in_degrees[v]` counts the
/// edges into `v`.
///
/// The order holds no node twice and puts every node after the nodes with
/// an edge into it; the nodes it leaves out are exactly those that can be
/// reached from a cycle, so it holds every node when there is no cycle.
pub fn topo_order(nexts: &Vec<Vec<usize>>, in_degrees: &Vec<usize>) -> (order: Vec<usize>)
    requires
        edges_in_range(deep_view_nexts(nexts@)),
        in_degrees@.len() == nexts@.len(),
        forall|v: usize|
            v < nexts@.len() ==> #[trigger] in_degrees@[v as int] == pending(
                deep_view_nexts(nexts@),
                v,
                Seq::empty(),
                nexts@.len(),
            ),
    ensures
        order@.no_duplicates(),
        forall|i: int| 0 <= i < order@.len() ==> #[trigger] order@[i] < nexts@.len(),
        respects_edges(deep_view_nexts(nexts@), order@),
        left_out_closed(deep_view_nexts(nexts@), order@),
        order@.len() == nexts@.len() <==> is_acyclic(deep_view_nexts(nexts@)),
        is_acyclic(deep_view_nexts(nexts@)) ==> forall|v: usize|
            v < nexts@.len() ==> #[trigger] order@.contains(v),
        forall|v: usize|
            v < nexts@.len() ==> (!#[trigger] order@.contains(v) <==> reachable_from_cycle(
                deep_view_nexts(nexts@),
                v,
            )),
{
    let ghost g = deep_view_nexts(nexts@);
    let n = nexts.len();
    let (mut deg, mut ready) = start_walk(nexts, in_degrees);
    let mut out: Vec<usize> = Vec::new();
    while ready.len() > 0
        invariant
            n == nexts@.len(),
            g == deep_view_nexts(nexts@),
            edges_in_range(g),
            walk_inv(g, deg@, out@, ready@),
        decreases n - out@.len(),
    {
        let ghost before = out@;
        let cur = walk_step(nexts, &mut deg, &mut ready, Ghost(out@));
        out.push(cur);
        proof {
            assert(out@ == before.push(cur));
            assert forall|i: int| 0 <= i < out@.len() implies #[trigger] out@[i] < n by {
                assert(in_walk(out@, ready@, out@[i]));
            }
            lemma_distinct_bounded(out@, n as nat);
        }
    }
    proof {
        assert(ready@ =~= Seq::<usize>::empty());
        lemma_walk_done(g, deg@, out@);
    }
    out
}

/// The start of a topological walk: the in-degree of each node, and the
/// nodes without incoming edges, readied in index order.
fn start_walk(nexts: &Vec<Vec<usize>>, in_degrees: &Vec<usize>) -> (r: (Vec<usize>, Vec<usize>))
    requires
        edges_in_range(deep_view_nexts(nexts@)),
        in_degrees@.len() == nexts@.len(),
        forall|v: usize|
            v < nexts@.len() ==> #[trigger] in_degrees@[v as int] == pending(
                deep_view_nexts(nexts@),
                v,
                Seq::empty(),
                nexts@.len(),
            ),
    ensures
        walk_inv(deep_view_nexts(nexts@), r.0@, Seq::empty(), r.1@),
{
    let ghost g = deep_view_nexts(nexts@);
    let n = nexts.len();
    let mut deg: Vec<usize> = Vec::new();
    let mut ready: Vec<usize> = Vec::new();
    let mut v: usize = 0;
    while v < n
        invariant
            n == nexts@.len(),
            g == deep_view_nexts(nexts@),
            in_degrees@.len() == n,
            v <= n,
            deg@ == in_degrees@.take(v as int),
            ready@.no_duplicates(),
            forall|i: int| 0 <= i < ready@.len() ==> #[trigger] ready@[i] < v,
            forall|i: int| 0 <= i < ready@.len() ==> in_degrees@[#[trigger] ready@[i] as int] == 0,
            forall|w: usize| w < v && #[trigger] in_degrees@[w as int] == 0 ==> ready@.contains(w),
        decreases n - v,
    {
        let d = in_degrees[v];
        let ghost r0 = ready@;
        deg.push(d);
        if d == 0 {
            ready.push(v);
        }
        proof {
            assert(deg@ =~= in_degrees@.take(v as int + 1));
            assert forall|w: usize| w < v + 1 && #[trigger] in_degrees@[w as int] == 0 implies ready@.contains(w) by {
                if w < v {
                    let i = choose|i: int| 0 <= i < r0.len() && r0[i] == w;
                    assert(ready@[i] == w);
                } else {
                    assert(ready@[ready@.len() - 1] == w);
                }
            }
        }
        v += 1;
    }
    proof {
        let out = Seq::<usize>::empty();
        assert(deg@ =~= in_degrees@);
        assert forall|w: usize| #[trigger] in_walk(out, ready@, w) implies w < n && deg@[w as int] == 0 by {
            let i = choose|i: int| 0 <= i < ready@.len() && ready@[i] == w;
        }
        assert forall|w: usize| w < n && #[trigger] deg@[w as int] == 0 implies in_walk(out, ready@, w) by {}
    }
    (deg, ready)
}

/// One step of a topological walk: emit the most recently readied node and
/// take its edges away, readying the nodes left without incoming edges.
fn walk_step(
    nexts: &Vec<Vec<usize>>,
    deg: &mut Vec<usize>,
    ready: &mut Vec<usize>,
    out: Ghost<Seq<usize>>,
) -> (cur: usize)
    requires
        edges_in_range(deep_view_nexts(nexts@)),
        walk_inv(deep_view_nexts(nexts@), old(deg)@, out@, old(ready)@),
        old(ready)@.len() > 0,
    ensures
        cur == old(ready)@.last(),
        walk_inv(deep_view_nexts(nexts@), final(deg)@, out@.push(cur), final(ready)@),
{
    let ghost g = deep_view_nexts(nexts@);
    let ghost old_ready = ready@;
    let n = nexts.len();
    let cur = ready.pop().unwrap();
    proof {
        assert(ready@.push(cur) =~= old_ready);
        lemma_emit(g, deg@, out@, ready@, cur);
    }
    let ghost emitted = out@.push(cur);
    let row = &nexts[cur];
    assert(row@ == g[cur as int]);
    let mut j: usize = 0;
    while j < row.len()
        invariant
            n == nexts@.len(),
            g == deep_view_nexts(nexts@),
            edges_in_range(g),
            row@ == g[cur as int],
            step_inv(g, deg@, emitted, ready@, cur, j as int),
        decreases row@.len() - j,
    {
        proof {
            lemma_take_edge(g, deg@, emitted, ready@, cur, j as int);
        }
        let next = row[j];
        let d = deg[next];
        deg.set(next, d - 1);
        if d - 1 == 0 {
            ready.push(next);
        }
        j += 1;
    }
    proof {
        lemma_step_done(g, deg@, emitted, ready@, cur);
    }
    cur
}

/// The targets of the edges from each node, as sequences.
pub open spec fn deep_view_nexts(nexts: Seq<Vec<usize>>) -> Seq<Seq<usize>> {
    nexts.map_values(|v: Vec<usize>| v@)
}

proof fn lemma_count_push(s: Seq<usize>, x: usize, v: usize)
    ensures
        count(s.push(x), v) == count(s, v) + if x == v {
            1nat
        } else {
            0nat
        },
{
    assert(s.push(x).drop_last() =~= s);
}

/// Adding an edge from `from` to `to` adds one pending edge into `to`.
proof fn lemma_pending_add_edge(
    nexts: Seq<Seq<usize>>,
    from: usize,
    to: usize,
    v: usize,
    done: Seq<usize>,
    k: nat,
)
    requires
        from < nexts.len(),
        k <= nexts.len(),
    ensures
        pending(nexts.update(from as int, nexts[from as int].push(to)), v, done, k) == pending(
            nexts,
            v,
            done,
            k,
        ) + if from < k && !done.contains(from) && v == to {
            1nat
        } else {
            0nat
        },
    decreases k,
{
    if k > 0 {
        lemma_pending_add_edge(nexts, from, to, v, done, (k - 1) as nat);
        if (k - 1) as usize == from {
            lemma_count_push(nexts[from as int], to, v);
        }
    }
}

/// An empty row added after the first `k` leaves their pending edges as
/// they were.
proof fn lemma_pending_add_node(nexts: Seq<Seq<usize>>, v: usize, done: Seq<usize>, k: nat)
    requires
        k <= nexts.len(),
    ensures
        pending(nexts.push(Seq::empty()), v, done, k) == pending(nexts, v, done, k),
    decreases k,
{
    if k > 0 {
        lemma_pending_add_node(nexts, v, done, (k - 1) as nat);
    }
}

/// No edge of the first `k` rows ends at `v`: nothing is pending into `v`.
proof fn lemma_pending_none(nexts: Seq<Seq<usize>>, v: usize, done: Seq<usize>, k: nat)
    requires
        k <= nexts.len(),
        forall|u: int| 0 <= u < k ==> !(#[trigger] nexts[u]).contains(v),
    ensures
        pending(nexts, v, done, k) == 0,
    decreases k,
{
    if k > 0 {
        lemma_pending_none(nexts, v, done, (k - 1) as nat);
        lemma_count_contains(nexts[k - 1], v);
    }
}

/// Whether `order` is a walk of the graph in topological order: no node
/// twice, every node after the nodes with an edge into it, and every node
/// left out with an edge into it from another node left out.
pub open spec fn is_topo_walk(nexts: Seq<Seq<usize>>, order: Seq<usize>) -> bool {
    &&& order.no_duplicates()
    &&& forall|i: int| 0 <= i < order.len() ==> #[trigger] order[i] < nexts.len()
    &&& respects_edges(nexts, order)
    &&& left_out_closed(nexts, order)
}

/// A directed graph. A node's key is the position at which it was
/// inserted; edges may be inserted more than once.
pub struct Graph<N> {
    nodes: Vec<N>,
    nexts: Vec<Vec<usize>>,
    prevs: Vec<Vec<usize>>,
}

impl<N> Graph<N> {
    #[verifier::type_invariant]
    spec fn wf(self) -> bool {
        let g = deep_view_nexts(self.nexts@);
        let n = self.nodes@.len();
        &&& self.nexts@.len() == n
        &&& self.prevs@.len() == n
        &&& edges_in_range(g)
        &&& forall|v: usize| v < n ==> #[trigger] self.prevs@[v as int]@.len() == pending(
            g,
            v,
            Seq::empty(),
            n,
        )
    }

    /// The nodes, by key.
    pub closed spec fn nodes(self) -> Seq<N> {
        self.nodes@
    }

    /// For each key, the keys that its edges lead to, in insertion order.
    pub closed spec fn edges(self) -> Seq<Seq<usize>> {
        deep_view_nexts(self.nexts@)
    }

    /// An empty graph.
    pub fn new() -> (g: Self)
        ensures
            g.nodes() == Seq::<N>::empty(),
            g.edges() == Seq::<Seq<usize>>::empty(),
    {
        let g = Graph { nodes: Vec::new(), nexts: Vec::new(), prevs: Vec::new() };
        assert(deep_view_nexts(g.nexts@) =~= Seq::<Seq<usize>>::empty());
        g
    }

    /// Add `node`, without edges, and hand back its key.
    pub fn insert_node(&mut self, node: N) -> (key: usize)
        ensures
            key == old(self).nodes().len(),
            final(self).nodes() == old(self).nodes().push(node),
            final(self).edges() == old(self).edges().push(Seq::<usize>::empty()),
    {
        proof {
            use_type_invariant(&*self);
        }
        let ghost g = deep_view_nexts(self.nexts@);
        let mut taken = Graph::new();
        std::mem::swap(self, &mut taken);
        let Graph { mut nodes, mut nexts, mut prevs } = taken;
        let key = nodes.len();
        nodes.push(node);
        nexts.push(Vec::new());
        prevs.push(Vec::new());
        proof {
            let g2 = deep_view_nexts(nexts@);
            assert(g2 =~= g.push(Seq::<usize>::empty()));
            let n = key as nat;
            assert forall|v: usize| v < n + 1 implies #[trigger] prevs@[v as int]@.len() == pending(
                g2,
                v,
                Seq::empty(),
                n + 1,
            ) by {
                lemma_pending_add_node(g, v, Seq::empty(), n);
                if v < n {
                    assert(prevs@[v as int] == taken.prevs@[v as int]);
                } else {
                    assert forall|u: int| 0 <= u < n implies !(#[trigger] g[u]).contains(v) by {
                        if g[u].contains(v) {
                            let j = choose|j: int| 0 <= j < g[u].len() && g[u][j] == v;
                            assert(g[u][j] < n);
                        }
                    }
                    lemma_pending_none(g, v, Seq::empty(), n);
                }
            }
        }
        *self = Graph { nodes, nexts, prevs };
        key
    }

    /// Add an edge from the node of key `from` to that of key `to`.
    pub fn insert_edge(&mut self, from: usize, to: usize)
        requires
            from < old(self).nodes().len(),
            to < old(self).nodes().len(),
        ensures
            final(self).nodes() == old(self).nodes(),
            final(self).edges() == old(self).edges().update(
                from as int,
                old(self).edges()[from as int].push(to),
            ),
    {
        proof {
            use_type_invariant(&*self);
        }
        let ghost g = deep_view_nexts(self.nexts@);
        let mut taken = Graph::new();
        std::mem::swap(self, &mut taken);
        let Graph { nodes, mut nexts, mut prevs } = taken;
        let mut row: Vec<usize> = Vec::new();
        std::mem::swap(&mut row, &mut nexts[from]);
        row.push(to);
        nexts.set(from, row);
        let mut back: Vec<usize> = Vec::new();
        std::mem::swap(&mut back, &mut prevs[to]);
        back.push(from);
        prevs.set(to, back);
        proof {
            let n = nodes@.len();
            let g2 = deep_view_nexts(nexts@);
            assert(g2 =~= g.update(from as int, g[from as int].push(to)));
            assert forall|u: int, j: int| 0 <= u < g2.len() && 0 <= j < g2[u].len() implies #[trigger] g2[u][j]
                < g2.len() by {
                if u == from as int && j == g[u].len() {
                } else {
                    assert(g2[u][j] == g[u][j]);
                }
            }
            assert forall|v: usize| v < n implies #[trigger] prevs@[v as int]@.len() == pending(
                g2,
                v,
                Seq::empty(),
                n,
            ) by {
                lemma_pending_add_edge(g, from, to, v, Seq::empty(), n);
            }
        }
        *self = Graph { nodes, nexts, prevs };
    }

    /// The number of edges into each node.
    fn in_degrees(&self) -> (d: Vec<usize>)
        ensures
            d@.len() == self.nexts@.len(),
            forall|w: usize|
                w < self.nexts@.len() ==> #[trigger] d@[w as int] == pending(
                    deep_view_nexts(self.nexts@),
                    w,
                    Seq::empty(),
                    self.nexts@.len(),
                ),
    {
        proof {
            use_type_invariant(self);
        }
        let mut degrees: Vec<usize> = Vec::new();
        let mut v: usize = 0;
        while v < self.prevs.len()
            invariant
                self.wf(),
                v <= self.prevs@.len(),
                degrees@.len() == v,
                forall|w: usize| w < v ==> #[trigger] degrees@[w as int] == pending(
                    deep_view_nexts(self.nexts@),
                    w,
                    Seq::empty(),
                    self.nexts@.len(),
                ),
            decreases self.prevs@.len() - v,
        {
            degrees.push(self.prevs[v].len());
            v += 1;
        }
        degrees
    }

    /// The keys of the nodes in topological order (see [`topo_order`]).
    pub fn topo_keys(&self) -> (order: Vec<usize>)
        ensures
            is_topo_walk(self.edges(), order@),
            order@.len() == self.nodes().len() <==> is_acyclic(self.edges()),
            is_acyclic(self.edges()) ==> forall|v: usize|
                v < self.nodes().len() ==> #[trigger] order@.contains(v),
            forall|v: usize|
                v < self.nodes().len() ==> (!#[trigger] order@.contains(v) <==> reachable_from_cycle(
                    self.edges(),
                    v,
                )),
    {
        proof {
            use_type_invariant(self);
        }
        let degrees = self.in_degrees();
        topo_order(&self.nexts, &degrees)
    }

    /// The nodes in topological order: each node comes after every node
    /// with an edge into it, none comes twice, and exactly the nodes that
    /// can be reached from a cycle are left out.
    pub fn iter(&self) -> (r: Vec<&N>)
        ensures
            exists|order: Seq<usize>|
                {
                    &&& is_topo_walk(self.edges(), order)
                    &&& (order.len() == self.nodes().len() <==> is_acyclic(self.edges()))
                    &&& forall|v: usize|
                        v < self.nodes().len() ==> (!#[trigger] order.contains(v)
                            <==> reachable_from_cycle(self.edges(), v))
                    &&& r@.len() == order.len()
                    &&& forall|i: int|
                        0 <= i < order.len() ==> *r@[i] == self.nodes()[#[trigger] order[i] as int]
                },
    {
        proof {
            use_type_invariant(self);
        }
        let mut it = GraphTopoIter::new(self);
        let mut r: Vec<&N> = Vec::new();
        let mut done = false;
        while !done
            invariant
                it.wf(),
                it.graph() == *self,
                self.edges().len() == self.nodes().len(),
                is_topo_prefix(self.edges(), it.emitted()),
                it.emitted().len() <= self.nodes().len(),
                r@.len() == it.emitted().len(),
                forall|i: int|
                    0 <= i < r@.len() ==> *r@[i] == self.nodes()[#[trigger] it.emitted()[i] as int],
                done ==> is_topo_walk(self.edges(), it.emitted()),
                done ==> (it.emitted().len() == self.nodes().len() <==> is_acyclic(self.edges())),
                done ==> forall|v: usize|
                    v < self.nodes().len() ==> (!#[trigger] it.emitted().contains(v)
                        <==> reachable_from_cycle(self.edges(), v)),
            decreases 2 * (self.nodes().len() - it.emitted().len()) + if done {
                0int
            } else {
                1int
            },
        {
            let ghost before = it.emitted();
            match it.next() {
                Some(n) => {
                    r.push(n);
                },
                None => {
                    done = true;
                },
            }
            proof {
                assert(self.nexts.len() == self.nodes().len());
                lemma_distinct_bounded(it.emitted(), self.nodes().len());
            }
        }
        proof {
            assert(is_topo_walk(self.edges(), it.emitted()));
        }
        r
    }
}

impl<N> Default for Graph<N> {
    /// An empty graph.
    fn default() -> (g: Self)
        ensures
            g.nodes() == Seq::<N>::empty(),
            g.edges() == Seq::<Seq<usize>>::empty(),
    {
        Graph::new()
    }
}

/// Whether `order` starts a walk in topological order: no node twice,
/// every node a node of the graph, and every node after the nodes with an
/// edge into it.
pub open spec fn is_topo_prefix(nexts: Seq<Seq<usize>>, order: Seq<usize>) -> bool {
    &&& order.no_duplicates()
    &&& forall|i: int| 0 <= i < order.len() ==> #[trigger] order[i] < nexts.len()
    &&& respects_edges(nexts, order)
}

/// A walk over the nodes of a graph in topological order, one node at a
/// time: the node readied last comes next.
pub struct GraphTopoIter<'a, N> {
    graph: &'a Graph<N>,
    in_degrees: Vec<usize>,
    ready_stack: Vec<usize>,
    emitted: Ghost<Seq<usize>>,
}

impl<'a, N> GraphTopoIter<'a, N> {
    /// Whether the state of the walk is that of a walk over its graph.
    pub closed spec fn wf(&self) -> bool {
        let g = self.graph.edges();
        &&& g.len() == self.graph.nodes().len()
        &&& edges_in_range(g)
        &&& walk_inv(g, self.in_degrees@, self.emitted@, self.ready_stack@)
    }

    /// The graph walked over.
    pub closed spec fn graph(&self) -> Graph<N> {
        *self.graph
    }

    /// The keys of the nodes handed out so far, in order.
    pub closed spec fn emitted(&self) -> Seq<usize> {
        self.emitted@
    }

    /// The keys of the nodes ready to come; the last one comes next.
    pub closed spec fn ready(&self) -> Seq<usize> {
        self.ready_stack@
    }

    /// Start a walk over `graph`: the nodes without incoming edges are
    /// ready, in key order.
    pub fn new(graph: &'a Graph<N>) -> (it: Self)
        ensures
            it.wf(),
            it.graph() == *graph,
            it.emitted() == Seq::<usize>::empty(),
    {
        proof {
            use_type_invariant(graph);
        }
        let degrees = graph.in_degrees();
        let (in_degrees, ready_stack) = start_walk(&graph.nexts, &degrees);
        GraphTopoIter { graph, in_degrees, ready_stack, emitted: Ghost(Seq::empty()) }
    }

    /// The next node of the walk: the one readied last, whose edges are then
    /// taken away; `None` once no node is ready. What has been handed out
    /// is always the start of a topological order, and once the walk is
    /// over it holds every node exactly when the graph has no cycle.
    pub fn next(&mut self) -> (r: Option<&'a N>)
        requires
            old(self).wf(),
        ensures
            final(self).wf(),
            final(self).graph() == old(self).graph(),
            is_topo_prefix(final(self).graph().edges(), final(self).emitted()),
            old(self).ready().len() == 0 ==> r is None && final(self).emitted() == old(self).emitted(),
            old(self).ready().len() > 0 ==> (r matches Some(n)
                && *n == old(self).graph().nodes()[old(self).ready().last() as int]),
            old(self).ready().len() > 0 ==> final(self).emitted() == old(self).emitted().push(
                old(self).ready().last(),
            ),
            r is None ==> is_topo_walk(final(self).graph().edges(), final(self).emitted()),
            r is None ==> (final(self).emitted().len() == final(self).graph().nodes().len()
                <==> is_acyclic(final(self).graph().edges())),
            r is None ==> forall|v: usize|
                v < final(self).graph().nodes().len() ==> (!#[trigger] final(self).emitted().contains(v)
                    <==> reachable_from_cycle(final(self).graph().edges(), v)),
    {
        let graph: &'a Graph<N> = self.graph;
        let ghost g = graph.edges();
        if self.ready_stack.len() == 0 {
            proof {
                assert(graph.nexts.len() == g.len());
                assert(self.ready_stack@ =~= Seq::<usize>::empty());
                lemma_walk_done(g, self.in_degrees@, self.emitted@);
            }
            return None;
        }
        let cur = walk_step(&graph.nexts, &mut self.in_degrees, &mut self.ready_stack, self.emitted);
        self.emitted = Ghost(self.emitted@.push(cur));
        proof {
            let n = g.len();
            assert forall|i: int| 0 <= i < self.emitted@.len() implies #[trigger] self.emitted@[i] < n by {
                assert(in_walk(self.emitted@, self.ready_stack@, self.emitted@[i]));
            }
            assert(self.emitted@[self.emitted@.len() - 1] == cur);
            assert(in_walk(self.emitted@, self.ready_stack@, cur));
        }
        Some(&graph.nodes[cur])
    }
}

} // verus!
