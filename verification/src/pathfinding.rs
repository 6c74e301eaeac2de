use vstd::prelude::*;

use crate::layout::OfficeLayout;

verus! {

/// The cell one step from (c, r) in direction `d`: up, down, left, right.
pub open spec fn step(c: int, r: int, d: int) -> (int, int) {
    if d == 0 {
        (c, r - 1)
    } else if d == 1 {
        (c, r + 1)
    } else if d == 2 {
        (c - 1, r)
    } else {
        (c + 1, r)
    }
}

/// Whether `b` is one of the four grid neighbours of `a`.
pub open spec fn adjacent(a: (u16, u16), b: (u16, u16)) -> bool {
    ||| (b.0 as int, b.1 as int) == step(a.0 as int, a.1 as int, 0)
    ||| (b.0 as int, b.1 as int) == step(a.0 as int, a.1 as int, 1)
    ||| (b.0 as int, b.1 as int) == step(a.0 as int, a.1 as int, 2)
    ||| (b.0 as int, b.1 as int) == step(a.0 as int, a.1 as int, 3)
}

/// Whether the cell `p` can be walked on.
pub open spec fn walkable_cell(layout: &OfficeLayout, p: (u16, u16)) -> bool {
    layout.walkable_at(p.0 as int, p.1 as int)
}

/// `path` is a walk that leaves `from`: each step goes to a neighbouring walkable cell.
pub open spec fn is_walk(layout: &OfficeLayout, from: (u16, u16), path: Seq<(u16, u16)>) -> bool {
    forall|i: int|
        0 <= i < path.len() ==> walkable_cell(layout, #[trigger] path[i]) && adjacent(
            if i == 0 {
                from
            } else {
                path[i - 1]
            },
            path[i],
        )
}

/// `path` leads from `from` (excluded) to `to` (included) over walkable cells.
pub open spec fn is_route(
    layout: &OfficeLayout,
    from: (u16, u16),
    to: (u16, u16),
    path: Seq<(u16, u16)>,
) -> bool {
    &&& path.len() > 0
    &&& is_walk(layout, from, path)
    &&& path.last() == to
}

/// Whether some route leads from `from` to `to`.
pub open spec fn reachable(layout: &OfficeLayout, from: (u16, u16), to: (u16, u16)) -> bool {
    exists|p: Seq<(u16, u16)>| is_route(layout, from, to, p)
}

/// Whether `path` is a route from `from` to `to` that no other route is shorter than.
pub open spec fn is_shortest_route(
    layout: &OfficeLayout,
    from: (u16, u16),
    to: (u16, u16),
    path: Seq<(u16, u16)>,
) -> bool {
    &&& is_route(layout, from, to, path)
    &&& forall|p: Seq<(u16, u16)>| is_route(layout, from, to, p) ==> path.len() <= p.len()
}

/// What `find_path` may return for a walk from `from` to `to`: nothing when they are
/// the same cell, else a shortest route when there is a route, else nothing.
pub open spec fn path_found(
    layout: &OfficeLayout,
    from: (u16, u16),
    to: (u16, u16),
    path: Seq<(u16, u16)>,
) -> bool {
    &&& from == to ==> path.len() == 0
    &&& from != to ==> (path.len() > 0 <==> reachable(layout, from, to))
    &&& path.len() > 0 ==> is_shortest_route(layout, from, to, path)
}

// ── Breadth-first search state ──────────────────────────────────

spec fn in_grid(layout: &OfficeLayout, p: (u16, u16)) -> bool {
    p.0 < layout.cols && p.1 < layout.rows
}

spec fn cell_idx(layout: &OfficeLayout, p: (u16, u16)) -> int {
    p.1 as int * layout.cols as int + p.0 as int
}

/// Every walkable neighbour of the queue entry `i` is queued, at most one level deeper.
spec fn closed_dir(layout: &OfficeLayout, q: Seq<(u16, u16)>, qd: Seq<int>, i: int, d: int) -> bool {
    let n = step(q[i].0 as int, q[i].1 as int, d);
    layout.walkable_at(n.0, n.1) ==> exists|j: int|
        0 <= j < q.len() && #[trigger] q[j] == (n.0 as u16, n.1 as u16) && qd[j] <= qd[i] + 1
}

spec fn closed(layout: &OfficeLayout, q: Seq<(u16, u16)>, qd: Seq<int>, i: int) -> bool {
    &&& closed_dir(layout, q, qd, i, 0)
    &&& closed_dir(layout, q, qd, i, 1)
    &&& closed_dir(layout, q, qd, i, 2)
    &&& closed_dir(layout, q, qd, i, 3)
}

#[verifier::opaque]
spec fn processed(q: Seq<(u16, u16)>, h: int, x: (u16, u16)) -> bool {
    exists|a: int| 0 <= a < h && #[trigger] q[a] == x
}

/// The invariant of the search: `q` is the queue (all cells ever queued, `q[..h]`
/// already expanded), `qd` their depths, `qp` the queue index of the cell each was
/// reached from, `visited`/`came` the grids of queued cells and of their predecessors.
#[verifier::opaque]
spec fn bfs_inv(
    layout: &OfficeLayout,
    start: (u16, u16),
    q: Seq<(u16, u16)>,
    qd: Seq<int>,
    qp: Seq<int>,
    h: int,
    visited: Seq<bool>,
    came: Seq<(u16, u16)>,
) -> bool {
    &&& q.len() > 0
    &&& q[0] == start
    &&& qd.len() == q.len()
    &&& qp.len() == q.len()
    &&& qd[0] == 0
    &&& 0 <= h <= q.len()
    &&& visited.len() == layout.cols * layout.rows
    &&& came.len() == layout.cols * layout.rows
    &&& forall|i: int, j: int| 0 <= i < j < q.len() ==> q[i] != q[j]
    &&& forall|i: int|
        #![trigger q[i]]
        0 < i < q.len() ==> {
            &&& in_grid(layout, q[i])
            &&& walkable_cell(layout, q[i])
            &&& visited[cell_idx(layout, q[i])]
            &&& 0 <= qp[i] < i
            &&& qd[i] == qd[qp[i]] + 1
            &&& came[cell_idx(layout, q[i])] == q[qp[i]]
            &&& adjacent(q[qp[i]], q[i])
        }
    &&& in_grid(layout, start) ==> visited[cell_idx(layout, start)]
    &&& forall|k: int|
        0 <= k < layout.cols * layout.rows && #[trigger] visited[k] ==> exists|i: int|
            0 <= i < q.len() && in_grid(layout, #[trigger] q[i]) && cell_idx(layout, q[i]) == k
    &&& forall|i: int, j: int| 0 <= i <= j < q.len() ==> qd[i] <= qd[j]
    &&& h < q.len() ==> forall|j: int| 0 <= j < q.len() ==> qd[j] <= qd[h] + 1
    &&& forall|i: int| 0 <= i < h ==> closed(layout, q, qd, i)
}

proof fn lemma_idx(layout: &OfficeLayout, a: (u16, u16), b: (u16, u16))
    requires
        in_grid(layout, a),
        in_grid(layout, b),
    ensures
        0 <= cell_idx(layout, a) < layout.cols * layout.rows,
        cell_idx(layout, a) == cell_idx(layout, b) ==> a == b,
{
    let c = layout.cols as int;
    let rows = layout.rows as int;
    let (a0, a1, b0, b1) = (a.0 as int, a.1 as int, b.0 as int, b.1 as int);
    assert(0 <= a1 * c + a0 < c * rows) by (nonlinear_arith)
        requires
            0 <= a0 < c,
            0 <= a1 < rows,
    ;
    if a1 * c + a0 == b1 * c + b0 {
        assert(a1 == b1 && a0 == b0) by (nonlinear_arith)
            requires
                0 <= a0 < c,
                0 <= b0 < c,
                0 <= a1,
                0 <= b1,
                a1 * c + a0 == b1 * c + b0,
        {
            if a1 < b1 {
                assert(a1 * c + c <= b1 * c);
            } else if b1 < a1 {
                assert(b1 * c + c <= a1 * c);
            }
        }
    }
}


proof fn lemma_inv_basics(
    layout: &OfficeLayout,
    start: (u16, u16),
    q: Seq<(u16, u16)>,
    qd: Seq<int>,
    qp: Seq<int>,
    h: int,
    visited: Seq<bool>,
    came: Seq<(u16, u16)>,
)
    requires
        bfs_inv(layout, start, q, qd, qp, h, visited, came),
    ensures
        q.len() > 0,
        q[0] == start,
        qd.len() == q.len(),
        qd[0] == 0,
        0 <= h <= q.len(),
{
    reveal(bfs_inv);
}

proof fn lemma_inv_pair(
    layout: &OfficeLayout,
    start: (u16, u16),
    q: Seq<(u16, u16)>,
    qd: Seq<int>,
    qp: Seq<int>,
    h: int,
    visited: Seq<bool>,
    came: Seq<(u16, u16)>,
    i: int,
    j: int,
)
    requires
        bfs_inv(layout, start, q, qd, qp, h, visited, came),
        0 <= i < q.len(),
        0 <= j < q.len(),
    ensures
        q[i] == q[j] ==> i == j,
        i <= j ==> qd[i] <= qd[j],
        i < h ==> closed(layout, q, qd, i),
{
    reveal(bfs_inv);
    if i < j {
        assert(q[i] != q[j]);
    } else if j < i {
        assert(q[j] != q[i]);
    }
}

/// Cells reached through a queue that only grew stay reached.
proof fn lemma_closed_extend(
    layout: &OfficeLayout,
    q: Seq<(u16, u16)>,
    qd: Seq<int>,
    q2: Seq<(u16, u16)>,
    qd2: Seq<int>,
    i: int,
    d: int,
)
    requires
        0 <= i < q.len(),
        q.len() <= q2.len(),
        qd.len() == q.len(),
        qd2.len() == q2.len(),
        forall|j: int| 0 <= j < q.len() ==> q2[j] == q[j] && qd2[j] == qd[j],
        closed_dir(layout, q, qd, i, d),
    ensures
        closed_dir(layout, q2, qd2, i, d),
{
    let n = step(q[i].0 as int, q[i].1 as int, d);
    if layout.walkable_at(n.0, n.1) {
        let j = choose|j: int|
            0 <= j < q.len() && #[trigger] q[j] == (n.0 as u16, n.1 as u16) && qd[j] <= qd[i] + 1;
        assert(q2[j] == q[j]);
    }
}

/// A cell of a walk whose earlier cells have all been expanded is queued no deeper
/// than its position on the walk.
proof fn lemma_walk_depth(
    layout: &OfficeLayout,
    start: (u16, u16),
    q: Seq<(u16, u16)>,
    qd: Seq<int>,
    qp: Seq<int>,
    h: int,
    visited: Seq<bool>,
    came: Seq<(u16, u16)>,
    p: Seq<(u16, u16)>,
    i: int,
)
    requires
        bfs_inv(layout, start, q, qd, qp, h, visited, came),
        0 < h,
        is_walk(layout, start, p),
        0 <= i < p.len(),
        forall|j: int| 0 <= j < i ==> processed(q, h, #[trigger] p[j]),
    ensures
        exists|b: int| 0 <= b < q.len() && #[trigger] q[b] == p[i] && qd[b] <= i + 1,
    decreases i,
{
    lemma_inv_basics(layout, start, q, qd, qp, h, visited, came);
    reveal(processed);
    let prev = if i == 0 {
        start
    } else {
        p[i - 1]
    };
    assert(walkable_cell(layout, p[i]) && adjacent(prev, p[i]));
    let a: int = if i == 0 {
        0
    } else {
        assert(processed(q, h, p[i - 1]));
        choose|a: int| 0 <= a < h && #[trigger] q[a] == p[i - 1]
    };
    assert(q[a] == prev);
    if i > 0 {
        lemma_walk_depth(layout, start, q, qd, qp, h, visited, came, p, i - 1);
        let b = choose|b: int| 0 <= b < q.len() && #[trigger] q[b] == p[i - 1] && qd[b] <= i;
        lemma_inv_pair(layout, start, q, qd, qp, h, visited, came, a, b);
        assert(a == b);
    } else {
        lemma_inv_pair(layout, start, q, qd, qp, h, visited, came, a, a);
    }
    assert(qd[a] <= i);
    assert(closed(layout, q, qd, a));
    let d: int = if (p[i].0 as int, p[i].1 as int) == step(prev.0 as int, prev.1 as int, 0) {
        0
    } else if (p[i].0 as int, p[i].1 as int) == step(prev.0 as int, prev.1 as int, 1) {
        1
    } else if (p[i].0 as int, p[i].1 as int) == step(prev.0 as int, prev.1 as int, 2) {
        2
    } else {
        3
    };
    assert(closed_dir(layout, q, qd, a, d));
    let n = step(prev.0 as int, prev.1 as int, d);
    assert((n.0 as u16, n.1 as u16) == p[i]);
}

proof fn lemma_scan(
    layout: &OfficeLayout,
    start: (u16, u16),
    q: Seq<(u16, u16)>,
    qd: Seq<int>,
    qp: Seq<int>,
    h: int,
    visited: Seq<bool>,
    came: Seq<(u16, u16)>,
    p: Seq<(u16, u16)>,
    i: int,
)
    requires
        bfs_inv(layout, start, q, qd, qp, h, visited, came),
        0 < h,
        is_walk(layout, start, p),
        0 <= i < p.len(),
        forall|j: int| 0 <= j < i ==> processed(q, h, #[trigger] p[j]),
        !processed(q, h, p.last()),
    ensures
        h < q.len(),
        qd[h] <= p.len(),
    decreases p.len() - i,
{
    if processed(q, h, p[i]) {
        lemma_scan(layout, start, q, qd, qp, h, visited, came, p, i + 1);
    } else {
        lemma_walk_depth(layout, start, q, qd, qp, h, visited, came, p, i);
        let b = choose|b: int| 0 <= b < q.len() && #[trigger] q[b] == p[i] && qd[b] <= i + 1;
        if b < h {
            assert(processed(q, h, p[i])) by {
                reveal(processed);
            }
        }
        lemma_inv_basics(layout, start, q, qd, qp, h, visited, came);
        lemma_inv_pair(layout, start, q, qd, qp, h, visited, came, h, b);
        assert(qd[h] <= qd[b]);
    }
}

/// No route to a cell that has not been expanded is shorter than the depth of the
/// next cell to expand; in particular the queue is not exhausted while one exists.
proof fn lemma_no_shorter(
    layout: &OfficeLayout,
    start: (u16, u16),
    q: Seq<(u16, u16)>,
    qd: Seq<int>,
    qp: Seq<int>,
    h: int,
    visited: Seq<bool>,
    came: Seq<(u16, u16)>,
    end: (u16, u16),
    p: Seq<(u16, u16)>,
)
    requires
        bfs_inv(layout, start, q, qd, qp, h, visited, came),
        0 < h,
        forall|a: int| 0 <= a < h ==> q[a] != end,
        is_route(layout, start, end, p),
    ensures
        h < q.len(),
        qd[h] <= p.len(),
{
    assert(!processed(q, h, p.last())) by {
        reveal(processed);
    }
    lemma_scan(layout, start, q, qd, qp, h, visited, came, p, 0);
}


spec fn num_true(s: Seq<bool>) -> int
    decreases s.len(),
{
    if s.len() == 0 {
        0
    } else {
        num_true(s.drop_last()) + if s.last() {
            1int
        } else {
            0int
        }
    }
}

proof fn lemma_num_true_bound(s: Seq<bool>)
    ensures
        0 <= num_true(s) <= s.len(),
    decreases s.len(),
{
    if s.len() > 0 {
        lemma_num_true_bound(s.drop_last());
    }
}

proof fn lemma_num_true_set(s: Seq<bool>, k: int)
    requires
        0 <= k < s.len(),
        !s[k],
    ensures
        num_true(s.update(k, true)) == num_true(s) + 1,
    decreases s.len(),
{
    let t = s.update(k, true);
    if k == s.len() - 1 {
        assert(t.drop_last() =~= s.drop_last());
    } else {
        assert(t.drop_last() =~= s.drop_last().update(k, true));
        lemma_num_true_set(s.drop_last(), k);
    }
}

proof fn lemma_inv_init(
    layout: &OfficeLayout,
    start: (u16, u16),
    visited: Seq<bool>,
    came: Seq<(u16, u16)>,
)
    requires
        visited.len() == layout.cols * layout.rows,
        came.len() == layout.cols * layout.rows,
        forall|k: int|
            0 <= k < visited.len() ==> (#[trigger] visited[k] <==> in_grid(layout, start)
                && k == cell_idx(layout, start)),
    ensures
        bfs_inv(layout, start, seq![start], seq![0int], seq![0int], 0, visited, came),
{
    reveal(bfs_inv);
    let q = seq![start];
    if in_grid(layout, start) {
        lemma_idx(layout, start, start);
    }
    assert forall|k: int| 0 <= k < layout.cols * layout.rows && #[trigger] visited[k] implies exists|
        i: int,
    | 0 <= i < q.len() && in_grid(layout, #[trigger] q[i]) && cell_idx(layout, q[i]) == k by {
        assert(q[0] == start);
    }
}

proof fn lemma_inv_push(
    layout: &OfficeLayout,
    start: (u16, u16),
    q: Seq<(u16, u16)>,
    qd: Seq<int>,
    qp: Seq<int>,
    h: int,
    visited: Seq<bool>,
    came: Seq<(u16, u16)>,
    next: (u16, u16),
)
    requires
        bfs_inv(layout, start, q, qd, qp, h, visited, came),
        h < q.len(),
        in_grid(layout, next),
        walkable_cell(layout, next),
        !visited[cell_idx(layout, next)],
        adjacent(q[h], next),
    ensures
        bfs_inv(
            layout,
            start,
            q.push(next),
            qd.push(qd[h] + 1),
            qp.push(h),
            h,
            visited.update(cell_idx(layout, next), true),
            came.update(cell_idx(layout, next), q[h]),
        ),
        forall|j: int| 0 <= j < q.len() ==> q[j] != next,
{
    reveal(bfs_inv);
    let k = cell_idx(layout, next);
    lemma_idx(layout, next, next);
    let q2 = q.push(next);
    let qd2 = qd.push(qd[h] + 1);
    let qp2 = qp.push(h);
    let v2 = visited.update(k, true);
    let c2 = came.update(k, q[h]);
    assert forall|j: int| 0 <= j < q.len() implies q[j] != next by {
        if q[j] == next {
            if j == 0 {
                assert(visited[cell_idx(layout, start)]);
            } else {
                assert(visited[cell_idx(layout, q[j])]);
            }
        }
    }
    assert forall|i: int, j: int| 0 <= i < j < q2.len() implies q2[i] != q2[j] by {
        if j == q.len() {
            assert(q2[i] == q[i]);
        }
    }
    assert forall|i: int| #![trigger q2[i]] 0 < i < q2.len() implies {
        &&& in_grid(layout, q2[i])
        &&& walkable_cell(layout, q2[i])
        &&& v2[cell_idx(layout, q2[i])]
        &&& 0 <= qp2[i] < i
        &&& qd2[i] == qd2[qp2[i]] + 1
        &&& c2[cell_idx(layout, q2[i])] == q2[qp2[i]]
        &&& adjacent(q2[qp2[i]], q2[i])
    } by {
        if i < q.len() {
            assert(q2[i] == q[i]);
            lemma_idx(layout, q[i], next);
            assert(q[i] != next);
            assert(qp2[i] == qp[i]);
            assert(q2[qp[i]] == q[qp[i]]);
        }
    }
    assert forall|kk: int| 0 <= kk < layout.cols * layout.rows && #[trigger] v2[kk] implies exists|
        i: int,
    | 0 <= i < q2.len() && in_grid(layout, #[trigger] q2[i]) && cell_idx(layout, q2[i]) == kk by {
        if kk == k {
            assert(q2[q.len() as int] == next);
        } else {
            assert(visited[kk]);
            let i = choose|i: int|
                0 <= i < q.len() && in_grid(layout, #[trigger] q[i]) && cell_idx(layout, q[i]) == kk;
            assert(q2[i] == q[i]);
        }
    }
    assert forall|i: int| 0 <= i < h implies closed(layout, q2, qd2, i) by {
        assert(closed(layout, q, qd, i));
        lemma_closed_extend(layout, q, qd, q2, qd2, i, 0);
        lemma_closed_extend(layout, q, qd, q2, qd2, i, 1);
        lemma_closed_extend(layout, q, qd, q2, qd2, i, 2);
        lemma_closed_extend(layout, q, qd, q2, qd2, i, 3);
    }
    if in_grid(layout, start) {
        lemma_idx(layout, start, start);
    }
    assert(in_grid(layout, start) ==> v2[cell_idx(layout, start)]);
    assert(forall|i: int, j: int| 0 <= i <= j < q2.len() ==> qd2[i] <= qd2[j]);
    assert(h < q2.len() ==> forall|j: int| 0 <= j < q2.len() ==> qd2[j] <= qd2[h] + 1);
    assert(v2.len() == layout.cols * layout.rows);
    assert(c2.len() == layout.cols * layout.rows);
    assert(q2[0] == start);
    assert(qd2[0] == 0);
}

proof fn lemma_inv_advance(
    layout: &OfficeLayout,
    start: (u16, u16),
    q: Seq<(u16, u16)>,
    qd: Seq<int>,
    qp: Seq<int>,
    h: int,
    visited: Seq<bool>,
    came: Seq<(u16, u16)>,
)
    requires
        bfs_inv(layout, start, q, qd, qp, h, visited, came),
        h < q.len(),
        closed(layout, q, qd, h),
    ensures
        bfs_inv(layout, start, q, qd, qp, h + 1, visited, came),
{
    reveal(bfs_inv);
}

/// Facts about a visited neighbour, the parent link of a queue entry and depths.
proof fn lemma_inv_entry(
    layout: &OfficeLayout,
    start: (u16, u16),
    q: Seq<(u16, u16)>,
    qd: Seq<int>,
    qp: Seq<int>,
    h: int,
    visited: Seq<bool>,
    came: Seq<(u16, u16)>,
    i: int,
)
    requires
        bfs_inv(layout, start, q, qd, qp, h, visited, came),
        0 <= i < q.len(),
    ensures
        qd[i] >= 0,
        h < q.len() ==> qd[i] <= qd[h] + 1,
        i > 0 ==> {
            &&& in_grid(layout, q[i])
            &&& walkable_cell(layout, q[i])
            &&& 0 <= qp[i] < i
            &&& qd[i] == qd[qp[i]] + 1
            &&& came[cell_idx(layout, q[i])] == q[qp[i]]
            &&& adjacent(q[qp[i]], q[i])
            &&& q[i] != start
        },
{
    reveal(bfs_inv);
    assert(qd[0] <= qd[i]);
    if i > 0 {
        assert(q[0] != q[i]);
    }
}

proof fn lemma_inv_visited(
    layout: &OfficeLayout,
    start: (u16, u16),
    q: Seq<(u16, u16)>,
    qd: Seq<int>,
    qp: Seq<int>,
    h: int,
    visited: Seq<bool>,
    came: Seq<(u16, u16)>,
    next: (u16, u16),
)
    requires
        bfs_inv(layout, start, q, qd, qp, h, visited, came),
        h < q.len(),
        in_grid(layout, next),
        visited[cell_idx(layout, next)],
    ensures
        exists|j: int| 0 <= j < q.len() && #[trigger] q[j] == next && qd[j] <= qd[h] + 1,
{
    reveal(bfs_inv);
    lemma_idx(layout, next, next);
    let k = cell_idx(layout, next);
    let i = choose|i: int| 0 <= i < q.len() && in_grid(layout, #[trigger] q[i]) && cell_idx(layout, q[i]) == k;
    lemma_idx(layout, q[i], next);
    assert(q[i] == next);
}

proof fn lemma_inv_dims(
    layout: &OfficeLayout,
    start: (u16, u16),
    q: Seq<(u16, u16)>,
    qd: Seq<int>,
    qp: Seq<int>,
    h: int,
    visited: Seq<bool>,
    came: Seq<(u16, u16)>,
)
    requires
        bfs_inv(layout, start, q, qd, qp, h, visited, came),
    ensures
        visited.len() == layout.cols * layout.rows,
        came.len() == layout.cols * layout.rows,
        qd.len() == q.len(),
        qp.len() == q.len(),
{
    reveal(bfs_inv);
}

/// The index of an in-grid cell in a row-major grid.
fn cell_index(layout: &OfficeLayout, c: u16, r: u16) -> (k: usize)
    requires
        c < layout.cols,
        r < layout.rows,
        layout.cols <= 32767,
        layout.rows <= 32767,
    ensures
        k == cell_idx(layout, (c, r)),
        k < layout.cols * layout.rows,
{
    proof {
        lemma_idx(layout, (c, r), (c, r));
    }
    assert(r as int * layout.cols as int + c as int <= 32767 * 32767) by (nonlinear_arith)
        requires
            r < layout.rows <= 32767,
            c < layout.cols <= 32767,
    ;
    (r as usize) * (layout.cols as usize) + (c as usize)
}

/// BFS pathfinding on the tile grid.
/// Returns path as Vec of (col, row) steps, excluding start, including end.
/// Returns empty vec if no path exists or start == end.
pub fn find_path(
    start_col: u16,
    start_row: u16,
    end_col: u16,
    end_row: u16,
    layout: &OfficeLayout,
) -> (path: Vec<(u16, u16)>)
    requires
        !(start_col == end_col && start_row == end_row) ==> {
            &&& layout.wf()
            &&& layout.cols <= 32767
            &&& layout.rows <= 32767
            &&& start_col < 32767
            &&& start_row < 32767
        },
    ensures
        path_found(layout, (start_col, start_row), (end_col, end_row), path@),
        start_col == end_col && start_row == end_row ==> path@.len() == 0,
        !(start_col == end_col && start_row == end_row) ==> (path@.len() > 0 <==> reachable(
            layout,
            (start_col, start_row),
            (end_col, end_row),
        )),
        path@.len() > 0 ==> is_shortest_route(
            layout,
            (start_col, start_row),
            (end_col, end_row),
            path@,
        ),
{
    if start_col == end_col && start_row == end_row {
        return Vec::new();
    }
    let start = (start_col, start_row);
    let end = (end_col, end_row);

    if !layout.is_walkable(end_col, end_row) {
        assert forall|p: Seq<(u16, u16)>| !is_route(layout, start, end, p) by {
            if is_route(layout, start, end, p) {
                assert(walkable_cell(layout, p[p.len() - 1]));
            }
        }
        return Vec::new();
    }

    let cols = layout.cols as usize;
    let rows = layout.rows as usize;
    assert(cols * rows <= 32767 * 32767) by (nonlinear_arith)
        requires
            cols <= 32767,
            rows <= 32767,
    ;
    let total = cols * rows;

    let mut visited: Vec<bool> = Vec::new();
    let mut came_from: Vec<(u16, u16)> = Vec::new();
    let mut k: usize = 0;
    while k < total
        invariant
            k <= total,
            visited@.len() == k,
            came_from@.len() == k,
            forall|j: int| 0 <= j < k ==> !#[trigger] visited@[j],
        decreases total - k,
    {
        visited.push(false);
        came_from.push((0, 0));
        k = k + 1;
    }
    if start_col < layout.cols && start_row < layout.rows {
        let sk = cell_index(layout, start_col, start_row);
        visited.set(sk, true);
    }
    proof {
        if in_grid(layout, start) {
            lemma_num_true_set(Seq::new(total as nat, |j: int| false), cell_idx(layout, start));
            assert(Seq::new(total as nat, |j: int| false).update(cell_idx(layout, start), true) =~= visited@);
        } else {
            assert(Seq::new(total as nat, |j: int| false) =~= visited@);
        }
        lemma_num_true_zero(total as nat);
        lemma_inv_init(layout, start, visited@, came_from@);
    }

    let mut queue: Vec<(u16, u16)> = Vec::new();
    queue.push(start);
    assert(queue@ =~= seq![start]);
    let mut head: usize = 0;
    let ghost mut qd: Seq<int> = seq![0int];
    let ghost mut qp: Seq<int> = seq![0int];
    let ghost outside: int = if in_grid(layout, start) {
        0
    } else {
        1
    };

    let directions: [(i32, i32); 4] = [(0, -1), (0, 1), (-1, 0), (1, 0)];

    while head < queue.len()
        invariant
            layout.wf(),
            layout.cols <= 32767,
            layout.rows <= 32767,
            start_col < 32767,
            start_row < 32767,
            cols == layout.cols,
            rows == layout.rows,
            total == layout.cols * layout.rows,
            start == (start_col, start_row),
            end == (end_col, end_row),
            start != end,
            walkable_cell(layout, end),
            directions@ == seq![(0i32, -1i32), (0i32, 1i32), (-1i32, 0i32), (1i32, 0i32)],
            bfs_inv(layout, start, queue@, qd, qp, head as int, visited@, came_from@),
            forall|a: int| 0 <= a < head ==> queue@[a] != end,
            queue@.len() == num_true(visited@) + outside,
            outside == if in_grid(layout, start) { 0int } else { 1int },
        decreases total + 1 - head,
    {
        proof {
            lemma_inv_dims(layout, start, queue@, qd, qp, head as int, visited@, came_from@);
            lemma_num_true_bound(visited@);
        }
        let current = queue[head];

        if current.0 == end_col && current.1 == end_row {
            return reconstruct(layout, start, end, &queue, head, &came_from, Ghost(qd), Ghost(qp), Ghost(visited@));
        }

        let mut d: usize = 0;
        while d < 4
            invariant
                layout.wf(),
                layout.cols <= 32767,
                layout.rows <= 32767,
                cols == layout.cols,
                rows == layout.rows,
                total == layout.cols * layout.rows,
                start == (start_col, start_row),
                d <= 4,
                head < queue@.len(),
                queue@[head as int] == current,
                current != end,
                directions@ == seq![(0i32, -1i32), (0i32, 1i32), (-1i32, 0i32), (1i32, 0i32)],
                bfs_inv(layout, start, queue@, qd, qp, head as int, visited@, came_from@),
                forall|a: int| 0 <= a < head ==> queue@[a] != end,
                forall|e: int| 0 <= e < d ==> closed_dir(layout, queue@, qd, head as int, e),
                queue@.len() == num_true(visited@) + outside,
                outside == if in_grid(layout, start) { 0int } else { 1int },
            decreases 4 - d,
        {
            proof {
                lemma_inv_dims(layout, start, queue@, qd, qp, head as int, visited@, came_from@);
                lemma_inv_entry(layout, start, queue@, qd, qp, head as int, visited@, came_from@, head as int);
            }
            let (dc, dr) = directions[d];
            let nc = current.0 as i32 + dc;
            let nr = current.1 as i32 + dr;
            let ghost n = step(current.0 as int, current.1 as int, d as int);
            assert(n == (nc as int, nr as int));

            if nc < 0 || nr < 0 || nc >= layout.cols as i32 || nr >= layout.rows as i32 {
                assert(!layout.walkable_at(n.0, n.1));
                d = d + 1;
                continue;
            }

            let next = (nc as u16, nr as u16);
            let nk = cell_index(layout, next.0, next.1);
            if visited[nk] {
                proof {
                    lemma_inv_visited(layout, start, queue@, qd, qp, head as int, visited@, came_from@, next);
                }
                d = d + 1;
                continue;
            }

            if !layout.is_walkable(next.0, next.1) {
                d = d + 1;
                continue;
            }

            proof {
                assert(adjacent(current, next)) by {
                    assert((next.0 as int, next.1 as int) == step(current.0 as int, current.1 as int, d as int));
                }
                lemma_inv_push(layout, start, queue@, qd, qp, head as int, visited@, came_from@, next);
                lemma_num_true_set(visited@, nk as int);
                let q2 = queue@.push(next);
                let qd2 = qd.push(qd[head as int] + 1);
                assert forall|e: int| 0 <= e < d implies closed_dir(layout, q2, qd2, head as int, e) by {
                    lemma_closed_extend(layout, queue@, qd, q2, qd2, head as int, e);
                }
                assert(q2[q2.len() - 1] == next);
                assert(closed_dir(layout, q2, qd2, head as int, d as int));
                qd = qd2;
                qp = qp.push(head as int);
            }
            visited.set(nk, true);
            came_from.set(nk, current);
            queue.push(next);
            d = d + 1;
        }
        proof {
            lemma_inv_advance(layout, start, queue@, qd, qp, head as int, visited@, came_from@);
        }
        head = head + 1;
    }

    proof {
        assert forall|p: Seq<(u16, u16)>| !is_route(layout, start, end, p) by {
            if is_route(layout, start, end, p) {
                lemma_inv_basics(layout, start, queue@, qd, qp, head as int, visited@, came_from@);
                lemma_no_shorter(layout, start, queue@, qd, qp, head as int, visited@, came_from@, end, p);
            }
        }
    }
    Vec::new()  // no path found
}

proof fn lemma_num_true_zero(n: nat)
    ensures
        num_true(Seq::new(n, |j: int| false)) == 0,
    decreases n,
{
    if n > 0 {
        assert(Seq::new(n, |j: int| false).drop_last() =~= Seq::new((n - 1) as nat, |j: int| false));
        lemma_num_true_zero((n - 1) as nat);
    }
}

proof fn lemma_prepend(
    layout: &OfficeLayout,
    prev: (u16, u16),
    node: (u16, u16),
    rp: Seq<(u16, u16)>,
    rev: Seq<(u16, u16)>,
)
    requires
        walkable_cell(layout, node),
        adjacent(prev, node),
        is_walk(layout, node, rp),
        rev.len() == rp.len() + 1,
        rev.last() == node,
        forall|j: int| 0 <= j < rp.len() ==> rp[j] == #[trigger] rev.drop_last()[rp.len() - 1 - j],
    ensures
        is_walk(layout, prev, seq![node] + rp),
        forall|j: int|
            0 <= j < rp.len() + 1 ==> (seq![node] + rp)[j] == #[trigger] rev[rev.len() - 1 - j],
{
    let rp2 = seq![node] + rp;
    assert forall|j: int| 0 <= j < rp2.len() implies rp2[j] == #[trigger] rev[rev.len() - 1 - j] by {
        if j > 0 {
            assert(rp2[j] == rp[j - 1]);
            assert(rev.drop_last()[rp.len() - 1 - (j - 1)] == rev[rev.len() - 1 - j]);
        }
    }
    assert forall|i: int| 0 <= i < rp2.len() implies walkable_cell(layout, #[trigger] rp2[i]) && adjacent(
        if i == 0 {
            prev
        } else {
            rp2[i - 1]
        },
        rp2[i],
    ) by {
        if i > 0 {
            assert(rp2[i] == rp[i - 1]);
            assert(walkable_cell(layout, rp[i - 1]));
            if i > 1 {
                assert(rp2[i - 1] == rp[i - 2]);
            }
        }
    }
}

/// Follows the predecessor links from `end` (the queue entry `h`) back to `start`.
fn reconstruct(
    layout: &OfficeLayout,
    start: (u16, u16),
    end: (u16, u16),
    queue: &Vec<(u16, u16)>,
    h: usize,
    came_from: &Vec<(u16, u16)>,
    Ghost(qd): Ghost<Seq<int>>,
    Ghost(qp): Ghost<Seq<int>>,
    Ghost(visited): Ghost<Seq<bool>>,
) -> (path: Vec<(u16, u16)>)
    requires
        layout.wf(),
        layout.cols <= 32767,
        layout.rows <= 32767,
        bfs_inv(layout, start, queue@, qd, qp, h as int, visited, came_from@),
        h < queue@.len(),
        queue@[h as int] == end,
        start != end,
        forall|a: int| 0 <= a < h ==> queue@[a] != end,
    ensures
        is_shortest_route(layout, start, end, path@),
{
    proof {
        lemma_inv_basics(layout, start, queue@, qd, qp, h as int, visited, came_from@);
        lemma_inv_entry(layout, start, queue@, qd, qp, h as int, visited, came_from@, h as int);
        lemma_inv_dims(layout, start, queue@, qd, qp, h as int, visited, came_from@);
    }
    let mut rev: Vec<(u16, u16)> = Vec::new();
    let mut node = end;
    let ghost mut ni: int = h as int;
    let ghost mut rp: Seq<(u16, u16)> = Seq::empty();
    while !(node.0 == start.0 && node.1 == start.1)
        invariant
            layout.wf(),
            layout.cols <= 32767,
            layout.rows <= 32767,
            bfs_inv(layout, start, queue@, qd, qp, h as int, visited, came_from@),
            came_from@.len() == layout.cols * layout.rows,
            queue@[0] == start,
            0 <= ni < queue@.len(),
            queue@[ni] == node,
            qd[ni] >= 0,
            rev@.len() == qd[h as int] - qd[ni],
            rp.len() == rev@.len(),
            forall|j: int| 0 <= j < rp.len() ==> rp[j] == #[trigger] rev@[rev@.len() - 1 - j],
            is_walk(layout, node, rp),
            rp.len() > 0 ==> rp.last() == end,
            rp.len() == 0 ==> node == end,
        decreases qd[ni],
    {
        proof {
            lemma_inv_entry(layout, start, queue@, qd, qp, h as int, visited, came_from@, ni);
            if ni == 0 {
                assert(node == start);
            }
            lemma_inv_entry(layout, start, queue@, qd, qp, h as int, visited, came_from@, qp[ni]);
        }
        let nk = cell_index(layout, node.0, node.1);
        rev.push(node);
        let prev = came_from[nk];
        proof {
            assert(prev == queue@[qp[ni]]);
            lemma_prepend(layout, prev, node, rp, rev@);
            rp = seq![node] + rp;
            ni = qp[ni];
        }
        node = prev;
    }
    proof {
        lemma_inv_entry(layout, start, queue@, qd, qp, h as int, visited, came_from@, ni);
        if ni != 0 {
            assert(queue@[ni] != start);
        }
        assert(qd[ni] == 0);
    }
    let mut path: Vec<(u16, u16)> = Vec::new();
    let n = rev.len();
    let mut i: usize = 0;
    while i < n
        invariant
            n == rev@.len(),
            n == rp.len(),
            i <= n,
            path@ == rp.take(i as int),
            forall|j: int| 0 <= j < rp.len() ==> rp[j] == #[trigger] rev@[rev@.len() - 1 - j],
        decreases n - i,
    {
        path.push(rev[n - 1 - i]);
        i = i + 1;
        assert(path@ =~= rp.take(i as int));
    }
    assert(path@ =~= rp);
    proof {
        assert forall|p: Seq<(u16, u16)>| is_route(layout, start, end, p) implies path@.len() <= p.len() by {
            lemma_no_shorter(layout, start, queue@, qd, qp, h as int, visited, came_from@, end, p);
        }
    }
    path
}


/// Whether a character sprite centred on (col, row) stands on a walkable cell and
/// stays fully inside the grid (a margin of 3 cells on every side).
pub open spec fn is_wander_spot(layout: &OfficeLayout, col: int, row: int) -> bool {
    &&& layout.walkable_at(col, row)
    &&& row >= 3
    &&& row + 3 < layout.rows
    &&& col >= 3
    &&& col + 3 < layout.cols
}

/// Row-major order of cells.
pub open spec fn row_major_lt(a: (u16, u16), b: (u16, u16)) -> bool {
    a.1 < b.1 || (a.1 == b.1 && a.0 < b.0)
}

/// Get all walkable tiles in the layout, excluding positions near edges
/// where a character sprite would be clipped.
/// A 5x5 sprite centered on (col, row) occupies cols [col-2, col+2] and rows [row-2, row+2].
/// We need margin of half_w+1 on each side to keep the sprite fully inside the grid.
pub fn get_walkable_tiles(layout: &OfficeLayout) -> (tiles: Vec<(u16, u16)>)
    requires
        layout.wf(),
        layout.cols <= 65533,
        layout.rows <= 65533,
    ensures
        forall|i: int|
            0 <= i < tiles@.len() ==> is_wander_spot(
                layout,
                (#[trigger] tiles@[i]).0 as int,
                tiles@[i].1 as int,
            ),
        forall|c: u16, r: u16| is_wander_spot(layout, c as int, r as int) ==> tiles@.contains((c, r)),
        forall|i: int, j: int|
            0 <= i < j < tiles@.len() ==> row_major_lt(#[trigger] tiles@[i], #[trigger] tiles@[j]),
{
    let sprite_margin_top: u16 = 3;
    let sprite_margin_bottom: u16 = 3;
    let sprite_margin_left: u16 = 3;
    let sprite_margin_right: u16 = 3;

    let mut tiles: Vec<(u16, u16)> = Vec::new();
    let mut row: u16 = 0;
    while row < layout.rows
        invariant
            layout.wf(),
            layout.cols <= 65533,
            layout.rows <= 65533,
            row <= layout.rows,
            sprite_margin_top == 3 && sprite_margin_bottom == 3,
            sprite_margin_left == 3 && sprite_margin_right == 3,
            forall|i: int|
                0 <= i < tiles@.len() ==> is_wander_spot(
                    layout,
                    (#[trigger] tiles@[i]).0 as int,
                    tiles@[i].1 as int,
                ) && tiles@[i].1 < row,
            forall|c: u16, r: u16|
                r < row && is_wander_spot(layout, c as int, r as int) ==> tiles@.contains((c, r)),
            forall|i: int, j: int|
                0 <= i < j < tiles@.len() ==> row_major_lt(#[trigger] tiles@[i], #[trigger] tiles@[j]),
        decreases layout.rows - row,
    {
        let mut col: u16 = 0;
        let ghost before = tiles@;
        while col < layout.cols
            invariant
                layout.wf(),
                layout.cols <= 65533,
                layout.rows <= 65533,
                row < layout.rows,
                col <= layout.cols,
                sprite_margin_top == 3 && sprite_margin_bottom == 3,
                sprite_margin_left == 3 && sprite_margin_right == 3,
                before.len() <= tiles@.len(),
                forall|i: int| 0 <= i < before.len() ==> tiles@[i] == before[i],
                forall|i: int| 0 <= i < before.len() ==> (#[trigger] before[i]).1 < row,
                forall|i: int|
                    before.len() <= i < tiles@.len() ==> (#[trigger] tiles@[i]).1 == row
                        && tiles@[i].0 < col,
                forall|i: int|
                    0 <= i < tiles@.len() ==> is_wander_spot(
                        layout,
                        (#[trigger] tiles@[i]).0 as int,
                        tiles@[i].1 as int,
                    ),
                forall|c: u16, r: u16|
                    r < row && is_wander_spot(layout, c as int, r as int) ==> before.contains((c, r)),
                forall|c: u16|
                    c < col && is_wander_spot(layout, c as int, row as int) ==> tiles@.contains(
                        (c, row),
                    ),
                forall|i: int, j: int|
                    0 <= i < j < tiles@.len() ==> row_major_lt(
                        #[trigger] tiles@[i],
                        #[trigger] tiles@[j],
                    ),
            decreases layout.cols - col,
        {
            let ghost old_tiles = tiles@;
            if layout.is_walkable(col, row) && row >= sprite_margin_top && row + sprite_margin_bottom
                < layout.rows && col >= sprite_margin_left && col + sprite_margin_right < layout.cols {
                tiles.push((col, row));
                assert(tiles@[tiles@.len() - 1] == (col, row));
                assert forall|i: int, j: int| 0 <= i < j < tiles@.len() implies row_major_lt(
                    #[trigger] tiles@[i],
                    #[trigger] tiles@[j],
                ) by {
                    if j == tiles@.len() - 1 {
                        assert(tiles@[i] == old_tiles[i]);
                        if i < before.len() {
                            assert(before[i].1 < row);
                        }
                    } else {
                        assert(tiles@[i] == old_tiles[i]);
                        assert(tiles@[j] == old_tiles[j]);
                    }
                }
            }
            assert forall|c: u16| c < col + 1 && is_wander_spot(layout, c as int, row as int) implies tiles@.contains((c, row)) by {
                if c < col {
                    let k = choose|k: int| 0 <= k < old_tiles.len() && old_tiles[k] == (c, row);
                    assert(tiles@[k] == old_tiles[k]);
                } else {
                    assert(tiles@[tiles@.len() - 1] == (col, row));
                }
            }
            col = col + 1;
        }
        assert forall|i: int| 0 <= i < tiles@.len() implies (#[trigger] tiles@[i]).1 < row + 1 by {
            if i < before.len() {
                assert(before[i].1 < row);
            }
        }
        assert forall|c: u16, r: u16| r < row + 1 && is_wander_spot(layout, c as int, r as int) implies tiles@.contains((c, r)) by {
            if r < row {
                let k = choose|k: int| 0 <= k < before.len() && before[k] == (c, r);
                assert(tiles@[k] == before[k]);
            }
        }
        row = row + 1;
    }
    tiles
}

} // verus!
