//! Routes that lead both ways between cells, and how they join up.

use vstd::prelude::*;

use crate::layout::OfficeLayout;
use crate::pathfinding::{adjacent, is_route, reachable, step, walkable_cell};

verus! {

/// Routes lead both ways between `a` and `b`.
pub open spec fn linked(layout: &OfficeLayout, a: (u16, u16), b: (u16, u16)) -> bool {
    reachable(layout, a, b) && reachable(layout, b, a)
}

pub proof fn lemma_reach_trans(layout: &OfficeLayout, a: (u16, u16), b: (u16, u16), c: (u16, u16))
    requires
        reachable(layout, a, b),
        reachable(layout, b, c),
    ensures
        reachable(layout, a, c),
{
    let p1 = choose|p: Seq<(u16, u16)>| is_route(layout, a, b, p);
    let p2 = choose|p: Seq<(u16, u16)>| is_route(layout, b, c, p);
    let p = p1 + p2;
    assert forall|i: int| 0 <= i < p.len() implies walkable_cell(layout, #[trigger] p[i]) && adjacent(
        if i == 0 {
            a
        } else {
            p[i - 1]
        },
        p[i],
    ) by {
        if i < p1.len() {
            assert(p[i] == p1[i]);
            if i > 0 {
                assert(p[i - 1] == p1[i - 1]);
            }
        } else {
            let j = i - p1.len();
            assert(p[i] == p2[j]);
            if j == 0 {
                assert(p[i - 1] == p1[p1.len() - 1]);
            } else {
                assert(p[i - 1] == p2[j - 1]);
            }
        }
    }
    assert(p.last() == p2.last());
    assert(is_route(layout, a, c, p));
}

pub proof fn lemma_link_trans(layout: &OfficeLayout, a: (u16, u16), b: (u16, u16), c: (u16, u16))
    requires
        linked(layout, a, b),
        linked(layout, b, c),
    ensures
        linked(layout, a, c),
{
    lemma_reach_trans(layout, a, b, c);
    lemma_reach_trans(layout, c, b, a);
}

/// Two neighbouring walkable cells are linked.
pub proof fn lemma_step_link(layout: &OfficeLayout, a: (u16, u16), b: (u16, u16))
    requires
        walkable_cell(layout, a),
        walkable_cell(layout, b),
        adjacent(a, b),
        adjacent(b, a),
    ensures
        linked(layout, a, b),
{
    assert(is_route(layout, a, b, seq![b]));
    assert(is_route(layout, b, a, seq![a]));
}

/// A run of walkable cells along a row links its ends.
#[verifier::spinoff_prover]
#[verifier::rlimit(50)]
pub proof fn lemma_row_link(layout: &OfficeLayout, r: u16, c1: u16, c2: u16)
    requires
        c1 < c2,
        forall|c: int| c1 <= c <= c2 ==> #[trigger] layout.walkable_at(c, r as int),
    ensures
        linked(layout, (c1, r), (c2, r)),
    decreases c2 - c1,
{
    let m = (c2 - 1) as u16;
    assert(layout.walkable_at(m as int, r as int));
    assert(layout.walkable_at(c2 as int, r as int));
    assert((c2 as int, r as int) == step(m as int, r as int, 3));
    assert((m as int, r as int) == step(c2 as int, r as int, 2));
    lemma_step_link(layout, (m, r), (c2, r));
    if c1 < m {
        assert forall|c: int| c1 <= c <= m implies #[trigger] layout.walkable_at(c, r as int) by {}
        lemma_row_link(layout, r, c1, m);
        lemma_link_trans(layout, (c1, r), (m, r), (c2, r));
    }
}

/// A run of walkable cells along a column links its ends.
#[verifier::spinoff_prover]
#[verifier::rlimit(50)]
pub proof fn lemma_col_link(layout: &OfficeLayout, c: u16, r1: u16, r2: u16)
    requires
        r1 < r2,
        forall|r: int| r1 <= r <= r2 ==> #[trigger] layout.walkable_at(c as int, r),
    ensures
        linked(layout, (c, r1), (c, r2)),
    decreases r2 - r1,
{
    let m = (r2 - 1) as u16;
    assert(layout.walkable_at(c as int, m as int));
    assert(layout.walkable_at(c as int, r2 as int));
    assert((c as int, r2 as int) == step(c as int, m as int, 1));
    assert((c as int, m as int) == step(c as int, r2 as int, 0));
    lemma_step_link(layout, (c, m), (c, r2));
    if r1 < m {
        assert forall|r: int| r1 <= r <= m implies #[trigger] layout.walkable_at(c as int, r) by {}
        lemma_col_link(layout, c, r1, m);
        lemma_link_trans(layout, (c, r1), (c, m), (c, r2));
    }
}

/// Linked cells reach each other.
pub proof fn lemma_linked_reach(layout: &OfficeLayout, a: (u16, u16), b: (u16, u16))
    requires
        linked(layout, a, b),
    ensures
        reachable(layout, a, b),
        reachable(layout, b, a),
{
}

/// Linking goes both ways.
pub proof fn lemma_link_sym(layout: &OfficeLayout, a: (u16, u16), b: (u16, u16))
    requires
        linked(layout, a, b),
    ensures
        linked(layout, b, a),
{
}

} // verus!
