use vstd::prelude::*;

use crate::grid::GridPos;

verus! {

/// The rank of the step from `a` to `b` in the order the search tries
/// neighbours: y + 1, y - 1, x + 1, x - 1; 4 when `b` is no neighbour of `a`.
pub open spec fn step_rank(a: GridPos, b: GridPos) -> int {
    if b.x == a.x && b.y == a.y + 1 {
        0
    } else if b.x == a.x && b.y == a.y - 1 {
        1
    } else if b.x == a.x + 1 && b.y == a.y {
        2
    } else if b.x == a.x - 1 && b.y == a.y {
        3
    } else {
        4
    }
}

/// The search tries the neighbour one up in y first, then one down in y, then
/// one up in x, then one down in x; a cell that is no neighbour ranks after all.
pub proof fn lemma_step_ranks(a: GridPos, b: GridPos)
    ensures
        b.x == a.x && b.y == a.y + 1 ==> step_rank(a, b) == 0,
        b.x == a.x && b.y == a.y - 1 ==> step_rank(a, b) == 1,
        b.x == a.x + 1 && b.y == a.y ==> step_rank(a, b) == 2,
        b.x == a.x - 1 && b.y == a.y ==> step_rank(a, b) == 3,
        (a.x - b.x) * (a.x - b.x) + (a.y - b.y) * (a.y - b.y) != 1 ==> step_rank(a, b) == 4,
{
    assert((a.x - b.x) * (a.x - b.x) + (a.y - b.y) * (a.y - b.y) != 1 ==> step_rank(a, b) == 4) by (nonlinear_arith);
}

/// `p` and `q` agree on their first `k + 1` cells.
pub open spec fn agree_upto(p: Seq<GridPos>, q: Seq<GridPos>, k: int) -> bool {
    forall|i: int| 0 <= i <= k ==> #[trigger] p[i] == q[i]
}

/// `p` and `q` have the same length, agree up to cell `k`, and there `p` takes a
/// step of lower rank.
pub open spec fn precedes_at(p: Seq<GridPos>, q: Seq<GridPos>, k: int) -> bool {
    &&& p.len() == q.len()
    &&& 0 <= k < p.len() - 1
    &&& agree_upto(p, q, k)
    &&& step_rank(p[k], p[k + 1]) < step_rank(q[k], q[k + 1])
}

/// Among paths of one length, `p` comes first in the order of the ranks of their
/// steps.
pub open spec fn precedes(p: Seq<GridPos>, q: Seq<GridPos>) -> bool {
    exists|k: int| #[trigger] precedes_at(p, q, k)
}

/// `p` is shorter than `q`, or as long and first in step order: the order in
/// which a breadth-first search that tries neighbours by rank meets paths.
pub open spec fn search_before(p: Seq<GridPos>, q: Seq<GridPos>) -> bool {
    p.len() < q.len() || precedes(p, q)
}

/// `p` is `q` or comes before it in search order.
pub open spec fn search_no_later(p: Seq<GridPos>, q: Seq<GridPos>) -> bool {
    p == q || search_before(p, q)
}

proof fn lemma_precedes_trans(p: Seq<GridPos>, q: Seq<GridPos>, r: Seq<GridPos>)
    requires
        precedes(p, q),
        precedes(q, r),
    ensures
        precedes(p, r),
{
    let k1 = choose|k: int| #[trigger] precedes_at(p, q, k);
    let k2 = choose|k: int| #[trigger] precedes_at(q, r, k);
    if k1 < k2 {
        assert(q[k1 + 1] == r[k1 + 1]);
        assert(q[k1] == r[k1]);
        assert(precedes_at(p, r, k1));
    } else if k1 > k2 {
        assert(p[k2 + 1] == q[k2 + 1]);
        assert(p[k2] == q[k2]);
        assert(agree_upto(p, r, k2)) by {
            assert forall|i: int| 0 <= i <= k2 implies #[trigger] p[i] == r[i] by {
                assert(p[i] == q[i]);
                assert(q[i] == r[i]);
            }
        }
        assert(precedes_at(p, r, k2));
    } else {
        assert(agree_upto(p, r, k1)) by {
            assert forall|i: int| 0 <= i <= k1 implies #[trigger] p[i] == r[i] by {
                assert(p[i] == q[i]);
                assert(q[i] == r[i]);
            }
        }
        assert(precedes_at(p, r, k1));
    }
}

/// The search order is transitive.
pub proof fn lemma_search_order_trans(p: Seq<GridPos>, q: Seq<GridPos>, r: Seq<GridPos>)
    requires
        search_no_later(p, q),
        search_no_later(q, r),
    ensures
        search_no_later(p, r),
        search_before(p, q) || search_before(q, r) ==> search_before(p, r),
{
    if p != q && q != r {
        if precedes(p, q) && precedes(q, r) {
            lemma_precedes_trans(p, q, r);
        }
        if precedes(p, q) {
            let k = choose|k: int| #[trigger] precedes_at(p, q, k);
        }
        if precedes(q, r) {
            let k = choose|k: int| #[trigger] precedes_at(q, r, k);
        }
    }
}

/// Extending two paths keeps their order when the first comes strictly before.
pub proof fn lemma_search_before_push(p: Seq<GridPos>, q: Seq<GridPos>, a: GridPos, b: GridPos)
    requires
        search_before(p, q),
    ensures
        search_before(p.push(a), q.push(b)),
{
    if precedes(p, q) {
        let k = choose|k: int| #[trigger] precedes_at(p, q, k);
        assert(p.push(a)[k + 1] == p[k + 1]);
        assert(q.push(b)[k + 1] == q[k + 1]);
        assert(agree_upto(p.push(a), q.push(b), k)) by {
            assert forall|i: int| 0 <= i <= k implies #[trigger] p.push(a)[i] == q.push(b)[i] by {
                assert(p[i] == q[i]);
            }
        }
        assert(precedes_at(p.push(a), q.push(b), k));
    }
}

/// Extending two paths by the same cell keeps their order.
pub proof fn lemma_search_no_later_push(p: Seq<GridPos>, q: Seq<GridPos>, a: GridPos)
    requires
        search_no_later(p, q),
    ensures
        search_no_later(p.push(a), q.push(a)),
{
    if p != q {
        lemma_search_before_push(p, q, a, a);
    }
}

/// Of two extensions of one path, the step of lower rank comes first.
pub proof fn lemma_push_by_rank(p: Seq<GridPos>, a: GridPos, b: GridPos)
    requires
        p.len() > 0,
        step_rank(p.last(), a) < step_rank(p.last(), b),
    ensures
        search_before(p.push(a), p.push(b)),
{
    let k = p.len() - 1;
    assert(p.push(a)[k] == p.last());
    assert(p.push(b)[k] == p.last());
    assert(agree_upto(p.push(a), p.push(b), k)) by {
        assert forall|i: int| 0 <= i <= k implies #[trigger] p.push(a)[i] == p.push(b)[i] by {}
    }
    assert(precedes_at(p.push(a), p.push(b), k));
}

} // verus!
