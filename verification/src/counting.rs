use vstd::multiset::Multiset;
use vstd::prelude::*;

verus! {

/// How many elements of `s` equal `v`.
pub open spec fn count_eq<T>(s: Seq<T>, v: T) -> nat
    decreases s.len(),
{
    if s.len() == 0 {
        0
    } else {
        count_eq(s.drop_last(), v) + if s.last() == v { 1nat } else { 0nat }
    }
}

/// How many elements, over all columns of `g`, equal `v`.
pub open spec fn count_eq_grid<T>(g: Seq<Seq<T>>, v: T) -> nat
    decreases g.len(),
{
    if g.len() == 0 {
        0
    } else {
        count_eq_grid(g.drop_last(), v) + count_eq(g.last(), v)
    }
}

/// How many elements `g` holds over all its columns.
pub open spec fn cell_total<T>(g: Seq<Seq<T>>) -> nat
    decreases g.len(),
{
    if g.len() == 0 {
        0
    } else {
        cell_total(g.drop_last()) + g.last().len()
    }
}

/// Counting a one-element extension.
pub proof fn lemma_count_push<T>(s: Seq<T>, a: T, v: T)
    ensures
        count_eq(s.push(a), v) == count_eq(s, v) + if a == v { 1nat } else { 0nat },
{
    assert(s.push(a).drop_last() =~= s);
}

/// Counting after one element is replaced.
pub proof fn lemma_count_update<T>(s: Seq<T>, i: int, a: T, v: T)
    requires
        0 <= i < s.len(),
    ensures
        count_eq(s.update(i, a), v) + (if s[i] == v { 1int } else { 0int })
            == count_eq(s, v) + (if a == v { 1int } else { 0int }),
    decreases s.len(),
{
    if i < s.len() - 1 {
        lemma_count_update(s.drop_last(), i, a, v);
        assert(s.update(i, a).drop_last() =~= s.drop_last().update(i, a));
    } else {
        assert(s.update(i, a).drop_last() =~= s.drop_last());
    }
}

/// Counting over a grid after one element is replaced.
pub proof fn lemma_count_grid_update<T>(g: Seq<Seq<T>>, x: int, y: int, a: T, v: T)
    requires
        0 <= x < g.len(),
        0 <= y < g[x].len(),
    ensures
        count_eq_grid(g.update(x, g[x].update(y, a)), v) + (if g[x][y] == v { 1int } else { 0int })
            == count_eq_grid(g, v) + (if a == v { 1int } else { 0int }),
    decreases g.len(),
{
    let g2 = g.update(x, g[x].update(y, a));
    if x < g.len() - 1 {
        lemma_count_grid_update(g.drop_last(), x, y, a, v);
        assert(g2.drop_last() =~= g.drop_last().update(x, g[x].update(y, a)));
    } else {
        assert(g2.drop_last() =~= g.drop_last());
        lemma_count_update(g[x], y, a, v);
    }
}

/// Counting a grid extended by one column.
pub proof fn lemma_count_grid_push<T>(g: Seq<Seq<T>>, c: Seq<T>, v: T)
    ensures
        count_eq_grid(g.push(c), v) == count_eq_grid(g, v) + count_eq(c, v),
        cell_total(g.push(c)) == cell_total(g) + c.len(),
{
    assert(g.push(c).drop_last() =~= g);
}

/// A grid whose columns all have `h` elements holds `g.len() * h` elements.
pub proof fn lemma_cell_total_uniform<T>(g: Seq<Seq<T>>, h: int)
    requires
        h >= 0,
        forall|i: int| 0 <= i < g.len() ==> #[trigger] g[i].len() == h,
    ensures
        cell_total(g) == g.len() * h,
    decreases g.len(),
{
    if g.len() > 0 {
        lemma_cell_total_uniform(g.drop_last(), h);
        let n = g.len() as int;
        assert((n - 1) * h + h == n * h) by (nonlinear_arith);
    }
}

/// `count_eq` is the multiplicity of `v` in `s` taken as a multiset.
pub proof fn lemma_count_is_multiplicity<T>(s: Seq<T>, v: T)
    ensures
        count_eq(s, v) == s.to_multiset().count(v),
    decreases s.len(),
{
    broadcast use vstd::seq_lib::group_to_multiset_ensures, vstd::multiset::group_multiset_properties;

    if s.len() == 0 {
        assert(s.to_multiset() =~= Multiset::empty());
    } else {
        let t = s.drop_last();
        lemma_count_is_multiplicity(t, v);
        assert(t.push(s.last()) =~= s);
        assert(s.to_multiset() =~= t.to_multiset().insert(s.last()));
    }
}

/// The count over an empty grid is zero, and a grid grown by a column counts
/// that column's matches on top.
pub proof fn lemma_count_grid_exact<T>(g: Seq<Seq<T>>, v: T)
    ensures
        g.len() == 0 ==> count_eq_grid(g, v) == 0,
        g.len() > 0 ==> count_eq_grid(g, v) == count_eq_grid(g.drop_last(), v) + g.last().to_multiset().count(v),
{
    if g.len() > 0 {
        lemma_count_is_multiplicity(g.last(), v);
    }
}

} // verus!
