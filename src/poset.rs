use vstd::prelude::*;
use crate::expr::OpName;
use crate::registry::names_unique;
use crate::registry::OpError;
use crate::registry::OpInfo;
use crate::registry::OpMap;
use crate::registry::Order;

verus! {

/// `v` is declared to bind strictly tighter than `u`: `v Above u` or
/// `u Below v`.
pub open spec fn strict_step(ops: Seq<OpInfo>, u: int, v: int) -> bool {
    &&& 0 <= u < ops.len()
    &&& 0 <= v < ops.len()
    &&& {
        ||| exists|k: int|
            0 <= k < ops[v].relation@.len() && (#[trigger] ops[v].relation@[k] matches Order::Above(b)
                && b@ == ops[u].name@)
        ||| exists|k: int|
            0 <= k < ops[u].relation@.len() && (#[trigger] ops[u].relation@[k] matches Order::Below(b)
                && b@ == ops[v].name@)
    }
}

/// `u` and `v` are declared to bind equally tightly, by either of them.
pub open spec fn equal_step(ops: Seq<OpInfo>, u: int, v: int) -> bool {
    &&& 0 <= u < ops.len()
    &&& 0 <= v < ops.len()
    &&& {
        ||| exists|k: int|
            0 <= k < ops[u].relation@.len() && (#[trigger] ops[u].relation@[k] matches Order::Equal(b)
                && b@ == ops[v].name@)
        ||| exists|k: int|
            0 <= k < ops[v].relation@.len() && (#[trigger] ops[v].relation@[k] matches Order::Equal(b)
                && b@ == ops[u].name@)
    }
}

/// A declared step from `u` up to `v`; `eq` admits the `Equal` declarations.
pub open spec fn step(ops: Seq<OpInfo>, u: int, v: int, eq: bool) -> bool {
    strict_step(ops, u, v) || (eq && equal_step(ops, u, v))
}

/// `w` is a walk of one or more steps.
pub open spec fn is_walk(ops: Seq<OpInfo>, w: Seq<int>, eq: bool) -> bool {
    &&& w.len() >= 2
    &&& forall|p: int| 0 <= p < w.len() - 1 ==> step(ops, #[trigger] w[p], w[p + 1], eq)
}

/// Some step of `w` is strict.
pub open spec fn has_strict(ops: Seq<OpInfo>, w: Seq<int>) -> bool {
    exists|p: int| 0 <= p < w.len() - 1 && strict_step(ops, #[trigger] w[p], w[p + 1])
}

/// A walk leads from `u` to `v`, with a strict step if `strict`.
#[verifier::opaque]
pub open spec fn reaches(ops: Seq<OpInfo>, u: int, v: int, strict: bool, eq: bool) -> bool {
    exists|w: Seq<int>|
        #[trigger] is_walk(ops, w, eq) && w[0] == u && w.last() == v && (strict ==> has_strict(
            ops,
            w,
        ))
}

/// `u` binds strictly looser than `v`, by the declarations taken together.
pub open spec fn below(ops: Seq<OpInfo>, u: int, v: int) -> bool {
    reaches(ops, u, v, true, true)
}

/// Number of operators of index under `k` that bind strictly looser than `v`.
pub open spec fn count_below(ops: Seq<OpInfo>, v: int, k: int) -> nat
    decreases k,
{
    if k <= 0 {
        0
    } else {
        count_below(ops, v, k - 1) + if below(ops, k - 1, v) {
            1nat
        } else {
            0nat
        }
    }
}

/// The precedence given to operator `v`: one more than the number of
/// operators that bind strictly looser.
pub open spec fn rank(ops: Seq<OpInfo>, v: int) -> nat {
    1 + count_below(ops, v, ops.len() as int)
}

/// The `Above`/`Below` declarations alone form a cycle through `v`.
pub open spec fn on_strict_cycle(ops: Seq<OpInfo>, v: int) -> bool {
    reaches(ops, v, v, true, false)
}

/// All declarations together put `v` strictly above itself.
pub open spec fn on_mixed_cycle(ops: Seq<OpInfo>, v: int) -> bool {
    reaches(ops, v, v, true, true)
}

/// Every operator named by a relation is declared.
pub open spec fn refs_known(ops: Seq<OpInfo>) -> bool {
    forall|i: int, k: int|
        0 <= i < ops.len() && 0 <= k < ops[i].relation@.len() ==> exists|j: int|
            0 <= j < ops.len() && ops[j].name@ == target(#[trigger] ops[i].relation@[k])@
}

/// The operator a relation names.
pub open spec fn target(o: Order) -> OpName {
    match o {
        Order::Above(b) => b,
        Order::Below(b) => b,
        Order::Equal(b) => b,
    }
}

/// The declarations can be met: names unique, references known, no operator
/// forced strictly above itself.
pub open spec fn resolvable(ops: Seq<OpInfo>) -> bool {
    &&& names_unique(ops)
    &&& refs_known(ops)
    &&& forall|v: int| 0 <= v < ops.len() ==> !on_mixed_cycle(ops, v)
}

proof fn lemma_walk_push(ops: Seq<OpInfo>, w: Seq<int>, v: int, eq: bool)
    requires
        is_walk(ops, w, eq),
        step(ops, w.last(), v, eq),
    ensures
        is_walk(ops, w.push(v), eq),
        w.push(v)[0] == w[0],
        w.push(v).last() == v,
        has_strict(ops, w) ==> has_strict(ops, w.push(v)),
        strict_step(ops, w.last(), v) ==> has_strict(ops, w.push(v)),
{
    let w2 = w.push(v);
    assert forall|p: int| 0 <= p < w2.len() - 1 implies step(ops, #[trigger] w2[p], w2[p + 1], eq) by {
        if p < w.len() - 1 {
            assert(w2[p] == w[p] && w2[p + 1] == w[p + 1]);
        }
    }
    if has_strict(ops, w) {
        let p = choose|p: int| 0 <= p < w.len() - 1 && strict_step(ops, #[trigger] w[p], w[p + 1]);
        assert(w2[p] == w[p] && w2[p + 1] == w[p + 1]);
    }
    if strict_step(ops, w.last(), v) {
        assert(w2[w.len() - 1] == w.last());
    }
}

/// Extends a walk by one step.
proof fn lemma_reaches_step(ops: Seq<OpInfo>, u: int, m: int, v: int, strict: bool, eq: bool)
    requires
        reaches(ops, u, m, strict, eq),
        step(ops, m, v, eq),
    ensures
        reaches(ops, u, v, strict || strict_step(ops, m, v), eq),
{
    reveal(reaches);
    let w = choose|w: Seq<int>|
        #[trigger] is_walk(ops, w, eq) && w[0] == u && w.last() == m && (strict ==> has_strict(ops, w));
    lemma_walk_push(ops, w, v, eq);
    assert(is_walk(ops, w.push(v), eq));
}

/// A single step is a walk.
proof fn lemma_reaches_single(ops: Seq<OpInfo>, u: int, v: int, eq: bool)
    requires
        step(ops, u, v, eq),
    ensures
        reaches(ops, u, v, false, eq),
        reaches(ops, u, v, strict_step(ops, u, v), eq),
{
    reveal(reaches);
    let w = seq![u, v];
    assert(w[0] == u && w[1] == v);
    assert(is_walk(ops, w, eq));
    if strict_step(ops, u, v) {
        assert(has_strict(ops, w));
    }
}

/// Joins two walks.
proof fn lemma_reaches_trans(ops: Seq<OpInfo>, u: int, m: int, v: int, s1: bool, s2: bool, eq: bool)
    requires
        reaches(ops, u, m, s1, eq),
        reaches(ops, m, v, s2, eq),
    ensures
        reaches(ops, u, v, s1 || s2, eq),
{
    reveal(reaches);
    let w1 = choose|w: Seq<int>|
        #[trigger] is_walk(ops, w, eq) && w[0] == u && w.last() == m && (s1 ==> has_strict(ops, w));
    let w2 = choose|w: Seq<int>|
        #[trigger] is_walk(ops, w, eq) && w[0] == m && w.last() == v && (s2 ==> has_strict(ops, w));
    let w = w1 + w2.drop_first();
    assert forall|p: int| 0 <= p < w.len() - 1 implies step(ops, #[trigger] w[p], w[p + 1], eq) by {
        if p < w1.len() - 1 {
            assert(w[p] == w1[p] && w[p + 1] == w1[p + 1]);
        } else {
            let q = p - (w1.len() - 1);
            assert(w[p] == w2[q] && w[p + 1] == w2[q + 1]);
        }
    }
    if s1 {
        let p = choose|p: int| 0 <= p < w1.len() - 1 && strict_step(ops, #[trigger] w1[p], w1[p + 1]);
        assert(w[p] == w1[p] && w[p + 1] == w1[p + 1]);
    }
    if s2 {
        let q = choose|q: int| 0 <= q < w2.len() - 1 && strict_step(ops, #[trigger] w2[q], w2[q + 1]);
        let p = q + w1.len() - 1;
        assert(w[p] == w2[q] && w[p + 1] == w2[q + 1]);
    }
    assert(is_walk(ops, w, eq));
}

/// A walk over `Above`/`Below` alone is a walk over all declarations.
proof fn lemma_strict_walk_is_mixed(ops: Seq<OpInfo>, u: int, v: int)
    requires
        reaches(ops, u, v, true, false),
    ensures
        reaches(ops, u, v, true, true),
{
    reveal(reaches);
    let w = choose|w: Seq<int>|
        #[trigger] is_walk(ops, w, false) && w[0] == u && w.last() == v && has_strict(ops, w);
    assert(is_walk(ops, w, true));
}

proof fn lemma_count_below_mono(ops: Seq<OpInfo>, u: int, v: int, k: int)
    requires
        forall|x: int| #[trigger] below(ops, x, u) ==> below(ops, x, v),
    ensures
        count_below(ops, u, k) <= count_below(ops, v, k),
    decreases k,
{
    if k > 0 {
        lemma_count_below_mono(ops, u, v, k - 1);
        assert(below(ops, k - 1, u) ==> below(ops, k - 1, v));
    }
}

proof fn lemma_count_below_strict(ops: Seq<OpInfo>, u: int, v: int, x0: int, k: int)
    requires
        forall|x: int| #[trigger] below(ops, x, u) ==> below(ops, x, v),
        0 <= x0 < k,
        below(ops, x0, v),
        !below(ops, x0, u),
    ensures
        count_below(ops, u, k) < count_below(ops, v, k),
    decreases k,
{
    if x0 < k - 1 {
        lemma_count_below_strict(ops, u, v, x0, k - 1);
        assert(below(ops, k - 1, u) ==> below(ops, k - 1, v));
    } else {
        lemma_count_below_mono(ops, u, v, k - 1);
    }
}

/// Where the declarations can be met, `v Above u` (or `u Below v`) gives `v`
/// the greater rank.
proof fn lemma_rank_strict(ops: Seq<OpInfo>, u: int, v: int)
    requires
        resolvable(ops),
        strict_step(ops, u, v),
    ensures
        rank(ops, u) < rank(ops, v),
{
    assert forall|x: int| #[trigger] below(ops, x, u) implies below(ops, x, v) by {
        lemma_reaches_step(ops, x, u, v, true, true);
    }
    lemma_reaches_single(ops, u, v, true);
    assert(!on_mixed_cycle(ops, u));
    lemma_count_below_strict(ops, u, v, u, ops.len() as int);
}

/// `u Equal v` gives both the same rank.
proof fn lemma_rank_equal(ops: Seq<OpInfo>, u: int, v: int)
    requires
        equal_step(ops, u, v),
    ensures
        rank(ops, u) == rank(ops, v),
{
    assert forall|x: int| #[trigger] below(ops, x, u) implies below(ops, x, v) by {
        lemma_reaches_step(ops, x, u, v, true, true);
    }
    assert forall|x: int| #[trigger] below(ops, x, v) implies below(ops, x, u) by {
        assert(equal_step(ops, v, u));
        lemma_reaches_step(ops, x, v, u, true, true);
    }
    lemma_count_below_mono(ops, u, v, ops.len() as int);
    lemma_count_below_mono(ops, v, u, ops.len() as int);
}

/// Sum of a row of closure levels.
spec fn row_sum(r: Seq<u8>) -> int
    decreases r.len(),
{
    if r.len() == 0 {
        0
    } else {
        row_sum(r.drop_last()) + r.last() as int
    }
}

/// Sum of all closure levels of a matrix.
spec fn mat_sum(m: Seq<Vec<u8>>) -> int
    decreases m.len(),
{
    if m.len() == 0 {
        0
    } else {
        mat_sum(m.drop_last()) + row_sum(m.last()@)
    }
}

proof fn lemma_row_sum_update(r: Seq<u8>, j: int, v: u8)
    requires
        0 <= j < r.len(),
    ensures
        row_sum(r.update(j, v)) == row_sum(r) - r[j] + v,
    decreases r.len(),
{
    let r2 = r.update(j, v);
    if j == r.len() - 1 {
        assert(r2.drop_last() =~= r.drop_last());
    } else {
        lemma_row_sum_update(r.drop_last(), j, v);
        assert(r2.drop_last() =~= r.drop_last().update(j, v));
    }
}

proof fn lemma_mat_sum_update(m: Seq<Vec<u8>>, i: int, row: Vec<u8>)
    requires
        0 <= i < m.len(),
    ensures
        mat_sum(m.update(i, row)) == mat_sum(m) - row_sum(m[i]@) + row_sum(row@),
    decreases m.len(),
{
    let m2 = m.update(i, row);
    if i == m.len() - 1 {
        assert(m2.drop_last() =~= m.drop_last());
    } else {
        lemma_mat_sum_update(m.drop_last(), i, row);
        assert(m2.drop_last() =~= m.drop_last().update(i, row));
    }
}

proof fn lemma_row_sum_bound(r: Seq<u8>)
    requires
        forall|k: int| 0 <= k < r.len() ==> r[k] <= 2,
    ensures
        0 <= row_sum(r) <= 2 * r.len(),
    decreases r.len(),
{
    if r.len() > 0 {
        lemma_row_sum_bound(r.drop_last());
    }
}

proof fn lemma_mat_sum_bound(m: Seq<Vec<u8>>, n: int)
    requires
        n >= 0,
        forall|i: int| 0 <= i < m.len() ==> (#[trigger] m[i])@.len() == n,
        forall|i: int, j: int| 0 <= i < m.len() && 0 <= j < n ==> m[i]@[j] <= 2,
    ensures
        0 <= mat_sum(m) <= 2 * n * m.len(),
    decreases m.len(),
{
    if m.len() > 0 {
        lemma_mat_sum_bound(m.drop_last(), n);
        let last = m.last()@;
        assert forall|k: int| 0 <= k < last.len() implies last[k] <= 2 by {
            assert(m[m.len() - 1]@[k] <= 2);
        }
        lemma_row_sum_bound(last);
        assert(2 * n * (m.len() - 1) + 2 * n == 2 * n * m.len()) by (nonlinear_arith);
    }
}

/// `m` is an `n` by `n` matrix of levels 0, 1, 2.
spec fn square(m: Seq<Vec<u8>>, n: int) -> bool {
    &&& m.len() == n
    &&& forall|i: int| 0 <= i < n ==> (#[trigger] m[i])@.len() == n
    &&& forall|i: int, j: int| 0 <= i < n && 0 <= j < n ==> m[i]@[j] <= 2
}

/// Each level is witnessed: 1 by a walk, 2 by a walk with a strict step.
spec fn sound(ops: Seq<OpInfo>, m: Seq<Vec<u8>>, eq: bool) -> bool {
    forall|u: int, v: int|
        0 <= u < ops.len() && 0 <= v < ops.len() ==> {
            &&& m[u]@[v] >= 1 ==> reaches(ops, u, v, false, eq)
            &&& m[u]@[v] == 2 ==> reaches(ops, u, v, true, eq)
        }
}

/// Each declared step is recorded, strict ones at level 2.
spec fn holds_steps(ops: Seq<OpInfo>, m: Seq<Vec<u8>>, eq: bool) -> bool {
    forall|u: int, v: int|
        #[trigger] step(ops, u, v, eq) ==> m[u]@[v] >= 1 && (strict_step(ops, u, v) ==> m[u]@[v] == 2)
}

/// Composing two recorded entries through `k` is recorded in `(i, j)`.
spec fn triple_closed(m: Seq<Vec<u8>>, i: int, k: int, j: int) -> bool {
    m[i]@[k] >= 1 && m[k]@[j] >= 1 ==> m[i]@[j] >= m[i]@[k] && m[i]@[j] >= m[k]@[j]
}

/// The matrix is transitively closed.
spec fn closed(m: Seq<Vec<u8>>, n: int) -> bool {
    forall|i: int, k: int, j: int|
        0 <= i < n && 0 <= k < n && 0 <= j < n ==> #[trigger] triple_closed(m, i, k, j)
}

/// In a closed matrix that records every step, every walk is recorded.
proof fn lemma_walk_recorded(ops: Seq<OpInfo>, m: Seq<Vec<u8>>, w: Seq<int>, eq: bool)
    requires
        square(m, ops.len() as int),
        holds_steps(ops, m, eq),
        closed(m, ops.len() as int),
        is_walk(ops, w, eq),
    ensures
        m[w[0]]@[w.last()] >= 1,
        has_strict(ops, w) ==> m[w[0]]@[w.last()] == 2,
    decreases w.len(),
{
    let n = w.len();
    assert(step(ops, w[n - 2], w[n - 1], eq));
    if n == 2 {
        if has_strict(ops, w) {
            let p = choose|p: int| 0 <= p < w.len() - 1 && strict_step(ops, #[trigger] w[p], w[p + 1]);
            assert(p == 0);
        }
    } else {
        let w1 = w.drop_last();
        assert forall|p: int| 0 <= p < w1.len() - 1 implies step(ops, #[trigger] w1[p], w1[p + 1], eq) by {
            assert(w1[p] == w[p] && w1[p + 1] == w[p + 1]);
        }
        lemma_walk_recorded(ops, m, w1, eq);
        assert(triple_closed(m, w[0], w[n - 2], w[n - 1]));
        if has_strict(ops, w) {
            let p = choose|p: int| 0 <= p < w.len() - 1 && strict_step(ops, #[trigger] w[p], w[p + 1]);
            if p < n - 2 {
                assert(w1[p] == w[p] && w1[p + 1] == w[p + 1]);
                assert(has_strict(ops, w1));
            }
        }
    }
}

/// In a sound, closed matrix that records every step, the levels are exactly
/// what walks give.
proof fn lemma_closure_exact(ops: Seq<OpInfo>, m: Seq<Vec<u8>>, eq: bool, u: int, v: int)
    requires
        square(m, ops.len() as int),
        sound(ops, m, eq),
        holds_steps(ops, m, eq),
        closed(m, ops.len() as int),
        0 <= u < ops.len(),
        0 <= v < ops.len(),
    ensures
        m[u]@[v] == 2 <==> reaches(ops, u, v, true, eq),
        m[u]@[v] >= 1 <==> reaches(ops, u, v, false, eq),
{
    reveal(reaches);
    if reaches(ops, u, v, true, eq) {
        let w = choose|w: Seq<int>|
            #[trigger] is_walk(ops, w, eq) && w[0] == u && w.last() == v && has_strict(ops, w);
        lemma_walk_recorded(ops, m, w, eq);
    }
    if reaches(ops, u, v, false, eq) {
        let w = choose|w: Seq<int>| #[trigger] is_walk(ops, w, eq) && w[0] == u && w.last() == v;
        lemma_walk_recorded(ops, m, w, eq);
    }
}

/// Sets entry `(i, j)` of the matrix to `v`.
fn set_entry(m: &mut Vec<Vec<u8>>, i: usize, j: usize, v: u8)
    requires
        i < old(m)@.len(),
        j < old(m)@[i as int]@.len(),
    ensures
        final(m)@.len() == old(m)@.len(),
        forall|k: int| 0 <= k < old(m)@.len() && k != i ==> final(m)@[k] == old(m)@[k],
        final(m)@[i as int]@ == old(m)@[i as int]@.update(j as int, v),
        mat_sum(final(m)@) == mat_sum(old(m)@) - old(m)@[i as int]@[j as int] + v,
{
    let len = m[i].len();
    let mut row: Vec<u8> = Vec::new();
    let mut k: usize = 0;
    while k < len
        invariant
            m@ == old(m)@,
            len == m@[i as int]@.len(),
            j < len,
            i < m@.len(),
            k <= len,
            row@.len() == k,
            forall|t: int| 0 <= t < k ==> row@[t] == m@[i as int]@.update(j as int, v)[t],
        decreases len - k,
    {
        if k == j {
            row.push(v);
        } else {
            row.push(m[i][k]);
        }
        k = k + 1;
    }
    assert(row@ =~= old(m)@[i as int]@.update(j as int, v));
    proof {
        lemma_mat_sum_update(old(m)@, i as int, row);
        lemma_row_sum_update(old(m)@[i as int]@, j as int, v);
    }
    m.set(i, row);
}

/// Closes the matrix under composition of walks.
fn close(m: &mut Vec<Vec<u8>>, n: usize, Ghost(ops): Ghost<Seq<OpInfo>>, Ghost(eq): Ghost<bool>)
    requires
        n == ops.len(),
        square(old(m)@, n as int),
        sound(ops, old(m)@, eq),
        holds_steps(ops, old(m)@, eq),
    ensures
        square(final(m)@, n as int),
        sound(ops, final(m)@, eq),
        holds_steps(ops, final(m)@, eq),
        closed(final(m)@, n as int),
{
    let mut changed = true;
    proof {
        lemma_mat_sum_bound(m@, n as int);
    }
    while changed
        invariant
            n == ops.len(),
            square(m@, n as int),
            sound(ops, m@, eq),
            holds_steps(ops, m@, eq),
            !changed ==> closed(m@, n as int),
            0 <= mat_sum(m@) <= 2 * n * n,
        decreases 2 * n * n - mat_sum(m@) + if changed { 1int } else { 0int },
    {
        changed = false;
        let ghost start = m@;
        let mut i: usize = 0;
        while i < n
            invariant
                n == ops.len(),
                square(m@, n as int),
                sound(ops, m@, eq),
                holds_steps(ops, m@, eq),
                0 <= mat_sum(m@) <= 2 * n * n,
                i <= n,
                mat_sum(m@) >= mat_sum(start) + if changed { 1int } else { 0int },
                !changed ==> m@ == start,
                !changed ==> forall|a: int, k: int, j: int|
                    0 <= a < i && 0 <= k < n && 0 <= j < n ==> #[trigger] triple_closed(m@, a, k, j),
            decreases n - i,
        {
            let mut k: usize = 0;
            while k < n
                invariant
                    n == ops.len(),
                    square(m@, n as int),
                    sound(ops, m@, eq),
                    holds_steps(ops, m@, eq),
                    0 <= mat_sum(m@) <= 2 * n * n,
                    i < n,
                    k <= n,
                    mat_sum(m@) >= mat_sum(start) + if changed { 1int } else { 0int },
                    !changed ==> m@ == start,
                    !changed ==> forall|a: int, k2: int, j: int|
                        0 <= a < i && 0 <= k2 < n && 0 <= j < n ==> #[trigger] triple_closed(m@, a, k2, j),
                    !changed ==> forall|k2: int, j: int|
                        0 <= k2 < k && 0 <= j < n ==> #[trigger] triple_closed(m@, i as int, k2, j),
                decreases n - k,
            {
                let mut j: usize = 0;
                while j < n
                    invariant
                        n == ops.len(),
                        square(m@, n as int),
                        sound(ops, m@, eq),
                        holds_steps(ops, m@, eq),
                        0 <= mat_sum(m@) <= 2 * n * n,
                        i < n,
                        k < n,
                        j <= n,
                        mat_sum(m@) >= mat_sum(start) + if changed { 1int } else { 0int },
                        !changed ==> m@ == start,
                        !changed ==> forall|a: int, k2: int, j2: int|
                            0 <= a < i && 0 <= k2 < n && 0 <= j2 < n ==> #[trigger] triple_closed(m@, a, k2, j2),
                        !changed ==> forall|k2: int, j2: int|
                            0 <= k2 < k && 0 <= j2 < n ==> #[trigger] triple_closed(m@, i as int, k2, j2),
                        !changed ==> forall|j2: int|
                            0 <= j2 < j ==> #[trigger] triple_closed(m@, i as int, k as int, j2),
                    decreases n - j,
                {
                    let a = m[i][k];
                    let b = m[k][j];
                    if a > 0 && b > 0 {
                        let c = if a > b { a } else { b };
                        let cur = m[i][j];
                        if cur < c {
                            proof {
                                lemma_reaches_trans(ops, i as int, k as int, j as int, false, false, eq);
                                if a == 2 {
                                    lemma_reaches_trans(ops, i as int, k as int, j as int, true, false, eq);
                                }
                                if b == 2 {
                                    lemma_reaches_trans(ops, i as int, k as int, j as int, false, true, eq);
                                }
                            }
                            let ghost before = m@;
                            set_entry(m, i, j, c);
                            proof {
                                assert forall|u: int, v: int| #[trigger] step(ops, u, v, eq) implies m@[u]@[v] >= 1
                                    && (strict_step(ops, u, v) ==> m@[u]@[v] == 2) by {
                                    assert(before[u]@[v] >= 1);
                                    if u == i && v == j {
                                    } else if u == i {
                                        assert(m@[u]@[v] == before[u]@[v]);
                                    } else {
                                        assert(m@[u] == before[u]);
                                    }
                                }
                                assert forall|u: int, v: int| 0 <= u < n && 0 <= v < n implies m@[u]@[v] <= 2 by {
                                    if u == i && v == j {
                                    } else if u == i {
                                        assert(m@[u]@[v] == before[u]@[v]);
                                    } else {
                                        assert(m@[u] == before[u]);
                                    }
                                }
                                assert forall|u: int| 0 <= u < n implies (#[trigger] m@[u])@.len() == n by {
                                    if u != i {
                                        assert(m@[u] == before[u]);
                                    }
                                }
                                assert forall|u: int, v: int| 0 <= u < ops.len() && 0 <= v < ops.len() implies {
                                    &&& m@[u]@[v] >= 1 ==> reaches(ops, u, v, false, eq)
                                    &&& m@[u]@[v] == 2 ==> reaches(ops, u, v, true, eq)
                                } by {
                                    if u == i && v == j {
                                    } else if u == i {
                                        assert(m@[u]@[v] == before[u]@[v]);
                                    } else {
                                        assert(m@[u] == before[u]);
                                    }
                                }
                                lemma_mat_sum_bound(m@, n as int);
                            }
                            changed = true;
                        }
                    }
                    j = j + 1;
                }
                k = k + 1;
            }
            i = i + 1;
        }
    }
}

/// Every level of `m2` is at least that of `m`.
spec fn grows(m: Seq<Vec<u8>>, m2: Seq<Vec<u8>>, n: int) -> bool {
    forall|u: int, w: int| 0 <= u < n && 0 <= w < n ==> m2[u]@[w] >= m[u]@[w]
}

/// Raises entry `(i, j)` to at least `v`, a level that walks witness.
fn raise(m: &mut Vec<Vec<u8>>, n: usize, i: usize, j: usize, v: u8, Ghost(ops): Ghost<Seq<OpInfo>>, Ghost(eq): Ghost<bool>)
    requires
        n == ops.len(),
        i < n,
        j < n,
        v <= 2,
        square(old(m)@, n as int),
        sound(ops, old(m)@, eq),
        v >= 1 ==> reaches(ops, i as int, j as int, false, eq),
        v == 2 ==> reaches(ops, i as int, j as int, true, eq),
    ensures
        square(final(m)@, n as int),
        sound(ops, final(m)@, eq),
        grows(old(m)@, final(m)@, n as int),
        final(m)@[i as int]@[j as int] >= v,
{
    if m[i][j] < v {
        let ghost before = m@;
        set_entry(m, i, j, v);
        assert forall|u: int, w: int| 0 <= u < n && 0 <= w < n implies m@[u]@[w] >= before[u]@[w]
            && m@[u]@[w] <= 2 && (m@[u]@[w] >= 1 ==> reaches(ops, u, w, false, eq)) && (m@[u]@[w] == 2
            ==> reaches(ops, u, w, true, eq)) by {
            if u == i && w == j {
            } else if u == i {
                assert(m@[u]@[w] == before[u]@[w]);
            } else {
                assert(m@[u] == before[u]);
            }
        }
        assert forall|u: int| 0 <= u < n implies (#[trigger] m@[u])@.len() == n by {
            if u != i {
                assert(m@[u] == before[u]);
            }
        }
    }
}

/// An `n` by `n` matrix of zeros.
fn zero_matrix(n: usize) -> (m: Vec<Vec<u8>>)
    ensures
        square(m@, n as int),
        forall|u: int, w: int| 0 <= u < n && 0 <= w < n ==> m@[u]@[w] == 0,
{
    let mut m: Vec<Vec<u8>> = Vec::new();
    let mut i: usize = 0;
    while i < n
        invariant
            i <= n,
            m@.len() == i,
            forall|u: int| 0 <= u < i ==> (#[trigger] m@[u])@.len() == n,
            forall|u: int, w: int| 0 <= u < i && 0 <= w < n ==> m@[u]@[w] == 0,
        decreases n - i,
    {
        let mut row: Vec<u8> = Vec::new();
        let mut j: usize = 0;
        while j < n
            invariant
                j <= n,
                row@.len() == j,
                forall|w: int| 0 <= w < j ==> row@[w] == 0,
            decreases n - j,
        {
            row.push(0);
            j = j + 1;
        }
        m.push(row);
        i = i + 1;
    }
    m
}

/// The index of the operator named `name`.
fn index_of(ops: &Vec<OpInfo>, name: &String) -> (r: Option<usize>)
    ensures
        r matches Some(t) ==> t < ops@.len() && ops@[t as int].name@ == name@,
        r is None ==> forall|t: int| 0 <= t < ops@.len() ==> ops@[t].name@ != name@,
{
    let mut t: usize = 0;
    while t < ops.len()
        invariant
            t <= ops@.len(),
            forall|u: int| 0 <= u < t ==> ops@[u].name@ != name@,
        decreases ops@.len() - t,
    {
        if ops[t].name == *name {
            return Some(t);
        }
        t = t + 1;
    }
    None
}

/// Relation `k` of operator `i` names a declared operator and is recorded in
/// the matrices without (`ms`) and with (`mm`) the `Equal` declarations.
spec fn recorded(ops: Seq<OpInfo>, ms: Seq<Vec<u8>>, mm: Seq<Vec<u8>>, i: int, k: int) -> bool {
    let o = ops[i].relation@[k];
    &&& exists|t: int| 0 <= t < ops.len() && ops[t].name@ == target(o)@
    &&& forall|t: int|
        0 <= t < ops.len() && #[trigger] ops[t].name@ == target(o)@ ==> match o {
            Order::Above(_) => ms[t]@[i] == 2 && mm[t]@[i] == 2,
            Order::Below(_) => ms[i]@[t] == 2 && mm[i]@[t] == 2,
            Order::Equal(_) => mm[i]@[t] >= 1 && mm[t]@[i] >= 1,
        }
}

proof fn lemma_recorded_grows(
    ops: Seq<OpInfo>,
    ms: Seq<Vec<u8>>,
    mm: Seq<Vec<u8>>,
    ms2: Seq<Vec<u8>>,
    mm2: Seq<Vec<u8>>,
    i: int,
    k: int,
)
    requires
        0 <= i < ops.len(),
        recorded(ops, ms, mm, i, k),
        square(ms2, ops.len() as int),
        square(mm2, ops.len() as int),
        grows(ms, ms2, ops.len() as int),
        grows(mm, mm2, ops.len() as int),
    ensures
        recorded(ops, ms2, mm2, i, k),
{
    let o = ops[i].relation@[k];
    assert forall|t: int| 0 <= t < ops.len() && #[trigger] ops[t].name@ == target(o)@ implies match o {
        Order::Above(_) => ms2[t]@[i] == 2 && mm2[t]@[i] == 2,
        Order::Below(_) => ms2[i]@[t] == 2 && mm2[i]@[t] == 2,
        Order::Equal(_) => mm2[i]@[t] >= 1 && mm2[t]@[i] >= 1,
    } by {
        assert(ms2[t]@[i] >= ms[t]@[i] && mm2[t]@[i] >= mm[t]@[i]);
        assert(ms2[i]@[t] >= ms[i]@[t] && mm2[i]@[t] >= mm[i]@[t]);
    }
}

/// All relations recorded: every declared step is in the matrices.
proof fn lemma_all_recorded(ops: Seq<OpInfo>, ms: Seq<Vec<u8>>, mm: Seq<Vec<u8>>)
    requires
        forall|i: int, k: int|
            0 <= i < ops.len() && 0 <= k < ops[i].relation@.len() ==> #[trigger] recorded(ops, ms, mm, i, k),
    ensures
        holds_steps(ops, ms, false),
        holds_steps(ops, mm, true),
        refs_known(ops),
{
    assert forall|u: int, v: int| #[trigger] step(ops, u, v, false) implies ms[u]@[v] >= 1 && (
    strict_step(ops, u, v) ==> ms[u]@[v] == 2) by {
        if exists|k: int|
            0 <= k < ops[v].relation@.len() && (#[trigger] ops[v].relation@[k] matches Order::Above(b)
                && b@ == ops[u].name@) {
            let k = choose|k: int|
                0 <= k < ops[v].relation@.len() && (#[trigger] ops[v].relation@[k] matches Order::Above(b)
                    && b@ == ops[u].name@);
            assert(recorded(ops, ms, mm, v, k));
        } else {
            let k = choose|k: int|
                0 <= k < ops[u].relation@.len() && (#[trigger] ops[u].relation@[k] matches Order::Below(b)
                    && b@ == ops[v].name@);
            assert(recorded(ops, ms, mm, u, k));
        }
    }
    assert forall|u: int, v: int| #[trigger] step(ops, u, v, true) implies mm[u]@[v] >= 1 && (
    strict_step(ops, u, v) ==> mm[u]@[v] == 2) by {
        if exists|k: int|
            0 <= k < ops[v].relation@.len() && (#[trigger] ops[v].relation@[k] matches Order::Above(b)
                && b@ == ops[u].name@) {
            let k = choose|k: int|
                0 <= k < ops[v].relation@.len() && (#[trigger] ops[v].relation@[k] matches Order::Above(b)
                    && b@ == ops[u].name@);
            assert(recorded(ops, ms, mm, v, k));
        } else if exists|k: int|
            0 <= k < ops[u].relation@.len() && (#[trigger] ops[u].relation@[k] matches Order::Below(b)
                && b@ == ops[v].name@) {
            let k = choose|k: int|
                0 <= k < ops[u].relation@.len() && (#[trigger] ops[u].relation@[k] matches Order::Below(b)
                    && b@ == ops[v].name@);
            assert(recorded(ops, ms, mm, u, k));
        } else if exists|k: int|
            0 <= k < ops[u].relation@.len() && (#[trigger] ops[u].relation@[k] matches Order::Equal(b)
                && b@ == ops[v].name@) {
            let k = choose|k: int|
                0 <= k < ops[u].relation@.len() && (#[trigger] ops[u].relation@[k] matches Order::Equal(b)
                    && b@ == ops[v].name@);
            assert(recorded(ops, ms, mm, u, k));
        } else {
            let k = choose|k: int|
                0 <= k < ops[v].relation@.len() && (#[trigger] ops[v].relation@[k] matches Order::Equal(b)
                    && b@ == ops[u].name@);
            assert(recorded(ops, ms, mm, v, k));
        }
    }
    assert forall|i: int, k: int|
        0 <= i < ops.len() && 0 <= k < ops[i].relation@.len() implies exists|j: int|
            0 <= j < ops.len() && ops[j].name@ == target(#[trigger] ops[i].relation@[k])@ by {
        assert(recorded(ops, ms, mm, i, k));
    }
}

/// Builds the one-step matrices, without and with the `Equal` declarations,
/// or finds a relation naming an undeclared operator.
fn init_matrices(opers: &Vec<OpInfo>) -> (r: Result<(Vec<Vec<u8>>, Vec<Vec<u8>>), OpError>)
    requires
        names_unique(opers@),
    ensures
        r is Ok <==> refs_known(opers@),
        r matches Ok((ms, mm)) ==> {
            &&& square(ms@, opers@.len() as int)
            &&& square(mm@, opers@.len() as int)
            &&& sound(opers@, ms@, false)
            &&& sound(opers@, mm@, true)
            &&& holds_steps(opers@, ms@, false)
            &&& holds_steps(opers@, mm@, true)
        },
        r matches Err(e) ==> e matches OpError::UnknownOperatorReference(a, b) && exists|i: int, k: int|
            0 <= i < opers@.len() && 0 <= k < opers@[i].relation@.len() && opers@[i].name@ == a@
                && target(#[trigger] opers@[i].relation@[k])@ == b@ && forall|j: int|
                0 <= j < opers@.len() ==> opers@[j].name@ != b@,
{
    let ghost ops = opers@;
    let n = opers.len();
    let mut ms = zero_matrix(n);
    let mut mm = zero_matrix(n);
    let mut i: usize = 0;
    while i < n
        invariant
            ops == opers@,
            n == ops.len(),
            names_unique(ops),
            i <= n,
            square(ms@, n as int),
            square(mm@, n as int),
            sound(ops, ms@, false),
            sound(ops, mm@, true),
            forall|i2: int, k2: int|
                0 <= i2 < i && 0 <= k2 < ops[i2].relation@.len() ==> #[trigger] recorded(ops, ms@, mm@, i2, k2),
        decreases n - i,
    {
        let rels = &opers[i].relation;
        let mut k: usize = 0;
        while k < rels.len()
            invariant
                ops == opers@,
                n == ops.len(),
                names_unique(ops),
                i < n,
                rels@ == ops[i as int].relation@,
                k <= rels@.len(),
                square(ms@, n as int),
                square(mm@, n as int),
                sound(ops, ms@, false),
                sound(ops, mm@, true),
                forall|i2: int, k2: int|
                    0 <= i2 < i && 0 <= k2 < ops[i2].relation@.len() ==> #[trigger] recorded(ops, ms@, mm@, i2, k2),
                forall|k2: int| 0 <= k2 < k ==> #[trigger] recorded(ops, ms@, mm@, i as int, k2),
            decreases rels@.len() - k,
        {
            let o = &rels[k];
            let b = match o {
                Order::Above(b) => b,
                Order::Below(b) => b,
                Order::Equal(b) => b,
            };
            let t = match index_of(opers, b) {
                Some(t) => t,
                None => {
                    assert(target(ops[i as int].relation@[k as int])@ == b@);
                    return Err(OpError::UnknownOperatorReference(opers[i].name.clone(), b.clone()));
                },
            };
            let ghost ms0 = ms@;
            let ghost mm0 = mm@;
            match o {
                Order::Above(_) => {
                    proof {
                        assert(ops[i as int].relation@[k as int] matches Order::Above(bb) && bb@ == ops[t as int].name@);
                        assert(strict_step(ops, t as int, i as int));
                        lemma_reaches_single(ops, t as int, i as int, false);
                        lemma_reaches_single(ops, t as int, i as int, true);
                    }
                    raise(&mut ms, n, t, i, 2, Ghost(ops), Ghost(false));
                    raise(&mut mm, n, t, i, 2, Ghost(ops), Ghost(true));
                },
                Order::Below(_) => {
                    proof {
                        assert(ops[i as int].relation@[k as int] matches Order::Below(bb) && bb@ == ops[t as int].name@);
                        assert(strict_step(ops, i as int, t as int));
                        lemma_reaches_single(ops, i as int, t as int, false);
                        lemma_reaches_single(ops, i as int, t as int, true);
                    }
                    raise(&mut ms, n, i, t, 2, Ghost(ops), Ghost(false));
                    raise(&mut mm, n, i, t, 2, Ghost(ops), Ghost(true));
                },
                Order::Equal(_) => {
                    proof {
                        assert(ops[i as int].relation@[k as int] matches Order::Equal(bb) && bb@ == ops[t as int].name@);
                        assert(equal_step(ops, i as int, t as int));
                        assert(equal_step(ops, t as int, i as int));
                        lemma_reaches_single(ops, i as int, t as int, true);
                        lemma_reaches_single(ops, t as int, i as int, true);
                    }
                    raise(&mut mm, n, i, t, 1, Ghost(ops), Ghost(true));
                    let ghost mm1 = mm@;
                    raise(&mut mm, n, t, i, 1, Ghost(ops), Ghost(true));
                    assert(mm@[i as int]@[t as int] >= mm1[i as int]@[t as int]);
                },
            }
            proof {
                assert(grows(ms0, ms@, n as int));
                assert(grows(mm0, mm@, n as int));
                assert forall|i2: int, k2: int|
                    0 <= i2 < i && 0 <= k2 < ops[i2].relation@.len() implies #[trigger] recorded(ops, ms@, mm@, i2, k2) by {
                    lemma_recorded_grows(ops, ms0, mm0, ms@, mm@, i2, k2);
                }
                assert forall|k2: int| 0 <= k2 < k + 1 implies #[trigger] recorded(ops, ms@, mm@, i as int, k2) by {
                    if k2 < k {
                        lemma_recorded_grows(ops, ms0, mm0, ms@, mm@, i as int, k2);
                    } else {
                        assert(ops[t as int].name@ == target(ops[i as int].relation@[k2])@);
                    }
                }
            }
            k = k + 1;
        }
        i = i + 1;
    }
    proof {
        lemma_all_recorded(ops, ms@, mm@);
    }
    Ok((ms, mm))
}

/// `c` names at least one operator, and only operators forced strictly above
/// themselves (by all declarations if `eq`, else by `Above`/`Below` alone).
pub open spec fn names_cycle(ops: Seq<OpInfo>, c: Seq<OpName>, eq: bool) -> bool {
    &&& c.len() > 0
    &&& forall|p: int|
        0 <= p < c.len() ==> exists|v: int|
            0 <= v < ops.len() && reaches(ops, v, v, true, eq) && (#[trigger] c[p])@ == ops[v].name@
}

/// On the diagonal of a closed matrix, level 2 means a strict cycle.
proof fn lemma_diag_exact(ops: Seq<OpInfo>, m: Seq<Vec<u8>>, eq: bool)
    requires
        square(m, ops.len() as int),
        sound(ops, m, eq),
        holds_steps(ops, m, eq),
        closed(m, ops.len() as int),
    ensures
        forall|u: int| 0 <= u < ops.len() ==> (m[u]@[u] == 2 <==> #[trigger] reaches(ops, u, u, true, eq)),
{
    assert forall|u: int| 0 <= u < ops.len() implies (m[u]@[u] == 2 <==> #[trigger] reaches(ops, u, u, true, eq)) by {
        lemma_closure_exact(ops, m, eq, u, u);
    }
}

proof fn lemma_cycle_names(ops: Seq<OpInfo>, m: Seq<Vec<u8>>, eq: bool, r: Seq<OpName>, idx: Seq<int>)
    requires
        m.len() == ops.len(),
        forall|u: int| 0 <= u < ops.len() ==> (m[u]@[u] == 2 <==> #[trigger] reaches(ops, u, u, true, eq)),
        idx.len() == r.len(),
        forall|p: int|
            0 <= p < idx.len() ==> 0 <= #[trigger] idx[p] < ops.len() && m[idx[p]]@[idx[p]] == 2 && r[p]@
                == ops[idx[p]].name@,
        forall|u: int| 0 <= u < ops.len() && m[u]@[u] == 2 ==> r.len() > 0,
    ensures
        r.len() > 0 <==> exists|v: int| 0 <= v < ops.len() && reaches(ops, v, v, true, eq),
        r.len() > 0 ==> names_cycle(ops, r, eq),
{
    if r.len() > 0 {
        assert forall|p: int| 0 <= p < r.len() implies exists|u: int|
            0 <= u < ops.len() && reaches(ops, u, u, true, eq) && (#[trigger] r[p])@ == ops[u].name@ by {
            let u = idx[p];
            assert(r[p] == r[p]);
            assert(0 <= u < ops.len() && m[u]@[u] == 2);
            assert(reaches(ops, u, u, true, eq));
            assert(r[p]@ == ops[u].name@);
        }
        let u0 = idx[0];
        assert(r[0]@ == ops[u0].name@);
        assert(reaches(ops, u0, u0, true, eq));
    }
    if exists|u: int| 0 <= u < ops.len() && reaches(ops, u, u, true, eq) {
        let u = choose|u: int| 0 <= u < ops.len() && reaches(ops, u, u, true, eq);
        assert(m[u]@[u] == 2);
    }
}

/// The names of the operators with a strict walk back to themselves.
fn cycle_names(opers: &Vec<OpInfo>, m: &Vec<Vec<u8>>, Ghost(eq): Ghost<bool>) -> (r: Vec<OpName>)
    requires
        square(m@, opers@.len() as int),
        sound(opers@, m@, eq),
        holds_steps(opers@, m@, eq),
        closed(m@, opers@.len() as int),
    ensures
        r@.len() > 0 <==> exists|v: int| 0 <= v < opers@.len() && reaches(opers@, v, v, true, eq),
        r@.len() > 0 ==> names_cycle(opers@, r@, eq),
{
    let ghost ops = opers@;
    let n = opers.len();
    let mut r: Vec<OpName> = Vec::new();
    let ghost mut idx: Seq<int> = Seq::empty();
    let mut v: usize = 0;
    while v < n
        invariant
            ops == opers@,
            n == ops.len(),
            v <= n,
            square(m@, n as int),
            idx.len() == r@.len(),
            forall|p: int|
                0 <= p < idx.len() ==> 0 <= #[trigger] idx[p] < v && m@[idx[p]]@[idx[p]] == 2 && r@[p]@
                    == ops[idx[p]].name@,
            forall|u: int| 0 <= u < v && m@[u]@[u] == 2 ==> r@.len() > 0,
        decreases n - v,
    {
        if m[v][v] == 2 {
            let name = opers[v].name.clone();
            let ghost old_idx = idx;
            let ghost r0 = r@;
            proof {
                idx = idx.push(v as int);
            }
            r.push(name);
            assert forall|p: int|
                0 <= p < idx.len() implies 0 <= #[trigger] idx[p] < v + 1 && m@[idx[p]]@[idx[p]] == 2 && r@[p]@
                    == ops[idx[p]].name@ by {
                if p < r0.len() {
                    assert(r@[p] == r0[p]);
                    assert(idx[p] == old_idx[p]);
                }
            }
        }
        v = v + 1;
    }
    proof {
        lemma_diag_exact(ops, m@, eq);
        lemma_cycle_names(ops, m@, eq, r@, idx);
    }
    r
}

/// The precedence of each operator.
fn ranks(opers: &Vec<OpInfo>, m: &Vec<Vec<u8>>) -> (r: Vec<usize>)
    requires
        square(m@, opers@.len() as int),
        sound(opers@, m@, true),
        holds_steps(opers@, m@, true),
        closed(m@, opers@.len() as int),
        forall|v: int| 0 <= v < opers@.len() ==> !on_mixed_cycle(opers@, v),
    ensures
        r@.len() == opers@.len(),
        forall|v: int| 0 <= v < opers@.len() ==> r@[v] == rank(opers@, v) && r@[v] <= opers@.len(),
{
    let ghost ops = opers@;
    let n = opers.len();
    let mut r: Vec<usize> = Vec::new();
    let mut v: usize = 0;
    while v < n
        invariant
            ops == opers@,
            n == ops.len(),
            v <= n,
            square(m@, n as int),
            sound(ops, m@, true),
            holds_steps(ops, m@, true),
            closed(m@, n as int),
            forall|x: int| 0 <= x < n ==> !on_mixed_cycle(ops, x),
            r@.len() == v,
            forall|x: int| 0 <= x < v ==> r@[x] == rank(ops, x) && r@[x] <= n,
        decreases n - v,
    {
        let mut c: usize = 0;
        let mut u: usize = 0;
        while u < n
            invariant
                ops == opers@,
                n == ops.len(),
                v < n,
                u <= n,
                square(m@, n as int),
                sound(ops, m@, true),
                holds_steps(ops, m@, true),
                closed(m@, n as int),
                forall|x: int| 0 <= x < n ==> !on_mixed_cycle(ops, x),
                c == count_below(ops, v as int, u as int),
                c + (if u > v { 1int } else { 0int }) <= u,
            decreases n - u,
        {
            proof {
                lemma_closure_exact(ops, m@, true, u as int, v as int);
                assert(!on_mixed_cycle(ops, v as int));
                assert(u == v ==> m@[u as int]@[v as int] != 2);
            }
            if m[u][v] == 2 {
                c = c + 1;
            }
            u = u + 1;
        }
        r.push(c + 1);
        v = v + 1;
    }
    r
}

/// The outcome of [`calculate_poset`] on the declarations `ops`. It succeeds
/// exactly when they can be met, and each operator then carries its rank.
/// Otherwise it fails with the first error met, in this order: duplicate
/// name, unknown reference, `Above`/`Below` cycle, cycle through `Equal`.
pub open spec fn poset_outcome(ops: Seq<OpInfo>, r: Result<OpMap, OpError>) -> bool {
    &&& (r is Ok <==> resolvable(ops))
    &&& (r matches Ok(m) ==> {
        &&& m.wf()
        &&& m@.len() == ops.len()
        &&& forall|v: int|
            0 <= v < ops.len() ==> {
                &&& (#[trigger] m@[v]).name == ops[v].name
                &&& m@[v].kind == ops[v].kind
                &&& m@[v].relation == ops[v].relation
                &&& m@[v].prec matches Some(p) && p == rank(ops, v)
                &&& rank(ops, v) <= ops.len()
            }
    })
    &&& ((r matches Err(OpError::DuplicateOperator(_))) <==> !names_unique(ops))
    &&& (r matches Err(OpError::DuplicateOperator(d)) ==> exists|i: int, j: int|
        0 <= i < j < ops.len() && ops[i].name@ == ops[j].name@ && ops[j].name@ == d@)
    &&& ((r matches Err(OpError::UnknownOperatorReference(_, _))) <==> names_unique(ops)
        && !refs_known(ops))
    &&& (r matches Err(OpError::UnknownOperatorReference(a, b)) ==> exists|i: int, k: int|
        0 <= i < ops.len() && 0 <= k < ops[i].relation@.len() && ops[i].name@ == a@ && target(
            #[trigger] ops[i].relation@[k],
        )@ == b@ && forall|j: int| 0 <= j < ops.len() ==> ops[j].name@ != b@)
    &&& ((r matches Err(OpError::CyclicPrecedence(_))) <==> names_unique(ops) && refs_known(ops)
        && exists|v: int| 0 <= v < ops.len() && on_strict_cycle(ops, v))
    &&& (r matches Err(OpError::CyclicPrecedence(c)) ==> names_cycle(ops, c@, false))
    &&& ((r matches Err(OpError::ConflictingEquality(_))) <==> names_unique(ops) && refs_known(ops)
        && (forall|v: int| 0 <= v < ops.len() ==> !on_strict_cycle(ops, v)) && exists|v: int|
        0 <= v < ops.len() && on_mixed_cycle(ops, v))
    &&& (r matches Err(OpError::ConflictingEquality(c)) ==> names_cycle(ops, c@, true))
}

/// Turns the declared relations into a precedence for every operator.
///
/// The precedence of an operator is one more than the number of operators
/// that bind strictly looser than it, by the declarations taken together: so
/// `Above` gives a greater number, `Equal` the same one, and operators with no
/// relations share the lowest, 1.
pub fn calculate_poset(opers: Vec<OpInfo>) -> (r: Result<OpMap, OpError>)
    ensures
        poset_outcome(opers@, r),
{
    let ghost ops = opers@;
    let n = opers.len();
    let mut j: usize = 0;
    while j < n
        invariant
            ops == opers@,
            n == ops.len(),
            j <= n,
            forall|a: int, b: int| 0 <= a < j && 0 <= b < j && a != b ==> ops[a].name@ != ops[b].name@,
        decreases n - j,
    {
        let mut i: usize = 0;
        while i < j
            invariant
                ops == opers@,
                n == ops.len(),
                i <= j,
                j < n,
                forall|a: int, b: int| 0 <= a < j && 0 <= b < j && a != b ==> ops[a].name@ != ops[b].name@,
                forall|a: int| 0 <= a < i ==> ops[a].name@ != ops[j as int].name@,
            decreases j - i,
        {
            if opers[i].name == opers[j].name {
                return Err(OpError::DuplicateOperator(opers[j].name.clone()));
            }
            i = i + 1;
        }
        j = j + 1;
    }
    let (mut ms, mut mm) = match init_matrices(&opers) {
        Ok(p) => p,
        Err(e) => return Err(e),
    };
    close(&mut ms, n, Ghost(ops), Ghost(false));
    close(&mut mm, n, Ghost(ops), Ghost(true));
    let strict_cycle = cycle_names(&opers, &ms, Ghost(false));
    if strict_cycle.len() > 0 {
        proof {
            let v = choose|v: int| 0 <= v < ops.len() && reaches(ops, v, v, true, false);
            lemma_strict_walk_is_mixed(ops, v, v);
            assert(on_strict_cycle(ops, v));
            assert(on_mixed_cycle(ops, v));
            assert(!resolvable(ops));
        }
        return Err(OpError::CyclicPrecedence(strict_cycle));
    }
    let mixed_cycle = cycle_names(&opers, &mm, Ghost(true));
    if mixed_cycle.len() > 0 {
        proof {
            let v = choose|v: int| 0 <= v < ops.len() && reaches(ops, v, v, true, true);
            assert(on_mixed_cycle(ops, v));
            assert(!resolvable(ops));
        }
        return Err(OpError::ConflictingEquality(mixed_cycle));
    }
    let precs = ranks(&opers, &mm);
    let mut rest = opers;
    let mut out: Vec<OpInfo> = Vec::new();
    let mut v: usize = 0;
    while v < n
        invariant
            n == ops.len(),
            v <= n,
            rest@ == ops.subrange(v as int, n as int),
            precs@.len() == n,
            forall|x: int| 0 <= x < n ==> precs@[x] == rank(ops, x) && precs@[x] <= n,
            out@.len() == v,
            forall|x: int| 0 <= x < v ==> {
                &&& (#[trigger] out@[x]).name == ops[x].name
                &&& out@[x].kind == ops[x].kind
                &&& out@[x].relation == ops[x].relation
                &&& out@[x].prec matches Some(p) && p == rank(ops, x)
            },
        decreases n - v,
    {
        let mut info = rest.remove(0);
        assert(info == ops[v as int]);
        info.prec = Some(precs[v]);
        out.push(info);
        v = v + 1;
    }
    let map = OpMap::from_resolved(out);
    assert(names_unique(map@)) by {
        assert forall|a: int, b: int|
            0 <= a < map@.len() && 0 <= b < map@.len() && a != b implies map@[a].name@ != map@[b].name@ by {
            assert(map@[a].name == ops[a].name && map@[b].name == ops[b].name);
        }
    }
    assert(map.wf());
    Ok(map)
}

/// `a` declares `Above(b)`.
pub open spec fn declares_above(ops: Seq<OpInfo>, a: int, b: int) -> bool {
    &&& 0 <= a < ops.len()
    &&& 0 <= b < ops.len()
    &&& exists|k: int|
        0 <= k < ops[a].relation@.len() && (#[trigger] ops[a].relation@[k] matches Order::Above(n) && n@
            == ops[b].name@)
}

/// Resolving the same declarations twice gives the same outcome: both succeed
/// or both fail, and on success with identical precedences.
pub proof fn lemma_resolution_idempotent(
    ops: Seq<OpInfo>,
    r1: Result<OpMap, OpError>,
    r2: Result<OpMap, OpError>,
)
    requires
        poset_outcome(ops, r1),
        poset_outcome(ops, r2),
    ensures
        r1 is Ok <==> r2 is Ok,
        r1 matches Ok(m1) ==> r2 matches Ok(m2) && m1@.len() == m2@.len() && forall|v: int|
            0 <= v < m1@.len() ==> (#[trigger] m1@[v]).prec == m2@[v].prec,
{
    if let Ok(m1) = r1 {
        if let Ok(m2) = r2 {
            assert forall|v: int| 0 <= v < m1@.len() implies (#[trigger] m1@[v]).prec == m2@[v].prec by {
                assert(m2@[v].prec->Some_0 == rank(ops, v));
            }
        }
    }
}

/// With `a Above b` and `b Above c` declared, resolution that succeeds orders
/// the precedences `a > b > c`.
pub proof fn lemma_above_chain_ordered(ops: Seq<OpInfo>, r: Result<OpMap, OpError>, a: int, b: int, c: int)
    requires
        poset_outcome(ops, r),
        r is Ok,
        declares_above(ops, a, b),
        declares_above(ops, b, c),
    ensures
        r->Ok_0@[a].prec->Some_0 > r->Ok_0@[b].prec->Some_0 > r->Ok_0@[c].prec->Some_0,
{
    let m = r->Ok_0;
    assert(strict_step(ops, b, a));
    assert(strict_step(ops, c, b));
    lemma_rank_strict(ops, b, a);
    lemma_rank_strict(ops, c, b);
    assert(m@[a].prec->Some_0 == rank(ops, a));
    assert(m@[b].prec->Some_0 == rank(ops, b));
    assert(m@[c].prec->Some_0 == rank(ops, c));
}

/// Where `b` binds tighter than `a` and `a` tighter than `b`, directly or
/// through a chain of `Above`/`Below` declarations, resolution fails with a
/// precedence cycle (once names are unique and all references known, the
/// checks made before).
pub proof fn lemma_mutual_above_rejected(ops: Seq<OpInfo>, r: Result<OpMap, OpError>, a: int, b: int)
    requires
        poset_outcome(ops, r),
        names_unique(ops),
        refs_known(ops),
        0 <= a < ops.len(),
        reaches(ops, b, a, true, false),
        reaches(ops, a, b, true, false),
    ensures
        r matches Err(OpError::CyclicPrecedence(_)),
{
    lemma_reaches_trans(ops, a, b, a, true, true, false);
    assert(on_strict_cycle(ops, a));
}

/// A successful resolution meets every declaration: an operator declared
/// above another gets a greater precedence, one declared equal the same.
pub proof fn lemma_resolution_meets_declarations(ops: Seq<OpInfo>, r: Result<OpMap, OpError>, u: int, v: int)
    requires
        poset_outcome(ops, r),
        r is Ok,
    ensures
        strict_step(ops, u, v) ==> r->Ok_0@[u].prec->Some_0 < r->Ok_0@[v].prec->Some_0,
        equal_step(ops, u, v) ==> r->Ok_0@[u].prec->Some_0 == r->Ok_0@[v].prec->Some_0,
{
    let m = r->Ok_0;
    if strict_step(ops, u, v) {
        lemma_rank_strict(ops, u, v);
        assert(m@[u].prec->Some_0 == rank(ops, u));
        assert(m@[v].prec->Some_0 == rank(ops, v));
    }
    if equal_step(ops, u, v) {
        lemma_rank_equal(ops, u, v);
        assert(m@[u].prec->Some_0 == rank(ops, u));
        assert(m@[v].prec->Some_0 == rank(ops, v));
    }
}

} // verus!
