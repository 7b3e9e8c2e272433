//! The mathematics of the banker's safety check.
//!
//! A resource-allocation state is a vector of free units per resource class
//! (`available`), and two matrices keyed by thread id: what each thread holds
//! (`allocation`) and what it still waits for (`need`).  A missing row, or a
//! column past the end of a row, counts as zero.
//!
//! A state is *safe* when the threads that hold rows in `allocation` can be put in
//! an order in which each one, in turn, finds its whole need among the free units,
//! runs to completion and hands back everything it holds.
use vstd::prelude::*;

verus! {

/// Column `j` of the row of thread `t`; zero when the row or the column is missing.
pub open spec fn entry(m: Map<usize, Seq<isize>>, t: usize, j: int) -> int {
    if m.contains_key(t) && 0 <= j < m[t].len() {
        m[t][j] as int
    } else {
        0
    }
}

/// The free-unit vector read as mathematical integers.
pub open spec fn widen(available: Seq<isize>) -> Seq<int> {
    Seq::new(available.len(), |j: int| available[j] as int)
}

/// Thread `t` can run to completion on the free units `work`.
pub open spec fn can_run(work: Seq<int>, need: Map<usize, Seq<isize>>, t: usize) -> bool {
    forall|j: int| 0 <= j < work.len() ==> #[trigger] entry(need, t, j) <= work[j]
}

/// The free units once thread `t` has handed back all it holds.
pub open spec fn release(work: Seq<int>, allocation: Map<usize, Seq<isize>>, t: usize) -> Seq<int> {
    Seq::new(work.len(), |j: int| work[j] + entry(allocation, t, j))
}

/// The free units once every thread of `order` has handed back all it holds.
pub open spec fn release_all(
    work: Seq<int>,
    allocation: Map<usize, Seq<isize>>,
    order: Seq<usize>,
) -> Seq<int>
    decreases order.len(),
{
    if order.len() == 0 {
        work
    } else {
        release(release_all(work, allocation, order.drop_last()), allocation, order.last())
    }
}

/// Each thread of `order`, taken in turn, can run to completion.
pub open spec fn runs_through(
    work: Seq<int>,
    allocation: Map<usize, Seq<isize>>,
    need: Map<usize, Seq<isize>>,
    order: Seq<usize>,
) -> bool
    decreases order.len(),
{
    if order.len() == 0 {
        true
    } else {
        &&& runs_through(work, allocation, need, order.drop_last())
        &&& can_run(release_all(work, allocation, order.drop_last()), need, order.last())
    }
}

/// `order` lists every thread of `allocation` exactly once, in an order in which
/// all of them can run to completion.
pub open spec fn is_safe_order(
    available: Seq<isize>,
    allocation: Map<usize, Seq<isize>>,
    need: Map<usize, Seq<isize>>,
    order: Seq<usize>,
) -> bool {
    &&& order.no_duplicates()
    &&& order.to_set() == allocation.dom()
    &&& runs_through(widen(available), allocation, need, order)
}

/// The state is safe: some order lets every thread run to completion.
pub open spec fn safe_state(
    available: Seq<isize>,
    allocation: Map<usize, Seq<isize>>,
    need: Map<usize, Seq<isize>>,
) -> bool {
    exists|order: Seq<usize>| #[trigger] is_safe_order(available, allocation, need, order)
}

/// No thread holds a negative number of units in any of the first `cols` resource
/// classes.
pub open spec fn holdings_nonnegative(allocation: Map<usize, Seq<isize>>, cols: int) -> bool {
    forall|t: usize, j: int| 0 <= j < cols ==> #[trigger] entry(allocation, t, j) >= 0
}

/// Sum of column `j` over the rows of the threads of `order`.
pub open spec fn column_sum(allocation: Map<usize, Seq<isize>>, order: Seq<usize>, j: int) -> int
    decreases order.len(),
{
    if order.len() == 0 {
        0
    } else {
        column_sum(allocation, order.drop_last(), j) + entry(allocation, order.last(), j)
    }
}

pub proof fn lemma_release_all_is_sum(
    work: Seq<int>,
    allocation: Map<usize, Seq<isize>>,
    order: Seq<usize>,
)
    ensures
        release_all(work, allocation, order).len() == work.len(),
        forall|j: int|
            0 <= j < work.len() ==> #[trigger] release_all(work, allocation, order)[j] == work[j]
                + column_sum(allocation, order, j),
    decreases order.len(),
{
    if order.len() > 0 {
        lemma_release_all_is_sum(work, allocation, order.drop_last());
    }
}

pub proof fn lemma_column_sum_nonnegative(
    allocation: Map<usize, Seq<isize>>,
    order: Seq<usize>,
    j: int,
    cols: int,
)
    requires
        holdings_nonnegative(allocation, cols),
        0 <= j < cols,
    ensures
        column_sum(allocation, order, j) >= 0,
    decreases order.len(),
{
    if order.len() > 0 {
        lemma_column_sum_nonnegative(allocation, order.drop_last(), j, cols);
        assert(entry(allocation, order.last(), j) >= 0);
    }
}

/// Taking one thread out of an order takes its row out of the column sum.
pub proof fn lemma_column_sum_remove(
    allocation: Map<usize, Seq<isize>>,
    order: Seq<usize>,
    i: int,
    j: int,
)
    requires
        0 <= i < order.len(),
    ensures
        column_sum(allocation, order, j) == column_sum(allocation, order.remove(i), j) + entry(
            allocation,
            order[i],
            j,
        ),
    decreases order.len(),
{
    if i == order.len() - 1 {
        assert(order.remove(i) =~= order.drop_last());
    } else {
        lemma_column_sum_remove(allocation, order.drop_last(), i, j);
        assert(order.remove(i).drop_last() =~= order.drop_last().remove(i));
        assert(order.remove(i).last() == order.last());
    }
}

/// With no negative holdings, a sub-collection of threads hands back no more than
/// the whole collection.
pub proof fn lemma_column_sum_subset(
    allocation: Map<usize, Seq<isize>>,
    a: Seq<usize>,
    b: Seq<usize>,
    j: int,
    cols: int,
)
    requires
        holdings_nonnegative(allocation, cols),
        0 <= j < cols,
        a.no_duplicates(),
        b.no_duplicates(),
        forall|x: usize| a.contains(x) ==> b.contains(x),
    ensures
        column_sum(allocation, a, j) <= column_sum(allocation, b, j),
    decreases a.len(),
{
    if a.len() == 0 {
        lemma_column_sum_nonnegative(allocation, b, j, cols);
    } else {
        let x = a.last();
        assert(a.contains(x)) by {
            assert(a[a.len() - 1] == x);
        }
        let i = b.index_of(x);
        let b2 = b.remove(i);
        lemma_column_sum_remove(allocation, b, i, j);
        let a2 = a.drop_last();
        assert forall|y: usize| a2.contains(y) implies b2.contains(y) by {
            let k = choose|k: int| 0 <= k < a2.len() && a2[k] == y;
            assert(a[k] == y);
            assert(a.contains(y));
            assert(y != x) by {
                if y == x {
                    assert(a[k] == a[a.len() - 1]);
                }
            }
            let kb = b.index_of(y);
            if kb < i {
                assert(b2[kb] == y);
            } else {
                assert(kb != i);
                assert(b2[kb - 1] == y);
            }
        }
        assert(b2.no_duplicates()) by {
            assert forall|p: int, q: int| 0 <= p < b2.len() && 0 <= q < b2.len() && p != q implies b2[p]
                != b2[q] by {
                let pp = if p < i { p } else { p + 1 };
                let qq = if q < i { q } else { q + 1 };
                assert(b2[p] == b[pp]);
                assert(b2[q] == b[qq]);
            }
        }
        assert(a2.no_duplicates());
        lemma_column_sum_subset(allocation, a2, b2, j, cols);
    }
}

/// Every thread of a runnable order can run on what its predecessors hand back.
pub proof fn lemma_runs_through_prefix(
    work: Seq<int>,
    allocation: Map<usize, Seq<isize>>,
    need: Map<usize, Seq<isize>>,
    order: Seq<usize>,
    k: int,
)
    requires
        runs_through(work, allocation, need, order),
        0 <= k < order.len(),
    ensures
        can_run(release_all(work, allocation, order.take(k)), need, order[k]),
    decreases order.len(),
{
    if k == order.len() - 1 {
        assert(order.take(k) =~= order.drop_last());
    } else {
        lemma_runs_through_prefix(work, allocation, need, order.drop_last(), k);
        assert(order.drop_last().take(k) =~= order.take(k));
    }
}

/// The first position of `order` whose thread lies outside `done`.
pub proof fn lemma_first_outside(order: Seq<usize>, done: Seq<usize>, from: int) -> (k: int)
    requires
        0 <= from <= order.len(),
        exists|p: int| from <= p < order.len() && !done.contains(#[trigger] order[p]),
        forall|p: int| 0 <= p < from ==> done.contains(#[trigger] order[p]),
    ensures
        0 <= k < order.len(),
        !done.contains(order[k]),
        forall|p: int| 0 <= p < k ==> done.contains(#[trigger] order[p]),
    decreases order.len() - from,
{
    if !done.contains(order[from]) {
        from
    } else {
        lemma_first_outside(order, done, from + 1)
    }
}

/// Completeness of the greedy search: when no holding is negative, and every
/// thread outside `done` is blocked on what `done` hands back, no safe order exists.
pub proof fn lemma_blocked_is_unsafe(
    available: Seq<isize>,
    allocation: Map<usize, Seq<isize>>,
    need: Map<usize, Seq<isize>>,
    done: Seq<usize>,
    stuck: usize,
)
    requires
        holdings_nonnegative(allocation, available.len() as int),
        done.no_duplicates(),
        allocation.contains_key(stuck),
        !done.contains(stuck),
        forall|t: usize|
            allocation.contains_key(t) && !done.contains(t) ==> !can_run(
                release_all(widen(available), allocation, done),
                need,
                t,
            ),
    ensures
        !safe_state(available, allocation, need),
{
    if safe_state(available, allocation, need) {
        let order = choose|order: Seq<usize>| is_safe_order(available, allocation, need, order);
        assert(order.to_set().contains(stuck));
        let ps = choose|p: int| 0 <= p < order.len() && order[p] == stuck;
        let k = lemma_first_outside(order, done, 0);
        let t = order[k];
        assert(order.to_set().contains(t));
        assert(allocation.contains_key(t));
        let w = widen(available);
        lemma_runs_through_prefix(w, allocation, need, order, k);
        let prefix = order.take(k);
        let done_work = release_all(w, allocation, done);
        let pre_work = release_all(w, allocation, prefix);
        lemma_release_all_is_sum(w, allocation, done);
        lemma_release_all_is_sum(w, allocation, prefix);
        assert(prefix.no_duplicates());
        assert forall|x: usize| prefix.contains(x) implies done.contains(x) by {
            let q = choose|q: int| 0 <= q < prefix.len() && prefix[q] == x;
            assert(order[q] == x);
        }
        assert forall|j: int| 0 <= j < done_work.len() implies #[trigger] entry(need, t, j)
            <= done_work[j] by {
            lemma_column_sum_subset(allocation, prefix, done, j, available.len() as int);
            assert(entry(need, t, j) <= pre_work[j]);
        }
        assert(can_run(done_work, need, t));
    }
}

/// A runnable order stays runnable with more free units and smaller needs.
pub proof fn lemma_runs_through_monotone(
    work: Seq<int>,
    work2: Seq<int>,
    allocation: Map<usize, Seq<isize>>,
    need: Map<usize, Seq<isize>>,
    need2: Map<usize, Seq<isize>>,
    order: Seq<usize>,
)
    requires
        work2.len() == work.len(),
        forall|j: int| 0 <= j < work.len() ==> work[j] <= #[trigger] work2[j],
        forall|t: usize, j: int| 0 <= j < work.len() ==> #[trigger] entry(need2, t, j) <= entry(need, t, j),
        runs_through(work, allocation, need, order),
    ensures
        runs_through(work2, allocation, need2, order),
    decreases order.len(),
{
    if order.len() > 0 {
        let pre = order.drop_last();
        lemma_runs_through_monotone(work, work2, allocation, need, need2, pre);
        lemma_release_all_is_sum(work, allocation, pre);
        lemma_release_all_is_sum(work2, allocation, pre);
        let t = order.last();
        assert forall|j: int| 0 <= j < release_all(work2, allocation, pre).len() implies #[trigger] entry(need2, t, j)
            <= release_all(work2, allocation, pre)[j] by {
            assert(entry(need, t, j) <= release_all(work, allocation, pre)[j]);
            assert(work[j] <= work2[j]);
        }
    }
}

/// Safety is monotone: a safe state stays safe when no resource class has fewer
/// free units and no thread needs more of any class.
pub proof fn lemma_safe_state_monotone(
    available: Seq<isize>,
    available2: Seq<isize>,
    allocation: Map<usize, Seq<isize>>,
    need: Map<usize, Seq<isize>>,
    need2: Map<usize, Seq<isize>>,
)
    requires
        available2.len() == available.len(),
        forall|j: int| 0 <= j < available.len() ==> available[j] <= #[trigger] available2[j],
        forall|t: usize, j: int| 0 <= j < available.len() ==> #[trigger] entry(need2, t, j) <= entry(need, t, j),
    ensures
        safe_state(available, allocation, need) ==> safe_state(available2, allocation, need2),
{
    if safe_state(available, allocation, need) {
        let order = choose|order: Seq<usize>| is_safe_order(available, allocation, need, order);
        let w = widen(available);
        let w2 = widen(available2);
        assert forall|j: int| 0 <= j < w.len() implies w[j] <= #[trigger] w2[j] by {
            assert(available[j] <= available2[j]);
        }
        lemma_runs_through_monotone(w, w2, allocation, need, need2, order);
        assert(is_safe_order(available2, allocation, need2, order));
    }
}

/// Extending a runnable order by a thread that can run keeps it runnable.
pub proof fn lemma_runs_through_push(
    work: Seq<int>,
    allocation: Map<usize, Seq<isize>>,
    need: Map<usize, Seq<isize>>,
    order: Seq<usize>,
    t: usize,
)
    requires
        runs_through(work, allocation, need, order),
        can_run(release_all(work, allocation, order), need, t),
    ensures
        runs_through(work, allocation, need, order.push(t)),
        release_all(work, allocation, order.push(t)) == release(
            release_all(work, allocation, order),
            allocation,
            t,
        ),
{
    assert(order.push(t).drop_last() =~= order);
}


/// `row` padded with zeros so that it has at least `len` columns.
pub open spec fn padded(row: Seq<isize>, len: int) -> Seq<isize> {
    if row.len() >= len {
        row
    } else {
        row + Seq::new((len - row.len()) as nat, |i: int| 0isize)
    }
}

/// The row of thread `t`, or an empty row when it has none.
pub open spec fn row_of(m: Map<usize, Seq<isize>>, t: usize) -> Seq<isize> {
    if m.contains_key(t) {
        m[t]
    } else {
        Seq::empty()
    }
}

/// The matrix with the row of `t` present and at least `len` columns long.
pub open spec fn with_row(m: Map<usize, Seq<isize>>, t: usize, len: int) -> Map<usize, Seq<isize>> {
    m.insert(t, padded(row_of(m, t), len))
}

/// The matrix with `d` added to column `j` of the row of `t`.
pub open spec fn bump(m: Map<usize, Seq<isize>>, t: usize, j: int, d: int) -> Map<usize, Seq<isize>> {
    m.insert(t, m[t].update(j, (m[t][j] + d) as isize))
}

/// The matrix with column `j` present in every row and set to zero.
pub open spec fn cleared_column(m: Map<usize, Seq<isize>>, j: int) -> Map<usize, Seq<isize>> {
    m.map_values(|r: Seq<isize>| padded(r, j + 1).update(j, 0isize))
}

/// The state of one kind of resource (mutexes, or semaphores) as the banker sees it.
pub struct BankerState {
    /// Free units of each resource class.
    pub available: Seq<isize>,
    /// Units each thread holds, by thread id.
    pub allocation: Map<usize, Seq<isize>>,
    /// Units each thread waits for, by thread id.
    pub need: Map<usize, Seq<isize>>,
}

impl BankerState {
    /// Whether the state is safe (see [`safe_state`]).
    pub open spec fn is_safe(self) -> bool {
        safe_state(self.available, self.allocation, self.need)
    }

    /// Whether the greedy search finds the state safe (see [`greedy_safe`]); it does
    /// exactly when the state is safe if no thread holds a negative number of units.
    pub open spec fn passes_check(self) -> bool {
        greedy_safe(self.available, self.allocation, self.need)
    }

    /// Declares resource class `id` with `capacity` free units: no thread holds or
    /// waits for it.
    pub open spec fn declare(self, id: int, capacity: isize) -> BankerState {
        BankerState {
            available: padded(self.available, id + 1).update(id, capacity),
            allocation: cleared_column(self.allocation, id),
            need: cleared_column(self.need, id),
        }
    }

    /// Gives thread `t` rows as long as the number of resource classes.
    pub open spec fn with_thread(self, t: usize) -> BankerState {
        BankerState {
            available: self.available,
            allocation: with_row(self.allocation, t, self.available.len() as int),
            need: with_row(self.need, t, self.available.len() as int),
        }
    }

    /// Records that thread `t` waits for one more unit of class `id`.
    pub open spec fn add_request(self, t: usize, id: int) -> BankerState {
        let s = self.with_thread(t);
        BankerState { need: bump(s.need, t, id, 1), ..s }
    }

    /// Thread `t` obtains one unit of class `id` that it waited for.
    pub open spec fn grant(self, t: usize, id: int) -> BankerState {
        let s = self.with_thread(t);
        BankerState {
            available: s.available.update(id, (s.available[id] - 1) as isize),
            allocation: bump(s.allocation, t, id, 1),
            need: bump(s.need, t, id, -1),
        }
    }

    /// Thread `t` gives back one unit of class `id`.
    pub open spec fn release(self, t: usize, id: int) -> BankerState {
        let s = self.with_thread(t);
        BankerState {
            available: s.available.update(id, (s.available[id] + 1) as isize),
            allocation: bump(s.allocation, t, id, -1),
            need: s.need,
        }
    }

    /// Units of class `j` in existence: the free ones and those that threads hold.
    pub open spec fn total(self, j: int) -> int {
        self.available[j] + held_total(self.allocation, j)
    }
}

/// Units of class `j` held over all threads of `m`.
pub open spec fn held_total(m: Map<usize, Seq<isize>>, j: int) -> int
    decreases m.dom().len(),
{
    if m.dom().finite() && m.dom().len() > 0 {
        let t = m.dom().choose();
        entry(m, t, j) + held_total(m.remove(t), j)
    } else {
        0
    }
}

/// Any row can be taken out of the total first.
pub proof fn lemma_held_total_remove(m: Map<usize, Seq<isize>>, t: usize, j: int)
    requires
        m.dom().finite(),
        m.contains_key(t),
    ensures
        held_total(m, j) == entry(m, t, j) + held_total(m.remove(t), j),
    decreases m.dom().len(),
{
    let c = m.dom().choose();
    assert(m.dom().contains(c));
    if c != t {
        let mc = m.remove(c);
        let mt = m.remove(t);
        lemma_held_total_remove(mc, t, j);
        lemma_held_total_remove(mt, c, j);
        assert(mc.remove(t) =~= mt.remove(c));
        assert(entry(mc, t, j) == entry(m, t, j));
        assert(entry(mt, c, j) == entry(m, c, j));
    }
}

/// Replacing the row of `t` changes the total by the difference of the two rows.
pub proof fn lemma_held_total_insert(m: Map<usize, Seq<isize>>, t: usize, r: Seq<isize>, j: int)
    requires
        m.dom().finite(),
    ensures
        held_total(m.insert(t, r), j) + entry(m, t, j) == held_total(m, j) + entry(
            m.insert(t, r),
            t,
            j,
        ),
{
    let mi = m.insert(t, r);
    lemma_held_total_remove(mi, t, j);
    if m.contains_key(t) {
        lemma_held_total_remove(m, t, j);
        assert(mi.remove(t) =~= m.remove(t));
    } else {
        assert(mi.remove(t) =~= m);
    }
}

/// A total over rows that are all zero in column `j`.
pub proof fn lemma_held_total_zero(m: Map<usize, Seq<isize>>, j: int)
    requires
        m.dom().finite(),
        forall|t: usize| m.contains_key(t) ==> entry(m, t, j) == 0,
    ensures
        held_total(m, j) == 0,
    decreases m.dom().len(),
{
    if m.dom().len() > 0 {
        let t = m.dom().choose();
        lemma_held_total_zero(m.remove(t), j);
    }
}

/// Padding rows with zeros keeps every entry.
pub proof fn lemma_with_row_entries(m: Map<usize, Seq<isize>>, t: usize, len: int)
    ensures
        forall|u: usize, j: int| #[trigger] entry(with_row(m, t, len), u, j) == entry(m, u, j),
        with_row(m, t, len)[t].len() >= len,
        with_row(m, t, len).dom() == m.dom().insert(t),
{
    assert forall|u: usize, j: int| #[trigger] entry(with_row(m, t, len), u, j) == entry(m, u, j) by {
        if u == t && m.contains_key(t) && 0 <= j < m[t].len() {
            assert(padded(m[t], len)[j] == m[t][j]);
        }
    }
}

/// Units in existence: a grant moves one unit from the free pool to the
/// thread that obtains it, so every class keeps its total.
pub proof fn lemma_grant_keeps_total(s: BankerState, t: usize, id: int, j: int)
    requires
        s.allocation.dom().finite(),
        0 <= id < s.available.len(),
        0 <= j < s.available.len(),
        s.available[id] > isize::MIN,
        entry(s.allocation, t, id) < isize::MAX,
        entry(s.need, t, id) > isize::MIN,
    ensures
        s.grant(t, id).total(j) == s.total(j),
{
    let len = s.available.len() as int;
    let a1 = with_row(s.allocation, t, len);
    lemma_with_row_entries(s.allocation, t, len);
    lemma_held_total_insert(s.allocation, t, padded(row_of(s.allocation, t), len), j);
    lemma_held_total_insert(a1, t, a1[t].update(id, (a1[t][id] + 1) as isize), j);
}

/// Units in existence: a release moves one unit from the thread back to the
/// free pool, so every class keeps its total.
pub proof fn lemma_release_keeps_total(s: BankerState, t: usize, id: int, j: int)
    requires
        s.allocation.dom().finite(),
        0 <= id < s.available.len(),
        0 <= j < s.available.len(),
        s.available[id] < isize::MAX,
        entry(s.allocation, t, id) > isize::MIN,
    ensures
        s.release(t, id).total(j) == s.total(j),
{
    let len = s.available.len() as int;
    let a1 = with_row(s.allocation, t, len);
    lemma_with_row_entries(s.allocation, t, len);
    lemma_held_total_insert(s.allocation, t, padded(row_of(s.allocation, t), len), j);
    lemma_held_total_insert(a1, t, a1[t].update(id, (a1[t][id] - 1) as isize), j);
}

/// Units in existence: recording a request moves no unit.
pub proof fn lemma_request_keeps_total(s: BankerState, t: usize, id: int, j: int)
    requires
        s.allocation.dom().finite(),
        0 <= id < s.available.len(),
        0 <= j < s.available.len(),
        entry(s.need, t, id) < isize::MAX,
    ensures
        s.add_request(t, id).total(j) == s.total(j),
{
    let len = s.available.len() as int;
    lemma_with_row_entries(s.allocation, t, len);
    lemma_held_total_insert(s.allocation, t, padded(row_of(s.allocation, t), len), j);
}

/// Declaring a class with some capacity makes that capacity its total.
pub proof fn lemma_declare_total(s: BankerState, id: int, capacity: isize)
    requires
        s.allocation.dom().finite(),
        0 <= id,
    ensures
        s.declare(id, capacity).total(id) == capacity,
{
    let a = cleared_column(s.allocation, id);
    assert(a.dom() =~= s.allocation.dom());
    assert forall|t: usize| a.contains_key(t) implies entry(a, t, id) == 0 by {
        assert(padded(s.allocation[t], id + 1).len() >= id + 1);
    }
    lemma_held_total_zero(a, id);
}

/// A release undoes a grant: the free units and the holdings are as before,
/// and the thread no longer waits for the unit it obtained.
pub proof fn lemma_release_undoes_grant(s: BankerState, t: usize, id: int)
    requires
        0 <= id < s.available.len(),
        s.available[id] > isize::MIN,
        entry(s.allocation, t, id) < isize::MAX,
        entry(s.need, t, id) > isize::MIN,
    ensures
        s.grant(t, id).release(t, id).available == s.available,
        s.grant(t, id).release(t, id).allocation == s.with_thread(t).allocation,
        s.grant(t, id).release(t, id).need == bump(s.with_thread(t).need, t, id, -1),
{
    let len = s.available.len() as int;
    lemma_with_row_entries(s.allocation, t, len);
    lemma_with_row_entries(s.need, t, len);
    let g = s.grant(t, id);
    let w = s.with_thread(t);
    lemma_with_row_entries(g.allocation, t, len);
    lemma_with_row_entries(g.need, t, len);
    assert(g.with_thread(t).allocation =~= g.allocation);
    assert(g.with_thread(t).need =~= g.need);
    assert(g.release(t, id).available =~= s.available);
    assert(g.release(t, id).allocation[t] =~= w.allocation[t]);
    assert(g.release(t, id).allocation =~= w.allocation);
}

/// A request that is then granted leaves the thread waiting for nothing more
/// than before the request.
pub proof fn lemma_granted_request_settles_need(s: BankerState, t: usize, id: int)
    requires
        0 <= id < s.available.len(),
        entry(s.need, t, id) < isize::MAX,
    ensures
        s.add_request(t, id).grant(t, id).need == s.with_thread(t).need,
{
    let len = s.available.len() as int;
    lemma_with_row_entries(s.need, t, len);
    let r = s.add_request(t, id);
    lemma_with_row_entries(r.need, t, len);
    assert(r.with_thread(t).need =~= r.need);
    assert(r.grant(t, id).need[t] =~= s.with_thread(t).need[t]);
    assert(r.grant(t, id).need =~= s.with_thread(t).need);
}

/// Giving a thread its rows twice is giving them once.
pub proof fn lemma_with_thread_idempotent(s: BankerState, t: usize)
    ensures
        s.with_thread(t).with_thread(t) == s.with_thread(t),
{
    let len = s.available.len() as int;
    lemma_with_row_entries(s.allocation, t, len);
    lemma_with_row_entries(s.need, t, len);
    let w = s.with_thread(t);
    assert(padded(row_of(w.allocation, t), len) =~= w.allocation[t]);
    assert(padded(row_of(w.need, t), len) =~= w.need[t]);
    assert(w.with_thread(t).allocation =~= w.allocation);
    assert(w.with_thread(t).need =~= w.need);
}

/// One pass of the greedy search: the threads of `tids` from position `i` on, taken
/// in turn; each that is not in `done` and can run on the current free units runs to
/// completion, hands back what it holds and joins `done`.
pub open spec fn pass(
    work: Seq<int>,
    done: Seq<usize>,
    allocation: Map<usize, Seq<isize>>,
    need: Map<usize, Seq<isize>>,
    tids: Seq<usize>,
    i: int,
) -> (Seq<int>, Seq<usize>)
    decreases tids.len() - i,
{
    if i < 0 || i >= tids.len() {
        (work, done)
    } else if !done.contains(tids[i]) && can_run(work, need, tids[i]) {
        pass(release(work, allocation, tids[i]), done.push(tids[i]), allocation, need, tids, i + 1)
    } else {
        pass(work, done, allocation, need, tids, i + 1)
    }
}

/// The greedy search: passes repeated, at most `fuel` of them, as long as a pass lets
/// some thread finish.  The threads that finished, in the order they did.
pub open spec fn search(
    work: Seq<int>,
    done: Seq<usize>,
    allocation: Map<usize, Seq<isize>>,
    need: Map<usize, Seq<isize>>,
    tids: Seq<usize>,
    fuel: nat,
) -> Seq<usize>
    decreases fuel,
{
    if fuel == 0 {
        done
    } else {
        let (w2, d2) = pass(work, done, allocation, need, tids, 0);
        if d2.len() == done.len() {
            done
        } else {
            search(w2, d2, allocation, need, tids, (fuel - 1) as nat)
        }
    }
}

/// `tids` lists the ids of `ids` in increasing order.
pub open spec fn increasing_ids(tids: Seq<usize>, ids: Set<usize>) -> bool {
    &&& tids.to_set() == ids
    &&& forall|i: int, j: int| 0 <= i < j < tids.len() ==> tids[i] < tids[j]
}

/// The answer of the greedy search over the threads of `allocation` in increasing
/// order of id, started on the free units: whether every thread finishes.
pub open spec fn greedy_safe(
    available: Seq<isize>,
    allocation: Map<usize, Seq<isize>>,
    need: Map<usize, Seq<isize>>,
) -> bool {
    let tids = choose|tids: Seq<usize>| increasing_ids(tids, allocation.dom());
    search(widen(available), Seq::empty(), allocation, need, tids, (tids.len() + 1) as nat).len() == tids.len()
}

/// There is only one increasing list of a set of ids.
pub proof fn lemma_increasing_ids_unique(a: Seq<usize>, b: Seq<usize>, ids: Set<usize>)
    requires
        increasing_ids(a, ids),
        increasing_ids(b, ids),
    ensures
        a == b,
    decreases a.len(),
{
    if a.len() == 0 {
        assert(ids =~= Set::empty()) by {
            assert forall|x: usize| !ids.contains(x) by {
                if ids.contains(x) {
                    assert(a.to_set().contains(x));
                }
            }
        }
        if b.len() > 0 {
            assert(b.to_set().contains(b[0]));
        }
        assert(b =~= a);
    } else {
        assert(a.to_set().contains(a[0]));
        assert(b.len() > 0) by {
            if b.len() == 0 {
                assert(b.to_set().contains(a[0]));
            }
        }
        assert(b.to_set().contains(b[0]));
        let ia = choose|k: int| 0 <= k < a.len() && a[k] == b[0];
        let ib = choose|k: int| 0 <= k < b.len() && b[k] == a[0];
        assert(a[0] == b[0]) by {
            if ia > 0 {
                assert(a[0] < a[ia]);
            }
            if ib > 0 {
                assert(b[0] < b[ib]);
            }
        }
        let x = a[0];
        let rest = ids.remove(x);
        assert(a.drop_first().to_set() =~= rest) by {
            assert forall|y: usize| rest.contains(y) implies a.drop_first().to_set().contains(y) by {
                assert(a.to_set().contains(y));
                let k = choose|k: int| 0 <= k < a.len() && a[k] == y;
                assert(k != 0);
                assert(a.drop_first()[k - 1] == y);
            }
            assert forall|y: usize| a.drop_first().to_set().contains(y) implies rest.contains(y) by {
                let k = choose|k: int| 0 <= k < a.drop_first().len() && a.drop_first()[k] == y;
                assert(a[k + 1] == y);
                assert(a.to_set().contains(y));
                assert(a[0] < a[k + 1]);
            }
        }
        assert(b.drop_first().to_set() =~= rest) by {
            assert forall|y: usize| rest.contains(y) implies b.drop_first().to_set().contains(y) by {
                assert(b.to_set().contains(y));
                let k = choose|k: int| 0 <= k < b.len() && b[k] == y;
                assert(k != 0);
                assert(b.drop_first()[k - 1] == y);
            }
            assert forall|y: usize| b.drop_first().to_set().contains(y) implies rest.contains(y) by {
                let k = choose|k: int| 0 <= k < b.drop_first().len() && b.drop_first()[k] == y;
                assert(b[k + 1] == y);
                assert(b.to_set().contains(y));
                assert(b[0] < b[k + 1]);
            }
        }
        assert forall|i: int, j: int| 0 <= i < j < a.drop_first().len() implies a.drop_first()[i] < a.drop_first()[j] by {
            assert(a[i + 1] < a[j + 1]);
        }
        assert forall|i: int, j: int| 0 <= i < j < b.drop_first().len() implies b.drop_first()[i] < b.drop_first()[j] by {
            assert(b[i + 1] < b[j + 1]);
        }
        lemma_increasing_ids_unique(a.drop_first(), b.drop_first(), rest);
        assert(a =~= seq![x] + a.drop_first());
        assert(b =~= seq![x] + b.drop_first());
    }
}

} // verus!
