use vstd::prelude::*;
use std::collections::BTreeMap;
use vstd::std_specs::iter::IteratorSpec;
use crate::banker::{
    bump, can_run, cleared_column, entry, greedy_safe, holdings_nonnegative, increasing_ids,
    is_safe_order, lemma_blocked_is_unsafe, lemma_increasing_ids_unique, lemma_runs_through_push,
    lemma_with_row_entries, lemma_with_thread_idempotent, padded, pass, release, release_all,
    row_of, runs_through, safe_state, search, widen, with_row, BankerState,
};

verus! {

/// Pads `row` with zeros until it has at least `len` columns.
fn grow_row(row: &mut Vec<isize>, len: usize)
    ensures
        final(row)@ == padded(old(row)@, len as int),
{
    let ghost orig = row@;
    while row.len() < len
        invariant
            row@.len() <= if orig.len() >= len { orig.len() as int } else { len as int },
            row@.len() >= orig.len(),
            row@.subrange(0, orig.len() as int) == orig,
            forall|i: int| orig.len() <= i < row@.len() ==> row@[i] == 0,
        decreases len - row.len(),
    {
        row.push(0);
    }
    assert(row@ =~= padded(orig, len as int));
}

/// The keys that a map yields in increasing order are increasing numbers.
proof fn lemma_increasing_keys(keys: Seq<&usize>)
    requires
        vstd::std_specs::btree::increasing_seq(keys),
    ensures
        forall|i: int, j: int| 0 <= i < j < keys.len() ==> *keys[i] < *keys[j],
{
    broadcast use vstd::laws_cmp::group_laws_cmp;

    assert(vstd::laws_cmp::obeys_cmp::<&usize>());
    vstd::std_specs::btree::axiom_increasing_seq_meaning::<&usize>(keys);
    assert forall|i: int, j: int| 0 <= i < j < keys.len() implies *keys[i] < *keys[j] by {
        assert(vstd::std_specs::cmp::OrdSpec::cmp_spec(&keys[i], &keys[j]) is Less);
    }
}

/// The thread ids of a matrix, each once, in increasing order.
fn keys_of(m: &BTreeMap<usize, Vec<isize>>) -> (r: Vec<usize>)
    ensures
        r@.to_set() == m@.dom(),
        r@.no_duplicates(),
        forall|i: int, j: int| 0 <= i < j < r@.len() ==> r@[i] < r@[j],
{
    let mut r: Vec<usize> = Vec::new();
    let keys = m.keys();
    let ghost all = keys.remaining();
    proof {
        vstd::std_specs::btree::axiom_spec_keys_iter(m);
    }
    assert(all.unref().to_set() == m@.dom());
    for t in it: keys
        invariant
            it.seq() == all,
            r@ == all.take(it.index() as int).map_values(|k: &usize| *k),
    {
        r.push(*t);
    }
    assert(r@ =~= all.unref());
    proof {
        lemma_increasing_keys(all);
    }
    assert forall|i: int, j: int| 0 <= i < j < r@.len() implies r@[i] < r@[j] by {
        assert(all[i] == &r@[i]);
        assert(all[j] == &r@[j]);
    }
    r
}

/// The rows of a matrix, each read as a sequence.
pub open spec fn rows(m: Map<usize, Vec<isize>>) -> Map<usize, Seq<isize>> {
    m.map_values(|v: Vec<isize>| v@)
}

/// Column `j` of the row of `t` in an executable matrix; zero when missing.
fn cell(m: &BTreeMap<usize, Vec<isize>>, t: usize, j: usize) -> (r: isize)
    ensures
        r as int == entry(rows(m@), t, j as int),
{
    match m.get(&t) {
        Some(row) => {
            if j < row.len() {
                row[j]
            } else {
                0
            }
        },
        None => 0,
    }
}

/// Lowest value that a sum of `count` values of `isize` can take.
spec fn sum_floor(count: nat) -> int {
    count as int * -0x8000_0000_0000_0000
}

/// Highest value that a sum of `count` values of `isize` can take.
spec fn sum_ceiling(count: nat) -> int {
    count as int * 0x7fff_ffff_ffff_ffff
}

/// Banker's safety check.  Starting from the free units, passes over the threads
/// that hold rows in `allocation`, in increasing order of id, let each thread not
/// yet finished whose `need` fits in the free units finish and hand back what it
/// holds; passes repeat while one lets some thread finish.  The answer is whether
/// every thread finished.
///
/// A `true` answer comes with an order in which every thread can run to
/// completion; when no thread holds a negative number of units, `false` means
/// that no such order exists.
pub fn is_safe(
    available: &[isize],
    allocation: &BTreeMap<usize, Vec<isize>>,
    need: &BTreeMap<usize, Vec<isize>>,
) -> (r: bool)
    ensures
        r == greedy_safe(available@, rows(allocation@), rows(need@)),
        r ==> safe_state(available@, rows(allocation@), rows(need@)),
        holdings_nonnegative(rows(allocation@), available@.len() as int) && safe_state(available@, rows(allocation@), rows(need@)) ==> r,
{
    let ghost alloc = rows(allocation@);
    let ghost nd = rows(need@);
    let ghost w0 = widen(available@);
    let m = available.len();
    let mut work: Vec<i128> = Vec::new();
    let mut j: usize = 0;
    while j < m
        invariant
            m == available@.len(),
            j <= m,
            work@.len() == j,
            w0 == widen(available@),
            forall|k: int| 0 <= k < j ==> #[trigger] work@[k] as int == w0[k],
            forall|k: int| 0 <= k < j ==> sum_floor(1) <= #[trigger] work@[k] as int <= sum_ceiling(1),
        decreases m - j,
    {
        work.push(available[j] as i128);
        j = j + 1;
    }
    let tids = keys_of(allocation);
    let n = tids.len();
    let mut finish: Vec<bool> = Vec::new();
    let mut i: usize = 0;
    while i < n
        invariant
            i <= n,
            finish@.len() == i,
            forall|k: int| 0 <= k < i ==> !finish@[k],
        decreases n - i,
    {
        finish.push(false);
        i = i + 1;
    }
    let ghost mut order: Seq<usize> = Seq::empty();
    let ghost final_done = search(w0, Seq::empty(), alloc, nd, tids@, (n + 1) as nat);
    let ghost mut fuel: nat = (n + 1) as nat;
    proof {
        tids@.unique_seq_to_set();
    }
    loop
        invariant
            fuel >= n + 1 - order.len(),
            final_done == search(release_all(w0, alloc, order), order, alloc, nd, tids@, fuel),
            m == available@.len(),
            n == tids@.len(),
            tids@.to_set() == alloc.dom(),
            tids@.no_duplicates(),
            tids@.to_set().len() == n,
            alloc == rows(allocation@),
            nd == rows(need@),
            w0 == widen(available@),
            finish@.len() == n,
            work@.len() == m,
            release_all(w0, alloc, order).len() == m,
            forall|k: int| 0 <= k < m ==> #[trigger] work@[k] as int == release_all(w0, alloc, order)[k],
            forall|k: int| 0 <= k < m ==> sum_floor(order.len() + 1) <= #[trigger] work@[k] as int
                <= sum_ceiling(order.len() + 1),
            runs_through(w0, alloc, nd, order),
            order.no_duplicates(),
            order.len() <= n,
            forall|k: int| 0 <= k < n ==> (#[trigger] finish@[k] <==> order.contains(tids@[k])),
            forall|x: usize| order.contains(x) ==> alloc.contains_key(x),
        ensures
            forall|k: int|
                0 <= k < n ==> finish@[k] || !can_run(release_all(w0, alloc, order), nd, #[trigger] tids@[k]),
            order == final_done,
        decreases n - order.len(),
    {
        let mut progressed = false;
        let ghost start_order = order;
        let mut i: usize = 0;
        while i < n
            invariant
                fuel >= n + 1 - start_order.len(),
                final_done == search(release_all(w0, alloc, start_order), start_order, alloc, nd, tids@, fuel),
                pass(release_all(w0, alloc, order), order, alloc, nd, tids@, i as int) == pass(
                    release_all(w0, alloc, start_order),
                    start_order,
                    alloc,
                    nd,
                    tids@,
                    0,
                ),
                m == available@.len(),
                n == tids@.len(),
                tids@.to_set() == alloc.dom(),
                tids@.no_duplicates(),
                tids@.to_set().len() == n,
                alloc == rows(allocation@),
                nd == rows(need@),
                w0 == widen(available@),
                finish@.len() == n,
                work@.len() == m,
                i <= n,
                release_all(w0, alloc, order).len() == m,
                forall|k: int| 0 <= k < m ==> #[trigger] work@[k] as int == release_all(w0, alloc, order)[k],
                forall|k: int| 0 <= k < m ==> sum_floor(order.len() + 1) <= #[trigger] work@[k] as int
                    <= sum_ceiling(order.len() + 1),
                runs_through(w0, alloc, nd, order),
                order.no_duplicates(),
                order.len() <= n,
                forall|k: int| 0 <= k < n ==> (#[trigger] finish@[k] <==> order.contains(tids@[k])),
                forall|x: usize| order.contains(x) ==> alloc.contains_key(x),
                progressed ==> order.len() > start_order.len(),
                !progressed ==> order == start_order,
                !progressed ==> forall|k: int|
                    0 <= k < i ==> finish@[k] || !can_run(release_all(w0, alloc, order), nd, #[trigger] tids@[k]),
            decreases n - i,
        {
            let t = tids[i];
            let ghost ws = release_all(w0, alloc, order);
            if !finish[i] {
                let mut runnable = true;
                let mut j: usize = 0;
                while j < m
                    invariant
                        m == available@.len(),
                        work@.len() == m,
                        nd == rows(need@),
                        j <= m,
                        runnable <==> forall|k: int| 0 <= k < j ==> #[trigger] entry(nd, t, k) <= work@[k] as int,
                    decreases m - j,
                {
                    let need_tj = cell(need, t, j) as i128;
                    if !(need_tj <= work[j]) {
                        runnable = false;
                    }
                    j = j + 1;
                }
                proof {
                    let rw = release_all(w0, alloc, order);
                    assert(runnable <==> can_run(rw, nd, t)) by {
                        if runnable {
                            assert forall|k: int| 0 <= k < rw.len() implies #[trigger] entry(nd, t, k) <= rw[k] by {
                                assert(work@[k] as int == rw[k]);
                            }
                        }
                        if can_run(rw, nd, t) {
                            assert forall|k: int| 0 <= k < m implies #[trigger] entry(nd, t, k) <= work@[k] as int by {
                                assert(work@[k] as int == rw[k]);
                            }
                        }
                    }
                }
                if runnable {
                    proof {
                        assert(tids@.to_set().contains(t));
                        assert(!order.contains(t));
                        let grown = order.push(t);
                        assert(grown.no_duplicates());
                        assert forall|x: usize| grown.to_set().contains(x) implies tids@.to_set().contains(x) by {
                            if x != t {
                                assert(order.contains(x));
                            }
                        }
                        grown.unique_seq_to_set();
                        vstd::set_lib::lemma_len_subset(grown.to_set(), tids@.to_set());
                    }
                    let ghost before = work@;
                    let mut j: usize = 0;
                    while j < m
                        invariant
                            m == available@.len(),
                            work@.len() == m,
                            alloc == rows(allocation@),
                            j <= m,
                            order.len() + 1 <= n,
                            n <= usize::MAX,
                            before.len() == m,
                            forall|k: int| 0 <= k < j ==> #[trigger] work@[k] as int == before[k] + entry(alloc, t, k),
                            forall|k: int| 0 <= k < j ==> sum_floor(order.len() + 2) <= #[trigger] work@[k] as int
                                <= sum_ceiling(order.len() + 2),
                            forall|k: int| j <= k < m ==> #[trigger] work@[k] == before[k],
                            forall|k: int| 0 <= k < m ==> sum_floor(order.len() + 1) <= #[trigger] before[k] as int
                                <= sum_ceiling(order.len() + 1),
                        decreases m - j,
                    {
                        let held = cell(allocation, t, j);
                        let cur = work[j];
                        proof {
                            assert(cur == before[j as int]);
                            assert(sum_floor(order.len() + 1) <= before[j as int] as int);
                            assert(sum_floor(1) <= held as int <= sum_ceiling(1));
                            assert(order.len() + 2 <= 0x1_0000_0000_0000_0000);
                            assert(sum_floor(order.len() + 2) >= -0x8000_0000_0000_0000_0000_0000_0000_0000);
                            assert(sum_ceiling(order.len() + 2) <= 0x7fff_ffff_ffff_ffff_ffff_ffff_ffff_ffff);
                        }
                        work.set(j, cur + held as i128);
                        j = j + 1;
                    }
                    proof {
                        lemma_runs_through_push(w0, alloc, nd, order, t);
                        assert(pass(ws, order, alloc, nd, tids@, i as int) == pass(
                            release(ws, alloc, t),
                            order.push(t),
                            alloc,
                            nd,
                            tids@,
                            i + 1,
                        ));
                        let old_order = order;
                        order = order.push(t);
                        assert forall|k: int| 0 <= k < n implies (#[trigger] finish@[k] || k == i <==> order.contains(tids@[k])) by {
                            if order.contains(tids@[k]) && tids@[k] != t {
                                let q = choose|q: int| 0 <= q < order.len() && order[q] == tids@[k];
                                assert(old_order[q] == tids@[k]);
                            }
                            if k == i {
                                assert(order[order.len() - 1] == t);
                            }
                            if finish@[k] {
                                let q = choose|q: int| 0 <= q < old_order.len() && old_order[q] == tids@[k];
                                assert(order[q] == tids@[k]);
                            }
                        }
                        assert forall|x: usize| order.contains(x) implies alloc.contains_key(x) by {
                            if x != t {
                                let q = choose|q: int| 0 <= q < order.len() && order[q] == x;
                                assert(old_order[q] == x);
                                assert(old_order.contains(x));
                            } else {
                                assert(tids@.to_set().contains(t));
                            }
                        }
                    }
                    finish.set(i, true);
                    progressed = true;
                } else {
                    assert(pass(ws, order, alloc, nd, tids@, i as int) == pass(ws, order, alloc, nd, tids@, i + 1));
                }
            } else {
                assert(order.contains(t));
                assert(pass(ws, order, alloc, nd, tids@, i as int) == pass(ws, order, alloc, nd, tids@, i + 1));
            }
            i = i + 1;
        }
        proof {
            let ws0 = release_all(w0, alloc, start_order);
            assert(pass(release_all(w0, alloc, order), order, alloc, nd, tids@, n as int) == (release_all(w0, alloc, order), order));
            assert(pass(ws0, start_order, alloc, nd, tids@, 0) == (release_all(w0, alloc, order), order));
            if progressed {
                assert(fuel >= 1);
                assert(search(ws0, start_order, alloc, nd, tids@, fuel) == search(
                    release_all(w0, alloc, order),
                    order,
                    alloc,
                    nd,
                    tids@,
                    (fuel - 1) as nat,
                ));
                fuel = (fuel - 1) as nat;
            } else {
                assert(search(ws0, start_order, alloc, nd, tids@, fuel) == start_order);
            }
        }
        if !progressed {
            break;
        }
    }
    let mut all = true;
    let mut i: usize = 0;
    while i < n
        invariant
            i <= n,
            finish@.len() == n,
            all <==> forall|k: int| 0 <= k < i ==> finish@[k],
        decreases n - i,
    {
        if !finish[i] {
            all = false;
        }
        i = i + 1;
    }
    proof {
        let ctids = choose|c: Seq<usize>| increasing_ids(c, alloc.dom());
        assert(increasing_ids(tids@, alloc.dom()));
        lemma_increasing_ids_unique(ctids, tids@, alloc.dom());
        assert(greedy_safe(available@, alloc, nd) == (order.len() == n));
        if all {
            assert(order.to_set() =~= alloc.dom()) by {
                assert forall|x: usize| alloc.dom().contains(x) implies order.to_set().contains(x) by {
                    assert(tids@.to_set().contains(x));
                    let q = choose|q: int| 0 <= q < n && tids@[q] == x;
                    assert(finish@[q]);
                }
            }
            assert(is_safe_order(available@, alloc, nd, order));
            order.unique_seq_to_set();
        } else {
            let q = choose|q: int| 0 <= q < n && !finish@[q];
            let stuck = tids@[q];
            assert(tids@.to_set().contains(stuck));
            assert(order.len() < n) by {
                assert(!order.contains(stuck));
                assert(order.to_set().subset_of(tids@.to_set())) by {
                    assert forall|x: usize| order.to_set().contains(x) implies tids@.to_set().contains(x) by {
                        assert(alloc.contains_key(x));
                    }
                }
                assert(order.to_set() != tids@.to_set()) by {
                    assert(!order.to_set().contains(stuck));
                }
                order.unique_seq_to_set();
                vstd::set_lib::lemma_len_subset(order.to_set(), tids@.to_set());
                if order.len() == n {
                    vstd::set_lib::lemma_subset_equality(order.to_set(), tids@.to_set());
                }
            }
            if holdings_nonnegative(alloc, m as int) {
                assert forall|t: usize| alloc.contains_key(t) && !order.contains(t) implies !can_run(
                    release_all(w0, alloc, order), nd, t) by {
                    assert(tids@.to_set().contains(t));
                    let p = choose|p: int| 0 <= p < n && tids@[p] == t;
                    assert(!finish@[p]);
                }
                lemma_blocked_is_unsafe(available@, alloc, nd, order, stuck);
            }
        }
    }
    all
}

/// Gives thread `tid` a row of at least `len` columns, keeping what it had.
fn thread_row(m: &mut BTreeMap<usize, Vec<isize>>, tid: usize, len: usize)
    ensures
        rows(final(m)@) == with_row(rows(old(m)@), tid, len as int),
{
    let ghost before = rows(m@);
    let mut row = match m.remove(&tid) {
        Some(r) => r,
        None => Vec::new(),
    };
    assert(row@ == row_of(before, tid));
    grow_row(&mut row, len);
    m.insert(tid, row);
    assert(rows(m@) =~= with_row(before, tid, len as int));
}

/// Adds `d` to column `j` of the row of `t`.
fn bump_cell(m: &mut BTreeMap<usize, Vec<isize>>, t: usize, j: usize, d: isize)
    requires
        rows(old(m)@).contains_key(t),
        j < rows(old(m)@)[t].len(),
        isize::MIN <= rows(old(m)@)[t][j as int] + d <= isize::MAX,
    ensures
        rows(final(m)@) == bump(rows(old(m)@), t, j as int, d as int),
{
    let ghost before = rows(m@);
    let mut row = m.remove(&t).unwrap();
    let v = row[j];
    row.set(j, v + d);
    m.insert(t, row);
    assert(rows(m@) =~= bump(before, t, j as int, d as int));
}

/// Puts column `id` in every row and sets it to zero.
fn clear_column(m: &mut BTreeMap<usize, Vec<isize>>, id: usize)
    requires
        id < usize::MAX,
    ensures
        rows(final(m)@) == cleared_column(rows(old(m)@), id as int),
{
    let ghost before = rows(m@);
    let ghost target = cleared_column(before, id as int);
    let tids = keys_of(m);
    let n = tids.len();
    let mut i: usize = 0;
    while i < n
        invariant
            id < usize::MAX,
            n == tids@.len(),
            tids@.to_set() == before.dom(),
            tids@.no_duplicates(),
            i <= n,
            target == cleared_column(before, id as int),
            rows(m@).dom() == before.dom(),
            forall|u: usize| #[trigger] rows(m@).contains_key(u) ==> rows(m@)[u] == if tids@.take(i as int).contains(u) {
                target[u]
            } else {
                before[u]
            },
        decreases n - i,
    {
        let t = tids[i];
        proof {
            assert(tids@.to_set().contains(t));
            assert(!tids@.take(i as int).contains(t)) by {
                if tids@.take(i as int).contains(t) {
                    let q = choose|q: int| 0 <= q < i && tids@.take(i as int)[q] == t;
                    assert(tids@[q] == tids@[i as int]);
                }
            }
        }
        let ghost cur = rows(m@);
        let mut row = m.remove(&t).unwrap();
        grow_row(&mut row, id + 1);
        row.set(id, 0);
        m.insert(t, row);
        proof {
            assert(rows(m@).dom() =~= before.dom());
            assert forall|u: usize| #[trigger] rows(m@).contains_key(u) implies rows(m@)[u] == if tids@.take(i + 1).contains(u) {
                target[u]
            } else {
                before[u]
            } by {
                if u == t {
                    assert(tids@.take(i + 1)[i as int] == t);
                    assert(rows(m@)[u] =~= target[u]);
                } else {
                    assert(cur.contains_key(u));
                    let next = tids@.take(i + 1);
                    let prev = tids@.take(i as int);
                    assert(next.contains(u) == prev.contains(u)) by {
                        if next.contains(u) {
                            let q = choose|q: int| 0 <= q < next.len() && next[q] == u;
                            assert(prev[q] == u);
                        }
                        if prev.contains(u) {
                            let q = choose|q: int| 0 <= q < prev.len() && prev[q] == u;
                            assert(next[q] == u);
                        }
                    }
                }
            }
        }
        i = i + 1;
    }
    proof {
        assert forall|u: usize| #[trigger] rows(m@).contains_key(u) implies rows(m@)[u] == target[u] by {
            assert(tids@.to_set().contains(u));
            let q = choose|q: int| 0 <= q < n && tids@[q] == u;
            assert(tids@.take(n as int) =~= tids@);
            assert(tids@.take(n as int)[q] == u);
        }
        assert(rows(m@) =~= target);
    }
}

/// The banker's state held in three executable parts.
pub open spec fn state_of(
    available: Vec<isize>,
    allocation: BTreeMap<usize, Vec<isize>>,
    need: BTreeMap<usize, Vec<isize>>,
) -> BankerState {
    BankerState { available: available@, allocation: rows(allocation@), need: rows(need@) }
}

fn declare_class(
    available: &mut Vec<isize>,
    allocation: &mut BTreeMap<usize, Vec<isize>>,
    need: &mut BTreeMap<usize, Vec<isize>>,
    id: usize,
    capacity: isize,
)
    requires
        id < usize::MAX,
    ensures
        state_of(*final(available), *final(allocation), *final(need)) == state_of(
            *old(available),
            *old(allocation),
            *old(need),
        ).declare(id as int, capacity),
{
    let ghost before = available@;
    while available.len() <= id
        invariant
            id < usize::MAX,
            available@.len() >= before.len(),
            available@.len() <= if before.len() > id { before.len() as int } else { id + 1 },
            available@.subrange(0, before.len() as int) == before,
            forall|k: int| before.len() <= k < available@.len() ==> available@[k] == 0,
        decreases id + 1 - available.len(),
    {
        available.push(0);
    }
    assert(available@ =~= padded(before, id + 1));
    available.set(id, capacity);
    clear_column(allocation, id);
    clear_column(need, id);
}

fn add_thread(
    available: &Vec<isize>,
    allocation: &mut BTreeMap<usize, Vec<isize>>,
    need: &mut BTreeMap<usize, Vec<isize>>,
    tid: usize,
)
    ensures
        state_of(*available, *final(allocation), *final(need)) == state_of(
            *available,
            *old(allocation),
            *old(need),
        ).with_thread(tid),
{
    let m = available.len();
    thread_row(allocation, tid, m);
    thread_row(need, tid, m);
}

fn request_class(
    available: &Vec<isize>,
    allocation: &mut BTreeMap<usize, Vec<isize>>,
    need: &mut BTreeMap<usize, Vec<isize>>,
    tid: usize,
    id: usize,
) -> (r: bool)
    requires
        state_of(*available, *old(allocation), *old(need)) == state_of(*available, *old(allocation), *old(need)).with_thread(tid),
        id < rows(old(need)@)[tid].len(),
        entry(rows(old(need)@), tid, id as int) < isize::MAX,
    ensures
        ({
            let s = state_of(*available, *old(allocation), *old(need));
            let s2 = state_of(*available, *final(allocation), *final(need));
            &&& r == s.add_request(tid, id as int).passes_check()
            &&& r ==> s2 == s.add_request(tid, id as int) && s2.is_safe()
            &&& !r ==> s2 == s.with_thread(tid)
            &&& holdings_nonnegative(s.allocation, s.available.len() as int) && s.add_request(tid, id as int).is_safe() ==> r
        }),
{
    let ghost s = state_of(*available, *allocation, *need);
    proof {
        lemma_with_thread_idempotent(s, tid);
        lemma_with_row_entries(s.need, tid, available@.len() as int);
        lemma_with_row_entries(s.allocation, tid, available@.len() as int);
    }
    bump_cell(need, tid, id, 1);
    if is_safe(available.as_slice(), allocation, need) {
        true
    } else {
        bump_cell(need, tid, id, -1);
        proof {
            let w = s.with_thread(tid);
            assert(rows(need@)[tid] =~= w.need[tid]);
            assert(rows(need@) =~= w.need);
        }
        false
    }
}

fn grant_class(
    available: &mut Vec<isize>,
    allocation: &mut BTreeMap<usize, Vec<isize>>,
    need: &mut BTreeMap<usize, Vec<isize>>,
    tid: usize,
    id: usize,
)
    requires
        state_of(*old(available), *old(allocation), *old(need)) == state_of(*old(available), *old(allocation), *old(need)).with_thread(tid),
        id < old(available)@.len(),
        old(available)@[id as int] > isize::MIN,
        entry(rows(old(allocation)@), tid, id as int) < isize::MAX,
        entry(rows(old(need)@), tid, id as int) > isize::MIN,
    ensures
        state_of(*final(available), *final(allocation), *final(need)) == state_of(
            *old(available),
            *old(allocation),
            *old(need),
        ).grant(tid, id as int),
{
    let ghost s = state_of(*available, *allocation, *need);
    proof {
        lemma_with_thread_idempotent(s, tid);
        lemma_with_row_entries(s.need, tid, available@.len() as int);
        lemma_with_row_entries(s.allocation, tid, available@.len() as int);
    }
    bump_cell(need, tid, id, -1);
    bump_cell(allocation, tid, id, 1);
    let v = available[id];
    available.set(id, v - 1);
}

fn release_class(
    available: &mut Vec<isize>,
    allocation: &mut BTreeMap<usize, Vec<isize>>,
    need: &mut BTreeMap<usize, Vec<isize>>,
    tid: usize,
    id: usize,
)
    requires
        state_of(*old(available), *old(allocation), *old(need)) == state_of(*old(available), *old(allocation), *old(need)).with_thread(tid),
        id < old(available)@.len(),
        old(available)@[id as int] < isize::MAX,
        entry(rows(old(allocation)@), tid, id as int) > isize::MIN,
    ensures
        state_of(*final(available), *final(allocation), *final(need)) == state_of(
            *old(available),
            *old(allocation),
            *old(need),
        ).release(tid, id as int),
{
    let ghost s = state_of(*available, *allocation, *need);
    proof {
        lemma_with_thread_idempotent(s, tid);
        lemma_with_row_entries(s.allocation, tid, available@.len() as int);
    }
    bump_cell(allocation, tid, id, -1);
    let v = available[id];
    available.set(id, v + 1);
}

/// Deadlock-detection state of one process: the banker's matrices, kept apart
/// for mutexes and for semaphores.
///
/// Rows are keyed by thread id and columns are the indices of the resources in
/// the process's mutex and semaphore lists.  With detection on, a lock or a down
/// first records its request and runs the safety check; an unsafe request is
/// withdrawn and answered with an error instead of blocking.
pub struct DeadlockDetect {
    /// Whether detection is on for this process.
    pub enabled: bool,
    /// Free units of each mutex.
    pub mutex_available: Vec<isize>,
    /// Mutexes each thread holds.
    pub mutex_allocation: BTreeMap<usize, Vec<isize>>,
    /// Mutexes each thread waits for.
    pub mutex_need: BTreeMap<usize, Vec<isize>>,
    /// Free units of each semaphore.
    pub sem_available: Vec<isize>,
    /// Semaphore units each thread holds.
    pub sem_allocation: BTreeMap<usize, Vec<isize>>,
    /// Semaphore units each thread waits for.
    pub sem_need: BTreeMap<usize, Vec<isize>>,
}

impl Default for DeadlockDetect {
    fn default() -> (r: Self)
        ensures
            !r.enabled,
            r.mutex_view() == (BankerState { available: Seq::empty(), allocation: Map::empty(), need: Map::empty() }),
            r.sem_view() == (BankerState { available: Seq::empty(), allocation: Map::empty(), need: Map::empty() }),
    {
        let r = DeadlockDetect {
            enabled: false,
            mutex_available: Vec::new(),
            mutex_allocation: BTreeMap::new(),
            mutex_need: BTreeMap::new(),
            sem_available: Vec::new(),
            sem_allocation: BTreeMap::new(),
            sem_need: BTreeMap::new(),
        };
        assert(rows(r.mutex_allocation@) =~= Map::empty());
        assert(rows(r.mutex_need@) =~= Map::empty());
        assert(rows(r.sem_allocation@) =~= Map::empty());
        assert(rows(r.sem_need@) =~= Map::empty());
        r
    }
}

impl DeadlockDetect {
    /// The banker's view of the mutexes.
    pub open spec fn mutex_view(&self) -> BankerState {
        state_of(self.mutex_available, self.mutex_allocation, self.mutex_need)
    }

    /// The banker's view of the semaphores.
    pub open spec fn sem_view(&self) -> BankerState {
        state_of(self.sem_available, self.sem_allocation, self.sem_need)
    }

    /// Declares mutex `id` (capacity one): it is free and no thread holds or waits
    /// for it.
    pub fn mutex_set(&mut self, id: usize)
        requires
            id < usize::MAX,
        ensures
            final(self).mutex_view() == old(self).mutex_view().declare(id as int, 1),
            final(self).sem_view() == old(self).sem_view(),
            final(self).enabled == old(self).enabled,
    {
        declare_class(&mut self.mutex_available, &mut self.mutex_allocation, &mut self.mutex_need, id, 1);
    }

    /// Declares semaphore `id` with `count` units: all free, none held or waited for.
    pub fn sem_set(&mut self, id: usize, count: usize)
        requires
            id < usize::MAX,
        ensures
            final(self).sem_view() == old(self).sem_view().declare(id as int, count as isize),
            final(self).mutex_view() == old(self).mutex_view(),
            final(self).enabled == old(self).enabled,
    {
        declare_class(&mut self.sem_available, &mut self.sem_allocation, &mut self.sem_need, id, count as isize);
    }

    /// Gives thread `tid` rows in the mutex matrices.
    fn mutex_thread(&mut self, tid: usize)
        ensures
            final(self).mutex_view() == old(self).mutex_view().with_thread(tid),
            final(self).sem_view() == old(self).sem_view(),
            final(self).enabled == old(self).enabled,
    {
        add_thread(&self.mutex_available, &mut self.mutex_allocation, &mut self.mutex_need, tid);
    }

    /// Gives thread `tid` rows in the semaphore matrices.
    fn sem_thread(&mut self, tid: usize)
        ensures
            final(self).sem_view() == old(self).sem_view().with_thread(tid),
            final(self).mutex_view() == old(self).mutex_view(),
            final(self).enabled == old(self).enabled,
    {
        add_thread(&self.sem_available, &mut self.sem_allocation, &mut self.sem_need, tid);
    }

    /// Thread `tid` asks for mutex `id`.  The request is recorded and the state
    /// checked with [`is_safe`]: `true` when the check passes (the request stays
    /// recorded), `false` when it does not (the request is withdrawn, and the
    /// caller answers `-0xDEAD` instead of blocking).
    pub fn mutex_request(&mut self, tid: usize, id: usize) -> (r: bool)
        requires
            id < old(self).mutex_view().with_thread(tid).need[tid].len(),
            entry(old(self).mutex_view().need, tid, id as int) < isize::MAX,
        ensures
            r == old(self).mutex_view().add_request(tid, id as int).passes_check(),
            r ==> final(self).mutex_view() == old(self).mutex_view().add_request(tid, id as int),
            r ==> final(self).mutex_view().is_safe(),
            !r ==> final(self).mutex_view() == old(self).mutex_view().with_thread(tid),
            holdings_nonnegative(old(self).mutex_view().allocation, old(self).mutex_view().available.len() as int) && old(self).mutex_view().add_request(
                tid,
                id as int,
            ).is_safe() ==> r,
            final(self).sem_view() == old(self).sem_view(),
            final(self).enabled == old(self).enabled,
    {
        self.mutex_thread(tid);
        proof {
            lemma_with_thread_idempotent(old(self).mutex_view(), tid);
            lemma_with_row_entries(old(self).mutex_view().need, tid, self.mutex_available@.len() as int);
            lemma_with_row_entries(old(self).mutex_view().allocation, tid, self.mutex_available@.len() as int);
        }
        request_class(&self.mutex_available, &mut self.mutex_allocation, &mut self.mutex_need, tid, id)
    }

    /// Thread `tid` obtains mutex `id`: one unit moves from the free pool to the
    /// thread, and the thread waits for one unit less.
    pub fn mutex_grant(&mut self, tid: usize, id: usize)
        requires
            id < old(self).mutex_available@.len(),
            old(self).mutex_available@[id as int] > isize::MIN,
            entry(old(self).mutex_view().allocation, tid, id as int) < isize::MAX,
            entry(old(self).mutex_view().need, tid, id as int) > isize::MIN,
        ensures
            final(self).mutex_view() == old(self).mutex_view().grant(tid, id as int),
            final(self).sem_view() == old(self).sem_view(),
            final(self).enabled == old(self).enabled,
    {
        self.mutex_thread(tid);
        proof {
            lemma_with_thread_idempotent(old(self).mutex_view(), tid);
            lemma_with_row_entries(old(self).mutex_view().need, tid, self.mutex_available@.len() as int);
            lemma_with_row_entries(old(self).mutex_view().allocation, tid, self.mutex_available@.len() as int);
        }
        grant_class(&mut self.mutex_available, &mut self.mutex_allocation, &mut self.mutex_need, tid, id);
    }

    /// Thread `tid` gives mutex `id` back: one unit moves from the thread to the
    /// free pool.
    pub fn mutex_release(&mut self, tid: usize, id: usize)
        requires
            id < old(self).mutex_available@.len(),
            old(self).mutex_available@[id as int] < isize::MAX,
            entry(old(self).mutex_view().allocation, tid, id as int) > isize::MIN,
        ensures
            final(self).mutex_view() == old(self).mutex_view().release(tid, id as int),
            final(self).sem_view() == old(self).sem_view(),
            final(self).enabled == old(self).enabled,
    {
        self.mutex_thread(tid);
        proof {
            lemma_with_thread_idempotent(old(self).mutex_view(), tid);
            lemma_with_row_entries(old(self).mutex_view().allocation, tid, self.mutex_available@.len() as int);
        }
        release_class(&mut self.mutex_available, &mut self.mutex_allocation, &mut self.mutex_need, tid, id);
    }

    /// Thread `tid` asks for a unit of semaphore `id`.  The request is recorded and the state
    /// checked with [`is_safe`]: `true` when the check passes (the request stays
    /// recorded), `false` when it does not (the request is withdrawn, and the
    /// caller answers `-0xDEAD` instead of blocking).
    pub fn sem_request(&mut self, tid: usize, id: usize) -> (r: bool)
        requires
            id < old(self).sem_view().with_thread(tid).need[tid].len(),
            entry(old(self).sem_view().need, tid, id as int) < isize::MAX,
        ensures
            r == old(self).sem_view().add_request(tid, id as int).passes_check(),
            r ==> final(self).sem_view() == old(self).sem_view().add_request(tid, id as int),
            r ==> final(self).sem_view().is_safe(),
            !r ==> final(self).sem_view() == old(self).sem_view().with_thread(tid),
            holdings_nonnegative(old(self).sem_view().allocation, old(self).sem_view().available.len() as int) && old(self).sem_view().add_request(
                tid,
                id as int,
            ).is_safe() ==> r,
            final(self).mutex_view() == old(self).mutex_view(),
            final(self).enabled == old(self).enabled,
    {
        self.sem_thread(tid);
        proof {
            lemma_with_thread_idempotent(old(self).sem_view(), tid);
            lemma_with_row_entries(old(self).sem_view().need, tid, self.sem_available@.len() as int);
            lemma_with_row_entries(old(self).sem_view().allocation, tid, self.sem_available@.len() as int);
        }
        request_class(&self.sem_available, &mut self.sem_allocation, &mut self.sem_need, tid, id)
    }

    /// Thread `tid` obtains a unit of semaphore `id`: one unit moves from the free pool to the
    /// thread, and the thread waits for one unit less.
    pub fn sem_grant(&mut self, tid: usize, id: usize)
        requires
            id < old(self).sem_available@.len(),
            old(self).sem_available@[id as int] > isize::MIN,
            entry(old(self).sem_view().allocation, tid, id as int) < isize::MAX,
            entry(old(self).sem_view().need, tid, id as int) > isize::MIN,
        ensures
            final(self).sem_view() == old(self).sem_view().grant(tid, id as int),
            final(self).mutex_view() == old(self).mutex_view(),
            final(self).enabled == old(self).enabled,
    {
        self.sem_thread(tid);
        proof {
            lemma_with_thread_idempotent(old(self).sem_view(), tid);
            lemma_with_row_entries(old(self).sem_view().need, tid, self.sem_available@.len() as int);
            lemma_with_row_entries(old(self).sem_view().allocation, tid, self.sem_available@.len() as int);
        }
        grant_class(&mut self.sem_available, &mut self.sem_allocation, &mut self.sem_need, tid, id);
    }

    /// Thread `tid` gives a unit of semaphore `id` back: one unit moves from the thread to the
    /// free pool.
    pub fn sem_release(&mut self, tid: usize, id: usize)
        requires
            id < old(self).sem_available@.len(),
            old(self).sem_available@[id as int] < isize::MAX,
            entry(old(self).sem_view().allocation, tid, id as int) > isize::MIN,
        ensures
            final(self).sem_view() == old(self).sem_view().release(tid, id as int),
            final(self).mutex_view() == old(self).mutex_view(),
            final(self).enabled == old(self).enabled,
    {
        self.sem_thread(tid);
        proof {
            lemma_with_thread_idempotent(old(self).sem_view(), tid);
            lemma_with_row_entries(old(self).sem_view().allocation, tid, self.sem_available@.len() as int);
        }
        release_class(&mut self.sem_available, &mut self.sem_allocation, &mut self.sem_need, tid, id);
    }
}

} // verus!
