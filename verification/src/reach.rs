//! Breadth-first exploration, stated over mathematical sequences.
//!
//! A search starts from one state and expands the found states in the order
//! in which they were found; expanding a state appends those of its
//! successors that were not found yet.

use vstd::prelude::*;

verus! {

/// `seen`, followed by each element of `items` that it does not hold yet,
/// once, in the order of `items`.
pub open spec fn append_new<A>(seen: Seq<A>, items: Seq<A>) -> Seq<A>
    decreases items.len(),
{
    if items.len() == 0 {
        seen
    } else {
        let prev = append_new(seen, items.drop_last());
        if prev.contains(items.last()) {
            prev
        } else {
            prev.push(items.last())
        }
    }
}

/// The states found by a breadth-first search from `start` once the first
/// `n` found states have been expanded.
pub open spec fn bfs_prefix<A>(start: A, succ: spec_fn(A) -> Seq<A>, n: nat) -> Seq<A>
    decreases n,
{
    if n == 0 {
        seq![start]
    } else {
        let prev = bfs_prefix(start, succ, (n - 1) as nat);
        if n - 1 < prev.len() {
            append_new(prev, succ(prev[n - 1]))
        } else {
            prev
        }
    }
}

/// The search has ended after `n` expansions: every found state is expanded.
pub open spec fn bfs_complete<A>(start: A, succ: spec_fn(A) -> Seq<A>, n: nat) -> bool {
    bfs_prefix(start, succ, n).len() == n
}

/// The states reachable from `start`, in breadth-first order (meaningful
/// where the search ends).
pub open spec fn bfs_order<A>(start: A, succ: spec_fn(A) -> Seq<A>) -> Seq<A> {
    bfs_prefix(start, succ, choose|n: nat| bfs_complete(start, succ, n))
}

/// What `append_new` keeps and adds.
pub proof fn lemma_append_new<A>(seen: Seq<A>, items: Seq<A>)
    ensures
        append_new(seen, items).len() >= seen.len(),
        forall|i: int| 0 <= i < seen.len() ==> #[trigger] append_new(seen, items)[i] == seen[i],
        forall|x: A|
            #[trigger] append_new(seen, items).contains(x) <==> seen.contains(x) || items.contains(
                x,
            ),
        seen.no_duplicates() ==> append_new(seen, items).no_duplicates(),
    decreases items.len(),
{
    if items.len() > 0 {
        let prev = append_new(seen, items.drop_last());
        lemma_append_new(seen, items.drop_last());
        assert forall|x: A| #[trigger]
            append_new(seen, items).contains(x) <==> seen.contains(x) || items.contains(x) by {
            if items.contains(x) && !items.drop_last().contains(x) {
                let k = choose|k: int| 0 <= k < items.len() && items[k] == x;
                if k < items.len() - 1 {
                    assert(items.drop_last()[k] == x);
                }
            }
            if items.drop_last().contains(x) {
                let k = choose|k: int| 0 <= k < items.drop_last().len() && items.drop_last()[k] == x;
                assert(items[k] == x);
            }
            if append_new(seen, items).contains(x) && !prev.contains(x) {
                assert(x == items.last());
            }
            if prev.contains(x) && !prev.contains(items.last()) {
                let k = choose|k: int| 0 <= k < prev.len() && prev[k] == x;
                assert(append_new(seen, items)[k] == x);
            }
            if x == items.last() && !prev.contains(x) {
                assert(append_new(seen, items)[prev.len() as int] == x);
            }
        }
    }
}

/// Basic facts on every stage of the search.
pub proof fn lemma_bfs_prefix_basic<A>(start: A, succ: spec_fn(A) -> Seq<A>, n: nat)
    ensures
        bfs_prefix(start, succ, n).len() >= 1,
        bfs_prefix(start, succ, n)[0] == start,
        bfs_prefix(start, succ, n).no_duplicates(),
    decreases n,
{
    if n > 0 {
        let prev = bfs_prefix(start, succ, (n - 1) as nat);
        lemma_bfs_prefix_basic(start, succ, (n - 1) as nat);
        if n - 1 < prev.len() {
            lemma_append_new(prev, succ(prev[n - 1]));
        }
    }
}

/// An earlier stage of the search is a prefix of a later one.
pub proof fn lemma_bfs_prefix_grows<A>(start: A, succ: spec_fn(A) -> Seq<A>, i: nat, j: nat)
    requires
        i <= j,
    ensures
        bfs_prefix(start, succ, i).len() <= bfs_prefix(start, succ, j).len(),
        forall|k: int|
            0 <= k < bfs_prefix(start, succ, i).len() ==> #[trigger] bfs_prefix(start, succ, j)[k]
                == bfs_prefix(start, succ, i)[k],
    decreases j,
{
    if i < j {
        lemma_bfs_prefix_grows(start, succ, i, (j - 1) as nat);
        let prev = bfs_prefix(start, succ, (j - 1) as nat);
        if j - 1 < prev.len() {
            lemma_append_new(prev, succ(prev[j - 1]));
        }
    }
}

/// Once the search has ended it stays where it is.
pub proof fn lemma_bfs_complete_stable<A>(start: A, succ: spec_fn(A) -> Seq<A>, n: nat, m: nat)
    requires
        bfs_complete(start, succ, n),
        n <= m,
    ensures
        bfs_prefix(start, succ, m) == bfs_prefix(start, succ, n),
    decreases m,
{
    if n < m {
        lemma_bfs_complete_stable(start, succ, n, (m - 1) as nat);
    }
}

/// The search ends after at most one number of expansions.
pub proof fn lemma_bfs_complete_unique<A>(start: A, succ: spec_fn(A) -> Seq<A>, n: nat, m: nat)
    requires
        bfs_complete(start, succ, n),
        bfs_complete(start, succ, m),
    ensures
        n == m,
{
    if n < m {
        lemma_bfs_complete_stable(start, succ, n, m);
    } else if m < n {
        lemma_bfs_complete_stable(start, succ, m, n);
    }
}

/// Where the search ends after `n` expansions, `bfs_order` is what it found.
pub proof fn lemma_bfs_order_is_prefix<A>(start: A, succ: spec_fn(A) -> Seq<A>, n: nat)
    requires
        bfs_complete(start, succ, n),
    ensures
        bfs_order(start, succ) == bfs_prefix(start, succ, n),
        bfs_order(start, succ).len() == n,
{
    let m = choose|m: nat| bfs_complete(start, succ, m);
    lemma_bfs_complete_unique(start, succ, n, m);
}

/// Before the search ends, the state to expand next has been found.
proof fn lemma_bfs_before_end<A>(start: A, succ: spec_fn(A) -> Seq<A>, n: nat, k: nat)
    requires
        bfs_complete(start, succ, n),
        k < n,
    ensures
        bfs_prefix(start, succ, k).len() > k,
    decreases k,
{
    if k > 0 {
        lemma_bfs_before_end(start, succ, n, (k - 1) as nat);
        lemma_bfs_prefix_grows(start, succ, (k - 1) as nat, k);
        if bfs_prefix(start, succ, k).len() == k {
            lemma_bfs_complete_unique(start, succ, n, k);
        }
    }
}

/// Expanding the `i`-th found state yields only found states.
proof fn lemma_bfs_expansion<A>(start: A, succ: spec_fn(A) -> Seq<A>, n: nat, i: nat)
    requires
        bfs_complete(start, succ, n),
        i < n,
    ensures
        bfs_prefix(start, succ, (i + 1) as nat) == append_new(
            bfs_prefix(start, succ, i),
            succ(bfs_prefix(start, succ, n)[i as int]),
        ),
        bfs_prefix(start, succ, i).len() > i,
        bfs_prefix(start, succ, (i + 1) as nat).len() <= n,
        forall|k: int|
            0 <= k < bfs_prefix(start, succ, (i + 1) as nat).len() ==> #[trigger] bfs_prefix(
                start,
                succ,
                n,
            )[k] == bfs_prefix(start, succ, (i + 1) as nat)[k],
{
    lemma_bfs_before_end(start, succ, n, i);
    lemma_bfs_prefix_grows(start, succ, i, n);
    lemma_bfs_prefix_grows(start, succ, (i + 1) as nat, n);
}

/// Law: a finished search is closed under successors: every successor of a
/// found state was found.
pub proof fn lemma_bfs_closed<A>(start: A, succ: spec_fn(A) -> Seq<A>, n: nat)
    requires
        bfs_complete(start, succ, n),
    ensures
        forall|i: int, y: A|
            0 <= i < n && #[trigger] succ(bfs_order(start, succ)[i]).contains(y)
                ==> bfs_order(start, succ).contains(y),
{
    lemma_bfs_order_is_prefix(start, succ, n);
    let order = bfs_order(start, succ);
    assert forall|i: int, y: A|
        0 <= i < n && #[trigger] succ(order[i]).contains(y) implies order.contains(y) by {
        lemma_bfs_expansion(start, succ, n, i as nat);
        let prev = bfs_prefix(start, succ, i as nat);
        let next = bfs_prefix(start, succ, (i + 1) as nat);
        lemma_append_new(prev, succ(order[i]));
        assert(next.contains(y));
        let k = choose|k: int| 0 <= k < next.len() && next[k] == y;
        assert(order[k] == y);
    }
}

/// Every element of `order` but the first is a successor of an element
/// before it.
pub open spec fn found_from_earlier<A>(order: Seq<A>, succ: spec_fn(A) -> Seq<A>) -> bool {
    forall|i: int| 1 <= i < order.len() ==> #[trigger] successor_of_earlier(order, succ, i)
}

/// `order[i]` is a successor of an element before it.
pub open spec fn successor_of_earlier<A>(order: Seq<A>, succ: spec_fn(A) -> Seq<A>, i: int) -> bool {
    exists|j: int| 0 <= j < i && #[trigger] succ(order[j]).contains(order[i])
}

/// Law: a finished search starts at `start`, finds each state once, and
/// finds every state other than `start` as a successor of a state found
/// before it.
pub proof fn lemma_bfs_found<A>(start: A, succ: spec_fn(A) -> Seq<A>, n: nat)
    requires
        bfs_complete(start, succ, n),
    ensures
        n >= 1,
        bfs_order(start, succ)[0] == start,
        bfs_order(start, succ).no_duplicates(),
        found_from_earlier(bfs_order(start, succ), succ),
{
    lemma_bfs_order_is_prefix(start, succ, n);
    lemma_bfs_prefix_basic(start, succ, n);
    let order = bfs_order(start, succ);
    assert forall|i: int| 1 <= i < order.len() implies #[trigger] successor_of_earlier(
        order,
        succ,
        i,
    ) by {
        lemma_bfs_found_at(start, succ, n, n, i);
        let full = bfs_prefix(start, succ, n);
        let j = choose|j: int| 0 <= j < i && #[trigger] succ(full[j]).contains(full[i]);
        assert(succ(order[j]).contains(order[i]));
    }
}

/// Every found state but the first was found while expanding an earlier one.
proof fn lemma_bfs_found_at<A>(start: A, succ: spec_fn(A) -> Seq<A>, n: nat, m: nat, i: int)
    requires
        bfs_complete(start, succ, n),
        m <= n,
        1 <= i < bfs_prefix(start, succ, m).len(),
    ensures
        exists|j: int|
            0 <= j < i && #[trigger] succ(bfs_prefix(start, succ, n)[j]).contains(
                bfs_prefix(start, succ, n)[i],
            ),
    decreases m,
{
    lemma_bfs_prefix_grows(start, succ, m, n);
    if m > 0 {
        let prev = bfs_prefix(start, succ, (m - 1) as nat);
        lemma_bfs_expansion(start, succ, n, (m - 1) as nat);
        lemma_bfs_prefix_grows(start, succ, (m - 1) as nat, n);
        if i < prev.len() {
            lemma_bfs_found_at(start, succ, n, (m - 1) as nat, i);
        } else {
            let full = bfs_prefix(start, succ, n);
            let ys = succ(full[m - 1]);
            lemma_append_new(prev, ys);
            let x = full[i];
            assert(bfs_prefix(start, succ, m)[i] == x);
            assert(bfs_prefix(start, succ, m).contains(x));
            lemma_bfs_prefix_basic(start, succ, m);
            if prev.contains(x) {
                let k = choose|k: int| 0 <= k < prev.len() && prev[k] == x;
                assert(bfs_prefix(start, succ, m)[k] == x);
                assert(false);
            }
            assert(ys.contains(x));
            assert(m - 1 < i);
        }
    }
}


/// A sequence whose elements have distinct keys, all in `0..n`, has at
/// most `n` elements.
pub proof fn lemma_distinct_keys_bound<A>(s: Seq<A>, key: spec_fn(A) -> int, n: int)
    requires
        0 <= n,
        forall|i: int| 0 <= i < s.len() ==> 0 <= #[trigger] key(s[i]) < n,
        forall|i: int, j: int| 0 <= i < j < s.len() ==> key(#[trigger] s[i]) != key(#[trigger] s[j]),
    ensures
        s.len() <= n,
{
    let keys = s.map_values(key);
    assert(keys.no_duplicates()) by {
        assert forall|i: int, j: int| 0 <= i < keys.len() && 0 <= j < keys.len() && i != j implies keys[i]
            != keys[j] by {
            if i < j {
                assert(key(s[i]) != key(s[j]));
            } else {
                assert(key(s[j]) != key(s[i]));
            }
        }
    }
    keys.unique_seq_to_set();
    vstd::set_lib::lemma_int_range(0, n);
    assert(keys.to_set().subset_of(vstd::set_lib::set_int_range(0, n))) by {
        assert forall|x: int| #[trigger] keys.to_set().contains(x) implies vstd::set_lib::set_int_range(
            0,
            n,
        ).contains(x) by {
            let i = choose|i: int| 0 <= i < keys.len() && keys[i] == x;
            assert(key(s[i]) == x);
        }
    }
    vstd::set_lib::lemma_len_subset(keys.to_set(), vstd::set_lib::set_int_range(0, n));
}

/// Every state found at every stage of the search satisfies `inv`, where
/// `start` does and the successors of a state that does all do.
proof fn lemma_bfs_prefix_inv<A>(
    start: A,
    succ: spec_fn(A) -> Seq<A>,
    inv: spec_fn(A) -> bool,
    m: nat,
)
    requires
        inv(start),
        forall|x: A, i: int| inv(x) && 0 <= i < succ(x).len() ==> inv(#[trigger] succ(x)[i]),
    ensures
        forall|k: int| 0 <= k < bfs_prefix(start, succ, m).len() ==> inv(#[trigger] bfs_prefix(start, succ, m)[k]),
    decreases m,
{
    if m > 0 {
        lemma_bfs_prefix_inv(start, succ, inv, (m - 1) as nat);
        let prev = bfs_prefix(start, succ, (m - 1) as nat);
        if m - 1 < prev.len() {
            let ys = succ(prev[m - 1]);
            lemma_append_new(prev, ys);
            let cur = bfs_prefix(start, succ, m);
            assert forall|k: int| 0 <= k < cur.len() implies inv(#[trigger] cur[k]) by {
                assert(cur.contains(cur[k]));
                if prev.contains(cur[k]) {
                    let j = choose|j: int| 0 <= j < prev.len() && prev[j] == cur[k];
                    assert(inv(prev[j]));
                } else {
                    let j = choose|j: int| 0 <= j < ys.len() && ys[j] == cur[k];
                    assert(inv(ys[j]));
                }
            }
        }
    }
}

/// Until the search ends, each stage has found one more state than it has
/// expanded.
proof fn lemma_bfs_progress<A>(start: A, succ: spec_fn(A) -> Seq<A>, m: nat)
    ensures
        (exists|j: nat| j <= m && #[trigger] bfs_complete(start, succ, j)) || bfs_prefix(
            start,
            succ,
            m,
        ).len() >= m + 1,
    decreases m,
{
    if m > 0 {
        lemma_bfs_progress(start, succ, (m - 1) as nat);
        if !(exists|j: nat| j <= m - 1 && #[trigger] bfs_complete(start, succ, j)) {
            lemma_bfs_prefix_grows(start, succ, (m - 1) as nat, m);
            if bfs_prefix(start, succ, m).len() < m + 1 {
                assert(bfs_complete(start, succ, m));
            }
        }
    }
}

/// Law: where every state reachable from `start` satisfies `inv` (it holds
/// of `start` and of every successor of a state where it holds), and `key`
/// numbers the states where `inv` holds within `0..n`, distinct states by
/// distinct numbers, the search ends and finds at most `n` states.
pub proof fn lemma_bfs_bounded<A>(
    start: A,
    succ: spec_fn(A) -> Seq<A>,
    inv: spec_fn(A) -> bool,
    key: spec_fn(A) -> int,
    n: int,
)
    requires
        inv(start),
        forall|x: A, i: int| inv(x) && 0 <= i < succ(x).len() ==> inv(#[trigger] succ(x)[i]),
        forall|x: A| inv(x) ==> 0 <= #[trigger] key(x) < n,
        forall|x: A, y: A| inv(x) && inv(y) && #[trigger] key(x) == #[trigger] key(y) ==> x == y,
    ensures
        bfs_complete(start, succ, bfs_order(start, succ).len()),
        bfs_order(start, succ).len() <= n,
{
    let bound = n as nat;
    assert(0 <= key(start) < n);
    lemma_bfs_progress(start, succ, bound);
    lemma_bfs_prefix_inv(start, succ, inv, bound);
    lemma_bfs_prefix_basic(start, succ, bound);
    let at_bound = bfs_prefix(start, succ, bound);
    assert forall|i: int, j: int| 0 <= i < j < at_bound.len() implies key(#[trigger] at_bound[i]) != key(
        #[trigger] at_bound[j],
    ) by {
        assert(inv(at_bound[i]) && inv(at_bound[j]));
    }
    lemma_distinct_keys_bound(at_bound, key, n);
    let j = choose|j: nat| j <= bound && #[trigger] bfs_complete(start, succ, j);
    lemma_bfs_order_is_prefix(start, succ, j);
}

} // verus!
