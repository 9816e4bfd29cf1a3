//! Grouping of indices by key, and the layout of the groups one after another.

use vstd::prelude::*;

use crate::reach::{append_new, lemma_append_new};

verus! {

/// The contents of each vector.
pub open spec fn seq_views(v: Seq<Vec<i32>>) -> Seq<Seq<i32>> {
    v.map_values(|x: Vec<i32>| x@)
}

/// The indices `q < n` with `keys[q] == key`, ascending.
pub open spec fn members<K>(keys: Seq<K>, key: K, n: nat) -> Seq<i32>
    decreases n,
{
    if n == 0 {
        seq![]
    } else {
        let prev = members(keys, key, (n - 1) as nat);
        if keys[n - 1] == key {
            prev.push((n - 1) as i32)
        } else {
            prev
        }
    }
}

/// The total length of the first `j` groups.
pub open spec fn offset(groups: Seq<Seq<i32>>, j: int) -> int
    decreases j,
{
    if j <= 0 {
        0
    } else {
        offset(groups, j - 1) + groups[j - 1].len()
    }
}

/// The groups laid out one after another.
pub open spec fn concat(groups: Seq<Seq<i32>>) -> Seq<i32>
    decreases groups.len(),
{
    if groups.len() == 0 {
        seq![]
    } else {
        concat(groups.drop_last()) + groups.last()
    }
}

/// The distinct keys of `keys`, in order of first occurrence.
pub open spec fn distinct<K>(keys: Seq<K>) -> Seq<K> {
    append_new(Seq::empty(), keys)
}

/// What `members` holds: exactly the indices with the key, ascending.
pub proof fn lemma_members<K>(keys: Seq<K>, key: K, n: nat)
    requires
        n <= keys.len(),
        n <= i32::MAX + 1,
    ensures
        members(keys, key, n).len() <= n,
        forall|i: int|
            0 <= i < members(keys, key, n).len() ==> 0 <= #[trigger] members(keys, key, n)[i] < n
                && keys[members(keys, key, n)[i] as int] == key,
        forall|i: int, k: int|
            0 <= i < k < members(keys, key, n).len() ==> #[trigger] members(keys, key, n)[i]
                < #[trigger] members(keys, key, n)[k],
        forall|q: int|
            0 <= q < n && keys[q] == key ==> #[trigger] members(keys, key, n).contains(q as i32),
        forall|q: int|
            #![trigger members(keys, key, n).contains(q as i32)]
            0 <= q < n && members(keys, key, n).contains(q as i32) ==> keys[q] == key,
    decreases n,
{
    if n > 0 {
        let prev = members(keys, key, (n - 1) as nat);
        lemma_members(keys, key, (n - 1) as nat);
        let cur = members(keys, key, n);
        assert forall|q: int| 0 <= q < n && keys[q] == key implies #[trigger] cur.contains(
            q as i32,
        ) by {
            if q < n - 1 {
                assert(prev.contains(q as i32));
                let k = choose|k: int| 0 <= k < prev.len() && prev[k] == q as i32;
                assert(cur[k] == q as i32);
            } else {
                assert(cur[cur.len() - 1] == q as i32);
            }
        }
        assert forall|q: int|
            #![trigger cur.contains(q as i32)]
            0 <= q < n && cur.contains(q as i32) implies keys[q] == key by {
            let k = choose|k: int| 0 <= k < cur.len() && cur[k] == q as i32;
            assert(0 <= cur[k] < n && keys[cur[k] as int] == key);
        }
    }
}

/// No index has two keys: groups of distinct keys are disjoint.
pub proof fn lemma_members_disjoint<K>(keys: Seq<K>, a: K, b: K, n: nat, i: int, k: int)
    requires
        n <= keys.len(),
        n <= i32::MAX + 1,
        a != b,
        0 <= i < members(keys, a, n).len(),
        0 <= k < members(keys, b, n).len(),
    ensures
        members(keys, a, n)[i] != members(keys, b, n)[k],
{
    lemma_members(keys, a, n);
    lemma_members(keys, b, n);
}

/// A key that occurs nowhere below `n` has no members.
pub proof fn lemma_members_empty<K>(keys: Seq<K>, key: K, n: nat)
    requires
        forall|q: int| 0 <= q < n ==> keys[q] != key,
    ensures
        members(keys, key, n) == Seq::<i32>::empty(),
    decreases n,
{
    if n > 0 {
        lemma_members_empty(keys, key, (n - 1) as nat);
    }
}

/// `offset` reads only the first `j` groups.
pub proof fn lemma_offset_prefix(a: Seq<Seq<i32>>, b: Seq<Seq<i32>>, j: int)
    requires
        0 <= j <= a.len(),
        j <= b.len(),
        forall|i: int| 0 <= i < j ==> #[trigger] a[i].len() == b[i].len(),
    ensures
        offset(a, j) == offset(b, j),
    decreases j,
{
    if j > 0 {
        lemma_offset_prefix(a, b, j - 1);
    }
}

/// `offset` grows with `j`.
pub proof fn lemma_offset_mono(groups: Seq<Seq<i32>>, j: int, k: int)
    requires
        0 <= j <= k <= groups.len(),
    ensures
        offset(groups, j) <= offset(groups, k),
    decreases k,
{
    if j < k {
        lemma_offset_mono(groups, j, k - 1);
    }
}

/// Adding one element to one group adds one to the total length.
pub proof fn lemma_offset_grow_one(groups: Seq<Seq<i32>>, g: int, x: i32, j: int)
    requires
        0 <= g < j <= groups.len(),
    ensures
        offset(groups.update(g, groups[g].push(x)), j) == offset(groups, j) + 1,
    decreases j,
{
    if j - 1 > g {
        lemma_offset_grow_one(groups, g, x, j - 1);
    } else {
        lemma_offset_prefix(groups.update(g, groups[g].push(x)), groups, g);
    }
}

/// The layout has the total length, and group `g` stands at its offset.
pub proof fn lemma_concat(groups: Seq<Seq<i32>>)
    ensures
        concat(groups).len() == offset(groups, groups.len() as int),
        forall|g: int, r: int|
            0 <= g < groups.len() && 0 <= r < groups[g].len() ==> concat(groups)[offset(groups, g)
                + r] == #[trigger] groups[g][r],
    decreases groups.len(),
{
    if groups.len() > 0 {
        let init = groups.drop_last();
        lemma_concat(init);
        lemma_offset_prefix(init, groups, init.len() as int);
        assert forall|g: int, r: int|
            0 <= g < groups.len() && 0 <= r < groups[g].len() implies concat(groups)[offset(
                groups,
                g,
            ) + r] == #[trigger] groups[g][r] by {
            if g < init.len() {
                lemma_offset_prefix(init, groups, g);
                lemma_offset_prefix(init, groups, g + 1);
                lemma_offset_mono(init, g + 1, init.len() as int);
                assert(init[g] == groups[g]);
                assert(offset(init, g + 1) == offset(init, g) + init[g].len());
                lemma_offset_mono(init, 0, g);
                let c = concat(init);
                let l = groups.last();
                let idx = offset(init, g) + r;
                assert(0 <= idx < c.len());
                assert(c[idx] == init[g][r]);
                assert(concat(groups) == c + l);
                assert((c + l)[idx] == c[idx]);
            } else {
                assert(concat(groups) == concat(init) + groups.last());
                assert(g == init.len());
                assert(offset(groups, g) == concat(init).len());
                assert(groups[g] == groups.last());
                assert((concat(init) + groups.last())[concat(init).len() + r] == groups.last()[r]);
            }
        }
    }
}

/// Each position of the layout belongs to exactly one group.
pub proof fn lemma_concat_locate(groups: Seq<Seq<i32>>, k: int) -> (gr: (int, int))
    requires
        0 <= k < offset(groups, groups.len() as int),
    ensures
        0 <= gr.0 < groups.len(),
        0 <= gr.1 < groups[gr.0].len(),
        k == offset(groups, gr.0) + gr.1,
    decreases groups.len(),
{
    let j = groups.len() - 1;
    let init = groups.drop_last();
    lemma_offset_prefix(init, groups, j);
    if k < offset(groups, j) {
        let gr = lemma_concat_locate(init, k);
        lemma_offset_prefix(init, groups, gr.0);
        gr
    } else {
        (j, k - offset(groups, j))
    }
}

/// The distinct keys: no key twice, at most as many as keys, holding each key.
pub proof fn lemma_distinct<K>(keys: Seq<K>)
    ensures
        distinct(keys).no_duplicates(),
        distinct(keys).len() <= keys.len(),
        forall|x: K| #[trigger] distinct(keys).contains(x) <==> keys.contains(x),
    decreases keys.len(),
{
    lemma_append_new(Seq::<K>::empty(), keys);
    if keys.len() > 0 {
        lemma_distinct(keys.drop_last());
    }
}

} // verus!
