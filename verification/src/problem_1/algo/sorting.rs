//! A stable ascending sort of keyed items, with the facts the bounds and the
//! search draw from it.

use vstd::prelude::*;

verus! {

/// `s` with `x` put behind the last item whose key is not larger than its
/// own, scanning from the back.
pub open spec fn insert_sorted(s: Seq<(u64, usize)>, x: (u64, usize)) -> Seq<(u64, usize)>
    decreases s.len(),
{
    if s.len() == 0 {
        seq![x]
    } else if s.last().0 <= x.0 {
        s.push(x)
    } else {
        insert_sorted(s.drop_last(), x).push(s.last())
    }
}

/// The items of `s` by ascending key; items with equal keys keep their order.
pub open spec fn stable_sort(s: Seq<(u64, usize)>) -> Seq<(u64, usize)>
    decreases s.len(),
{
    if s.len() == 0 {
        Seq::empty()
    } else {
        insert_sorted(stable_sort(s.drop_last()), s.last())
    }
}

/// Keys never decrease along `s`.
pub open spec fn keys_ascend(s: Seq<(u64, usize)>) -> bool {
    forall|i: int, j: int| 0 <= i <= j < s.len() ==> s[i].0 <= s[j].0
}

/// Where `insert_sorted` puts `x`: at `k`, when everything from `k` on has a
/// larger key and the item before `k`, if any, has not.
pub proof fn lemma_insert_at(s: Seq<(u64, usize)>, x: (u64, usize), k: int)
    requires
        0 <= k <= s.len(),
        forall|i: int| k <= i < s.len() ==> s[i].0 > x.0,
        k > 0 ==> s[k - 1].0 <= x.0,
    ensures
        insert_sorted(s, x) == s.insert(k, x),
    decreases s.len(),
{
    if s.len() == 0 {
        assert(s.insert(k, x) =~= seq![x]);
    } else if k == s.len() {
        assert(s.insert(k, x) =~= s.push(x));
    } else {
        lemma_insert_at(s.drop_last(), x, k);
        assert(s.drop_last().insert(k, x).push(s.last()) =~= s.insert(k, x));
    }
}

/// Inserting keeps every item, adds `x`, and keeps ascending keys ascending.
pub proof fn lemma_insert_sorted(s: Seq<(u64, usize)>, x: (u64, usize))
    ensures
        insert_sorted(s, x).len() == s.len() + 1,
        insert_sorted(s, x).to_multiset() == s.to_multiset().insert(x),
        keys_ascend(s) ==> keys_ascend(insert_sorted(s, x)),
        exists|k: int| 0 <= k <= s.len() && insert_sorted(s, x) == s.insert(k, x),
    decreases s.len(),
{
    broadcast use vstd::seq_lib::group_to_multiset_ensures;

    if s.len() == 0 {
        assert(s =~= Seq::empty());
        assert(seq![x] =~= Seq::<(u64, usize)>::empty().push(x));
        assert(seq![x] =~= s.insert(0, x));
    } else if s.last().0 <= x.0 {
        assert(s.push(x) =~= s.insert(s.len() as int, x));
    } else {
        let head = s.drop_last();
        lemma_insert_sorted(head, x);
        let inner = insert_sorted(head, x);
        let k = choose|k: int| 0 <= k <= head.len() && inner == head.insert(k, x);
        assert(head.insert(k, x).push(s.last()) =~= s.insert(k, x));
        assert(s =~= head.push(s.last()));
        assert(inner.push(s.last()).to_multiset() =~= s.to_multiset().insert(x));
        if keys_ascend(s) {
            assert(keys_ascend(head));
            let out = inner.push(s.last());
            assert forall|i: int, j: int| 0 <= i <= j < out.len() implies out[i].0 <= out[j].0 by {
                if j < out.len() - 1 {
                } else if i < j {
                    if i < k {
                        assert(out[i] == s[i]);
                    } else if i == k {
                    } else {
                        assert(out[i] == s[i - 1]);
                    }
                }
            }
        }
    }
}

/// Sorting keeps the items and their number, and leaves the keys ascending.
pub proof fn lemma_stable_sort(s: Seq<(u64, usize)>)
    ensures
        stable_sort(s).len() == s.len(),
        stable_sort(s).to_multiset() == s.to_multiset(),
        keys_ascend(stable_sort(s)),
    decreases s.len(),
{
    broadcast use vstd::seq_lib::group_to_multiset_ensures;

    if s.len() > 0 {
        lemma_stable_sort(s.drop_last());
        lemma_insert_sorted(stable_sort(s.drop_last()), s.last());
        assert(s =~= s.drop_last().push(s.last()));
    }
}

/// What the items carry, without their keys.
pub open spec fn payloads(s: Seq<(u64, usize)>) -> Seq<usize> {
    Seq::new(s.len(), |i: int| s[i].1)
}

/// Sorting rearranges what the items carry and loses nothing.
pub proof fn lemma_sort_payloads(s: Seq<(u64, usize)>)
    ensures
        payloads(stable_sort(s)).to_multiset() == payloads(s).to_multiset(),
    decreases s.len(),
{
    broadcast use vstd::seq_lib::group_to_multiset_ensures;

    if s.len() == 0 {
        assert(payloads(stable_sort(s)) =~= payloads(s));
    } else {
        let head = s.drop_last();
        let x = s.last();
        lemma_sort_payloads(head);
        lemma_insert_sorted(stable_sort(head), x);
        let k = choose|k: int|
            0 <= k <= stable_sort(head).len() && insert_sorted(stable_sort(head), x) == stable_sort(
                head,
            ).insert(k, x);
        assert(payloads(stable_sort(head).insert(k, x)) =~= payloads(stable_sort(head)).insert(
            k,
            x.1,
        ));
        vstd::seq_lib::to_multiset_insert(payloads(stable_sort(head)), k, x.1);
        assert(payloads(s) =~= payloads(head).push(x.1));
    }
}

/// Sorts `v` by ascending key; items with equal keys keep their order.
pub fn sort_by_key(v: &mut Vec<(u64, usize)>)
    ensures
        final(v)@ == stable_sort(old(v)@),
{
    let mut out: Vec<(u64, usize)> = Vec::new();
    let mut i: usize = 0;
    while i < v.len()
        invariant
            i <= v.len(),
            v@ == old(v)@,
            out@ == stable_sort(v@.take(i as int)),
        decreases v.len() - i,
    {
        let x: (u64, usize) = v[i];
        let mut k: usize = out.len();
        while k > 0 && out[k - 1].0 > x.0
            invariant
                k <= out.len(),
                forall|j: int| k <= j < out.len() ==> out@[j].0 > x.0,
            decreases k,
        {
            k = k - 1;
        }
        proof {
            lemma_insert_at(out@, x, k as int);
            assert(v@.take(i + 1).drop_last() =~= v@.take(i as int));
        }
        out.insert(k, x);
        i = i + 1;
    }
    proof {
        assert(v@.take(v.len() as int) =~= v@);
    }
    *v = out;
}

} // verus!
