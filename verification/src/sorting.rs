//! Stable sorting by a numeric key, largest first, as `sort_by` with a
//! reversed key comparison does.

use vstd::prelude::*;

verus! {

broadcast use vstd::seq_lib::to_multiset_insert, vstd::seq_lib::to_multiset_len;

/// Items ordered by a numeric key.
pub trait SortKey {
    spec fn sort_key(&self) -> int;

    fn key(&self) -> (k: i128)
        ensures
            k == self.sort_key(),
    ;
}

/// Where an item with key `k` goes in a list sorted largest first: after every
/// item whose key is at least `k`.
pub open spec fn insert_pos<T: SortKey>(s: Seq<T>, k: int) -> int
    decreases s.len(),
{
    if s.len() == 0 {
        0
    } else if s[0].sort_key() < k {
        0
    } else {
        1 + insert_pos(s.drop_first(), k)
    }
}

/// Stable sort, largest key first: items with equal keys keep their order.
pub open spec fn sort_desc<T: SortKey>(s: Seq<T>) -> Seq<T>
    decreases s.len(),
{
    if s.len() == 0 {
        s
    } else {
        let r = sort_desc(s.drop_last());
        r.insert(insert_pos(r, s.last().sort_key()), s.last())
    }
}

/// Keys never increase along the sequence.
pub open spec fn sorted_desc<T: SortKey>(s: Seq<T>) -> bool {
    forall|i: int, j: int| 0 <= i < j < s.len() ==> s[i].sort_key() >= s[j].sort_key()
}

/// The insert position follows every key at least `k` and precedes the
/// first smaller one.
pub proof fn lemma_insert_pos<T: SortKey>(s: Seq<T>, k: int)
    ensures
        0 <= insert_pos(s, k) <= s.len(),
        forall|i: int| 0 <= i < insert_pos(s, k) ==> s[i].sort_key() >= k,
        insert_pos(s, k) < s.len() ==> s[insert_pos(s, k)].sort_key() < k,
    decreases s.len(),
{
    if s.len() > 0 && s[0].sort_key() >= k {
        let t = s.drop_first();
        lemma_insert_pos(t, k);
        assert forall|i: int| 0 <= i < insert_pos(s, k) implies s[i].sort_key() >= k by {
            if i > 0 {
                assert(s[i] == t[i - 1]);
            }
        }
    }
}

/// A position that follows every key at least `k` and precedes a smaller
/// one is the insert position.
pub proof fn lemma_insert_pos_at<T: SortKey>(s: Seq<T>, k: int, p: int)
    requires
        0 <= p <= s.len(),
        forall|i: int| 0 <= i < p ==> s[i].sort_key() >= k,
        p < s.len() ==> s[p].sort_key() < k,
    ensures
        insert_pos(s, k) == p,
    decreases s.len(),
{
    if s.len() > 0 && p > 0 {
        let t = s.drop_first();
        assert forall|i: int| 0 <= i < p - 1 implies t[i].sort_key() >= k by {
            assert(t[i] == s[i + 1]);
        }
        if p - 1 < t.len() {
            assert(t[p - 1] == s[p]);
        }
        lemma_insert_pos_at(t, k, p - 1);
    }
}

/// The sort keeps every item (as a multiset) and orders keys largest first.
pub proof fn lemma_sort_desc<T: SortKey>(s: Seq<T>)
    ensures
        sort_desc(s).len() == s.len(),
        sort_desc(s).to_multiset() == s.to_multiset(),
        sorted_desc(sort_desc(s)),
    decreases s.len(),
{
    if s.len() > 0 {
        let init = s.drop_last();
        lemma_sort_desc(init);
        let r = sort_desc(init);
        let x = s.last();
        let k = x.sort_key();
        let p = insert_pos(r, k);
        lemma_insert_pos(r, k);
        let out = r.insert(p, x);
        assert(s =~= init.push(x));
        vstd::seq_lib::to_multiset_build(init, x);
        assert forall|i: int, j: int| 0 <= i < j < out.len() implies out[i].sort_key()
            >= out[j].sort_key() by {
            if j < p {
                assert(out[i] == r[i] && out[j] == r[j]);
            } else if j == p {
                assert(out[i] == r[i]);
            } else if i < p {
                assert(out[i] == r[i] && out[j] == r[j - 1]);
                if j - 1 >= p {
                    assert(r[p].sort_key() >= r[j - 1].sort_key() || p == j - 1);
                }
            } else if i == p {
                assert(out[j] == r[j - 1]);
                assert(r[p].sort_key() < k);
                if j - 1 > p {
                    assert(r[p].sort_key() >= r[j - 1].sort_key());
                }
            } else {
                assert(out[i] == r[i - 1] && out[j] == r[j - 1]);
            }
        }
    }
}

/// Sorts, largest key first, keeping the order of items with equal keys.
pub fn sort_desc_vec<T: SortKey>(v: Vec<T>) -> (r: Vec<T>)
    ensures
        r@ == sort_desc(v@),
{
    let ghost orig = v@;
    let total = v.len();
    assert(orig.len() == total);
    let mut rest = v;
    let mut out: Vec<T> = Vec::new();
    let mut done: usize = 0;
    assert(orig.take(0) =~= Seq::<T>::empty());
    assert(orig.skip(0) =~= orig);
    while rest.len() > 0
        invariant
            done <= orig.len(),
            orig.len() <= usize::MAX,
            rest@ == orig.skip(done as int),
            out@ == sort_desc(orig.take(done as int)),
        decreases rest.len(),
    {
        let x = rest.remove(0);
        assert(x == orig[done as int]);
        assert(rest@ =~= orig.skip(done + 1));
        let k = x.key();
        let mut j: usize = 0;
        while j < out.len() && out[j].key() >= k
            invariant
                j <= out.len(),
                forall|i: int| 0 <= i < j ==> out@[i].sort_key() >= k,
            decreases out.len() - j,
        {
            j = j + 1;
        }
        proof {
            lemma_insert_pos_at(out@, k as int, j as int);
            assert(orig.take(done + 1).drop_last() =~= orig.take(done as int));
            assert(orig.take(done + 1).last() == x);
        }
        out.insert(j, x);
        done = done + 1;
    }
    assert(orig.take(done as int) =~= orig);
    out
}

/// Sorting keeps the multiset of any projection of the items.
pub proof fn lemma_sort_desc_map<T: SortKey, U>(s: Seq<T>, f: spec_fn(T) -> U)
    ensures
        sort_desc(s).map_values(f).to_multiset() == s.map_values(f).to_multiset(),
    decreases s.len(),
{
    if s.len() > 0 {
        let init = s.drop_last();
        lemma_sort_desc_map(init, f);
        lemma_sort_desc(init);
        let r = sort_desc(init);
        let x = s.last();
        let p = insert_pos(r, x.sort_key());
        lemma_insert_pos(r, x.sort_key());
        assert(r.insert(p, x).map_values(f) =~= r.map_values(f).insert(p, f(x)));
        assert(s.map_values(f) =~= init.map_values(f).push(f(x)));
        vstd::seq_lib::to_multiset_build(init.map_values(f), f(x));
    }
}

/// The items of `s` whose key is `k`, in order.
pub open spec fn keyed<T: SortKey>(s: Seq<T>, k: int) -> Seq<T>
    decreases s.len(),
{
    if s.len() == 0 {
        s
    } else if s.last().sort_key() == k {
        keyed(s.drop_last(), k).push(s.last())
    } else {
        keyed(s.drop_last(), k)
    }
}

proof fn lemma_keyed_concat<T: SortKey>(a: Seq<T>, b: Seq<T>, k: int)
    ensures
        keyed(a + b, k) == keyed(a, k) + keyed(b, k),
    decreases b.len(),
{
    if b.len() == 0 {
        assert(a + b =~= a);
        assert(keyed(a, k) + keyed(b, k) =~= keyed(a, k));
    } else {
        lemma_keyed_concat(a, b.drop_last(), k);
        assert((a + b).drop_last() =~= a + b.drop_last());
        assert((a + b).last() == b.last());
        if b.last().sort_key() == k {
            assert(keyed(a, k) + keyed(b, k) =~= (keyed(a, k) + keyed(b.drop_last(), k)).push(b.last()));
        }
    }
}

proof fn lemma_keyed_none<T: SortKey>(s: Seq<T>, k: int)
    requires
        forall|i: int| 0 <= i < s.len() ==> s[i].sort_key() != k,
    ensures
        keyed(s, k) == Seq::<T>::empty(),
    decreases s.len(),
{
    if s.len() > 0 {
        assert forall|i: int| 0 <= i < s.drop_last().len() implies s.drop_last()[i].sort_key() != k by {
            assert(s.drop_last()[i] == s[i]);
        }
        lemma_keyed_none(s.drop_last(), k);
        assert(s[s.len() - 1] == s.last());
    }
}

/// The sort is stable: for every key, the items with that key come out in
/// the order they went in.
pub proof fn law_sort_desc_stable<T: SortKey>(s: Seq<T>, k: int)
    ensures
        keyed(sort_desc(s), k) == keyed(s, k),
    decreases s.len(),
{
    if s.len() > 0 {
        let init = s.drop_last();
        let x = s.last();
        law_sort_desc_stable(init, k);
        lemma_sort_desc(init);
        let r = sort_desc(init);
        let p = insert_pos(r, x.sort_key());
        lemma_insert_pos(r, x.sort_key());
        let front = r.take(p);
        let back = r.skip(p);
        assert(r.insert(p, x) =~= front + seq![x] + back);
        assert(r =~= front + back);
        lemma_keyed_concat(front + seq![x], back, k);
        lemma_keyed_concat(front, seq![x], k);
        lemma_keyed_concat(front, back, k);
        assert(seq![x].drop_last() =~= Seq::<T>::empty());
        assert(keyed(Seq::<T>::empty(), k) =~= Seq::<T>::empty());
        assert(seq![x].last() == x);
        if x.sort_key() == k {
            assert forall|i: int| 0 <= i < back.len() implies back[i].sort_key() != k by {
                assert(back[i] == r[p + i]);
                if i > 0 {
                    assert(r[p].sort_key() >= r[p + i].sort_key());
                }
            }
            lemma_keyed_none(back, k);
            assert(keyed(seq![x], k) =~= seq![x]);
            assert(keyed(s, k) == keyed(init, k).push(x));
            assert(keyed(front, k) + keyed(back, k) =~= keyed(front, k));
            assert(keyed(front, k) + seq![x] + Seq::<T>::empty() =~= keyed(front, k).push(x));
        } else {
            assert(keyed(seq![x], k) =~= Seq::<T>::empty());
            assert(keyed(front, k) + Seq::<T>::empty() =~= keyed(front, k));
        }
    }
}

} // verus!
