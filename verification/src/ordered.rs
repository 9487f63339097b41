//! Sorted-vector ordered sets and ordered maps keyed by 64-bit player ids.
//!
//! A frame update must be applied identically by every observer, so its
//! collections iterate in ascending id order. A sorted, duplicate-free
//! vector realizes that order directly and keeps it visible to proofs.

use vstd::pervasive::VecAdditionalExecFns;
use vstd::prelude::*;

verus! {

/// The elements are strictly increasing (hence also duplicate-free).
pub open spec fn sorted_unique(s: Seq<u64>) -> bool {
    forall|i: int, j: int| 0 <= i < j < s.len() ==> s[i] < s[j]
}

/// The keys of an association sequence are strictly increasing.
pub open spec fn sorted_keys<I>(s: Seq<(u64, I)>) -> bool {
    forall|i: int, j: int| 0 <= i < j < s.len() ==> (#[trigger] s[i]).0 < (#[trigger] s[j]).0
}

/// Insertion of `v` into a sorted sequence, keeping it sorted; inserting an
/// element already present leaves the sequence unchanged.
pub open spec fn insert_sorted(s: Seq<u64>, v: u64) -> Seq<u64>
    decreases s.len(),
{
    if s.len() == 0 {
        seq![v]
    } else if v < s[0] {
        seq![v] + s
    } else if v == s[0] {
        s
    } else {
        seq![s[0]] + insert_sorted(s.drop_first(), v)
    }
}

/// Left fold of [`insert_sorted`] over all elements of `vs`.
pub open spec fn insert_all(acc: Seq<u64>, vs: Seq<u64>) -> Seq<u64>
    decreases vs.len(),
{
    if vs.len() == 0 {
        acc
    } else {
        insert_all(insert_sorted(acc, vs[0]), vs.drop_first())
    }
}

/// Insertion of `(k, val)` into a key-sorted association sequence; an entry
/// with an equal key is replaced.
pub open spec fn insert_keyed<I>(s: Seq<(u64, I)>, k: u64, val: I) -> Seq<(u64, I)>
    decreases s.len(),
{
    if s.len() == 0 {
        seq![(k, val)]
    } else if k < s[0].0 {
        seq![(k, val)] + s
    } else if k == s[0].0 {
        seq![(k, val)] + s.drop_first()
    } else {
        seq![s[0]] + insert_keyed(s.drop_first(), k, val)
    }
}

/// The entry replaced by [`insert_keyed`], if any.
pub open spec fn keyed_lookup<I>(s: Seq<(u64, I)>, k: u64) -> Option<I>
    decreases s.len(),
{
    if s.len() == 0 {
        None
    } else if s[0].0 == k {
        Some(s[0].1)
    } else {
        keyed_lookup(s.drop_first(), k)
    }
}

pub proof fn lemma_insert_sorted_props(s: Seq<u64>, v: u64)
    requires
        sorted_unique(s),
    ensures
        sorted_unique(insert_sorted(s, v)),
        forall|x: u64| insert_sorted(s, v).contains(x) <==> (s.contains(x) || x == v),
        s.contains(v) ==> insert_sorted(s, v) == s,
        !s.contains(v) ==> insert_sorted(s, v).len() == s.len() + 1,
        insert_sorted(s, v).contains(v),
    decreases s.len(),
{
    if s.len() == 0 {
        assert(insert_sorted(s, v) =~= seq![v]);
        assert(seq![v][0] == v);
        assert(insert_sorted(s, v).contains(v));
        assert forall|x: u64| insert_sorted(s, v).contains(x) implies (s.contains(x) || x == v) by {
            let i = choose|i: int| 0 <= i < insert_sorted(s, v).len() && insert_sorted(s, v)[i] == x;
            assert(i == 0);
        }
    } else if v < s[0] {
        let r = seq![v] + s;
        assert(insert_sorted(s, v) == r);
        assert(r[0] == v);
        assert(r.contains(v));
        assert forall|x: u64| r.contains(x) implies (s.contains(x) || x == v) by {
            let i = choose|i: int| 0 <= i < r.len() && r[i] == x;
            if i > 0 {
                assert(s[i - 1] == x);
                assert(s.contains(x));
            }
        }
        assert forall|x: u64| (s.contains(x) || x == v) implies r.contains(x) by {
            if s.contains(x) {
                let i = choose|i: int| 0 <= i < s.len() && s[i] == x;
                assert(r[i + 1] == x);
            } else {
                assert(r[0] == x);
            }
        }
        if s.contains(v) {
            let i = choose|i: int| 0 <= i < s.len() && s[i] == v;
            if i > 0 {
                assert(s[0] < s[i]);
            }
            assert(false);
        }
    } else if v == s[0] {
        assert(s.contains(v)) by {
            assert(s[0] == v);
        }
    } else {
        let tail = s.drop_first();
        assert(sorted_unique(tail)) by {
            assert(forall|i: int, j: int|
                0 <= i < j < tail.len() ==> tail[i] == s[i + 1] && tail[j] == s[j + 1]);
        }
        lemma_insert_sorted_props(tail, v);
        let rt = insert_sorted(tail, v);
        let r = seq![s[0]] + rt;
        assert(insert_sorted(s, v) == r);
        // every element of the recursive result exceeds s[0]
        assert forall|x: u64| rt.contains(x) implies s[0] < x by {
            if tail.contains(x) {
                let i = choose|i: int| 0 <= i < tail.len() && tail[i] == x;
                assert(s[i + 1] == x);
            }
        }
        assert(sorted_unique(r)) by {
            assert forall|i: int, j: int| 0 <= i < j < r.len() implies r[i] < r[j] by {
                if i == 0 {
                    assert(rt.contains(r[j])) by {
                        assert(rt[j - 1] == r[j]);
                    }
                } else {
                    assert(rt[i - 1] == r[i] && rt[j - 1] == r[j]);
                }
            }
        }
        assert(r.contains(v)) by {
            let i = choose|i: int| 0 <= i < rt.len() && rt[i] == v;
            assert(r[i + 1] == v);
        }
        assert forall|x: u64| r.contains(x) implies (s.contains(x) || x == v) by {
            let i = choose|i: int| 0 <= i < r.len() && r[i] == x;
            if i == 0 {
                assert(s[0] == x);
            } else {
                assert(rt[i - 1] == x);
                assert(rt.contains(x));
                if tail.contains(x) {
                    let j = choose|j: int| 0 <= j < tail.len() && tail[j] == x;
                    assert(s[j + 1] == x);
                }
            }
        }
        assert forall|x: u64| (s.contains(x) || x == v) implies r.contains(x) by {
            if x == v || tail.contains(x) {
                assert(rt.contains(x));
                let i = choose|i: int| 0 <= i < rt.len() && rt[i] == x;
                assert(r[i + 1] == x);
            } else {
                let i = choose|i: int| 0 <= i < s.len() && s[i] == x;
                if i == 0 {
                    assert(r[0] == x);
                } else {
                    assert(tail[i - 1] == x);
                }
            }
        }
        if s.contains(v) {
            let i = choose|i: int| 0 <= i < s.len() && s[i] == v;
            assert(i > 0);
            assert(tail[i - 1] == v);
            assert(tail.contains(v));
            assert(r =~= s) by {
                assert(insert_sorted(tail, v) == tail);
            }
        } else {
            if tail.contains(v) {
                let i = choose|i: int| 0 <= i < tail.len() && tail[i] == v;
                assert(s[i + 1] == v);
                assert(false);
            }
        }
    }
}

pub proof fn lemma_insert_all_props(acc: Seq<u64>, vs: Seq<u64>)
    requires
        sorted_unique(acc),
    ensures
        sorted_unique(insert_all(acc, vs)),
        forall|x: u64| insert_all(acc, vs).contains(x) <==> (acc.contains(x) || vs.contains(x)),
    decreases vs.len(),
{
    if vs.len() == 0 {
        assert(forall|x: u64| !vs.contains(x));
    } else {
        lemma_insert_sorted_props(acc, vs[0]);
        lemma_insert_all_props(insert_sorted(acc, vs[0]), vs.drop_first());
        let tail = vs.drop_first();
        assert forall|x: u64| vs.contains(x) implies (x == vs[0] || tail.contains(x)) by {
            let i = choose|i: int| 0 <= i < vs.len() && vs[i] == x;
            if i > 0 {
                assert(tail[i - 1] == x);
            }
        }
        assert forall|x: u64| tail.contains(x) implies vs.contains(x) by {
            let i = choose|i: int| 0 <= i < tail.len() && tail[i] == x;
            assert(vs[i + 1] == x);
        }
        assert(vs.contains(vs[0]));
    }
}

/// Folding one more element is one more sorted insertion.
pub proof fn lemma_insert_all_push(acc: Seq<u64>, vs: Seq<u64>, x: u64)
    ensures
        insert_all(acc, vs.push(x)) == insert_sorted(insert_all(acc, vs), x),
    decreases vs.len(),
{
    if vs.len() == 0 {
        assert(vs.push(x).drop_first() =~= Seq::<u64>::empty());
        assert(vs.push(x)[0] == x);
        assert(insert_all(acc, vs.push(x)) == insert_all(insert_sorted(acc, x), Seq::empty()));
        assert(insert_all(acc, vs) == acc);
    } else {
        assert(vs.push(x)[0] == vs[0]);
        assert(vs.push(x).drop_first() =~= vs.drop_first().push(x));
        assert(vs.push(x).len() == vs.len() + 1);
        assert(insert_all(acc, vs.push(x)) == insert_all(
            insert_sorted(acc, vs[0]),
            vs.drop_first().push(x),
        ));
        lemma_insert_all_push(insert_sorted(acc, vs[0]), vs.drop_first(), x);
        assert(insert_all(acc, vs) == insert_all(insert_sorted(acc, vs[0]), vs.drop_first()));
    }
}

pub proof fn lemma_insert_keyed_props<I>(s: Seq<(u64, I)>, k: u64, val: I)
    requires
        sorted_keys(s),
    ensures
        sorted_keys(insert_keyed(s, k, val)),
        insert_keyed(s, k, val).contains((k, val)),
        forall|e: (u64, I)| #[trigger] insert_keyed(s, k, val).contains(e) <==>
            (e == (k, val) || (s.contains(e) && e.0 != k)),
    decreases s.len(),
{
    let r = insert_keyed(s, k, val);
    if s.len() == 0 {
        assert(r =~= seq![(k, val)]);
        assert(r[0] == (k, val));
        assert forall|e: (u64, I)| #[trigger] r.contains(e) implies
            (e == (k, val) || (s.contains(e) && e.0 != k)) by {
            let i = choose|i: int| 0 <= i < r.len() && r[i] == e;
        }
    } else if k < s[0].0 {
        assert(r == seq![(k, val)] + s);
        assert(r[0] == (k, val));
        assert forall|e: (u64, I)| #[trigger] r.contains(e) implies
            (e == (k, val) || (s.contains(e) && e.0 != k)) by {
            let i = choose|i: int| 0 <= i < r.len() && r[i] == e;
            if i > 0 {
                assert(s[i - 1] == e);
                assert(s.contains(e));
                if i - 1 > 0 {
                    assert(s[0].0 < s[i - 1].0);
                }
            }
        }
        assert forall|e: (u64, I)| (e == (k, val) || (s.contains(e) && e.0 != k))
            implies #[trigger] r.contains(e) by {
            if s.contains(e) && e.0 != k {
                let i = choose|i: int| 0 <= i < s.len() && s[i] == e;
                assert(r[i + 1] == e);
            } else {
                assert(r[0] == e);
            }
        }
        assert(sorted_keys(r)) by {
            assert forall|i: int, j: int| 0 <= i < j < r.len() implies
                (#[trigger] r[i]).0 < (#[trigger] r[j]).0 by {
                if i > 0 {
                    assert(r[i] == s[i - 1] && r[j] == s[j - 1]);
                } else {
                    assert(r[j] == s[j - 1]);
                    if j - 1 > 0 {
                        assert(s[0].0 < s[j - 1].0);
                    }
                }
            }
        }
    } else if k == s[0].0 {
        let tail = s.drop_first();
        assert(r == seq![(k, val)] + tail);
        assert(r[0] == (k, val));
        assert forall|e: (u64, I)| #[trigger] r.contains(e) implies
            (e == (k, val) || (s.contains(e) && e.0 != k)) by {
            let i = choose|i: int| 0 <= i < r.len() && r[i] == e;
            if i > 0 {
                assert(s[i] == e);
                assert(s.contains(e));
                assert(s[0].0 < s[i].0);
            }
        }
        assert forall|e: (u64, I)| (e == (k, val) || (s.contains(e) && e.0 != k))
            implies #[trigger] r.contains(e) by {
            if s.contains(e) && e.0 != k {
                let i = choose|i: int| 0 <= i < s.len() && s[i] == e;
                assert(i > 0);
                assert(r[i] == e);
            } else {
                assert(r[0] == e);
            }
        }
        assert(sorted_keys(r)) by {
            assert forall|i: int, j: int| 0 <= i < j < r.len() implies
                (#[trigger] r[i]).0 < (#[trigger] r[j]).0 by {
                if i > 0 {
                    assert(r[i] == s[i] && r[j] == s[j]);
                } else {
                    assert(r[j] == s[j]);
                    assert(s[0].0 < s[j].0);
                }
            }
        }
    } else {
        let tail = s.drop_first();
        assert(sorted_keys(tail)) by {
            assert(forall|i: int, j: int|
                0 <= i < j < tail.len() ==> tail[i] == s[i + 1] && tail[j] == s[j + 1]);
        }
        lemma_insert_keyed_props(tail, k, val);
        let rt = insert_keyed(tail, k, val);
        assert(r == seq![s[0]] + rt);
        assert forall|e: (u64, I)| #[trigger] rt.contains(e) implies s[0].0 < e.0 by {
            if tail.contains(e) {
                let i = choose|i: int| 0 <= i < tail.len() && tail[i] == e;
                assert(s[i + 1] == e);
            }
        }
        assert(sorted_keys(r)) by {
            assert forall|i: int, j: int| 0 <= i < j < r.len() implies
                (#[trigger] r[i]).0 < (#[trigger] r[j]).0 by {
                if i == 0 {
                    assert(rt.contains(r[j])) by {
                        assert(rt[j - 1] == r[j]);
                    }
                } else {
                    assert(rt[i - 1] == r[i] && rt[j - 1] == r[j]);
                    assert(rt.contains(rt[i - 1]) && rt.contains(rt[j - 1]));
                }
            }
        }
        assert(r.contains((k, val))) by {
            let i = choose|i: int| 0 <= i < rt.len() && rt[i] == (k, val);
            assert(r[i + 1] == (k, val));
        }
        assert forall|e: (u64, I)| #[trigger] r.contains(e) implies
            (e == (k, val) || (s.contains(e) && e.0 != k)) by {
            let i = choose|i: int| 0 <= i < r.len() && r[i] == e;
            if i == 0 {
                assert(s[0] == e);
                assert(s.contains(e));
            } else {
                assert(rt[i - 1] == e);
                assert(rt.contains(e));
                if e != (k, val) {
                    assert(tail.contains(e) && e.0 != k);
                    let j = choose|j: int| 0 <= j < tail.len() && tail[j] == e;
                    assert(s[j + 1] == e);
                }
            }
        }
        assert forall|e: (u64, I)| (e == (k, val) || (s.contains(e) && e.0 != k))
            implies #[trigger] r.contains(e) by {
            if e == (k, val) {
                assert(rt.contains(e));
                let i = choose|i: int| 0 <= i < rt.len() && rt[i] == e;
                assert(r[i + 1] == e);
            } else {
                let i = choose|i: int| 0 <= i < s.len() && s[i] == e;
                if i == 0 {
                    assert(r[0] == e);
                } else {
                    assert(tail[i - 1] == e);
                    assert(tail.contains(e));
                    assert(rt.contains(e));
                    let j = choose|j: int| 0 <= j < rt.len() && rt[j] == e;
                    assert(r[j + 1] == e);
                }
            }
        }
    }
}

/// Inserts `x` into a sorted duplicate-free vector, keeping it so.
pub fn ordset_insert(v: &mut Vec<u64>, x: u64)
    requires
        sorted_unique(old(v)@),
    ensures
        final(v)@ == insert_sorted(old(v)@, x),
{
    let mut i: usize = 0;
    while i < v.len() && v[i] < x
        invariant
            i <= v@.len(),
            sorted_unique(v@),
            v@ == old(v)@,
            forall|j: int| 0 <= j < i ==> v@[j] < x,
        decreases v@.len() - i,
    {
        i += 1;
    }
    proof {
        lemma_insert_sorted_skips_prefix(v@, x, i as int);
    }
    if i < v.len() && v[i] == x {
        return;
    }
    v.insert(i, x);
}

/// Positional characterization of [`insert_sorted`]: if everything before
/// `i` is below `x`, insertion happens at `i` (or nowhere, on an equal hit).
proof fn lemma_insert_sorted_skips_prefix(s: Seq<u64>, x: u64, i: int)
    requires
        sorted_unique(s),
        0 <= i <= s.len(),
        forall|j: int| 0 <= j < i ==> s[j] < x,
        i < s.len() ==> s[i] >= x,
    ensures
        i < s.len() && s[i] == x ==> insert_sorted(s, x) == s,
        !(i < s.len() && s[i] == x) ==> insert_sorted(s, x) =~= s.take(i) + seq![x] + s.skip(i),
    decreases i,
{
    if i == 0 {
        if s.len() == 0 {
            assert(insert_sorted(s, x) =~= seq![x]);
            assert(s.take(0) + seq![x] + s.skip(0) =~= seq![x]);
        } else if s[0] == x {
        } else {
            assert(x < s[0]);
            assert(insert_sorted(s, x) == seq![x] + s);
            assert(s.take(0) + seq![x] + s.skip(0) =~= seq![x] + s);
        }
    } else {
        let tail = s.drop_first();
        assert(sorted_unique(tail)) by {
            assert(forall|p: int, q: int|
                0 <= p < q < tail.len() ==> tail[p] == s[p + 1] && tail[q] == s[q + 1]);
        }
        assert(s[0] < x);
        assert(insert_sorted(s, x) == seq![s[0]] + insert_sorted(tail, x));
        assert(forall|j: int| 0 <= j < i - 1 ==> tail[j] == s[j + 1] && s[j + 1] < x);
        assert(i - 1 < tail.len() ==> tail[i - 1] == s[i]);
        lemma_insert_sorted_skips_prefix(tail, x, i - 1);
        if i < s.len() && s[i] == x {
            assert(insert_sorted(tail, x) == tail);
            assert(seq![s[0]] + tail =~= s);
        } else {
            assert(insert_sorted(tail, x) =~= tail.take(i - 1) + seq![x] + tail.skip(i - 1));
            let tt = tail.take(i - 1);
            let ts = tail.skip(i - 1);
            assert(seq![s[0]] + (tt + seq![x] + ts) =~=
                s.take(i) + seq![x] + s.skip(i)) by {
                assert(forall|j: int| 0 <= j < tt.len() ==> #[trigger] tt[j] == tail[j]);
                assert(forall|j: int| 0 <= j < ts.len() ==> #[trigger] ts[j] == tail[j + i - 1]);
                assert(forall|j: int| 0 <= j < tail.len() ==> #[trigger] tail[j] == s[j + 1]);
            }
        }
    }
}

/// Inserts `(k, val)` into a key-sorted vector, replacing an equal key;
/// returns the replaced value, if any.
pub fn ordmap_insert<I>(v: &mut Vec<(u64, I)>, k: u64, val: I) -> (replaced: Option<I>)
    requires
        sorted_keys(old(v)@),
    ensures
        final(v)@ == insert_keyed(old(v)@, k, val),
        replaced == keyed_lookup(old(v)@, k),
{
    let mut i: usize = 0;
    while i < v.len() && v[i].0 < k
        invariant
            i <= v@.len(),
            sorted_keys(v@),
            v@ == old(v)@,
            forall|j: int| 0 <= j < i ==> (#[trigger] v@[j]).0 < k,
        decreases v@.len() - i,
    {
        i += 1;
    }
    proof {
        lemma_insert_keyed_skips_prefix(v@, k, val, i as int);
    }
    if i < v.len() && v[i].0 == k {
        let mut slot = (k, val);
        v.set_and_swap(i, &mut slot);
        return Some(slot.1);
    }
    v.insert(i, (k, val));
    None
}

/// In a key-sorted sequence whose first key already exceeds `k`, no entry has key `k`.
proof fn lemma_keyed_lookup_below<I>(s: Seq<(u64, I)>, k: u64)
    requires
        sorted_keys(s),
        s.len() == 0 || k < s[0].0,
    ensures
        keyed_lookup(s, k) == None::<I>,
    decreases s.len(),
{
    if s.len() > 0 {
        let tail = s.drop_first();
        assert(sorted_keys(tail)) by {
            assert(forall|p: int, q: int|
                0 <= p < q < tail.len() ==> tail[p] == s[p + 1] && tail[q] == s[q + 1]);
        }
        if tail.len() > 0 {
            assert(tail[0] == s[1]);
            assert(s[0].0 < s[1].0);
        }
        lemma_keyed_lookup_below(tail, k);
    }
}

/// Positional characterization of [`insert_keyed`] and [`keyed_lookup`].
proof fn lemma_insert_keyed_skips_prefix<I>(s: Seq<(u64, I)>, k: u64, val: I, i: int)
    requires
        sorted_keys(s),
        0 <= i <= s.len(),
        forall|j: int| 0 <= j < i ==> (#[trigger] s[j]).0 < k,
        i < s.len() ==> s[i].0 >= k,
    ensures
        i < s.len() && s[i].0 == k ==>
            insert_keyed(s, k, val) =~= s.update(i, (k, val)) && keyed_lookup(s, k) == Some(s[i].1),
        !(i < s.len() && s[i].0 == k) ==>
            insert_keyed(s, k, val) =~= s.take(i) + seq![(k, val)] + s.skip(i)
                && keyed_lookup(s, k) == None::<I>,
    decreases i,
{
    if i == 0 {
        if s.len() == 0 {
            assert(insert_keyed(s, k, val) =~= seq![(k, val)]);
            assert(s.take(0) + seq![(k, val)] + s.skip(0) =~= seq![(k, val)]);
        } else if s[0].0 == k {
            assert(insert_keyed(s, k, val) == seq![(k, val)] + s.drop_first());
            assert(seq![(k, val)] + s.drop_first() =~= s.update(0, (k, val)));
        } else {
            assert(k < s[0].0);
            assert(s.take(0) + seq![(k, val)] + s.skip(0) =~= seq![(k, val)] + s);
            lemma_keyed_lookup_below(s, k);
        }
    } else {
        let tail = s.drop_first();
        assert(sorted_keys(tail)) by {
            assert(forall|p: int, q: int|
                0 <= p < q < tail.len() ==> tail[p] == s[p + 1] && tail[q] == s[q + 1]);
        }
        assert(s[0].0 < k);
        assert(insert_keyed(s, k, val) == seq![s[0]] + insert_keyed(tail, k, val));
        assert(keyed_lookup(s, k) == keyed_lookup(tail, k));
        assert(forall|j: int| 0 <= j < i - 1 ==> tail[j] == s[j + 1] && (#[trigger] tail[j]).0 < k);
        assert(i - 1 < tail.len() ==> tail[i - 1] == s[i]);
        lemma_insert_keyed_skips_prefix(tail, k, val, i - 1);
        if i < s.len() && s[i].0 == k {
            assert(insert_keyed(tail, k, val) =~= tail.update(i - 1, (k, val)));
            assert(seq![s[0]] + tail.update(i - 1, (k, val)) =~= s.update(i, (k, val)));
            assert(tail[i - 1] == s[i]);
        } else {
            assert(insert_keyed(tail, k, val) =~= tail.take(i - 1) + seq![(k, val)] + tail.skip(i - 1));
            let tt = tail.take(i - 1);
            let ts = tail.skip(i - 1);
            assert(seq![s[0]] + (tt + seq![(k, val)] + ts) =~=
                s.take(i) + seq![(k, val)] + s.skip(i)) by {
                assert(forall|j: int| 0 <= j < tt.len() ==> #[trigger] tt[j] == tail[j]);
                assert(forall|j: int| 0 <= j < ts.len() ==> #[trigger] ts[j] == tail[j + i - 1]);
                assert(forall|j: int| 0 <= j < tail.len() ==> #[trigger] tail[j] == s[j + 1]);
            }
        }
    }
}

} // verus!
