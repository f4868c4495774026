//! Listings of a table: its records one per line, in increasing order of hash.
use vstd::prelude::*;
use crate::sort::{key_is, stably_sorted, with_key};

verus! {

/// `s` holds every entry of `m` exactly once, keyed by its hash, and nothing else.
pub open spec fn represents<V>(m: Map<u32, V>, s: Seq<(u64, V)>) -> bool {
    &&& forall|i: int| 0 <= i < s.len() ==> {
        &&& #[trigger] s[i].0 <= u32::MAX
        &&& m.contains_key(s[i].0 as u32)
        &&& m[s[i].0 as u32] == s[i].1
    }
    &&& forall|h: u32| #[trigger] m.contains_key(h) ==> exists|i: int| 0 <= i < s.len() && #[trigger] s[i].0 == h
    &&& forall|i: int, j: int| 0 <= i < j < s.len() ==> #[trigger] s[i].0 != #[trigger] s[j].0
}

/// `s` lists the entries of `m` in strictly increasing order of hash.
pub open spec fn is_listing<V>(m: Map<u32, V>, s: Seq<(u64, V)>) -> bool {
    &&& represents(m, s)
    &&& forall|i: int, j: int| 0 <= i < j < s.len() ==> #[trigger] s[i].0 < #[trigger] s[j].0
}

/// The listing of `m`.
pub open spec fn listing<V>(m: Map<u32, V>) -> Seq<(u64, V)> {
    choose|s: Seq<(u64, V)>| is_listing(m, s)
}

proof fn lemma_filter_one<A>(s: Seq<A>, p: spec_fn(A) -> bool, i: int)
    requires
        0 <= i < s.len(),
        p(s[i]),
    ensures
        s.filter(p).len() >= 1,
{
    s.lemma_filter_contains(p, i);
}

proof fn lemma_filter_two<A>(s: Seq<A>, p: spec_fn(A) -> bool, i: int, j: int)
    requires
        0 <= i < j < s.len(),
        p(s[i]),
        p(s[j]),
    ensures
        s.filter(p).len() >= 2,
    decreases s.len(),
{
    reveal(Seq::filter);
    let rest = s.drop_last();
    if j == s.len() - 1 {
        assert(rest[i] == s[i]);
        lemma_filter_one(rest, p, i);
    } else {
        assert(rest[i] == s[i] && rest[j] == s[j]);
        lemma_filter_two(rest, p, i, j);
    }
}

proof fn lemma_filter_at_most_one<A>(s: Seq<A>, p: spec_fn(A) -> bool)
    requires
        forall|i: int, j: int| 0 <= i < j < s.len() ==> !(p(s[i]) && p(s[j])),
    ensures
        s.filter(p).len() <= 1,
    decreases s.len(),
{
    reveal(Seq::filter);
    if s.len() > 0 {
        let rest = s.drop_last();
        if p(s.last()) {
            assert(rest.all(|x: A| !p(x))) by {
                assert forall|i: int| 0 <= i < rest.len() implies !p(rest[i]) by {
                    assert(rest[i] == s[i]);
                }
            }
            rest.lemma_all_neg_filter_empty(p);
        } else {
            lemma_filter_at_most_one(rest, p);
        }
    }
}

/// A stable sort of a sequence that represents `m` is the listing of `m`.
pub proof fn lemma_sorted_is_listing<V>(m: Map<u32, V>, s: Seq<(u64, V)>, out: Seq<(u64, V)>)
    requires
        represents(m, s),
        stably_sorted(s, out),
    ensures
        is_listing(m, out),
{
    assert forall|k: u64| #[trigger] with_key(s, k).len() <= 1 by {
        lemma_filter_at_most_one(s, key_is::<V>(k));
    }
    assert forall|i: int, j: int| 0 <= i < j < out.len() implies #[trigger] out[i].0 != #[trigger] out[j].0 by {
        if out[i].0 == out[j].0 {
            let k = out[i].0;
            lemma_filter_two(out, key_is::<V>(k), i, j);
            assert(with_key(out, k) == with_key(s, k));
        }
    }
    assert forall|i: int| 0 <= i < out.len() implies {
        &&& #[trigger] out[i].0 <= u32::MAX
        &&& m.contains_key(out[i].0 as u32)
        &&& m[out[i].0 as u32] == out[i].1
    } by {
        let k = out[i].0;
        out.lemma_filter_contains(key_is::<V>(k), i);
        assert(with_key(out, k) == with_key(s, k));
        s.lemma_filter_contains_rev(key_is::<V>(k), out[i]);
        let t = choose|t: int| 0 <= t < s.len() && s[t] == out[i];
        assert(s[t].0 <= u32::MAX);
    }
    assert forall|h: u32| #[trigger] m.contains_key(h) implies exists|i: int| 0 <= i < out.len() && #[trigger] out[i].0 == h by {
        let t = choose|t: int| 0 <= t < s.len() && #[trigger] s[t].0 == h;
        let k = h as u64;
        s.lemma_filter_contains(key_is::<V>(k), t);
        assert(with_key(out, k) == with_key(s, k));
        out.lemma_filter_contains_rev(key_is::<V>(k), s[t]);
        let i = choose|i: int| 0 <= i < out.len() && out[i] == s[t];
        assert(out[i].0 == h);
    }
}

/// A map has at most one listing.
pub proof fn lemma_listing_unique<V>(m: Map<u32, V>, s1: Seq<(u64, V)>, s2: Seq<(u64, V)>)
    requires
        is_listing(m, s1),
        is_listing(m, s2),
    ensures
        s1 == s2,
    decreases s1.len(),
{
    if s1.len() == 0 {
        if s2.len() > 0 {
            let h = s2[0].0 as u32;
            assert(m.contains_key(h));
        }
        assert(s1 =~= s2);
    } else {
        let h = s1[0].0 as u32;
        assert(m.contains_key(h));
        let j = choose|j: int| 0 <= j < s2.len() && #[trigger] s2[j].0 == h;
        let h2 = s2[0].0 as u32;
        assert(m.contains_key(h2));
        let i = choose|i: int| 0 <= i < s1.len() && #[trigger] s1[i].0 == h2;
        if j > 0 {
            assert(s2[0].0 < s2[j].0);
        }
        if i > 0 {
            assert(s1[0].0 < s1[i].0);
        }
        assert(s1[0].0 == s2[0].0);
        let m2 = m.remove(h);
        let t1 = s1.drop_first();
        let t2 = s2.drop_first();
        assert forall|k: int| 0 <= k < t1.len() implies {
            &&& #[trigger] t1[k].0 <= u32::MAX
            &&& m2.contains_key(t1[k].0 as u32)
            &&& m2[t1[k].0 as u32] == t1[k].1
        } by {
            assert(t1[k] == s1[k + 1]);
            assert(s1[0].0 < s1[k + 1].0);
        }
        assert forall|k: int| 0 <= k < t2.len() implies {
            &&& #[trigger] t2[k].0 <= u32::MAX
            &&& m2.contains_key(t2[k].0 as u32)
            &&& m2[t2[k].0 as u32] == t2[k].1
        } by {
            assert(t2[k] == s2[k + 1]);
            assert(s2[0].0 < s2[k + 1].0);
        }
        assert forall|g: u32| #[trigger] m2.contains_key(g) implies exists|k: int| 0 <= k < t1.len() && #[trigger] t1[k].0 == g by {
            assert(m.contains_key(g));
            let k = choose|k: int| 0 <= k < s1.len() && #[trigger] s1[k].0 == g;
            assert(k != 0);
            assert(t1[k - 1].0 == g);
        }
        assert forall|g: u32| #[trigger] m2.contains_key(g) implies exists|k: int| 0 <= k < t2.len() && #[trigger] t2[k].0 == g by {
            assert(m.contains_key(g));
            let k = choose|k: int| 0 <= k < s2.len() && #[trigger] s2[k].0 == g;
            assert(k != 0);
            assert(t2[k - 1].0 == g);
        }
        assert forall|a: int, b: int| 0 <= a < b < t1.len() implies #[trigger] t1[a].0 < #[trigger] t1[b].0 by {
            assert(t1[a] == s1[a + 1] && t1[b] == s1[b + 1]);
        }
        assert forall|a: int, b: int| 0 <= a < b < t2.len() implies #[trigger] t2[a].0 < #[trigger] t2[b].0 by {
            assert(t2[a] == s2[a + 1] && t2[b] == s2[b + 1]);
        }
        lemma_listing_unique(m2, t1, t2);
        assert(s1 =~= s2) by {
            assert forall|k: int| 0 <= k < s1.len() implies s1[k] == s2[k] by {
                if k > 0 {
                    assert(s1[k] == t1[k - 1]);
                    assert(s2[k] == t2[k - 1]);
                }
            }
        }
    }
}

/// Whatever lists `m` is `listing(m)`.
pub proof fn lemma_is_listing_is_listing<V>(m: Map<u32, V>, s: Seq<(u64, V)>)
    requires
        is_listing(m, s),
    ensures
        listing(m) == s,
{
    lemma_listing_unique(m, listing(m), s);
}

/// The keys of `s` strictly increase.
pub open spec fn strictly_increasing<V>(s: Seq<(u64, V)>) -> bool {
    forall|i: int, j: int| 0 <= i < j < s.len() ==> #[trigger] s[i].0 < #[trigger] s[j].0
}

/// `s` with `e` put in its place by key.
proof fn insert_sorted<V>(s: Seq<(u64, V)>, e: (u64, V)) -> (t: Seq<(u64, V)>)
    requires
        strictly_increasing(s),
        forall|i: int| 0 <= i < s.len() ==> #[trigger] s[i].0 != e.0,
    ensures
        t.len() == s.len() + 1,
        strictly_increasing(t),
        forall|x: (u64, V)| t.contains(x) <==> (s.contains(x) || x == e),
    decreases s.len(),
{
    if s.len() == 0 || e.0 < s[0].0 {
        let t = seq![e] + s;
        assert forall|x: (u64, V)| t.contains(x) <==> (s.contains(x) || x == e) by {
            if t.contains(x) {
                let k = choose|k: int| 0 <= k < t.len() && t[k] == x;
                if k > 0 {
                    assert(s[k - 1] == x);
                }
            }
            if s.contains(x) {
                let k = choose|k: int| 0 <= k < s.len() && s[k] == x;
                assert(t[k + 1] == x);
            }
            if x == e {
                assert(t[0] == x);
            }
        }
        assert forall|i: int, j: int| 0 <= i < j < t.len() implies #[trigger] t[i].0 < #[trigger] t[j].0 by {
            if i > 0 {
                assert(t[i] == s[i - 1] && t[j] == s[j - 1]);
            } else {
                assert(t[j] == s[j - 1]);
                if j > 1 {
                    assert(s[0].0 < s[j - 1].0);
                }
            }
        }
        t
    } else {
        let rest = s.drop_first();
        assert forall|i: int, j: int| 0 <= i < j < rest.len() implies #[trigger] rest[i].0 < #[trigger] rest[j].0 by {
            assert(rest[i] == s[i + 1] && rest[j] == s[j + 1]);
        }
        assert forall|i: int| 0 <= i < rest.len() implies #[trigger] rest[i].0 != e.0 by {
            assert(rest[i] == s[i + 1]);
        }
        let u = insert_sorted(rest, e);
        let t = seq![s[0]] + u;
        assert(s[0].0 != e.0);
        assert forall|x: (u64, V)| t.contains(x) <==> (s.contains(x) || x == e) by {
            if t.contains(x) {
                let k = choose|k: int| 0 <= k < t.len() && t[k] == x;
                if k == 0 {
                    assert(s[0] == x);
                } else {
                    assert(u[k - 1] == x);
                    assert(u.contains(x));
                    if rest.contains(x) {
                        let q = choose|q: int| 0 <= q < rest.len() && rest[q] == x;
                        assert(s[q + 1] == x);
                    }
                }
            }
            if s.contains(x) {
                let k = choose|k: int| 0 <= k < s.len() && s[k] == x;
                if k == 0 {
                    assert(t[0] == x);
                } else {
                    assert(rest[k - 1] == x);
                    assert(rest.contains(x));
                    assert(u.contains(x));
                    let q = choose|q: int| 0 <= q < u.len() && u[q] == x;
                    assert(t[q + 1] == x);
                }
            }
            if x == e {
                assert(u.contains(x));
                let q = choose|q: int| 0 <= q < u.len() && u[q] == x;
                assert(t[q + 1] == x);
            }
        }
        assert forall|i: int, j: int| 0 <= i < j < t.len() implies #[trigger] t[i].0 < #[trigger] t[j].0 by {
            if i > 0 {
                assert(t[i] == u[i - 1] && t[j] == u[j - 1]);
            } else {
                assert(t[j] == u[j - 1]);
                assert(u.contains(u[j - 1]));
                if u[j - 1] == e {
                } else {
                    assert(rest.contains(u[j - 1]));
                    let q = choose|q: int| 0 <= q < rest.len() && rest[q] == u[j - 1];
                    assert(s[q + 1] == u[j - 1]);
                    assert(s[0].0 < s[q + 1].0);
                }
            }
        }
        t
    }
}

/// Every finite table has a listing, and `listing` gives it.
pub proof fn lemma_listing_exists<V>(m: Map<u32, V>)
    requires
        m.dom().finite(),
    ensures
        is_listing(m, listing(m)),
    decreases m.dom().len(),
{
    if m.dom().len() == 0 {
        let s = Seq::<(u64, V)>::empty();
        assert forall|h: u32| #[trigger] m.contains_key(h) implies exists|i: int| 0 <= i < s.len() && #[trigger] s[i].0 == h by {
            assert(m.dom().contains(h));
        }
        assert(is_listing(m, s));
    } else {
        let h = m.dom().choose();
        let r = m.remove(h);
        assert(r.dom() =~= m.dom().remove(h));
        lemma_listing_exists(r);
        let l = listing(r);
        let e = (h as u64, m[h]);
        assert forall|i: int| 0 <= i < l.len() implies #[trigger] l[i].0 != e.0 by {
            assert(r.contains_key(l[i].0 as u32));
        }
        let t = insert_sorted(l, e);
        assert forall|i: int| 0 <= i < t.len() implies {
            &&& #[trigger] t[i].0 <= u32::MAX
            &&& m.contains_key(t[i].0 as u32)
            &&& m[t[i].0 as u32] == t[i].1
        } by {
            assert(t.contains(t[i]));
            if t[i] != e {
                assert(l.contains(t[i]));
                let q = choose|q: int| 0 <= q < l.len() && l[q] == t[i];
                assert(r.contains_key(l[q].0 as u32));
            }
        }
        assert forall|g: u32| #[trigger] m.contains_key(g) implies exists|i: int| 0 <= i < t.len() && #[trigger] t[i].0 == g by {
            if g == h {
                assert(t.contains(e));
                let q = choose|q: int| 0 <= q < t.len() && t[q] == e;
                assert(t[q].0 == g);
            } else {
                assert(r.contains_key(g));
                let q = choose|q: int| 0 <= q < l.len() && #[trigger] l[q].0 == g;
                assert(t.contains(l[q]));
                let k = choose|k: int| 0 <= k < t.len() && t[k] == l[q];
                assert(t[k].0 == g);
            }
        }
        assert(is_listing(m, t));
    }
}

} // verus!
