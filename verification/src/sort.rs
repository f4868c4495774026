//! A stable sort of keyed items: the order in which the commands run and in which
//! log lines and table listings come out.
use vstd::prelude::*;

verus! {

/// The items are in non-decreasing order of their keys.
pub open spec fn key_sorted<T>(s: Seq<(u64, T)>) -> bool {
    forall|i: int, j: int| 0 <= i < j < s.len() ==> s[i].0 <= s[j].0
}

/// The predicate "has key `k`".
pub open spec fn key_is<T>(k: u64) -> spec_fn((u64, T)) -> bool {
    |e: (u64, T)| e.0 == k
}

/// The items of `s` with key `k`, in their order in `s`.
pub open spec fn with_key<T>(s: Seq<(u64, T)>, k: u64) -> Seq<(u64, T)> {
    s.filter(key_is::<T>(k))
}

/// `out` is `s` sorted stably by key: sorted, and for every key the items with that
/// key come in the order they had in `s`.
pub open spec fn stably_sorted<T>(s: Seq<(u64, T)>, out: Seq<(u64, T)>) -> bool {
    &&& out.len() == s.len()
    &&& key_sorted(out)
    &&& forall|k: u64| #[trigger] with_key(out, k) == with_key(s, k)
}

proof fn lemma_filter_empty_below<T>(s: Seq<(u64, T)>, k: u64)
    requires
        forall|i: int| 0 <= i < s.len() ==> s[i].0 < k,
    ensures
        with_key(s, k) == Seq::<(u64, T)>::empty(),
{
    let p = key_is::<T>(k);
    assert(s.all(|x: (u64, T)| !p(x)));
    s.lemma_all_neg_filter_empty(p);
}

/// Sorts `v` stably by the first component of its items.
pub fn stable_sort_by_key<T>(v: Vec<(u64, T)>) -> (out: Vec<(u64, T)>)
    ensures
        stably_sorted(v@, out@),
{
    let ghost input = v@;
    let mut rest = v;
    let mut out: Vec<(u64, T)> = Vec::new();
    while rest.len() > 0
        invariant
            rest@ == input.take(rest@.len() as int),
            rest@.len() <= input.len(),
            out@.len() + rest@.len() == input.len(),
            key_sorted(out@),
            forall|k: u64| #[trigger] with_key(out@, k) == with_key(input.skip(rest@.len() as int), k),
        decreases rest@.len(),
    {
        let ghost n = rest@.len() as int;
        let e = rest.pop().unwrap();
        let key = e.0;
        let mut p: usize = 0;
        while p < out.len() && out[p].0 < key
            invariant
                p <= out@.len(),
                forall|i: int| 0 <= i < p ==> out@[i].0 < key,
            decreases out@.len() - p,
        {
            p = p + 1;
        }
        let ghost before = out@;
        out.insert(p, e);
        proof {
            assert(input.skip(n - 1) =~= seq![e] + input.skip(n));
            assert(input.take(n - 1) =~= input.take(n).drop_last());
            assert(out@ =~= before.take(p as int) + seq![e] + before.skip(p as int));
            assert(before =~= before.take(p as int) + before.skip(p as int));
            assert forall|i: int, j: int| 0 <= i < j < out@.len() implies out@[i].0 <= out@[j].0 by {
                if j < p {
                } else if j == p {
                } else if i < p {
                    if p < before.len() {
                        assert(before[p as int].0 >= key);
                    }
                } else if i == p {
                    assert(before[p as int].0 >= key);
                    assert(before[p as int].0 <= before[j - 1].0);
                } else {
                }
            }
            assert forall|k: u64| #[trigger] with_key(out@, k) == with_key(input.skip(n - 1), k) by {
                let pr = key_is::<T>(k);
                let a = before.take(p as int);
                let b = before.skip(p as int);
                Seq::filter_distributes_over_add(a + seq![e], b, pr);
                Seq::filter_distributes_over_add(a, seq![e], pr);
                Seq::filter_distributes_over_add(a, b, pr);
                input.skip(n).lemma_filter_prepend(e, pr);
                Seq::<(u64, T)>::empty().lemma_filter_prepend(e, pr);
                assert(seq![e] + Seq::<(u64, T)>::empty() =~= seq![e]);
                reveal(Seq::filter);
                assert(Seq::<(u64, T)>::empty().filter(pr) =~= Seq::<(u64, T)>::empty());
                let fe = if pr(e) { seq![e] } else { Seq::<(u64, T)>::empty() };
                assert(seq![e].filter(pr) =~= fe + Seq::<(u64, T)>::empty());
                assert(seq![e].filter(pr) =~= fe);
                assert(with_key(out@, k) == a.filter(pr) + fe + b.filter(pr));
                assert(with_key(input.skip(n - 1), k) == fe + input.skip(n).filter(pr));
                assert(input.skip(n).filter(pr) == with_key(before, k));
                assert(with_key(before, k) == a.filter(pr) + b.filter(pr));
                if k == key {
                    lemma_filter_empty_below(a, k);
                    assert(a.filter(pr) =~= Seq::<(u64, T)>::empty());
                    assert(a.filter(pr) + fe + b.filter(pr) =~= fe + (a.filter(pr) + b.filter(pr)));
                } else {
                    assert(fe =~= Seq::<(u64, T)>::empty());
                    assert(a.filter(pr) + fe + b.filter(pr) =~= fe + (a.filter(pr) + b.filter(pr)));
                }
            }
        }
    }
    proof {
        assert(input.skip(0) =~= input);
    }
    out
}

/// The items of `s` with their payloads taken by their views.
pub open spec fn view_keyed<T: View>(s: Seq<(u64, T)>) -> Seq<(u64, T::V)> {
    s.map_values(|e: (u64, T)| (e.0, e.1@))
}

proof fn lemma_with_key_view<T: View>(s: Seq<(u64, T)>, k: u64)
    ensures
        with_key(view_keyed(s), k) == view_keyed(with_key(s, k)),
    decreases s.len(),
{
    reveal(Seq::filter);
    if s.len() > 0 {
        let rest = s.drop_last();
        lemma_with_key_view(rest, k);
        assert(view_keyed(s).drop_last() =~= view_keyed(rest));
        let f = with_key(rest, k);
        assert(view_keyed(f.push(s.last())) =~= view_keyed(f).push((s.last().0, s.last().1@)));
    } else {
        assert(view_keyed(s) =~= Seq::<(u64, T::V)>::empty());
        assert(view_keyed(with_key(s, k)) =~= Seq::<(u64, T::V)>::empty());
    }
}

/// Sorting stably commutes with taking views of the payloads.
pub proof fn lemma_stably_sorted_view<T: View>(s: Seq<(u64, T)>, out: Seq<(u64, T)>)
    requires
        stably_sorted(s, out),
    ensures
        stably_sorted(view_keyed(s), view_keyed(out)),
{
    assert forall|k: u64| #[trigger] with_key(view_keyed(out), k) == with_key(view_keyed(s), k) by {
        lemma_with_key_view(out, k);
        lemma_with_key_view(s, k);
        assert(with_key(out, k) == with_key(s, k));
    }
}

/// Sorting keeps every item: each item of the output is an item of the input.
pub proof fn lemma_sorted_keeps_items<T>(s: Seq<(u64, T)>, out: Seq<(u64, T)>, k: int)
    requires
        stably_sorted(s, out),
        0 <= k < out.len(),
    ensures
        s.contains(out[k]),
{
    let key = out[k].0;
    out.lemma_filter_contains(key_is::<T>(key), k);
    assert(with_key(out, key) == with_key(s, key));
    s.lemma_filter_contains_rev(key_is::<T>(key), out[k]);
}

} // verus!
