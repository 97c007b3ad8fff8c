//! Facts about the sizes of multisets and finite maps that the rewrite
//! engine's accounting rests on.

use vstd::prelude::*;
use vstd::multiset::Multiset;

verus! {

/// A filter and its complement split a multiset.
pub proof fn lemma_filter_split<V>(m: Multiset<V>, f: spec_fn(V) -> bool, g: spec_fn(V) -> bool)
    requires
        forall|v: V| #[trigger] g(v) == !f(v),
    ensures
        m.filter(f).len() + m.filter(g).len() == m.len(),
{
    assert(m =~= m.filter(f).add(m.filter(g)));
}

/// What a filter keeps is no more than there was.
pub proof fn lemma_filter_len<V>(m: Multiset<V>, f: spec_fn(V) -> bool)
    ensures
        m.filter(f).len() <= m.len(),
{
    lemma_filter_split(m, f, |v: V| !f(v));
}

/// A multiset that holds each value at most as often as another does is no
/// larger than the other.
pub proof fn lemma_subset_len<V>(a: Multiset<V>, b: Multiset<V>)
    requires
        forall|v: V| a.count(v) <= b.count(v),
    ensures
        a.len() <= b.len(),
{
    assert(b =~= a.add(b.sub(a)));
}

/// A finite map whose keys all lie in a finite set has at most as many
/// entries as the set has members.
pub proof fn lemma_map_len_bound<K, V>(m: Map<K, V>, keys: Set<K>)
    requires
        keys.finite(),
        forall|k: K| m.contains_key(k) ==> keys.contains(k),
    ensures
        m.dom().finite(),
        m.len() <= keys.len(),
{
    assert(m.dom().subset_of(keys));
    vstd::set_lib::lemma_len_subset(m.dom(), keys);
}

} // verus!
