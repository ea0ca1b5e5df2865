//! Stable sorting by an integer key.
//!
//! The algorithms sort histogram entries and palette indices by projections of
//! their colors. Sorting is delegated to the standard library; what it returns
//! is characterized here as the one ascending arrangement of (key, position)
//! pairs, so that every caller can state its result exactly.

use vstd::prelude::*;

verus! {

/// The lexicographic order on (key, position) pairs.
pub open spec fn pair_le(a: (i128, usize), b: (i128, usize)) -> bool {
    a.0 < b.0 || (a.0 == b.0 && a.1 <= b.1)
}

/// `pair_le` as a relation value.
pub open spec fn pair_order() -> spec_fn((i128, usize), (i128, usize)) -> bool {
    |a: (i128, usize), b: (i128, usize)| pair_le(a, b)
}

/// Each key paired with its position.
pub open spec fn tagged(keys: Seq<i128>) -> Seq<(i128, usize)> {
    Seq::new(keys.len(), |i: int| (keys[i], i as usize))
}

/// The positions of `keys` in the order of a stable ascending sort: by key,
/// equal keys by position.
pub open spec fn stable_order(keys: Seq<i128>) -> Seq<usize> {
    tagged(keys).sort_by(pair_order()).map_values(|p: (i128, usize)| p.1)
}

/// The items of `s` taken in the given order of positions.
pub open spec fn reorder<A>(s: Seq<A>, order: Seq<usize>) -> Seq<A> {
    Seq::new(order.len(), |a: int| s[order[a] as int])
}

pub proof fn lemma_pair_order_total()
    ensures
        vstd::relations::total_ordering(pair_order()),
{
    let r = pair_order();
    assert(vstd::relations::reflexive(r));
    assert(vstd::relations::antisymmetric(r)) by {
        assert forall|x: (i128, usize), y: (i128, usize)| #[trigger] r(x, y) && #[trigger] r(y, x) implies x == y by {
            assert(pair_le(x, y) && pair_le(y, x));
        }
    }
    assert(vstd::relations::transitive(r));
    assert(vstd::relations::strongly_connected(r));
}

/// Mapping two sequences that hold the same items through one function gives
/// sequences that hold the same items.
pub proof fn lemma_map_values_multiset<A, B>(a: Seq<A>, b: Seq<A>, f: spec_fn(A) -> B)
    requires
        a.to_multiset() == b.to_multiset(),
    ensures
        a.map_values(f).to_multiset() == b.map_values(f).to_multiset(),
    decreases a.len(),
{
    broadcast use vstd::seq_lib::group_to_multiset_ensures;
    broadcast use vstd::multiset::group_multiset_axioms;

    a.to_multiset_ensures();
    b.to_multiset_ensures();
    assert(a.len() == b.len());
    if a.len() == 0 {
        assert(a.map_values(f) =~= b.map_values(f));
    } else {
        let x = a.last();
        assert(a.contains(x));
        assert(a.to_multiset().count(x) > 0);
        assert(b.contains(x));
        let i = choose|i: int| 0 <= i < b.len() && b[i] == x;
        let a1 = a.drop_last();
        let b1 = b.remove(i);
        assert(a1 =~= a.remove(a.len() - 1));
        assert(a1.to_multiset() == a.to_multiset().remove(x));
        assert(b1.to_multiset() == b.to_multiset().remove(x));
        lemma_map_values_multiset(a1, b1, f);
        assert(a.map_values(f) =~= a1.map_values(f).push(f(x)));
        assert(b.map_values(f) =~= b1.map_values(f).insert(i, f(x)));
    }
}

/// What a stable order is: it visits every position once, in ascending key
/// order, equal keys in position order.
pub proof fn lemma_stable_order(keys: Seq<i128>)
    requires
        keys.len() <= usize::MAX,
    ensures
        stable_order(keys).len() == keys.len(),
        forall|a: int| 0 <= a < keys.len() ==> 0 <= #[trigger] stable_order(keys)[a] < keys.len(),
        forall|a: int, b: int|
            0 <= a < b < keys.len() ==> stable_order(keys)[a] != stable_order(keys)[b],
        forall|a: int, b: int|
            0 <= a < b < keys.len() ==> pair_le(
                (keys[stable_order(keys)[a] as int], stable_order(keys)[a]),
                (keys[stable_order(keys)[b] as int], stable_order(keys)[b]),
            ),
        forall|i: usize| i < keys.len() ==> #[trigger] stable_order(keys).contains(i),
{
    broadcast use vstd::seq_lib::group_to_multiset_ensures;

    let p = tagged(keys);
    let s = p.sort_by(pair_order());
    let o = stable_order(keys);
    lemma_pair_order_total();
    p.lemma_sort_by_ensures(pair_order());
    s.to_multiset_ensures();
    p.to_multiset_ensures();
    assert(s.len() == p.len());
    assert forall|a: int| 0 <= a < s.len() implies 0 <= (#[trigger] s[a]).1 < keys.len() && s[a].0
        == keys[s[a].1 as int] by {
        assert(s.contains(s[a]));
        assert(s.to_multiset().count(s[a]) > 0);
        assert(p.contains(s[a]));
    }
    assert(p.no_duplicates());
    p.lemma_multiset_has_no_duplicates();
    s.lemma_multiset_has_no_duplicates_conv();
    assert forall|a: int, b: int| 0 <= a < b < keys.len() implies o[a] != o[b] by {
        assert(s[a] != s[b]);
    }
    assert forall|a: int, b: int| 0 <= a < b < keys.len() implies pair_le(
        (keys[o[a] as int], o[a]),
        (keys[o[b] as int], o[b]),
    ) by {
        assert(pair_order()(s[a], s[b]));
    }
    assert forall|i: usize| i < keys.len() implies #[trigger] o.contains(i) by {
        let q = p[i as int];
        assert(q == (keys[i as int], i));
        assert(p.contains(q));
        assert(p.to_multiset().count(q) > 0);
        assert(s.contains(q));
        let a = choose|a: int| 0 <= a < s.len() && s[a] == q;
        assert(o[a] == i);
    }
}

/// Reordering by a stable order keeps the items: only their arrangement changes.
pub proof fn lemma_reorder_multiset<A>(items: Seq<A>, keys: Seq<i128>)
    requires
        items.len() == keys.len(),
        keys.len() <= usize::MAX,
    ensures
        reorder(items, stable_order(keys)).to_multiset() == items.to_multiset(),
        reorder(items, stable_order(keys)).len() == items.len(),
{
    let p = tagged(keys);
    let s = p.sort_by(pair_order());
    let f = |q: (i128, usize)| items[q.1 as int];
    lemma_pair_order_total();
    p.lemma_sort_by_ensures(pair_order());
    lemma_stable_order(keys);
    lemma_map_values_multiset(s, p, f);
    assert(p.map_values(f) =~= items);
    assert(s.map_values(f) =~= reorder(items, stable_order(keys)));
}

/// Sorts (key, position) pairs with `slice::sort`. Not proved: that the vector
/// afterwards holds the same pairs, ascending in the lexicographic order that
/// the standard library documents for tuples.
#[verifier::external_body]
fn sort_pairs(pairs: &mut Vec<(i128, usize)>)
    ensures
        final(pairs)@.to_multiset() == old(pairs)@.to_multiset(),
        vstd::relations::sorted_by(final(pairs)@, pair_order()),
{
    pairs.sort();
}

/// The positions of `keys` in stable ascending order.
pub fn sort_positions(keys: &Vec<i128>) -> (order: Vec<usize>)
    ensures
        order@ == stable_order(keys@),
        order@.len() == keys@.len(),
        forall|a: int| 0 <= a < order@.len() ==> #[trigger] order@[a] < keys@.len(),
{
    let n = keys.len();
    let mut pairs: Vec<(i128, usize)> = Vec::with_capacity(n);
    let mut i: usize = 0;
    while i < n
        invariant
            n == keys.len(),
            i <= n,
            pairs@ == tagged(keys@).take(i as int),
        decreases n - i,
    {
        pairs.push((keys[i], i));
        assert(pairs@ =~= tagged(keys@).take(i + 1));
        i += 1;
    }
    assert(pairs@ =~= tagged(keys@));
    sort_pairs(&mut pairs);
    proof {
        lemma_pair_order_total();
        tagged(keys@).lemma_sort_by_ensures(pair_order());
        vstd::seq_lib::lemma_sorted_unique(
            pairs@,
            tagged(keys@).sort_by(pair_order()),
            pair_order(),
        );
    }
    let mut order: Vec<usize> = Vec::with_capacity(n);
    let mut j: usize = 0;
    while j < pairs.len()
        invariant
            j <= pairs.len(),
            pairs@ == tagged(keys@).sort_by(pair_order()),
            order@ == stable_order(keys@).take(j as int),
        decreases pairs.len() - j,
    {
        order.push(pairs[j].1);
        assert(order@ =~= stable_order(keys@).take(j + 1));
        j += 1;
    }
    assert(order@ =~= stable_order(keys@));
    proof {
        lemma_stable_order(keys@);
    }
    order
}

/// The items taken in the given order of positions.
pub fn apply_order<T: Copy>(items: &Vec<T>, order: &Vec<usize>) -> (out: Vec<T>)
    requires
        forall|a: int| 0 <= a < order@.len() ==> #[trigger] order@[a] < items@.len(),
    ensures
        out@ == reorder(items@, order@),
{
    let mut out: Vec<T> = Vec::with_capacity(order.len());
    let mut a: usize = 0;
    while a < order.len()
        invariant
            a <= order.len(),
            forall|a: int| 0 <= a < order@.len() ==> #[trigger] order@[a] < items@.len(),
            out@ == reorder(items@, order@).take(a as int),
        decreases order.len() - a,
    {
        out.push(items[order[a]]);
        assert(out@ =~= reorder(items@, order@).take(a + 1));
        a += 1;
    }
    assert(out@ =~= reorder(items@, order@));
    out
}

} // verus!
