//! The order of keys, and the keys of an index listed in that order.

use vstd::prelude::*;
use std::collections::BTreeMap;
use vstd::std_specs::btree::{axiom_increasing_seq_meaning, increasing_seq, key_obeys_cmp_spec};
use vstd::std_specs::cmp::OrdSpec;
use vstd::std_specs::iter::IteratorSpec;

verus! {

/// The order of keys: by the first number, then by the second.
pub open spec fn key_before(a: (i32, i32), b: (i32, i32)) -> bool {
    a.0 < b.0 || (a.0 == b.0 && a.1 < b.1)
}

/// Whether `keys` goes strictly upwards in the order of keys.
pub open spec fn rising(keys: Seq<(i32, i32)>) -> bool {
    forall|i: int, j: int| 0 <= i < j < keys.len() ==> key_before(keys[i], keys[j])
}

/// Whether `keys` lists exactly the keys of `among`, upwards.
pub open spec fn lists(keys: Seq<(i32, i32)>, among: Set<(i32, i32)>) -> bool {
    rising(keys) && keys.to_set() == among
}

/// The keys of `among`, upwards.
pub open spec fn in_order(among: Set<(i32, i32)>) -> Seq<(i32, i32)> {
    choose|keys: Seq<(i32, i32)>| lists(keys, among)
}

/// A rising sequence holds no key twice.
pub proof fn lemma_rising_distinct(keys: Seq<(i32, i32)>)
    requires
        rising(keys),
    ensures
        keys.no_duplicates(),
{
    assert forall|i: int, j: int| 0 <= i < keys.len() && 0 <= j < keys.len() && i != j implies keys[i]
        != keys[j] by {
        if i < j {
            assert(key_before(keys[i], keys[j]));
        } else {
            assert(key_before(keys[j], keys[i]));
        }
    }
}

/// There is one way only to list a set of keys upwards.
pub proof fn lemma_lists_unique(a: Seq<(i32, i32)>, b: Seq<(i32, i32)>, among: Set<(i32, i32)>)
    requires
        lists(a, among),
        lists(b, among),
    ensures
        a == b,
    decreases a.len(),
{
    if a.len() == 0 {
        if b.len() > 0 {
            assert(b.to_set().contains(b[0]));
            assert(a.to_set().contains(b[0]));
        }
        assert(a =~= b);
    } else {
        let top = a.last();
        assert(a.to_set().contains(top));
        assert(b.to_set().contains(top));
        let at = choose|i: int| 0 <= i < b.len() && b[i] == top;
        // Nothing in `b` stands above `top`, so `top` is the last of `b`.
        if at < b.len() - 1 {
            let above = b[b.len() - 1];
            assert(key_before(top, above));
            assert(b.to_set().contains(above));
            assert(a.to_set().contains(above));
            let back = choose|i: int| 0 <= i < a.len() && a[i] == above;
            if back < a.len() - 1 {
                assert(key_before(a[back], a[a.len() - 1]));
            }
        }
        assert(b.last() == top);
        let rest = among.remove(top);
        lemma_rising_distinct(a);
        lemma_rising_distinct(b);
        assert(a.drop_last().to_set() =~= rest) by {
            assert forall|k: (i32, i32)| a.drop_last().to_set().contains(k) <==> rest.contains(
                k,
            ) by {
                if a.drop_last().to_set().contains(k) {
                    let i = choose|i: int| 0 <= i < a.drop_last().len() && a.drop_last()[i] == k;
                    assert(a[i] == k);
                    assert(a.to_set().contains(k));
                }
                if rest.contains(k) {
                    assert(a.to_set().contains(k));
                    let i = choose|i: int| 0 <= i < a.len() && a[i] == k;
                    assert(a.drop_last()[i] == k);
                }
            }
        }
        assert(b.drop_last().to_set() =~= rest) by {
            assert forall|k: (i32, i32)| b.drop_last().to_set().contains(k) <==> rest.contains(
                k,
            ) by {
                if b.drop_last().to_set().contains(k) {
                    let i = choose|i: int| 0 <= i < b.drop_last().len() && b.drop_last()[i] == k;
                    assert(b[i] == k);
                    assert(b.to_set().contains(k));
                }
                if rest.contains(k) {
                    assert(b.to_set().contains(k));
                    let i = choose|i: int| 0 <= i < b.len() && b[i] == k;
                    assert(b.drop_last()[i] == k);
                }
            }
        }
        lemma_lists_unique(a.drop_last(), b.drop_last(), rest);
        assert(a =~= a.drop_last().push(top));
        assert(b =~= b.drop_last().push(top));
    }
}

/// A listing of a set of keys upwards is the listing of that set.
pub proof fn lemma_in_order_is(keys: Seq<(i32, i32)>, among: Set<(i32, i32)>)
    requires
        lists(keys, among),
    ensures
        in_order(among) == keys,
{
    lemma_lists_unique(in_order(among), keys, among);
}

/// `keys` with `key` put in at its place in the order.
pub open spec fn with_key(keys: Seq<(i32, i32)>, key: (i32, i32)) -> Seq<(i32, i32)>
    decreases keys.len(),
{
    if keys.len() == 0 {
        seq![key]
    } else if key_before(keys.last(), key) {
        keys.push(key)
    } else {
        with_key(keys.drop_last(), key).push(keys.last())
    }
}

/// Putting a new key in at its place keeps the listing rising, and adds that
/// key and no other.
pub proof fn lemma_with_key(keys: Seq<(i32, i32)>, key: (i32, i32))
    requires
        rising(keys),
        !keys.contains(key),
    ensures
        rising(with_key(keys, key)),
        with_key(keys, key).len() == keys.len() + 1,
        forall|k: (i32, i32)| with_key(keys, key).contains(k) <==> (k == key || keys.contains(k)),
    decreases keys.len(),
{
    let out = with_key(keys, key);
    if keys.len() == 0 {
        assert(out[0] == key);
    } else if key_before(keys.last(), key) {
        assert forall|i: int, j: int| 0 <= i < j < out.len() implies key_before(out[i], out[j]) by {
            if j == keys.len() {
                if i < keys.len() - 1 {
                    assert(key_before(keys[i], keys.last()));
                }
            }
        }
        assert forall|k: (i32, i32)| out.contains(k) <==> (k == key || keys.contains(k)) by {
            if out.contains(k) {
                let i = choose|i: int| 0 <= i < out.len() && out[i] == k;
                if i < keys.len() {
                    assert(keys[i] == k);
                }
            }
            if keys.contains(k) {
                let i = choose|i: int| 0 <= i < keys.len() && keys[i] == k;
                assert(out[i] == k);
            }
            if k == key {
                assert(out[keys.len() as int] == k);
            }
        }
    } else {
        let front = keys.drop_last();
        let top = keys.last();
        assert(!front.contains(key)) by {
            if front.contains(key) {
                let i = choose|i: int| 0 <= i < front.len() && front[i] == key;
                assert(keys[i] == key);
            }
        }
        lemma_with_key(front, key);
        let inner = with_key(front, key);
        assert(keys[keys.len() - 1] == top);
        assert(top != key);
        assert(key_before(key, top));
        assert forall|i: int, j: int| 0 <= i < j < out.len() implies key_before(out[i], out[j]) by {
            if j == inner.len() {
                assert(inner.contains(inner[i]));
                if inner[i] != key {
                    assert(front.contains(inner[i]));
                    let at = choose|at: int| 0 <= at < front.len() && front[at] == inner[i];
                    assert(key_before(keys[at], keys[keys.len() - 1]));
                }
            } else {
                assert(key_before(inner[i], inner[j]));
            }
        }
        assert forall|k: (i32, i32)| out.contains(k) <==> (k == key || keys.contains(k)) by {
            if out.contains(k) {
                let i = choose|i: int| 0 <= i < out.len() && out[i] == k;
                if i < inner.len() {
                    assert(inner.contains(k));
                    if k != key {
                        assert(front.contains(k));
                        let at = choose|at: int| 0 <= at < front.len() && front[at] == k;
                        assert(keys[at] == k);
                    }
                }
            }
            if keys.contains(k) {
                let i = choose|i: int| 0 <= i < keys.len() && keys[i] == k;
                if i < front.len() {
                    assert(front[i] == k);
                    assert(front.contains(k));
                    assert(inner.contains(k));
                    let at = choose|at: int| 0 <= at < inner.len() && inner[at] == k;
                    assert(out[at] == k);
                } else {
                    assert(out[inner.len() as int] == k);
                }
            }
            if k == key {
                assert(inner.contains(k));
                let at = choose|at: int| 0 <= at < inner.len() && inner[at] == k;
                assert(out[at] == k);
            }
        }
    }
}

/// Every finite set of keys can be listed upwards, and `in_order` does so.
pub proof fn lemma_in_order_lists(among: Set<(i32, i32)>)
    requires
        among.finite(),
    ensures
        lists(in_order(among), among),
    decreases among.len(),
{
    if among.len() == 0 {
        let none = Seq::<(i32, i32)>::empty();
        assert(among =~= Set::<(i32, i32)>::empty());
        assert(none.to_set() =~= among);
        assert(lists(none, among));
    } else {
        let key = among.choose();
        let rest = among.remove(key);
        lemma_in_order_lists(rest);
        let keys = in_order(rest);
        assert(!keys.contains(key)) by {
            if keys.contains(key) {
                assert(keys.to_set().contains(key));
            }
        }
        lemma_with_key(keys, key);
        let out = with_key(keys, key);
        assert(out.to_set() =~= among) by {
            assert forall|k: (i32, i32)| out.to_set().contains(k) <==> among.contains(k) by {
                assert(out.to_set().contains(k) <==> out.contains(k));
                assert(keys.to_set().contains(k) <==> keys.contains(k));
            }
        }
        assert(lists(out, among));
    }
}

/// Pairs of integers are ordered as keys are, and an index may be keyed by
/// them.
pub proof fn lemma_pairs_are_keys()
    ensures
        key_obeys_cmp_spec::<(i32, i32)>(),
        vstd::laws_cmp::obeys_cmp::<(i32, i32)>(),
{
    broadcast use vstd::laws_cmp::group_laws_cmp;
    broadcast use vstd::std_specs::btree::axiom_key_obeys_cmp_spec_meaning;

}

/// What an index hands out as its keys goes upwards in the order of keys.
pub proof fn lemma_increasing_is_rising(keys: Seq<&(i32, i32)>)
    requires
        increasing_seq(keys),
    ensures
        rising(keys.unref()),
{
    broadcast use vstd::laws_cmp::group_laws_cmp;

    assert(vstd::laws_cmp::obeys_cmp::<(i32, i32)>());
    assert(vstd::laws_cmp::obeys_cmp::<&(i32, i32)>());
    axiom_increasing_seq_meaning::<&(i32, i32)>(keys);
    assert forall|i: int, j: int| 0 <= i < j < keys.unref().len() implies key_before(
        keys.unref()[i],
        keys.unref()[j],
    ) by {
        assert(OrdSpec::cmp_spec(&keys[i], &keys[j]) is Less);
    }
}

/// The keys of `index`, upwards.
pub fn ordered_keys(index: &BTreeMap<(i32, i32), usize>) -> (keys: Vec<(i32, i32)>)
    ensures
        keys@ == in_order(index@.dom()),
        lists(keys@, index@.dom()),
{
    proof {
        lemma_pairs_are_keys();
    }
    let mut keys: Vec<(i32, i32)> = Vec::new();
    let ghost all = index.keys().remaining();
    for key in walk: index.keys()
        invariant
            walk.seq() == all,
            keys.len() == walk.index(),
            keys@ == all.take(walk.index() as int).unref(),
    {
        keys.push(*key);
    }
    proof {
        assert(all.take(keys.len() as int) == all);
        lemma_increasing_is_rising(all);
        lemma_in_order_is(keys@, index@.dom());
    }
    keys
}

} // verus!
