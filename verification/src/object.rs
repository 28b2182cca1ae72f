//! Objects: entries in the order in which their keys were bound last.

use vstd::prelude::*;
use crate::value::{entries_model, CanonicalValue, Member, ValueModel};

verus! {

/// Whether no two entries have the same key.
pub open spec fn unique_keys(entries: Seq<(Seq<char>, ValueModel)>) -> bool {
    forall|i: int, j: int| 0 <= i < j < entries.len() ==> entries[i].0 != entries[j].0
}

/// The test that an entry is under another key than `key`.
pub open spec fn has_other_key(key: Seq<char>) -> spec_fn((Seq<char>, ValueModel)) -> bool {
    |entry: (Seq<char>, ValueModel)| entry.0 != key
}

/// The entries of an object after `key` has been bound to `value`: entries
/// that were under `key` are dropped, and the new entry comes last.
pub open spec fn bound(
    entries: Seq<(Seq<char>, ValueModel)>,
    key: Seq<char>,
    value: ValueModel,
) -> Seq<(Seq<char>, ValueModel)> {
    entries.filter(has_other_key(key)).push((key, value))
}

/// The entries of the object that is built by binding the given pairs, one
/// after the other, starting from the empty object.
pub open spec fn object_of(pairs: Seq<(Seq<char>, ValueModel)>) -> Seq<(Seq<char>, ValueModel)>
    decreases pairs.len(),
{
    if pairs.len() == 0 {
        Seq::empty()
    } else {
        bound(object_of(pairs.drop_last()), pairs.last().0, pairs.last().1)
    }
}

/// Filtering entries that have no entry under `key` changes nothing.
pub proof fn lemma_filter_absent(entries: Seq<(Seq<char>, ValueModel)>, key: Seq<char>)
    requires
        forall|i: int| 0 <= i < entries.len() ==> entries[i].0 != key,
    ensures
        entries.filter(has_other_key(key)) == entries,
    decreases entries.len(),
{
    reveal(Seq::filter);
    if entries.len() > 0 {
        lemma_filter_absent(entries.drop_last(), key);
        assert(entries.drop_last().push(entries.last()) =~= entries);
    }
}

/// Among entries with unique keys, filtering out `key` removes the one entry
/// that is under it.
pub proof fn lemma_filter_present(entries: Seq<(Seq<char>, ValueModel)>, key: Seq<char>, at: int)
    requires
        unique_keys(entries),
        0 <= at < entries.len(),
        entries[at].0 == key,
    ensures
        entries.filter(has_other_key(key)) == entries.remove(at),
    decreases entries.len(),
{
    reveal(Seq::filter);
    let init = entries.drop_last();
    if at == entries.len() - 1 {
        lemma_filter_absent(init, key);
        assert(entries.remove(at) =~= init);
    } else {
        lemma_filter_present(init, key, at);
        assert(init.remove(at).push(entries.last()) =~= entries.remove(at));
    }
}

/// Filtering keeps keys unique, and leaves no entry under the key that was
/// filtered out.
pub proof fn lemma_filter_unique(entries: Seq<(Seq<char>, ValueModel)>, key: Seq<char>)
    requires
        unique_keys(entries),
    ensures
        unique_keys(entries.filter(has_other_key(key))),
        forall|i: int|
            0 <= i < entries.filter(has_other_key(key)).len() ==> (#[trigger] entries.filter(
                has_other_key(key),
            )[i]).0 != key,
    decreases entries.len(),
{
    reveal(Seq::filter);
    if entries.len() > 0 {
        let init = entries.drop_last();
        let kept = init.filter(has_other_key(key));
        lemma_filter_unique(init, key);
        if entries.last().0 != key {
            assert forall|i: int| 0 <= i < kept.len() implies kept[i].0 != entries.last().0 by {
                assert(kept.contains(kept[i]));
                init.lemma_filter_contains_rev(has_other_key(key), kept[i]);
                let j = choose|j: int| 0 <= j < init.len() && init[j] == kept[i];
                assert(entries[j] == kept[i]);
            }
        }
    }
}

/// Binding a key keeps the keys of an object unique.
pub proof fn lemma_bound_unique(
    entries: Seq<(Seq<char>, ValueModel)>,
    key: Seq<char>,
    value: ValueModel,
)
    requires
        unique_keys(entries),
    ensures
        unique_keys(bound(entries, key, value)),
{
    lemma_filter_unique(entries, key);
}

/// An object built by binding pairs in order has unique keys.
pub proof fn lemma_object_of_unique(pairs: Seq<(Seq<char>, ValueModel)>)
    ensures
        unique_keys(object_of(pairs)),
    decreases pairs.len(),
{
    if pairs.len() > 0 {
        lemma_object_of_unique(pairs.drop_last());
        lemma_bound_unique(object_of(pairs.drop_last()), pairs.last().0, pairs.last().1);
    }
}

/// Pairs with unique keys build the object that has them as its entries.
pub proof fn lemma_object_of_unique_pairs(pairs: Seq<(Seq<char>, ValueModel)>)
    requires
        unique_keys(pairs),
    ensures
        object_of(pairs) == pairs,
    decreases pairs.len(),
{
    if pairs.len() > 0 {
        let init = pairs.drop_last();
        lemma_object_of_unique_pairs(init);
        assert forall|i: int| 0 <= i < init.len() implies init[i].0 != pairs.last().0 by {
            assert(init[i] == pairs[i]);
        }
        lemma_filter_absent(init, pairs.last().0);
        assert(init.push(pairs.last()) =~= pairs);
    }
}

/// Pairs that are all under one key build the object whose one entry is the
/// last of them.
pub proof fn lemma_object_of_one_key(pairs: Seq<(Seq<char>, ValueModel)>, key: Seq<char>)
    requires
        pairs.len() > 0,
        forall|i: int| 0 <= i < pairs.len() ==> (#[trigger] pairs[i]).0 == key,
    ensures
        object_of(pairs) == seq![pairs.last()],
    decreases pairs.len(),
{
    reveal_with_fuel(Seq::filter, 2);
    let init = pairs.drop_last();
    assert(pairs.last() == pairs[pairs.len() - 1]);
    if init.len() > 0 {
        assert forall|i: int| 0 <= i < init.len() implies (#[trigger] init[i]).0 == key by {
            assert(init[i] == pairs[i]);
        }
        lemma_object_of_one_key(init, key);
        assert(init.last() == init[init.len() - 1]);
        let one = seq![init.last()];
        assert(one.drop_last() =~= Seq::empty());
        assert(one.filter(has_other_key(key)) =~= Seq::empty());
    } else {
        assert(object_of(init).filter(has_other_key(key)) =~= Seq::empty());
    }
    assert(object_of(pairs) =~= seq![pairs.last()]);
}

/// Whether the pair at index `at` is the last one under its key.
pub open spec fn is_last_under_key(pairs: Seq<(Seq<char>, ValueModel)>, at: int) -> bool {
    &&& 0 <= at < pairs.len()
    &&& forall|later: int| at < later < pairs.len() ==> pairs[later].0 != pairs[at].0
}

/// Two entries that a filter keeps stand in the order in which they stood
/// before: the result names where they stood.
pub proof fn lemma_filter_keeps_order<A>(s: Seq<A>, pred: spec_fn(A) -> bool, a: int, b: int) -> (r:
    (int, int))
    requires
        0 <= a < b < s.filter(pred).len(),
    ensures
        0 <= r.0 < r.1 < s.len(),
        s[r.0] == s.filter(pred)[a],
        s[r.1] == s.filter(pred)[b],
    decreases s.len(),
{
    reveal(Seq::filter);
    let init = s.drop_last();
    let kept = init.filter(pred);
    if b < kept.len() {
        let (i, j) = lemma_filter_keeps_order(init, pred, a, b);
        (i, j)
    } else {
        assert(kept.contains(kept[a]));
        init.lemma_filter_contains_rev(pred, kept[a]);
        let i = choose|i: int| 0 <= i < init.len() && init[i] == kept[a];
        (i, s.len() - 1)
    }
}

/// Each entry of the object built from `pairs` is the last pair under its
/// key: the result is the index of that pair.
pub proof fn lemma_entry_is_last_pair(pairs: Seq<(Seq<char>, ValueModel)>, at: int) -> (r: int)
    requires
        0 <= at < object_of(pairs).len(),
    ensures
        is_last_under_key(pairs, r),
        pairs[r] == object_of(pairs)[at],
    decreases pairs.len(),
{
    let init = pairs.drop_last();
    let key = pairs.last().0;
    let kept = object_of(init).filter(has_other_key(key));
    if at == kept.len() {
        pairs.len() - 1
    } else {
        assert(kept.contains(kept[at]));
        object_of(init).lemma_filter_contains_rev(has_other_key(key), kept[at]);
        let before = choose|i: int| 0 <= i < object_of(init).len() && object_of(init)[i] == kept[at];
        object_of(init).lemma_filter_pred(has_other_key(key), at);
        let r = lemma_entry_is_last_pair(init, before);
        assert(pairs[r] == init[r]);
        assert forall|later: int| r < later < pairs.len() implies pairs[later].0 != pairs[r].0 by {
            if later < init.len() {
                assert(init[later] == pairs[later]);
            }
        }
        r
    }
}

/// The last pair under each key is an entry of the object built from
/// `pairs`.
pub proof fn lemma_last_pair_is_entry(pairs: Seq<(Seq<char>, ValueModel)>, at: int)
    requires
        is_last_under_key(pairs, at),
    ensures
        object_of(pairs).contains(pairs[at]),
    decreases pairs.len(),
{
    let init = pairs.drop_last();
    let key = pairs.last().0;
    let kept = object_of(init).filter(has_other_key(key));
    let built = object_of(pairs);
    if at == pairs.len() - 1 {
        assert(built[kept.len() as int] == pairs[at]);
    } else {
        assert(init[at] == pairs[at]);
        assert forall|later: int| at < later < init.len() implies init[later].0 != init[at].0 by {
            assert(init[later] == pairs[later]);
        }
        lemma_last_pair_is_entry(init, at);
        let before = choose|i: int|
            0 <= i < object_of(init).len() && object_of(init)[i] == pairs[at];
        object_of(init).lemma_filter_contains(has_other_key(key), before);
        let i = choose|i: int| 0 <= i < kept.len() && kept[i] == pairs[at];
        assert(built[i] == pairs[at]);
    }
}

/// A key that is bound again and again keeps one entry, which holds the
/// value it was bound to last.
///
/// Of the pairs under one key the last is an entry of the object that is
/// built from the pairs, and no other entry of the object is under that key.
pub proof fn law_last_binding_wins(pairs: Seq<(Seq<char>, ValueModel)>, at: int)
    requires
        is_last_under_key(pairs, at),
    ensures
        exists|i: int|
            0 <= i < object_of(pairs).len() && #[trigger] object_of(pairs)[i] == pairs[at]
                && forall|j: int|
                0 <= j < object_of(pairs).len() && j != i ==> (#[trigger] object_of(pairs)[j]).0
                    != pairs[at].0,
{
    lemma_last_pair_is_entry(pairs, at);
    lemma_object_of_unique(pairs);
    let built = object_of(pairs);
    let i = choose|i: int| 0 <= i < built.len() && built[i] == pairs[at];
    assert(built[i] == pairs[at]);
    assert forall|j: int| 0 <= j < built.len() && j != i implies (#[trigger] built[j]).0
        != pairs[at].0 by {
        if j < i {
            assert(built[j].0 != built[i].0);
        } else {
            assert(built[i].0 != built[j].0);
        }
    }
}

/// The entries of an object stand in the order in which their keys were
/// bound last.
///
/// Each entry of the object built from `pairs` is the last pair under its
/// key, and of two entries the one that stands first is also the earlier
/// pair: the result names the two pairs.
pub proof fn law_order_of_last_binding(pairs: Seq<(Seq<char>, ValueModel)>, a: int, b: int) -> (r:
    (int, int))
    requires
        0 <= a < b < object_of(pairs).len(),
    ensures
        r.0 < r.1,
        is_last_under_key(pairs, r.0),
        is_last_under_key(pairs, r.1),
        pairs[r.0] == object_of(pairs)[a],
        pairs[r.1] == object_of(pairs)[b],
{
    lemma_object_of_unique(pairs);
    let i = lemma_entry_is_last_pair(pairs, a);
    let j = lemma_entry_is_last_pair(pairs, b);
    lemma_order_of_entries(pairs, a, b, i, j);
    (i, j)
}

/// Of two entries of the object built from `pairs`, the one that stands
/// first is the earlier of the pairs that they are.
pub proof fn lemma_order_of_entries(
    pairs: Seq<(Seq<char>, ValueModel)>,
    a: int,
    b: int,
    i: int,
    j: int,
)
    requires
        0 <= a < b < object_of(pairs).len(),
        is_last_under_key(pairs, i),
        is_last_under_key(pairs, j),
        pairs[i] == object_of(pairs)[a],
        pairs[j] == object_of(pairs)[b],
    ensures
        i < j,
    decreases pairs.len(),
{
    lemma_object_of_unique(pairs);
    let built = object_of(pairs);
    assert(built[a].0 != built[b].0);
    let init = pairs.drop_last();
    let key = pairs.last().0;
    let kept = object_of(init).filter(has_other_key(key));
    if b == kept.len() {
        // the entry at `b` is the pair bound last of all
        assert(built[b] == pairs.last());
        if j != pairs.len() - 1 {
            assert(pairs[pairs.len() - 1].0 != pairs[j].0);
        }
        if i == pairs.len() - 1 {
            assert(pairs[i].0 == pairs[j].0);
        }
    } else {
        object_of(init).lemma_filter_pred(has_other_key(key), a);
        object_of(init).lemma_filter_pred(has_other_key(key), b);
        assert(i < init.len() && j < init.len());
        let (x, y) = lemma_filter_keeps_order(object_of(init), has_other_key(key), a, b);
        assert(init[i] == pairs[i] && init[j] == pairs[j]);
        assert forall|later: int| i < later < init.len() implies init[later].0 != init[i].0 by {
            assert(init[later] == pairs[later]);
        }
        assert forall|later: int| j < later < init.len() implies init[later].0 != init[j].0 by {
            assert(init[later] == pairs[later]);
        }
        lemma_order_of_entries(init, x, y, i, j);
    }
}

/// Binds `key` to `value` in the entries of an object: an entry that was
/// under `key` is removed, and the new entry is put last.
pub fn bind(entries: &mut Vec<Member>, key: String, value: CanonicalValue)
    requires
        unique_keys(entries_model(old(entries)@)),
    ensures
        entries_model(final(entries)@) == bound(entries_model(old(entries)@), key@, value@),
        unique_keys(entries_model(final(entries)@)),
        forall|i: int|
            0 <= i < final(entries).len() ==> {
                let entry = #[trigger] entries_model(final(entries)@)[i];
                entry == (key@, value@) || entries_model(old(entries)@).contains(entry)
            },
{
    let ghost before = entries_model(entries@);
    let mut found: Option<usize> = None;
    let mut i: usize = 0;
    while i < entries.len()
        invariant_except_break
            found is None,
            forall|j: int| 0 <= j < i ==> before[j].0 != key@,
        invariant
            i <= entries.len(),
            entries_model(entries@) == before,
        ensures
            entries_model(entries@) == before,
            match found {
                Some(at) => at < entries.len() && before[at as int].0 == key@,
                None => forall|j: int| 0 <= j < entries.len() ==> before[j].0 != key@,
            },
        decreases entries.len() - i,
    {
        if entries[i].key == key {
            found = Some(i);
            break;
        }
        i += 1;
    }
    match found {
        Some(at) => {
            entries.remove(at);
            proof {
                lemma_filter_present(before, key@, at as int);
                assert(entries_model(entries@) =~= before.remove(at as int));
            }
        },
        None => {
            proof {
                lemma_filter_absent(before, key@);
            }
        },
    }
    let ghost kept = entries_model(entries@);
    entries.push(Member { key, value });
    proof {
        assert(entries_model(entries@) =~= kept.push((key@, value@)));
        lemma_bound_unique(before, key@, value@);
        assert forall|i: int| 0 <= i < entries.len() implies {
            let entry = #[trigger] entries_model(entries@)[i];
            entry == (key@, value@) || before.contains(entry)
        } by {
            if i < kept.len() {
                assert(kept.contains(kept[i]));
                before.lemma_filter_contains_rev(has_other_key(key@), kept[i]);
            }
        }
    }
}

} // verus!
