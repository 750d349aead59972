//! Sorting keys and emitting their distinct prefixes.

use vstd::prelude::*;

use crate::layout::{key_strings, prefix_set, prefixes};
use crate::order::{
    compare, lemma_irreflexive, lemma_prefix_order, lemma_sorted_entries_of_ascending,
    lemma_transitive, lemma_trichotomy, precedes, sorted_entries, strictly_ascending, Order,
};

verus! {

/// Sorts the keys with `sort_unstable` of the standard library's slices. Claimed of it: it
/// reorders the keys, neither adding nor losing one, so that none comes before an earlier one
/// in the order of byte arrays, which the standard library documents to be lexicographic.
#[verifier::external_body]
fn sort_keys<const N: usize>(keys: &mut Vec<[u8; N]>)
    ensures
        final(keys)@.to_multiset() == old(keys)@.to_multiset(),
        forall|i: int, j: int|
            #![trigger final(keys)@[i], final(keys)@[j]]
            0 <= i < j < final(keys)@.len() ==> !precedes(final(keys)@[j]@, final(keys)@[i]@),
{
    keys.sort_unstable();
}

/// Adding a byte string that comes after the last entry.
proof fn lemma_push_ascending(entries: Seq<Seq<u8>>, entry: Seq<u8>)
    requires
        strictly_ascending(entries),
        entries.len() > 0 ==> precedes(entries.last(), entry),
    ensures
        strictly_ascending(entries.push(entry)),
        forall|i: int| 0 <= i < entries.len() ==> #[trigger] entries[i] != entry,
{
    let more = entries.push(entry);
    let n = entries.len() as int;
    assert forall|i: int| 0 <= i < n implies precedes(#[trigger] entries[i], entry) by {
        if i < n - 1 {
            assert(precedes(entries[i], entries[n - 1]));
            lemma_transitive(entries[i], entries[n - 1], entry);
        }
    }
    assert forall|i: int, j: int| 0 <= i < j < more.len() implies #[trigger] precedes(
        more[i],
        more[j],
    ) by {
        if j < n {
            assert(precedes(entries[i], entries[j]));
        } else {
            assert(precedes(entries[i], entry));
        }
    }
    lemma_irreflexive(entry);
}

/// Sort `keys`, drop all but the first key of each distinct `prefix_len`-byte prefix, and append
/// the surviving prefixes to `out` in order.
pub fn sort_dedup_emit<const N: usize>(
    keys: &mut Vec<[u8; N]>,
    prefix_len: usize,
    out: &mut Vec<u8>,
)
    requires
        prefix_len <= N || old(keys)@.len() == 0,
    ensures
        final(out)@ == old(out)@ + sorted_entries(
            prefix_set(key_strings(old(keys)@), prefix_len as int),
        ).flatten(),
        prefixes(key_strings(final(keys)@), prefix_len as int) == sorted_entries(
            prefix_set(key_strings(old(keys)@), prefix_len as int),
        ),
        forall|i: int| 0 <= i < final(keys)@.len() ==> old(keys)@.contains(#[trigger] final(keys)@[i]),
        forall|i: int, j: int|
            #![trigger final(keys)@[i], old(keys)@[j]]
            0 <= i < final(keys)@.len() && 0 <= j < old(keys)@.len() && old(keys)@[j]@.take(
                prefix_len as int,
            ) == final(keys)@[i]@.take(prefix_len as int) ==> !precedes(
                old(keys)@[j]@,
                final(keys)@[i]@,
            ),
{
    let ghost given = keys@;
    let ghost emitted = out@;
    let ghost p = prefix_len as int;
    // Lexicographic sort of the full keys also sorts their prefixes, so keys sharing a prefix
    // end up adjacent.
    sort_keys(keys);
    let ghost sorted = keys@;
    proof {
        broadcast use vstd::seq_lib::group_to_multiset_ensures;
        assert forall|key: [u8; N]| given.contains(key) <==> sorted.contains(key) by {
            assert(given.to_multiset().count(key) == sorted.to_multiset().count(key));
        }
        assert(given.len() == given.to_multiset().len());
        assert(sorted.len() == sorted.to_multiset().len());
    }
    let ghost mut kept: Seq<[u8; N]> = Seq::empty();
    let ghost mut source: Seq<int> = Seq::empty();
    // How many keys are kept; they stand at the front.
    let mut count: usize = 0;
    let mut next: usize = 0;
    assert(prefixes(key_strings(kept), p).flatten() =~= Seq::<u8>::empty());
    assert(out@ =~= emitted + prefixes(key_strings(kept), p).flatten());
    assert(keys@.take(0) =~= kept);
    while next < keys.len()
        invariant
            prefix_len <= N || sorted.len() == 0,
            p == prefix_len,
            keys@.len() == sorted.len(),
            count <= next <= sorted.len(),
            keys@.take(count as int) == kept,
            forall|i: int| next <= i < sorted.len() ==> keys@[i] == #[trigger] sorted[i],
            forall|i: int, j: int|
                #![trigger sorted[i], sorted[j]]
                0 <= i < j < sorted.len() ==> !precedes(sorted[j]@, sorted[i]@),
            source.len() == kept.len(),
            forall|k: int|
                #![trigger source[k]]
                0 <= k < source.len() ==> 0 <= source[k] < next && kept[k] == sorted[source[k]],
            strictly_ascending(prefixes(key_strings(kept), p)),
            forall|k: int|
                #![trigger sorted[k]]
                0 <= k < next ==> prefixes(key_strings(kept), p).contains(sorted[k]@.take(p)),
            next > 0 ==> kept.len() > 0 && kept.last()@.take(p) == sorted[next - 1]@.take(p),
            forall|i: int, j: int|
                #![trigger kept[i], sorted[j]]
                0 <= i < kept.len() && 0 <= j < next && sorted[j]@.take(p) == kept[i]@.take(p)
                    ==> !precedes(sorted[j]@, kept[i]@),
            out@ == emitted + prefixes(key_strings(kept), p).flatten(),
        decreases sorted.len() - next,
    {
        let key: [u8; N] = keys[next];
        assert(key == sorted[next as int]);
        let prefix = &key[0..prefix_len];
        assert(prefix@ =~= key@.take(p));
        let ghost entries = prefixes(key_strings(kept), p);
        let mut repeats = false;
        if count > 0 {
            let last: [u8; N] = keys[count - 1];
            assert(last == kept.last());
            let last_prefix = &last[0..prefix_len];
            assert(last_prefix@ =~= last@.take(p));
            match compare(last_prefix, prefix) {
                Order::Same => {
                    repeats = true;
                },
                _ => {},
            }
        }
        if repeats {
            assert(entries[kept.len() - 1] == key@.take(p));
            proof {
                assert forall|i: int, j: int|
                    #![trigger kept[i], sorted[j]]
                    0 <= i < kept.len() && 0 <= j < next + 1 && sorted[j]@.take(p)
                        == kept[i]@.take(p) implies !precedes(sorted[j]@, kept[i]@) by {
                    if j == next {
                        assert(kept[i] == sorted[source[i]]);
                    }
                }
            }
        } else {
            proof {
                if next > 0 {
                    let before = sorted[next - 1]@;
                    assert(!precedes(key@, before));
                    lemma_trichotomy(before, key@);
                    if precedes(before, key@) {
                        lemma_prefix_order(before, key@, p);
                    }
                    assert(entries.last() == before.take(p));
                    assert(precedes(entries.last(), key@.take(p)));
                }
                lemma_push_ascending(entries, key@.take(p));
                entries.lemma_flatten_push(key@.take(p));
            }
            let ghost held = out@;
            out.extend_from_slice(prefix);
            assert(out@ =~= held + key@.take(p));
            let ghost had = kept;
            keys[count] = key;
            count += 1;
            proof {
                kept = kept.push(key);
                assert(keys@.take(count as int) =~= kept);
                source = source.push(next as int);
                let now = prefixes(key_strings(kept), p);
                assert(now =~= entries.push(key@.take(p)));
                assert forall|k: int| #![trigger sorted[k]] 0 <= k < next + 1 implies now.contains(
                    sorted[k]@.take(p),
                ) by {
                    if k < next {
                        let m = choose|m: int|
                            0 <= m < entries.len() && entries[m] == sorted[k]@.take(p);
                        assert(now[m] == sorted[k]@.take(p));
                    } else {
                        assert(now[had.len() as int] == key@.take(p));
                    }
                }
                assert forall|i: int, j: int|
                    #![trigger kept[i], sorted[j]]
                    0 <= i < kept.len() && 0 <= j < next + 1 && sorted[j]@.take(p)
                        == kept[i]@.take(p) implies !precedes(sorted[j]@, kept[i]@) by {
                    if i < had.len() && j == next {
                        assert(entries[i] == key@.take(p));
                    } else if i < had.len() {
                        assert(had[i] == kept[i]);
                    } else if j < next {
                        let m = choose|m: int|
                            0 <= m < entries.len() && entries[m] == sorted[j]@.take(p);
                        assert(entries[m] != key@.take(p));
                    } else {
                        lemma_irreflexive(key@);
                    }
                }
            }
        }
        next += 1;
    }
    keys.truncate(count);
    assert(keys@ =~= kept);
    proof {
        let entries = prefixes(key_strings(kept), p);
        let wanted = prefix_set(key_strings(given), p);
        assert(entries.to_set() =~= wanted) by {
            let all = prefixes(key_strings(given), p);
            assert forall|e: Seq<u8>| entries.contains(e) implies all.contains(e) by {
                let k = choose|k: int| 0 <= k < entries.len() && entries[k] == e;
                assert(kept[k] == sorted[source[k]]);
                assert(sorted.contains(kept[k]));
                let j = choose|j: int| 0 <= j < given.len() && given[j] == kept[k];
                assert(all[j] == e);
            }
            assert forall|e: Seq<u8>| all.contains(e) implies entries.contains(e) by {
                let j = choose|j: int| 0 <= j < all.len() && all[j] == e;
                assert(given.contains(given[j]));
                let k = choose|k: int| 0 <= k < sorted.len() && sorted[k] == given[j];
                assert(entries.contains(sorted[k]@.take(p)));
            }
        }
        lemma_sorted_entries_of_ascending(entries);
        assert forall|i: int| 0 <= i < kept.len() implies given.contains(#[trigger] kept[i]) by {
            assert(kept[i] == sorted[source[i]]);
            assert(sorted.contains(kept[i]));
        }
        assert forall|i: int, j: int|
            #![trigger kept[i], given[j]]
            0 <= i < kept.len() && 0 <= j < given.len() && given[j]@.take(p) == kept[i]@.take(
                p,
            ) implies !precedes(given[j]@, kept[i]@) by {
            assert(given.contains(given[j]));
            let k = choose|k: int| 0 <= k < sorted.len() && sorted[k] == given[j];
            assert(sorted[k]@.take(p) == kept[i]@.take(p));
        }
    }
}

} // verus!
