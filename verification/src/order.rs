//! The lexicographic order on byte strings, and strictly ascending sequences of them.

use vstd::prelude::*;

verus! {

/// The two byte strings agree on their first `k` bytes, and both have that many.
pub open spec fn agree(a: Seq<u8>, b: Seq<u8>, k: int) -> bool {
    &&& 0 <= k <= a.len()
    &&& k <= b.len()
    &&& forall|j: int| 0 <= j < k ==> a[j] == b[j]
}

/// `a` comes strictly before `b` in lexicographic order: after some common prefix, `a` either
/// ends first or continues with the smaller byte.
pub open spec fn precedes(a: Seq<u8>, b: Seq<u8>) -> bool {
    exists|k: int| #[trigger] agree(a, b, k) && k < b.len() && (k == a.len() || a[k] < b[k])
}

/// Every entry comes strictly before all later ones: sorted, without duplicates.
pub open spec fn strictly_ascending(entries: Seq<Seq<u8>>) -> bool {
    forall|i: int, j: int|
        0 <= i < j < entries.len() ==> #[trigger] precedes(entries[i], entries[j])
}

/// The members of a set of byte strings in ascending order.
pub open spec fn sorted_entries(members: Set<Seq<u8>>) -> Seq<Seq<u8>> {
    choose|s: Seq<Seq<u8>>| strictly_ascending(s) && s.to_set() == members
}

/// How one byte string compares to another.
#[derive(Debug, Clone, Copy, PartialEq, Eq, Structural)]
pub enum Order {
    /// It comes strictly before the other.
    Before,
    /// The two are the same.
    Same,
    /// It comes strictly after the other.
    After,
}

/// Compare two byte strings lexicographically.
pub fn compare(a: &[u8], b: &[u8]) -> (order: Order)
    ensures
        order is Before <==> precedes(a@, b@),
        order is Same <==> a@ == b@,
        order is After <==> precedes(b@, a@),
{
    let mut k: usize = 0;
    proof {
        lemma_trichotomy(a@, b@);
    }
    while k < a.len() && k < b.len()
        invariant
            agree(a@, b@, k as int),
            precedes(a@, b@) ==> a@ != b@ && !precedes(b@, a@),
            precedes(b@, a@) ==> a@ != b@,
        decreases a.len() - k,
    {
        if a[k] < b[k] {
            return Order::Before;
        }
        if b[k] < a[k] {
            assert(agree(b@, a@, k as int));
            return Order::After;
        }
        k += 1;
    }
    if k < b.len() {
        Order::Before
    } else if k < a.len() {
        assert(agree(b@, a@, k as int));
        Order::After
    } else {
        assert(a@ =~= b@);
        Order::Same
    }
}

/// No byte string comes before itself.
pub proof fn lemma_irreflexive(a: Seq<u8>)
    ensures
        !precedes(a, a),
{
}

/// The order is transitive.
pub proof fn lemma_transitive(a: Seq<u8>, b: Seq<u8>, c: Seq<u8>)
    requires
        precedes(a, b),
        precedes(b, c),
    ensures
        precedes(a, c),
{
    let k = choose|k: int| #[trigger] agree(a, b, k) && k < b.len() && (k == a.len() || a[k] < b[k]);
    let m = choose|m: int| #[trigger] agree(b, c, m) && m < c.len() && (m == b.len() || b[m] < c[m]);
    if k <= m {
        assert(agree(a, c, k));
    } else {
        assert(agree(a, c, m));
    }
}

/// Of two byte strings exactly one of these holds: the first precedes, they are equal, the
/// second precedes.
pub proof fn lemma_trichotomy(a: Seq<u8>, b: Seq<u8>)
    ensures
        precedes(a, b) || a == b || precedes(b, a),
        precedes(a, b) ==> a != b && !precedes(b, a),
        precedes(b, a) ==> a != b,
{
    lemma_irreflexive(a);
    if precedes(a, b) && precedes(b, a) {
        lemma_transitive(a, b, a);
    }
    lemma_comparable(a, b, 0);
}

proof fn lemma_comparable(a: Seq<u8>, b: Seq<u8>, k: int)
    requires
        agree(a, b, k),
    ensures
        precedes(a, b) || a == b || precedes(b, a),
    decreases a.len() - k,
{
    assert(agree(b, a, k));
    if k < a.len() && k < b.len() && a[k] == b[k] {
        assert(agree(a, b, k + 1));
        lemma_comparable(a, b, k + 1);
    } else if k == a.len() && k == b.len() {
        assert(a =~= b);
    }
}

/// Cutting two ordered byte strings to a common length keeps their order, though it may make
/// them equal.
pub proof fn lemma_prefix_order(a: Seq<u8>, b: Seq<u8>, p: int)
    requires
        0 <= p <= a.len(),
        p <= b.len(),
        precedes(a, b),
    ensures
        precedes(a.take(p), b.take(p)) || a.take(p) == b.take(p),
{
    let k = choose|k: int| #[trigger] agree(a, b, k) && k < b.len() && (k == a.len() || a[k] < b[k]);
    if k < p {
        assert(agree(a.take(p), b.take(p), k));
    } else {
        assert(a.take(p) =~= b.take(p));
    }
}

/// A strictly ascending sequence holds nothing twice.
pub proof fn lemma_ascending_distinct(s: Seq<Seq<u8>>)
    requires
        strictly_ascending(s),
    ensures
        s.no_duplicates(),
        s.to_set().finite(),
        s.to_set().len() == s.len(),
{
    assert forall|i: int, j: int| 0 <= i < s.len() && 0 <= j < s.len() && i != j implies s[i]
        != s[j] by {
        lemma_irreflexive(s[i]);
        if i < j {
            assert(precedes(s[i], s[j]));
        } else {
            assert(precedes(s[j], s[i]));
        }
    }
    s.unique_seq_to_set();
    vstd::seq_lib::seq_to_set_is_finite(s);
}

/// Two strictly ascending sequences with the same members are the same sequence.
pub proof fn lemma_ascending_unique(s: Seq<Seq<u8>>, t: Seq<Seq<u8>>)
    requires
        strictly_ascending(s),
        strictly_ascending(t),
        s.to_set() == t.to_set(),
    ensures
        s == t,
    decreases s.len(),
{
    lemma_ascending_distinct(s);
    lemma_ascending_distinct(t);
    if s.len() == 0 {
        assert(s =~= t);
    } else {
        let n = s.len() - 1;
        assert(s.to_set().contains(s[n]));
        assert(t.to_set().contains(t[n]));
        assert(s.last() == t.last()) by {
            let i = choose|i: int| 0 <= i < t.len() && t[i] == s[n];
            let j = choose|j: int| 0 <= j < s.len() && s[j] == t[n];
            if i < n && j < n {
                assert(precedes(t[i], t[n]));
                assert(precedes(s[j], s[n]));
                lemma_trichotomy(s[n], t[n]);
            }
        }
        let s0 = s.drop_last();
        let t0 = t.drop_last();
        assert(s0.to_set() =~= t0.to_set()) by {
            assert forall|e: Seq<u8>| s0.contains(e) implies t0.contains(e) by {
                let i = choose|i: int| 0 <= i < s0.len() && s0[i] == e;
                assert(s[i] == e);
                assert(s.to_set().contains(e));
                let j = choose|j: int| 0 <= j < t.len() && t[j] == e;
                assert(j != n);
                assert(t0[j] == e);
            }
            assert forall|e: Seq<u8>| t0.contains(e) implies s0.contains(e) by {
                let i = choose|i: int| 0 <= i < t0.len() && t0[i] == e;
                assert(t[i] == e);
                assert(t.to_set().contains(e));
                let j = choose|j: int| 0 <= j < s.len() && s[j] == e;
                assert(j != n);
                assert(s0[j] == e);
            }
        }
        assert forall|i: int, j: int| 0 <= i < j < s0.len() implies #[trigger] precedes(
            s0[i],
            s0[j],
        ) by {
            assert(precedes(s[i], s[j]));
        }
        assert forall|i: int, j: int| 0 <= i < j < t0.len() implies #[trigger] precedes(
            t0[i],
            t0[j],
        ) by {
            assert(precedes(t[i], t[j]));
        }
        lemma_ascending_unique(s0, t0);
        assert(s =~= s0.push(s.last()));
        assert(t =~= t0.push(t.last()));
    }
}

/// A strictly ascending sequence is the sorted listing of its own members.
pub proof fn lemma_sorted_entries_of_ascending(s: Seq<Seq<u8>>)
    requires
        strictly_ascending(s),
    ensures
        sorted_entries(s.to_set()) == s,
{
    let t = sorted_entries(s.to_set());
    assert(strictly_ascending(t) && t.to_set() == s.to_set());
    lemma_ascending_unique(t, s);
}

/// Joining two ascending sequences, all of the first before all of the second, gives an
/// ascending sequence of the members of both.
pub proof fn lemma_ascending_concat(s: Seq<Seq<u8>>, t: Seq<Seq<u8>>)
    requires
        strictly_ascending(s),
        strictly_ascending(t),
        forall|i: int, j: int|
            0 <= i < s.len() && 0 <= j < t.len() ==> #[trigger] precedes(s[i], t[j]),
    ensures
        strictly_ascending(s + t),
        (s + t).to_set() == s.to_set().union(t.to_set()),
{
    let u = s + t;
    assert forall|i: int, j: int| 0 <= i < j < u.len() implies #[trigger] precedes(u[i], u[j]) by {
        if j < s.len() {
            assert(precedes(s[i], s[j]));
        } else if i < s.len() {
            assert(precedes(s[i], t[j - s.len()]));
        } else {
            assert(precedes(t[i - s.len()], t[j - s.len()]));
        }
    }
    assert forall|e: Seq<u8>| u.contains(e) <==> s.contains(e) || t.contains(e) by {
        if s.contains(e) {
            let i = choose|i: int| 0 <= i < s.len() && s[i] == e;
            assert(u[i] == e);
        }
        if t.contains(e) {
            let i = choose|i: int| 0 <= i < t.len() && t[i] == e;
            assert(u[s.len() + i] == e);
        }
        if u.contains(e) {
            let i = choose|i: int| 0 <= i < u.len() && u[i] == e;
            if i < s.len() {
                assert(s[i] == e);
            } else {
                assert(t[i - s.len()] == e);
            }
        }
    }
    assert(u.to_set() =~= s.to_set().union(t.to_set()));
}

/// Every finite set of byte strings has a sorted listing.
pub proof fn lemma_sorted_entries(members: Set<Seq<u8>>)
    requires
        members.finite(),
    ensures
        strictly_ascending(sorted_entries(members)),
        sorted_entries(members).to_set() == members,
        sorted_entries(members).len() == members.len(),
    decreases members.len(),
{
    if members.len() == 0 {
        let s = Seq::<Seq<u8>>::empty();
        assert(s.to_set() =~= members);
        lemma_sorted_entries_of_ascending(s);
    } else {
        let x = members.choose();
        let below = members.filter(|e: Seq<u8>| precedes(e, x));
        let above = members.filter(|e: Seq<u8>| precedes(x, e));
        assert(below.subset_of(members.remove(x))) by {
            lemma_irreflexive(x);
        }
        assert(above.subset_of(members.remove(x))) by {
            lemma_irreflexive(x);
        }
        vstd::set_lib::lemma_len_subset(below, members.remove(x));
        vstd::set_lib::lemma_len_subset(above, members.remove(x));
        lemma_sorted_entries(below);
        lemma_sorted_entries(above);
        let lo = sorted_entries(below);
        let hi = sorted_entries(above);
        let mid = seq![x];
        assert forall|i: int, j: int| 0 <= i < lo.len() && 0 <= j < mid.len() implies
            #[trigger] precedes(lo[i], mid[j]) by {
            assert(lo.to_set().contains(lo[i]));
        }
        lemma_ascending_concat(lo, mid);
        let lm = lo + mid;
        assert forall|i: int, j: int| 0 <= i < lm.len() && 0 <= j < hi.len() implies
            #[trigger] precedes(lm[i], hi[j]) by {
            assert(hi.to_set().contains(hi[j]));
            if i < lo.len() {
                assert(lo.to_set().contains(lo[i]));
                lemma_transitive(lo[i], x, hi[j]);
            }
        }
        lemma_ascending_concat(lm, hi);
        let all = lm + hi;
        assert(all.to_set() =~= members) by {
            assert forall|e: Seq<u8>| all.to_set().contains(e) <==> members.contains(e) by {
                lemma_trichotomy(e, x);
                assert(mid[0] == x);
                assert(mid.to_set().contains(e) <==> e == x);
            }
        }
        lemma_sorted_entries_of_ascending(all);
        lemma_ascending_distinct(all);
    }
}

} // verus!
