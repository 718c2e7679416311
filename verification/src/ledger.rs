//! The deduplicated size ledger: a finite map from unique file identifiers
//! (inodes) to allocated sizes, with a cached running total. Two directory
//! entries that share an identifier (hard links) are charged once.

use vstd::prelude::*;
use vstd::set::fold::{is_fun_commutative, lemma_finite_set_induct, lemma_fold_empty,
    lemma_fold_insert};

verus! {

/// The sum of all values of a finite map: what a size ledger charges in total.
pub open spec fn map_total(m: Map<u64, u64>) -> int {
    m.dom().fold(0int, |acc: int, k: u64| acc + m[k])
}

/// Folding two value sums over the same finite set gives the same result when
/// the two maps agree on every element of the set.
proof fn lemma_fold_sum_congruence(s: Set<u64>, m1: Map<u64, u64>, m2: Map<u64, u64>)
    requires
        s.finite(),
        forall|k: u64| s.contains(k) ==> m1[k] == m2[k],
    ensures
        s.fold(0int, |acc: int, k: u64| acc + m1[k]) == s.fold(
            0int,
            |acc: int, k: u64| acc + m2[k],
        ),
{
    let f1 = |acc: int, k: u64| acc + m1[k];
    let f2 = |acc: int, k: u64| acc + m2[k];
    assert(is_fun_commutative(f1));
    assert(is_fun_commutative(f2));
    let pred = |t: Set<u64>|
        ((forall|k: u64| t.contains(k) ==> m1[k] == m2[k]) ==> t.fold(0int, f1) == t.fold(
            0int,
            f2,
        ));
    assert(pred(Set::<u64>::empty())) by {
        lemma_fold_empty(0int, f1);
        lemma_fold_empty(0int, f2);
    }
    assert forall|t: Set<u64>, a: u64|
        pred(t) && t.finite() && !t.contains(a) implies #[trigger] pred(t.insert(a)) by {
        if forall|k: u64| t.insert(a).contains(k) ==> m1[k] == m2[k] {
            assert(forall|k: u64| t.contains(k) ==> t.insert(a).contains(k));
            lemma_fold_insert(t, 0int, f1, a);
            lemma_fold_insert(t, 0int, f2, a);
            assert(t.insert(a).contains(a));
        }
    }
    lemma_finite_set_induct(s, pred);
    assert(pred(s));
}

/// Inserting a fresh key adds its value to the total.
pub proof fn lemma_map_total_insert(m: Map<u64, u64>, k: u64, v: u64)
    requires
        m.dom().finite(),
        !m.dom().contains(k),
    ensures
        map_total(m.insert(k, v)) == map_total(m) + v,
{
    let m2 = m.insert(k, v);
    let f2 = |acc: int, kk: u64| acc + m2[kk];
    assert(is_fun_commutative(f2));
    assert(m2.dom() =~= m.dom().insert(k));
    lemma_fold_insert(m.dom(), 0int, f2, k);
    lemma_fold_sum_congruence(m.dom(), m, m2);
}

/// Removing a present key subtracts its value from the total.
pub proof fn lemma_map_total_remove(m: Map<u64, u64>, k: u64)
    requires
        m.dom().finite(),
        m.dom().contains(k),
    ensures
        map_total(m) == map_total(m.remove(k)) + m[k],
{
    let mr = m.remove(k);
    assert(mr.dom().finite());
    assert(!mr.dom().contains(k));
    lemma_map_total_insert(mr, k, m[k]);
    assert(mr.insert(k, m[k]) =~= m);
}

/// Overwriting a present key replaces its old value with the new one in the
/// total.
pub proof fn lemma_map_total_overwrite(m: Map<u64, u64>, k: u64, v: u64)
    requires
        m.dom().finite(),
        m.dom().contains(k),
    ensures
        map_total(m.insert(k, v)) == map_total(m) - m[k] + v,
{
    lemma_map_total_remove(m, k);
    lemma_map_total_insert(m.remove(k), k, v);
    assert(m.remove(k).insert(k, v) =~= m.insert(k, v));
}

/// A total of unsigned sizes is never negative.
pub proof fn lemma_map_total_nonneg(m: Map<u64, u64>)
    requires
        m.dom().finite(),
    ensures
        map_total(m) >= 0,
{
    let f = |acc: int, kk: u64| acc + m[kk];
    assert(is_fun_commutative(f));
    let pred = |t: Set<u64>| t.fold(0int, f) >= 0;
    assert(pred(Set::<u64>::empty())) by {
        lemma_fold_empty(0int, f);
    }
    assert forall|t: Set<u64>, a: u64|
        pred(t) && t.finite() && !t.contains(a) implies #[trigger] pred(t.insert(a)) by {
        lemma_fold_insert(t, 0int, f, a);
    }
    lemma_finite_set_induct(m.dom(), pred);
}

/// The total is bounded by the number of keys times the largest size.
pub proof fn lemma_map_total_upper_bound(m: Map<u64, u64>)
    requires
        m.dom().finite(),
    ensures
        map_total(m) <= m.dom().len() * u64::MAX,
{
    let f = |acc: int, kk: u64| acc + m[kk];
    assert(is_fun_commutative(f));
    let pred = |t: Set<u64>| t.finite() && t.fold(0int, f) <= t.len() * u64::MAX;
    assert(pred(Set::<u64>::empty())) by {
        lemma_fold_empty(0int, f);
    }
    assert forall|t: Set<u64>, a: u64|
        pred(t) && t.finite() && !t.contains(a) implies #[trigger] pred(t.insert(a)) by {
        lemma_fold_insert(t, 0int, f, a);
        assert(t.insert(a).len() == t.len() + 1);
        assert((t.len() + 1) * u64::MAX == t.len() * u64::MAX + u64::MAX) by (nonlinear_arith);
    }
    lemma_finite_set_induct(m.dom(), pred);
}

/// An empty ledger charges nothing.
pub proof fn lemma_map_total_empty()
    ensures
        map_total(Map::<u64, u64>::empty()) == 0,
{
    let m = Map::<u64, u64>::empty();
    assert(m.dom() =~= Set::<u64>::empty());
    lemma_fold_empty(0int, |acc: int, k: u64| acc + m[k]);
}

/// No single entry exceeds the total.
pub proof fn lemma_map_total_key_bound(m: Map<u64, u64>, k: u64)
    requires
        m.dom().finite(),
        m.dom().contains(k),
    ensures
        m[k] <= map_total(m),
{
    lemma_map_total_remove(m, k);
    lemma_map_total_nonneg(m.remove(k));
}

/// The map described by a sequence of key-value pairs, later pairs winning.
pub open spec fn pairs_to_map(s: Seq<(u64, u64)>) -> Map<u64, u64>
    decreases s.len(),
{
    if s.len() == 0 {
        Map::empty()
    } else {
        pairs_to_map(s.drop_last()).insert(s.last().0, s.last().1)
    }
}

/// No two pairs of the sequence carry the same key.
pub open spec fn unique_keys(s: Seq<(u64, u64)>) -> bool {
    forall|i: int, j: int| 0 <= i < j < s.len() ==> (#[trigger] s[i]).0 != (#[trigger] s[j]).0
}

/// What `pairs_to_map` holds: a finite map whose keys are exactly the keys of
/// the sequence and whose values, once keys are unique, are the paired ones.
pub proof fn lemma_pairs_to_map_char(s: Seq<(u64, u64)>)
    ensures
        pairs_to_map(s).dom().finite(),
        forall|k: u64|
            pairs_to_map(s).dom().contains(k) <==> exists|i: int|
                0 <= i < s.len() && (#[trigger] s[i]).0 == k,
        unique_keys(s) ==> forall|i: int|
            0 <= i < s.len() ==> pairs_to_map(s)[(#[trigger] s[i]).0] == s[i].1,
    decreases s.len(),
{
    if s.len() > 0 {
        let sd = s.drop_last();
        lemma_pairs_to_map_char(sd);
        assert forall|k: u64| pairs_to_map(s).dom().contains(k) implies exists|i: int|
            0 <= i < s.len() && (#[trigger] s[i]).0 == k by {
            if k == s.last().0 {
                assert((s[s.len() - 1]).0 == k);
            } else {
                let i = choose|i: int| 0 <= i < sd.len() && (#[trigger] sd[i]).0 == k;
                assert((s[i]).0 == k);
            }
        }
        assert forall|k: u64|
            (exists|i: int| 0 <= i < s.len() && (#[trigger] s[i]).0 == k) implies pairs_to_map(
            s,
        ).dom().contains(k) by {
            let i = choose|i: int| 0 <= i < s.len() && (#[trigger] s[i]).0 == k;
            if i < s.len() - 1 {
                assert((sd[i]).0 == k);
            }
        }
        if unique_keys(s) {
            assert(unique_keys(sd)) by {
                assert(forall|i: int|
                    0 <= i < sd.len() ==> (#[trigger] sd[i]).0 == (#[trigger] s[i]).0);
            }
            assert forall|i: int| 0 <= i < s.len() implies pairs_to_map(s)[(#[trigger] s[i]).0]
                == s[i].1 by {
                if i < s.len() - 1 {
                    assert((sd[i]).0 == s[i].0 && (sd[i]).1 == s[i].1);
                    assert(s[i].0 != s.last().0);
                }
            }
        }
    }
}

/// With unique keys, the sequence and the map have the same cardinality.
pub proof fn lemma_pairs_to_map_len(s: Seq<(u64, u64)>)
    requires
        unique_keys(s),
    ensures
        pairs_to_map(s).dom().len() == s.len(),
    decreases s.len(),
{
    lemma_pairs_to_map_char(s);
    if s.len() > 0 {
        let sd = s.drop_last();
        assert(unique_keys(sd)) by {
            assert(forall|i: int| 0 <= i < sd.len() ==> (#[trigger] sd[i]).0 == (#[trigger] s[i]).0);
        }
        lemma_pairs_to_map_len(sd);
        lemma_pairs_to_map_char(sd);
        assert(!pairs_to_map(sd).dom().contains(s.last().0)) by {
            if pairs_to_map(sd).dom().contains(s.last().0) {
                let i = choose|i: int| 0 <= i < sd.len() && (#[trigger] sd[i]).0 == s.last().0;
                assert((s[i]).0 == (s[s.len() - 1]).0);
            }
        }
        assert(pairs_to_map(s).dom() =~= pairs_to_map(sd).dom().insert(s.last().0));
    } else {
        assert(pairs_to_map(s).dom() =~= Set::<u64>::empty());
    }
}

/// A deduplicated file-size ledger: maps unique file identifiers to allocated
/// sizes and keeps the running total of all recorded sizes.
#[derive(Debug)]
pub struct SizeLedger {
    entries: Vec<(u64, u64)>,
    total: u128,
}

impl View for SizeLedger {
    type V = Map<u64, u64>;

    closed spec fn view(&self) -> Map<u64, u64> {
        pairs_to_map(self.entries@)
    }
}

impl SizeLedger {
    /// Well-formedness: no duplicate identifiers, and the cached total is the
    /// sum of the recorded sizes. Constructors establish it and every method
    /// preserves it.
    pub closed spec fn wf(self) -> bool {
        &&& unique_keys(self.entries@)
        &&& self.total == map_total(pairs_to_map(self.entries@))
    }

    /// The key set of a ledger is always finite.
    pub proof fn lemma_dom_finite(&self)
        ensures
            self@.dom().finite(),
    {
        lemma_pairs_to_map_char(self.entries@);
    }

    /// An empty ledger.
    pub fn new() -> (r: Self)
        ensures
            r.wf(),
            r@ == Map::<u64, u64>::empty(),
    {
        let r = SizeLedger { entries: Vec::new(), total: 0 };
        proof {
            assert(pairs_to_map(r.entries@).dom() =~= Set::<u64>::empty());
            lemma_fold_empty(0int, |acc: int, k: u64| acc + pairs_to_map(r.entries@)[k]);
        }
        r
    }

    /// Whether `id` is already recorded.
    pub fn contains_key(&self, id: u64) -> (r: bool)
        ensures
            r == self@.dom().contains(id),
    {
        proof {
            lemma_pairs_to_map_char(self.entries@);
        }
        let n = self.entries.len();
        let mut i: usize = 0;
        while i < n
            invariant
                i <= n,
                n == self.entries@.len(),
                forall|j: int| 0 <= j < i ==> (#[trigger] self.entries@[j]).0 != id,
            decreases n - i,
        {
            if self.entries[i].0 == id {
                proof {
                    lemma_pairs_to_map_char(self.entries@);
                }
                return true;
            }
            i = i + 1;
        }
        proof {
            lemma_pairs_to_map_char(self.entries@);
        }
        false
    }

    /// Records `size` for `id`, replacing any size previously recorded for the
    /// same identifier.
    pub fn insert(&mut self, id: u64, size: u64)
        requires
            old(self).wf(),
        ensures
            final(self).wf(),
            final(self)@ == old(self)@.insert(id, size),
    {
        let n = self.entries.len();
        let ghost s = self.entries@;
        let ghost m = pairs_to_map(s);
        let mut i: usize = 0;
        while i < n
            invariant
                i <= n,
                n == self.entries@.len(),
                *self == *old(self),
                old(self).wf(),
                s == self.entries@,
                m == pairs_to_map(s),
                forall|j: int| 0 <= j < i ==> (#[trigger] self.entries@[j]).0 != id,
            decreases n - i,
        {
            if self.entries[i].0 == id {
                // Overwrite: drop the old pair, then record the new one.
                proof {
                    lemma_pairs_to_map_char(s);
                    lemma_pairs_to_map_len(s);
                    lemma_map_total_nonneg(m);
                    lemma_map_total_upper_bound(m);
                    lemma_map_total_key_bound(m, id);
                    assert(m.dom().len() == s.len());
                    assert(s.len() <= usize::MAX);
                    assert(usize::MAX as int * u64::MAX as int + u64::MAX <= u128::MAX)
                        by (nonlinear_arith);
                    assert(m.dom().len() * u64::MAX <= usize::MAX as int * u64::MAX as int)
                        by (nonlinear_arith)
                        requires
                            m.dom().len() <= usize::MAX,
                    ;
                    assert(m[id] == s[i as int].1);
                }
                let old_pair = self.entries.remove(i);
                let ghost s1 = self.entries@;
                self.entries.push((id, size));
                let new_total = self.total - old_pair.1 as u128 + size as u128;
                proof {
                    assert(old_pair == s[i as int]);
                    assert(s1 =~= s.remove(i as int));
                    assert(forall|j: int|
                        0 <= j < i ==> #[trigger] s1[j] == s[j]);
                    assert(forall|j: int|
                        i <= j < s1.len() ==> #[trigger] s1[j] == s[j + 1]);
                    assert(unique_keys(s1)) by {
                        assert forall|a: int, b: int| 0 <= a < b < s1.len() implies (
                        #[trigger] s1[a]).0 != (#[trigger] s1[b]).0 by {
                            let a0: int = if a < i { a } else { a + 1 };
                            let b0: int = if b < i { b } else { b + 1 };
                            assert(s1[a] == s[a0] && s1[b] == s[b0]);
                        }
                    }
                    lemma_pairs_to_map_char(s1);
                    assert(forall|j: int|
                        0 <= j < s1.len() ==> (#[trigger] s1[j]).0 != id);
                    assert(pairs_to_map(s1) =~= m.remove(id)) by {
                        assert forall|k: u64| pairs_to_map(s1).dom().contains(k) implies m.remove(
                            id,
                        ).dom().contains(k) by {
                            let j = choose|j: int|
                                0 <= j < s1.len() && (#[trigger] s1[j]).0 == k;
                            let j0: int = if j < i { j } else { j + 1 };
                            assert(s[j0].0 == k);
                        }
                        assert forall|k: u64| m.remove(id).dom().contains(k) implies pairs_to_map(
                            s1,
                        ).dom().contains(k) by {
                            let j = choose|j: int| 0 <= j < s.len() && (#[trigger] s[j]).0 == k;
                            assert(j != i);
                            let j1: int = if j < i { j } else { j - 1 };
                            assert(s1[j1].0 == k);
                        }
                        assert forall|k: u64|
                            pairs_to_map(s1).dom().contains(k) implies pairs_to_map(s1)[k]
                            == m.remove(id)[k] by {
                            let j = choose|j: int|
                                0 <= j < s1.len() && (#[trigger] s1[j]).0 == k;
                            let j0: int = if j < i { j } else { j + 1 };
                            assert(s[j0].0 == k && s[j0].1 == s1[j].1);
                            assert(pairs_to_map(s1)[k] == s1[j].1);
                            assert(m[k] == s[j0].1);
                        }
                    }
                    let s2 = self.entries@;
                    assert(s2.drop_last() =~= s1);
                    assert(pairs_to_map(s2) == pairs_to_map(s1).insert(id, size));
                    assert(pairs_to_map(s2) =~= m.insert(id, size));
                    assert(unique_keys(s2)) by {
                        assert(forall|j: int|
                            0 <= j < s1.len() ==> #[trigger] s2[j] == s1[j]);
                        assert(s2.last().0 == id);
                    }
                    // The cached total follows the overwrite.
                    assert(m[id] == old_pair.1) by {
                        lemma_pairs_to_map_char(s);
                    }
                    lemma_map_total_overwrite(m, id, size);
                    lemma_map_total_key_bound(m, id);
                }
                self.total = new_total;
                return ;
            }
            i = i + 1;
        }
        // Fresh key: append it and grow the total.
        self.entries.push((id, size));
        proof {
            lemma_pairs_to_map_char(s);
            lemma_pairs_to_map_len(s);
            lemma_map_total_nonneg(m);
            lemma_map_total_upper_bound(m);
            let s2 = self.entries@;
            assert(s2.drop_last() =~= s);
            assert(pairs_to_map(s2) == m.insert(id, size));
            assert(forall|j: int| 0 <= j < s.len() ==> (#[trigger] s[j]).0 != id);
            assert(unique_keys(s2)) by {
                assert(forall|j: int| 0 <= j < s.len() ==> #[trigger] s2[j] == s[j]);
                assert(s2.last().0 == id);
            }
            assert(!m.dom().contains(id)) by {
                lemma_pairs_to_map_char(s);
            }
            lemma_map_total_insert(m, id, size);
            // No overflow: the old total is bounded by the number of keys
            // times the largest size, and the key count fits in usize.
            assert(m.dom().len() == s.len());
            assert(s.len() <= usize::MAX);
            assert(usize::MAX as int * u64::MAX as int + u64::MAX <= u128::MAX) by (nonlinear_arith);
            assert(m.dom().len() * u64::MAX <= usize::MAX as int * u64::MAX as int)
                by (nonlinear_arith)
                requires
                    m.dom().len() <= usize::MAX,
            ;
            assert(self.total + size as u128 <= u128::MAX);
        }
        self.total = self.total + size as u128;
    }

    /// Takes every entry of `other` whose identifier is not yet recorded here;
    /// identifiers already present keep their recorded size.
    pub fn absorb(&mut self, other: &Self)
        requires
            old(self).wf(),
            other.wf(),
        ensures
            final(self).wf(),
            final(self)@ == other@.union_prefer_right(old(self)@),
    {
        proof {
            lemma_pairs_to_map_char(other.entries@);
        }
        let ghost om = other@;
        let ghost oldm = self@;
        let n = other.entries.len();
        let mut i: usize = 0;
        while i < n
            invariant
                i <= n,
                n == other.entries@.len(),
                om == pairs_to_map(other.entries@),
                unique_keys(other.entries@),
                self.wf(),
                self@ == pairs_to_map(other.entries@.take(i as int)).union_prefer_right(oldm),
            decreases n - i,
        {
            let ghost oe = other.entries@;
            let ghost pm = pairs_to_map(oe.take(i as int));
            let pair = other.entries[i];
            proof {
                lemma_pairs_to_map_char(oe.take(i as int));
                assert(oe.take(i as int + 1).drop_last() =~= oe.take(i as int));
                assert(oe.take(i as int + 1).last() == oe[i as int]);
                assert(pairs_to_map(oe.take(i as int + 1)) == pm.insert(pair.0, pair.1));
                // The identifier at position `i` was not seen at an earlier
                // position, so it is absent from the processed prefix.
                assert(!pm.dom().contains(pair.0)) by {
                    if pm.dom().contains(pair.0) {
                        let j = choose|j: int|
                            0 <= j < i && (#[trigger] oe.take(i as int)[j]).0 == pair.0;
                        assert((oe[j]).0 == (oe[i as int]).0);
                    }
                }
            }
            if !self.contains_key(pair.0) {
                self.insert(pair.0, pair.1);
                proof {
                    assert(self@ =~= pairs_to_map(oe.take(i as int + 1)).union_prefer_right(oldm));
                }
            } else {
                proof {
                    assert(self@ =~= pairs_to_map(oe.take(i as int + 1)).union_prefer_right(oldm));
                }
            }
            i = i + 1;
        }
        proof {
            assert(other.entries@.take(n as int) =~= other.entries@);
        }
    }

    /// The sum of every recorded size.
    pub fn total(&self) -> (r: u128)
        requires
            self.wf(),
        ensures
            r == map_total(self@),
    {
        self.total
    }
}

} // verus!
