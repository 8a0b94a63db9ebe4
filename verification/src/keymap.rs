//! A small map from integer keys to values, kept in insertion order.

use vstd::prelude::*;

verus! {

/// Entries in insertion order; a key is entered once.
#[derive(Debug, Clone)]
pub struct KeyMap<V> {
    pub entries: Vec<(u64, V)>,
}

/// The value entered under `k` (the last entry for it).
pub open spec fn km_lookup<V>(entries: Seq<(u64, V)>, k: u64) -> Option<V>
    decreases entries.len(),
{
    if entries.len() == 0 {
        None
    } else if entries.last().0 == k {
        Some(entries.last().1)
    } else {
        km_lookup(entries.drop_last(), k)
    }
}

/// A value found under a key is one of the entries.
pub proof fn lemma_km_lookup_entry<V>(entries: Seq<(u64, V)>, k: u64)
    ensures
        km_lookup(entries, k) is Some ==> exists|i: int| 0 <= i < entries.len() && (#[trigger] entries[i]) == (k, km_lookup(entries, k)->0),
        km_lookup(entries, k) is None ==> forall|i: int| 0 <= i < entries.len() ==> (#[trigger] entries[i]).0 != k,
    decreases entries.len(),
{
    if entries.len() > 0 {
        lemma_km_lookup_entry(entries.drop_last(), k);
        if entries.last().0 == k {
            assert(entries[entries.len() - 1] == (k, km_lookup(entries, k)->0));
        } else if km_lookup(entries, k) is Some {
            let i = choose|i: int| 0 <= i < entries.drop_last().len() && (#[trigger] entries.drop_last()[i]) == (k, km_lookup(entries, k)->0);
            assert(entries[i] == entries.drop_last()[i]);
        } else {
            assert forall|i: int| 0 <= i < entries.len() implies (#[trigger] entries[i]).0 != k by {
                if i < entries.len() - 1 {
                    assert(entries[i] == entries.drop_last()[i]);
                }
            }
        }
    }
}

/// Appending an entry changes the lookup of its key only.
pub proof fn lemma_km_push<V>(entries: Seq<(u64, V)>, k: u64, v: V, q: u64)
    ensures
        km_lookup(entries.push((k, v)), q) == if q == k { Some(v) } else { km_lookup(entries, q) },
{
    assert(entries.push((k, v)).drop_last() =~= entries);
}

impl<V: Copy> KeyMap<V> {
    pub fn new() -> (m: KeyMap<V>)
        ensures
            m.entries@.len() == 0,
    {
        KeyMap { entries: Vec::new() }
    }

    /// The value entered under `k`.
    pub fn get(&self, k: u64) -> (r: Option<V>)
        ensures
            r == km_lookup(self.entries@, k),
    {
        let mut i = self.entries.len();
        assert(self.entries@.subrange(0, i as int) =~= self.entries@);
        while i > 0
            invariant
                i <= self.entries@.len(),
                km_lookup(self.entries@, k) == km_lookup(self.entries@.subrange(0, i as int), k),
            decreases i,
        {
            assert(self.entries@.subrange(0, i as int).drop_last() =~= self.entries@.subrange(0, i - 1));
            if self.entries[i - 1].0 == k {
                return Some(self.entries[i - 1].1);
            }
            i = i - 1;
        }
        None
    }

    /// Enters `v` under a key not yet present.
    pub fn insert_new(&mut self, k: u64, v: V)
        requires
            km_lookup(old(self).entries@, k) is None,
        ensures
            final(self).entries@ == old(self).entries@.push((k, v)),
            forall|q: u64| #[trigger] km_lookup(final(self).entries@, q) == if q == k { Some(v) } else { km_lookup(old(self).entries@, q) },
    {
        let ghost before = self.entries@;
        self.entries.push((k, v));
        proof {
            assert forall|q: u64| #[trigger] km_lookup(self.entries@, q) == if q == k { Some(v) } else { km_lookup(before, q) } by {
                lemma_km_push(before, k, v, q);
            }
        }
    }
}

/// Key of a pair of 32-bit ids.
pub open spec fn pair_key_spec(a: u32, b: u32) -> u64 {
    (a as int * 0x1_0000_0000 + b as int) as u64
}

/// Key of a pair of 32-bit ids; distinct pairs have distinct keys.
pub fn pair_key(a: u32, b: u32) -> (k: u64)
    ensures
        k == pair_key_spec(a, b),
        k as int == a as int * 0x1_0000_0000 + b as int,
{
    assert(a as int * 0x1_0000_0000 + b as int <= u64::MAX) by (nonlinear_arith)
        requires
            a <= u32::MAX,
            b <= u32::MAX,
    ;
    (a as u64) * 0x1_0000_0000 + (b as u64)
}

/// Pair keys are injective.
pub proof fn lemma_pair_key_injective(a1: u32, b1: u32, a2: u32, b2: u32)
    requires
        pair_key_spec(a1, b1) == pair_key_spec(a2, b2),
    ensures
        a1 == a2 && b1 == b2,
{
    assert(a1 as int * 0x1_0000_0000 + b1 as int <= u64::MAX) by (nonlinear_arith)
        requires a1 <= u32::MAX, b1 <= u32::MAX;
    assert(a2 as int * 0x1_0000_0000 + b2 as int <= u64::MAX) by (nonlinear_arith)
        requires a2 <= u32::MAX, b2 <= u32::MAX;
    assert(a1 == a2 && b1 == b2) by (nonlinear_arith)
        requires
            a1 as int * 0x1_0000_0000 + b1 as int == a2 as int * 0x1_0000_0000 + b2 as int,
            0 <= b1 < 0x1_0000_0000,
            0 <= b2 < 0x1_0000_0000,
            a1 >= 0, a2 >= 0;
}

} // verus!
