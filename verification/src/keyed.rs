//! Small maps keyed by address, kept as vectors of `(key, value)` pairs.
//! The value of a key is that of its last pair.
use vstd::prelude::*;
use crate::types::Address;

verus! {

/// The value stored for `k`: that of the last pair whose key is `k`.
pub open spec fn lookup<V>(s: Seq<(Address, V)>, k: Address) -> Option<V>
    decreases s.len(),
{
    if s.len() == 0 {
        None
    } else if s.last().0 == k {
        Some(s.last().1)
    } else {
        lookup(s.drop_last(), k)
    }
}

/// Pairs past the last pair of `k` do not change its value.
proof fn lemma_lookup_prefix<V>(s: Seq<(Address, V)>, k: Address, i: int)
    requires
        0 <= i <= s.len(),
        forall|j: int| i <= j < s.len() ==> s[j].0 != k,
    ensures
        lookup(s, k) == lookup(s.subrange(0, i), k),
    decreases s.len() - i,
{
    if i < s.len() {
        assert(s.drop_last() =~= s.subrange(0, s.len() - 1));
        lemma_lookup_prefix(s.drop_last(), k, i);
        assert(s.drop_last().subrange(0, i) =~= s.subrange(0, i));
    } else {
        assert(s.subrange(0, i) =~= s);
    }
}

/// Overwriting the last pair of `k` changes the value of `k` only.
proof fn lemma_lookup_update<V>(s: Seq<(Address, V)>, k: Address, i: int, v: V, a: Address)
    requires
        0 <= i < s.len(),
        s[i].0 == k,
        forall|j: int| i < j < s.len() ==> s[j].0 != k,
    ensures
        lookup(s.update(i, (k, v)), a) == if a == k {
            Some(v)
        } else {
            lookup(s, a)
        },
    decreases s.len(),
{
    let t = s.update(i, (k, v));
    if i == s.len() - 1 {
        assert(t.drop_last() =~= s.drop_last());
    } else {
        assert(t.drop_last() =~= s.drop_last().update(i, (k, v)));
        lemma_lookup_update(s.drop_last(), k, i, v, a);
    }
}

/// Appending a pair for a new key adds that key only.
proof fn lemma_lookup_push<V>(s: Seq<(Address, V)>, k: Address, v: V, a: Address)
    ensures
        lookup(s.push((k, v)), a) == if a == k {
            Some(v)
        } else {
            lookup(s, a)
        },
{
    assert(s.push((k, v)).drop_last() =~= s);
}

/// A key that has a value has a pair holding that value.
pub proof fn lemma_lookup_some<V>(s: Seq<(Address, V)>, k: Address)
    ensures
        lookup(s, k) matches Some(v) ==> exists|i: int| 0 <= i < s.len() && s[i].0 == k && s[i].1 == v,
    decreases s.len(),
{
    if s.len() > 0 {
        if s.last().0 == k {
            assert(s[s.len() - 1] == s.last());
        } else {
            lemma_lookup_some(s.drop_last(), k);
            if lookup(s, k) is Some {
                let v = lookup(s, k)->Some_0;
                let i = choose|i: int| 0 <= i < s.drop_last().len() && s.drop_last()[i].0 == k
                    && s.drop_last()[i].1 == v;
                assert(s[i] == s.drop_last()[i]);
            }
        }
    }
}

/// The index of the last pair whose key is `k`.
pub fn find_key<V: Copy>(s: &Vec<(Address, V)>, k: &Address) -> (r: Option<usize>)
    ensures
        r is None ==> lookup(s@, *k) is None && forall|j: int| 0 <= j < s@.len() ==> s@[j].0 != *k,
        r matches Some(i) ==> i < s@.len() && s@[i as int].0 == *k && lookup(s@, *k) == Some(
            s@[i as int].1,
        ) && forall|j: int| i < j < s@.len() ==> s@[j].0 != *k,
{
    let mut i: usize = s.len();
    while i > 0
        invariant
            i <= s@.len(),
            forall|j: int| i <= j < s@.len() ==> s@[j].0 != *k,
        decreases i,
    {
        if s[i - 1].0 == *k {
            proof {
                lemma_lookup_prefix(s@, *k, i as int);
                assert(s@.subrange(0, i as int).drop_last() =~= s@.subrange(0, i - 1));
            }
            return Some(i - 1);
        }
        i -= 1;
    }
    proof {
        lemma_lookup_prefix(s@, *k, 0);
    }
    None
}

/// The value of `k`, if any.
pub fn get_value<V: Copy>(s: &Vec<(Address, V)>, k: &Address) -> (r: Option<V>)
    ensures
        r == lookup(s@, *k),
{
    match find_key(s, k) {
        None => None,
        Some(i) => Some(s[i].1),
    }
}

/// Set the value of `k` to `v`, leaving every other key as it was.
pub fn put_value<V: Copy>(s: &mut Vec<(Address, V)>, k: Address, v: V)
    ensures
        forall|a: Address| #[trigger]
            lookup(final(s)@, a) == if a == k {
                Some(v)
            } else {
                lookup(old(s)@, a)
            },
{
    match find_key(s, &k) {
        None => {
            s.push((k, v));
            proof {
                assert forall|a: Address| #[trigger]
                    lookup(s@, a) == if a == k {
                        Some(v)
                    } else {
                        lookup(old(s)@, a)
                    } by {
                    lemma_lookup_push(old(s)@, k, v, a);
                }
            }
        },
        Some(i) => {
            s.set(i, (k, v));
            proof {
                assert forall|a: Address| #[trigger]
                    lookup(s@, a) == if a == k {
                        Some(v)
                    } else {
                        lookup(old(s)@, a)
                    } by {
                    lemma_lookup_update(old(s)@, k, i as int, v, a);
                }
            }
        },
    }
}

} // verus!
