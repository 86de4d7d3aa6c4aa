use vstd::prelude::*;

verus! {

use vstd::pervasive::VecAdditionalExecFns;

/// First value stored under key `k`, if any.
pub open spec fn alist_lookup<V>(s: Seq<(u64, V)>, k: u64) -> Option<V>
    decreases s.len(),
{
    if s.len() == 0 {
        None
    } else if s[0].0 == k {
        Some(s[0].1)
    } else {
        alist_lookup(s.drop_first(), k)
    }
}

pub open spec fn alist_has<V>(s: Seq<(u64, V)>, k: u64) -> bool {
    alist_lookup(s, k) is Some
}

/// Store `v` under `k`: overwrite the first entry with that key, or append.
pub open spec fn alist_update<V>(s: Seq<(u64, V)>, k: u64, v: V) -> Seq<(u64, V)>
    decreases s.len(),
{
    if s.len() == 0 {
        seq![(k, v)]
    } else if s[0].0 == k {
        seq![(k, v)] + s.drop_first()
    } else {
        seq![s[0]] + alist_update(s.drop_first(), k, v)
    }
}

/// Drop the first entry with key `k`, if any.
pub open spec fn alist_remove<V>(s: Seq<(u64, V)>, k: u64) -> Seq<(u64, V)>
    decreases s.len(),
{
    if s.len() == 0 {
        s
    } else if s[0].0 == k {
        s.drop_first()
    } else {
        seq![s[0]] + alist_remove(s.drop_first(), k)
    }
}

/// No key occurs twice.
pub open spec fn alist_unique<V>(s: Seq<(u64, V)>) -> bool
    decreases s.len(),
{
    s.len() == 0 || (!alist_has(s.drop_first(), s[0].0) && alist_unique(s.drop_first()))
}

/// A hit at index `i`, with all earlier entries missing the key, is what
/// the recursive lookup finds.
pub proof fn lemma_alist_at<V>(s: Seq<(u64, V)>, k: u64, i: int)
    requires
        0 <= i < s.len(),
        forall|j: int| 0 <= j < i ==> (#[trigger] s[j]).0 != k,
        s[i].0 == k,
    ensures
        alist_lookup(s, k) == Some(s[i].1),
        alist_remove(s, k) == s.remove(i),
    decreases i,
{
    if i == 0 {
        assert(s.remove(0) =~= s.drop_first());
    } else {
        lemma_alist_at(s.drop_first(), k, i - 1);
        assert(s.drop_first()[i - 1] == s[i]);
        assert(seq![s[0]] + s.drop_first().remove(i - 1) =~= s.remove(i));
    }
}

/// Same, for the shape the update takes.
pub proof fn lemma_alist_update_at<V>(s: Seq<(u64, V)>, k: u64, v: V, i: int)
    requires
        0 <= i < s.len(),
        forall|j: int| 0 <= j < i ==> (#[trigger] s[j]).0 != k,
        s[i].0 == k,
    ensures
        alist_update(s, k, v) == s.update(i, (k, v)),
    decreases i,
{
    if i == 0 {
        assert(seq![(k, v)] + s.drop_first() =~= s.update(0, (k, v)));
    } else {
        lemma_alist_update_at(s.drop_first(), k, v, i - 1);
        assert(seq![s[0]] + s.drop_first().update(i - 1, (k, v)) =~= s.update(i, (k, v)));
    }
}

/// A key that no entry carries is absent, removal is the identity and
/// an update appends.
pub proof fn lemma_alist_absent<V>(s: Seq<(u64, V)>, k: u64, v: V)
    requires
        forall|j: int| 0 <= j < s.len() ==> (#[trigger] s[j]).0 != k,
    ensures
        alist_lookup(s, k) is None,
        alist_remove(s, k) == s,
        alist_update(s, k, v) == s.push((k, v)),
    decreases s.len(),
{
    if s.len() == 0 {
        assert(alist_update(s, k, v) =~= s.push((k, v)));
        assert(alist_remove(s, k) =~= s);
    } else {
        lemma_alist_absent(s.drop_first(), k, v);
        assert(seq![s[0]] + alist_update(s.drop_first(), k, v) =~= s.push((k, v)));
        assert(seq![s[0]] + s.drop_first() =~= s);
    }
}

/// What an update does to every lookup, and to uniqueness.
pub proof fn lemma_alist_update<V>(s: Seq<(u64, V)>, k: u64, v: V)
    ensures
        alist_lookup(alist_update(s, k, v), k) == Some(v),
        forall|k2: u64| k2 != k ==> #[trigger] alist_lookup(alist_update(s, k, v), k2)
            == alist_lookup(s, k2),
        alist_unique(s) ==> alist_unique(alist_update(s, k, v)),
    decreases s.len(),
{
    if s.len() == 0 {
        let t = seq![(k, v)];
        assert(alist_update(s, k, v) == t);
        assert(t.drop_first() =~= Seq::<(u64, V)>::empty());
        assert(t[0] == (k, v));
        assert(alist_lookup(t.drop_first(), k) is None);
        assert(alist_unique(t.drop_first()));
        assert(alist_unique(t));
        assert forall|k2: u64| k2 != k implies #[trigger] alist_lookup(
            alist_update(s, k, v),
            k2,
        ) == alist_lookup(s, k2) by {
            assert(alist_lookup(t, k2) == alist_lookup(t.drop_first(), k2));
            assert(alist_lookup(t.drop_first(), k2) is None);
        }
    } else if s[0].0 == k {
        let t = seq![(k, v)] + s.drop_first();
        assert(t.drop_first() =~= s.drop_first());
        assert(t[0] == (k, v));
        assert forall|k2: u64| k2 != k implies #[trigger] alist_lookup(
            alist_update(s, k, v),
            k2,
        ) == alist_lookup(s, k2) by {
            assert(alist_lookup(t, k2) == alist_lookup(s.drop_first(), k2));
        }
    } else {
        lemma_alist_update(s.drop_first(), k, v);
        let t = seq![s[0]] + alist_update(s.drop_first(), k, v);
        assert(t.drop_first() =~= alist_update(s.drop_first(), k, v));
        assert(t[0] == s[0]);
        assert forall|k2: u64| k2 != k implies #[trigger] alist_lookup(
            alist_update(s, k, v),
            k2,
        ) == alist_lookup(s, k2) by {
            if k2 != s[0].0 {
                assert(alist_lookup(t, k2) == alist_lookup(alist_update(s.drop_first(), k, v), k2));
            }
        }
        if alist_unique(s) {
            assert(!alist_has(t.drop_first(), t[0].0));
        }
    }
}

/// What a removal does to every lookup, and to uniqueness.
pub proof fn lemma_alist_remove<V>(s: Seq<(u64, V)>, k: u64)
    requires
        alist_unique(s),
    ensures
        alist_lookup(alist_remove(s, k), k) is None,
        forall|k2: u64| k2 != k ==> #[trigger] alist_lookup(alist_remove(s, k), k2)
            == alist_lookup(s, k2),
        alist_unique(alist_remove(s, k)),
    decreases s.len(),
{
    if s.len() == 0 {
    } else if s[0].0 == k {
    } else {
        lemma_alist_remove(s.drop_first(), k);
        let t = seq![s[0]] + alist_remove(s.drop_first(), k);
        assert(t.drop_first() =~= alist_remove(s.drop_first(), k));
        assert(t[0] == s[0]);
        assert forall|k2: u64| k2 != k implies #[trigger] alist_lookup(
            alist_remove(s, k),
            k2,
        ) == alist_lookup(s, k2) by {
            if k2 != s[0].0 {
                assert(alist_lookup(t, k2) == alist_lookup(alist_remove(s.drop_first(), k), k2));
            }
        }
        assert(!alist_has(t.drop_first(), t[0].0));
    }
}

/// Every entry after an update is the written pair or an old entry.
pub proof fn lemma_alist_entries_update<V>(s: Seq<(u64, V)>, k: u64, v: V)
    ensures
        forall|j: int|
            0 <= j < alist_update(s, k, v).len() ==> (#[trigger] alist_update(s, k, v)[j]) == (
            k,
            v,
            ) || exists|i: int| 0 <= i < s.len() && alist_update(s, k, v)[j] == #[trigger] s[i],
    decreases s.len(),
{
    let t = alist_update(s, k, v);
    if s.len() == 0 {
    } else if s[0].0 == k {
        assert forall|j: int| 0 <= j < t.len() implies (#[trigger] t[j]) == (k, v) || exists|i: int|
            0 <= i < s.len() && t[j] == #[trigger] s[i] by {
            if j > 0 {
                assert(t[j] == s[j]);
            }
        }
    } else {
        lemma_alist_entries_update(s.drop_first(), k, v);
        let inner = alist_update(s.drop_first(), k, v);
        assert forall|j: int| 0 <= j < t.len() implies (#[trigger] t[j]) == (k, v) || exists|i: int|
            0 <= i < s.len() && t[j] == #[trigger] s[i] by {
            if j == 0 {
                assert(t[0] == s[0]);
            } else {
                assert(t[j] == inner[j - 1]);
                if inner[j - 1] != (k, v) {
                    let i = choose|i: int|
                        0 <= i < s.drop_first().len() && inner[j - 1] == #[trigger] s.drop_first()[i];
                    assert(t[j] == s[i + 1]);
                }
            }
        }
    }
}

/// Every entry after a removal is an old entry.
pub proof fn lemma_alist_entries_remove<V>(s: Seq<(u64, V)>, k: u64)
    ensures
        forall|j: int|
            0 <= j < alist_remove(s, k).len() ==> exists|i: int|
                0 <= i < s.len() && (#[trigger] alist_remove(s, k)[j]) == #[trigger] s[i],
    decreases s.len(),
{
    let t = alist_remove(s, k);
    if s.len() == 0 {
    } else if s[0].0 == k {
        assert forall|j: int| 0 <= j < t.len() implies exists|i: int|
            0 <= i < s.len() && (#[trigger] t[j]) == #[trigger] s[i] by {
            assert(t[j] == s[j + 1]);
        }
    } else {
        lemma_alist_entries_remove(s.drop_first(), k);
        let inner = alist_remove(s.drop_first(), k);
        assert forall|j: int| 0 <= j < t.len() implies exists|i: int|
            0 <= i < s.len() && (#[trigger] t[j]) == #[trigger] s[i] by {
            if j == 0 {
                assert(t[0] == s[0]);
            } else {
                assert(t[j] == inner[j - 1]);
                let i = choose|i: int|
                    0 <= i < s.drop_first().len() && inner[j - 1] == #[trigger] s.drop_first()[i];
                assert(t[j] == s[i + 1]);
            }
        }
    }
}

/// A key the lookup finds occurs in some entry.
pub proof fn lemma_alist_some_key_at<V>(s: Seq<(u64, V)>, k: u64)
    requires
        alist_lookup(s, k) is Some,
    ensures
        exists|i: int| 0 <= i < s.len() && (#[trigger] s[i]).0 == k,
    decreases s.len(),
{
    if s.len() > 0 {
        if s[0].0 == k {
            assert(0 <= 0 < s.len() && s[0].0 == k);
        } else {
            lemma_alist_some_key_at(s.drop_first(), k);
            let i = choose|i: int| 0 <= i < s.drop_first().len() && (#[trigger] s.drop_first()[i]).0
                == k;
            assert(s[i + 1].0 == k);
        }
    }
}

/// The value a lookup finds sits in some entry of the list.
pub proof fn lemma_alist_lookup_entry<V>(s: Seq<(u64, V)>, k: u64)
    requires
        alist_lookup(s, k) is Some,
    ensures
        exists|i: int| 0 <= i < s.len() && #[trigger] s[i] == (k, alist_lookup(s, k).unwrap()),
    decreases s.len(),
{
    if s.len() > 0 {
        if s[0].0 == k {
            assert(s[0] == (k, alist_lookup(s, k).unwrap()));
        } else {
            lemma_alist_lookup_entry(s.drop_first(), k);
            let i = choose|i: int|
                0 <= i < s.drop_first().len() && #[trigger] s.drop_first()[i] == (
                k,
                alist_lookup(s.drop_first(), k).unwrap(),
            );
            assert(s[i + 1] == (k, alist_lookup(s, k).unwrap()));
        }
    }
}

/// A key the lookup misses occurs in no entry.
pub proof fn lemma_alist_none_no_key<V>(s: Seq<(u64, V)>, k: u64)
    requires
        alist_lookup(s, k) is None,
    ensures
        forall|j: int| 0 <= j < s.len() ==> (#[trigger] s[j]).0 != k,
    decreases s.len(),
{
    if s.len() > 0 {
        lemma_alist_none_no_key(s.drop_first(), k);
        assert forall|j: int| 0 <= j < s.len() implies (#[trigger] s[j]).0 != k by {
            if j > 0 {
                assert(s.drop_first()[j - 1] == s[j]);
            }
        }
    }
}

/// Index of the entry holding key `k`, in executable form.
pub fn alist_find<V>(v: &Vec<(u64, V)>, k: u64) -> (r: Option<usize>)
    ensures
        match r {
            Some(i) => i < v@.len() && v@[i as int].0 == k && alist_lookup(v@, k)
                == Some(v@[i as int].1) && (forall|j: int| 0 <= j < i ==> (#[trigger] v@[j]).0
                != k),
            None => alist_lookup(v@, k) is None,
        },
{
    let mut i: usize = 0;
    while i < v.len()
        invariant
            i <= v@.len(),
            forall|j: int| 0 <= j < i ==> (#[trigger] v@[j]).0 != k,
        decreases v@.len() - i,
    {
        if v[i].0 == k {
            proof {
                lemma_alist_at(v@, k, i as int);
            }
            return Some(i);
        }
        i = i + 1;
    }
    proof {
        lemma_alist_absent::<V>(v@, k, v@[0].1);
    }
    None
}

/// Store `val` under `k` in place.
pub fn alist_set<V>(v: &mut Vec<(u64, V)>, k: u64, val: V)
    ensures
        final(v)@ == alist_update(old(v)@, k, val),
{
    let mut i: usize = 0;
    while i < v.len()
        invariant
            i <= v@.len(),
            v@ == old(v)@,
            forall|j: int| 0 <= j < i ==> (#[trigger] v@[j]).0 != k,
        decreases v@.len() - i,
    {
        if v[i].0 == k {
            proof {
                lemma_alist_update_at(v@, k, val, i as int);
            }
            v.set(i, (k, val));
            return ;
        }
        i = i + 1;
    }
    proof {
        lemma_alist_absent(v@, k, val);
    }
    v.push((k, val));
}

/// Drop the entry holding `k`, handing its value back.
pub fn alist_del<V>(v: &mut Vec<(u64, V)>, k: u64) -> (r: Option<V>)
    ensures
        final(v)@ == alist_remove(old(v)@, k),
        r == alist_lookup(old(v)@, k),
{
    let idx = alist_find(v, k);
    match idx {
        Some(i) => {
            proof {
                lemma_alist_at(v@, k, i as int);
            }
            let entry = v.remove(i);
            Some(entry.1)
        },
        None => {
            proof {
                lemma_alist_none_no_key(v@, k);
                if v@.len() > 0 {
                    lemma_alist_absent(v@, k, v@[0].1);
                } else {
                    assert(alist_remove(v@, k) =~= v@);
                }
            }
            None
        },
    }
}

} // verus!
