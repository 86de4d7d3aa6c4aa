use vstd::prelude::*;

verus! {

use vstd::pervasive::VecAdditionalExecFns;

/// The holdings ledger: signed net quantity per (user, asset) pair.
pub open spec fn hlist_lookup(s: Seq<((u64, u64), i128)>, k: (u64, u64)) -> Option<i128>
    decreases s.len(),
{
    if s.len() == 0 {
        None
    } else if s[0].0 == k {
        Some(s[0].1)
    } else {
        hlist_lookup(s.drop_first(), k)
    }
}

pub open spec fn hlist_has(s: Seq<((u64, u64), i128)>, k: (u64, u64)) -> bool {
    hlist_lookup(s, k) is Some
}

pub open spec fn hlist_update(s: Seq<((u64, u64), i128)>, k: (u64, u64), v: i128) -> Seq<
    ((u64, u64), i128),
>
    decreases s.len(),
{
    if s.len() == 0 {
        seq![(k, v)]
    } else if s[0].0 == k {
        seq![(k, v)] + s.drop_first()
    } else {
        seq![s[0]] + hlist_update(s.drop_first(), k, v)
    }
}

pub open spec fn hlist_unique(s: Seq<((u64, u64), i128)>) -> bool
    decreases s.len(),
{
    s.len() == 0 || (!hlist_has(s.drop_first(), s[0].0) && hlist_unique(s.drop_first()))
}

/// Net quantity recorded for the pair, zero when absent.
pub open spec fn hold_of(s: Seq<((u64, u64), i128)>, k: (u64, u64)) -> int {
    match hlist_lookup(s, k) {
        Some(q) => q as int,
        None => 0,
    }
}

pub proof fn lemma_hlist_at(s: Seq<((u64, u64), i128)>, k: (u64, u64), v: i128, i: int)
    requires
        0 <= i < s.len(),
        forall|j: int| 0 <= j < i ==> (#[trigger] s[j]).0 != k,
        s[i].0 == k,
    ensures
        hlist_lookup(s, k) == Some(s[i].1),
        hlist_update(s, k, v) == s.update(i, (k, v)),
    decreases i,
{
    if i == 0 {
        assert(seq![(k, v)] + s.drop_first() =~= s.update(0, (k, v)));
    } else {
        lemma_hlist_at(s.drop_first(), k, v, i - 1);
        assert(s.drop_first()[i - 1] == s[i]);
        assert(seq![s[0]] + s.drop_first().update(i - 1, (k, v)) =~= s.update(i, (k, v)));
    }
}

pub proof fn lemma_hlist_absent(s: Seq<((u64, u64), i128)>, k: (u64, u64), v: i128)
    requires
        forall|j: int| 0 <= j < s.len() ==> (#[trigger] s[j]).0 != k,
    ensures
        hlist_lookup(s, k) is None,
        hlist_update(s, k, v) == s.push((k, v)),
    decreases s.len(),
{
    if s.len() == 0 {
        assert(hlist_update(s, k, v) =~= s.push((k, v)));
    } else {
        lemma_hlist_absent(s.drop_first(), k, v);
        assert(seq![s[0]] + hlist_update(s.drop_first(), k, v) =~= s.push((k, v)));
    }
}

/// What an update does to every lookup, and to uniqueness.
pub proof fn lemma_hlist_update(s: Seq<((u64, u64), i128)>, k: (u64, u64), v: i128)
    ensures
        hlist_lookup(hlist_update(s, k, v), k) == Some(v),
        forall|k2: (u64, u64)| k2 != k ==> #[trigger] hlist_lookup(hlist_update(s, k, v), k2)
            == hlist_lookup(s, k2),
        hlist_unique(s) ==> hlist_unique(hlist_update(s, k, v)),
    decreases s.len(),
{
    if s.len() == 0 {
        let t = seq![(k, v)];
        assert(hlist_update(s, k, v) == t);
        assert(t.drop_first() =~= Seq::<((u64, u64), i128)>::empty());
        assert(t[0] == (k, v));
        assert(hlist_lookup(t.drop_first(), k) is None);
        assert(hlist_unique(t.drop_first()));
        assert(hlist_unique(t));
        assert forall|k2: (u64, u64)| k2 != k implies #[trigger] hlist_lookup(
            hlist_update(s, k, v),
            k2,
        ) == hlist_lookup(s, k2) by {
            assert(hlist_lookup(t, k2) == hlist_lookup(t.drop_first(), k2));
            assert(hlist_lookup(t.drop_first(), k2) is None);
        }
    } else if s[0].0 == k {
        let t = seq![(k, v)] + s.drop_first();
        assert(t.drop_first() =~= s.drop_first());
        assert(t[0] == (k, v));
        assert forall|k2: (u64, u64)| k2 != k implies #[trigger] hlist_lookup(
            hlist_update(s, k, v),
            k2,
        ) == hlist_lookup(s, k2) by {
            assert(hlist_lookup(t, k2) == hlist_lookup(s.drop_first(), k2));
        }
    } else {
        lemma_hlist_update(s.drop_first(), k, v);
        let t = seq![s[0]] + hlist_update(s.drop_first(), k, v);
        assert(t.drop_first() =~= hlist_update(s.drop_first(), k, v));
        assert(t[0] == s[0]);
        assert forall|k2: (u64, u64)| k2 != k implies #[trigger] hlist_lookup(
            hlist_update(s, k, v),
            k2,
        ) == hlist_lookup(s, k2) by {
            if k2 != s[0].0 {
                assert(hlist_lookup(t, k2) == hlist_lookup(hlist_update(s.drop_first(), k, v), k2));
            }
        }
        if hlist_unique(s) {
            assert(!hlist_has(t.drop_first(), t[0].0));
        }
    }
}

/// Find the entry for a pair, in executable form.
pub fn hlist_find(v: &Vec<((u64, u64), i128)>, k: (u64, u64)) -> (r: Option<usize>)
    ensures
        match r {
            Some(i) => i < v@.len() && v@[i as int].0 == k && hlist_lookup(v@, k)
                == Some(v@[i as int].1) && (forall|j: int| 0 <= j < i ==> (#[trigger] v@[j]).0
                != k),
            None => hlist_lookup(v@, k) is None,
        },
{
    let mut i: usize = 0;
    while i < v.len()
        invariant
            i <= v@.len(),
            forall|j: int| 0 <= j < i ==> (#[trigger] v@[j]).0 != k,
        decreases v@.len() - i,
    {
        if v[i].0.0 == k.0 && v[i].0.1 == k.1 {
            proof {
                lemma_hlist_at(v@, k, 0, i as int);
            }
            return Some(i);
        }
        i = i + 1;
    }
    proof {
        lemma_hlist_absent(v@, k, 0);
    }
    None
}

/// Store `val` under the pair `k` in place.
pub fn hlist_set(v: &mut Vec<((u64, u64), i128)>, k: (u64, u64), val: i128)
    ensures
        final(v)@ == hlist_update(old(v)@, k, val),
{
    let r = hlist_find(v, k);
    match r {
        Some(i) => {
            proof {
                lemma_hlist_at(v@, k, val, i as int);
            }
            v.set(i, (k, val));
        },
        None => {
            proof {
                lemma_hlist_none_no_key(v@, k);
                lemma_hlist_absent(v@, k, val);
            }
            v.push((k, val));
        },
    }
}

/// The value a lookup finds sits in some entry of the list.
pub proof fn lemma_hlist_lookup_entry(s: Seq<((u64, u64), i128)>, k: (u64, u64))
    requires
        hlist_lookup(s, k) is Some,
    ensures
        exists|i: int| 0 <= i < s.len() && #[trigger] s[i] == (k, hlist_lookup(s, k).unwrap()),
    decreases s.len(),
{
    if s.len() > 0 {
        if s[0].0 == k {
            assert(s[0] == (k, hlist_lookup(s, k).unwrap()));
        } else {
            lemma_hlist_lookup_entry(s.drop_first(), k);
            let i = choose|i: int|
                0 <= i < s.drop_first().len() && #[trigger] s.drop_first()[i] == (
                k,
                hlist_lookup(s.drop_first(), k).unwrap(),
            );
            assert(s[i + 1] == (k, hlist_lookup(s, k).unwrap()));
        }
    }
}

pub proof fn lemma_hlist_none_no_key(s: Seq<((u64, u64), i128)>, k: (u64, u64))
    requires
        hlist_lookup(s, k) is None,
    ensures
        forall|j: int| 0 <= j < s.len() ==> (#[trigger] s[j]).0 != k,
    decreases s.len(),
{
    if s.len() > 0 {
        lemma_hlist_none_no_key(s.drop_first(), k);
        assert forall|j: int| 0 <= j < s.len() implies (#[trigger] s[j]).0 != k by {
            if j > 0 {
                assert(s.drop_first()[j - 1] == s[j]);
            }
        }
    }
}

} // verus!
