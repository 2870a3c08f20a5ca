//! Association lists with unique keys.
//!
//! The engine stages and stores its mappings as vectors of pairs whose
//! keys are unique. Order is kept, so a mapping also serves as an ordered
//! list of writes where determinism demands it.

use vstd::prelude::*;

use crate::bytes::{bytes_eq, copy_bytes, copy_opt_bytes};

verus! {

/// The view of an optional byte string.
pub open spec fn opt_view(o: Option<Vec<u8>>) -> Option<Seq<u8>> {
    match o {
        Some(v) => Some(v@),
        None => None,
    }
}

/// The view of a list of (key, value) byte pairs.
pub open spec fn pairs_view(v: Seq<(Vec<u8>, Vec<u8>)>) -> Seq<(Seq<u8>, Seq<u8>)> {
    Seq::new(v.len(), |i: int| (v[i].0@, v[i].1@))
}

/// The view of a list of (key, optional value) byte pairs.
pub open spec fn opt_pairs_view(v: Seq<(Vec<u8>, Option<Vec<u8>>)>) -> Seq<
    (Seq<u8>, Option<Seq<u8>>),
> {
    Seq::new(v.len(), |i: int| (v[i].0@, opt_view(v[i].1)))
}

/// Index of the last pair whose key is `k`, or -1 when none is.
pub open spec fn find_key<T>(s: Seq<(Seq<u8>, T)>, k: Seq<u8>) -> int
    decreases s.len(),
{
    if s.len() == 0 {
        -1
    } else if s.last().0 == k {
        s.len() - 1
    } else {
        find_key(s.drop_last(), k)
    }
}

/// Whether some pair of `s` has key `k`.
pub open spec fn has_key<T>(s: Seq<(Seq<u8>, T)>, k: Seq<u8>) -> bool {
    find_key(s, k) >= 0
}

/// The value of the last pair of `s` whose key is `k`.
pub open spec fn value_of<T>(s: Seq<(Seq<u8>, T)>, k: Seq<u8>) -> T
    recommends
        has_key(s, k),
{
    s[find_key(s, k)].1
}

/// All keys of `s` are distinct.
pub open spec fn keys_unique<T>(s: Seq<(Seq<u8>, T)>) -> bool {
    forall|i: int, j: int| 0 <= i < j < s.len() ==> s[i].0 != s[j].0
}

/// What `find_key` returns: a valid index bearing `k`, or -1 when no
/// pair bears `k`.
pub proof fn lemma_find_key<T>(s: Seq<(Seq<u8>, T)>, k: Seq<u8>)
    ensures
        -1 <= find_key(s, k) < s.len(),
        find_key(s, k) >= 0 ==> s[find_key(s, k)].0 == k,
        find_key(s, k) == -1 ==> forall|i: int| 0 <= i < s.len() ==> s[i].0 != k,
        find_key(s, k) >= 0 ==> forall|i: int| find_key(s, k) < i < s.len() ==> s[i].0 != k,
    decreases s.len(),
{
    if s.len() > 0 {
        if s.last().0 != k {
            lemma_find_key(s.drop_last(), k);
            assert(forall|i: int| 0 <= i < s.len() - 1 ==> s.drop_last()[i] == s[i]);
        }
    }
}

/// Appending a pair with key `k` makes it the one `find_key` returns.
pub proof fn lemma_find_key_push_same<T>(s: Seq<(Seq<u8>, T)>, k: Seq<u8>, p: (Seq<u8>, T))
    requires
        p.0 == k,
    ensures
        find_key(s.push(p), k) == s.len(),
{
}

/// Looks up `k`, returning a copy of the staged optional value.
pub fn opt_map_get(v: &Vec<(Vec<u8>, Option<Vec<u8>>)>, k: &Vec<u8>) -> (r: Option<
    Option<Vec<u8>>,
>)
    requires
        keys_unique(opt_pairs_view(v@)),
    ensures
        r is Some <==> has_key(opt_pairs_view(v@), k@),
        r is Some ==> opt_view((r->Some_0)) == value_of(opt_pairs_view(v@), k@),
{
    let ghost view = opt_pairs_view(v@);
    proof {
        lemma_find_key(view, k@);
    }
    let mut i: usize = 0;
    let mut found: Option<Option<Vec<u8>>> = None;
    let ghost fk = find_key(view, k@);
    while i < v.len()
        invariant
            i <= v@.len(),
            view == opt_pairs_view(v@),
            view.len() == v@.len(),
            keys_unique(view),
            fk == find_key(view, k@),
            -1 <= fk < view.len(),
            fk >= 0 ==> view[fk].0 == k@,
            fk == -1 ==> forall|j: int| 0 <= j < view.len() ==> view[j].0 != k@,
            (found is Some) <==> (0 <= fk < i),
            found is Some ==> opt_view((found->Some_0)) == view[fk].1,
        decreases v@.len() - i,
    {
        if bytes_eq(&v[i].0, k) {
            proof {
                assert(view[i as int].0 == k@);
                assert(fk >= 0);
                if fk < i as int {
                    assert(view[fk].0 == view[i as int].0);
                    assert(false);
                }
                if fk > i as int {
                    assert(view[i as int].0 == view[fk].0);
                    assert(false);
                }
            }
            found = Some(copy_opt_bytes(&v[i].1));
        }
        i = i + 1;
    }
    proof {
        if fk >= 0 {
            assert(view[fk].1 == value_of(view, k@));
        }
    }
    found
}

/// Stages `value` under `key`: overwrites in place when the key is
/// present, otherwise appends.
pub fn opt_map_set(v: &mut Vec<(Vec<u8>, Option<Vec<u8>>)>, key: Vec<u8>, value: Option<Vec<u8>>)
    requires
        keys_unique(opt_pairs_view(old(v)@)),
    ensures
        keys_unique(opt_pairs_view(final(v)@)),
        opt_pairs_view(final(v)@) == (if has_key(opt_pairs_view(old(v)@), key@) {
            opt_pairs_view(old(v)@).update(
                find_key(opt_pairs_view(old(v)@), key@),
                (key@, opt_view(value)),
            )
        } else {
            opt_pairs_view(old(v)@).push((key@, opt_view(value)))
        }),
{
    let ghost view = opt_pairs_view(old(v)@);
    proof {
        lemma_find_key(view, key@);
    }
    let ghost fk = find_key(view, key@);
    let mut i: usize = 0;
    while i < v.len()
        invariant
            i <= v@.len(),
            *v == *old(v),
            view == opt_pairs_view(v@),
            view.len() == v@.len(),
            keys_unique(view),
            fk == find_key(view, key@),
            -1 <= fk < view.len(),
            fk >= 0 ==> view[fk].0 == key@,
            fk == -1 ==> forall|j: int| 0 <= j < view.len() ==> view[j].0 != key@,
            forall|j: int| 0 <= j < i ==> view[j].0 != key@,
        decreases v@.len() - i,
    {
        if bytes_eq(&v[i].0, &key) {
            proof {
                assert(view[i as int].0 == key@);
                assert(fk >= 0);
                if fk < i as int {
                    assert(view[fk].0 == view[i as int].0);
                    assert(false);
                }
                if fk > i as int {
                    assert(view[i as int].0 == view[fk].0);
                    assert(false);
                }
            }
            v[i] = (key, value);
            proof {
                assert(opt_pairs_view(v@) =~= view.update(fk, (key@, opt_view(value))));
                assert(keys_unique(opt_pairs_view(v@)));
            }
            return ;
        }
        i = i + 1;
    }
    proof {
        assert(fk == -1) by {
            if fk >= 0 {
                assert(view[fk].0 == key@);
            }
        }
    }
    v.push((key, value));
    proof {
        assert(opt_pairs_view(v@) =~= view.push((key@, opt_view(value))));
        assert(keys_unique(opt_pairs_view(v@)));
    }
}

/// Looks up `k` in a plain byte-to-byte mapping, copying the value out.
pub fn map_get(v: &Vec<(Vec<u8>, Vec<u8>)>, k: &Vec<u8>) -> (r: Option<Vec<u8>>)
    requires
        keys_unique(pairs_view(v@)),
    ensures
        r is Some <==> has_key(pairs_view(v@), k@),
        r is Some ==> (r->Some_0)@ == value_of(pairs_view(v@), k@),
{
    let ghost view = pairs_view(v@);
    proof {
        lemma_find_key(view, k@);
    }
    let mut i: usize = 0;
    let mut found: Option<Vec<u8>> = None;
    let ghost fk = find_key(view, k@);
    while i < v.len()
        invariant
            i <= v@.len(),
            view == pairs_view(v@),
            view.len() == v@.len(),
            keys_unique(view),
            fk == find_key(view, k@),
            -1 <= fk < view.len(),
            fk >= 0 ==> view[fk].0 == k@,
            fk == -1 ==> forall|j: int| 0 <= j < view.len() ==> view[j].0 != k@,
            (found is Some) <==> (0 <= fk < i),
            found is Some ==> (found->Some_0)@ == view[fk].1,
        decreases v@.len() - i,
    {
        if bytes_eq(&v[i].0, k) {
            proof {
                assert(view[i as int].0 == k@);
                assert(fk >= 0);
                if fk < i as int {
                    assert(view[fk].0 == view[i as int].0);
                    assert(false);
                }
                if fk > i as int {
                    assert(view[i as int].0 == view[fk].0);
                    assert(false);
                }
            }
            found = Some(copy_bytes(&v[i].1));
        }
        i = i + 1;
    }
    proof {
        if fk >= 0 {
            assert(view[fk].1 == value_of(view, k@));
        }
    }
    found
}

/// The result of writing `val` under `k`: overwrite in place, else append.
pub open spec fn map_set_spec(s: Seq<(Seq<u8>, Seq<u8>)>, k: Seq<u8>, val: Seq<u8>) -> Seq<
    (Seq<u8>, Seq<u8>),
> {
    if has_key(s, k) {
        s.update(find_key(s, k), (k, val))
    } else {
        s.push((k, val))
    }
}

/// The result of removing the pair keyed `k`, when present.
pub open spec fn map_remove_spec(s: Seq<(Seq<u8>, Seq<u8>)>, k: Seq<u8>) -> Seq<(Seq<u8>, Seq<u8>)> {
    if has_key(s, k) {
        s.remove(find_key(s, k))
    } else {
        s
    }
}

/// Writes `val` under `key` in a plain byte-to-byte mapping.
pub fn map_set(v: &mut Vec<(Vec<u8>, Vec<u8>)>, key: Vec<u8>, val: Vec<u8>)
    requires
        keys_unique(pairs_view(old(v)@)),
    ensures
        keys_unique(pairs_view(final(v)@)),
        pairs_view(final(v)@) == map_set_spec(pairs_view(old(v)@), key@, val@),
{
    let ghost view = pairs_view(old(v)@);
    proof {
        lemma_find_key(view, key@);
    }
    let ghost fk = find_key(view, key@);
    let mut i: usize = 0;
    while i < v.len()
        invariant
            i <= v@.len(),
            *v == *old(v),
            view == pairs_view(v@),
            view.len() == v@.len(),
            keys_unique(view),
            fk == find_key(view, key@),
            -1 <= fk < view.len(),
            fk >= 0 ==> view[fk].0 == key@,
            fk == -1 ==> forall|j: int| 0 <= j < view.len() ==> view[j].0 != key@,
            forall|j: int| 0 <= j < i ==> view[j].0 != key@,
        decreases v@.len() - i,
    {
        if bytes_eq(&v[i].0, &key) {
            proof {
                assert(view[i as int].0 == key@);
                assert(fk >= 0);
                if fk < i as int {
                    assert(view[fk].0 == view[i as int].0);
                    assert(false);
                }
                if fk > i as int {
                    assert(view[i as int].0 == view[fk].0);
                    assert(false);
                }
            }
            v[i] = (key, val);
            proof {
                assert(pairs_view(v@) =~= view.update(fk, (key@, val@)));
                assert(keys_unique(pairs_view(v@)));
            }
            return ;
        }
        i = i + 1;
    }
    proof {
        assert(fk == -1) by {
            if fk >= 0 {
                assert(view[fk].0 == key@);
            }
        }
    }
    v.push((key, val));
    proof {
        assert(pairs_view(v@) =~= view.push((key@, val@)));
        assert(keys_unique(pairs_view(v@)));
    }
}

/// Removes the pair keyed `key` from a plain byte-to-byte mapping.
pub fn map_remove(v: &mut Vec<(Vec<u8>, Vec<u8>)>, key: &Vec<u8>)
    requires
        keys_unique(pairs_view(old(v)@)),
    ensures
        keys_unique(pairs_view(final(v)@)),
        pairs_view(final(v)@) == map_remove_spec(pairs_view(old(v)@), key@),
{
    let ghost view = pairs_view(old(v)@);
    proof {
        lemma_find_key(view, key@);
    }
    let ghost fk = find_key(view, key@);
    let mut i: usize = 0;
    while i < v.len()
        invariant
            i <= v@.len(),
            *v == *old(v),
            view == pairs_view(v@),
            view.len() == v@.len(),
            keys_unique(view),
            fk == find_key(view, key@),
            -1 <= fk < view.len(),
            fk >= 0 ==> view[fk].0 == key@,
            fk == -1 ==> forall|j: int| 0 <= j < view.len() ==> view[j].0 != key@,
            forall|j: int| 0 <= j < i ==> view[j].0 != key@,
        decreases v@.len() - i,
    {
        if bytes_eq(&v[i].0, key) {
            proof {
                assert(view[i as int].0 == key@);
                assert(fk >= 0);
                if fk < i as int {
                    assert(view[fk].0 == view[i as int].0);
                    assert(false);
                }
                if fk > i as int {
                    assert(view[i as int].0 == view[fk].0);
                    assert(false);
                }
            }
            v.remove(i);
            proof {
                assert(pairs_view(v@) =~= view.remove(fk));
                assert forall|a: int, b: int|
                    0 <= a < b < view.remove(fk).len() implies (#[trigger] view.remove(fk)[a]).0
                    != (#[trigger] view.remove(fk)[b]).0 by {
                    let a0 = if a < fk {
                        a
                    } else {
                        a + 1
                    };
                    let b0 = if b < fk {
                        b
                    } else {
                        b + 1
                    };
                    assert(view.remove(fk)[a] == view[a0] && view.remove(fk)[b] == view[b0]);
                    assert(view[a0].0 != view[b0].0);
                }
            }
            return ;
        }
        i = i + 1;
    }
    proof {
        assert(fk == -1) by {
            if fk >= 0 {
                assert(view[fk].0 == key@);
            }
        }
        assert(pairs_view(v@) =~= view);
    }
}

/// Writing `val` under `k` (update in place or append) leaves `k` bound
/// to `val`.
pub proof fn lemma_set_semantics<T>(s: Seq<(Seq<u8>, T)>, k: Seq<u8>, val: T)
    requires
        keys_unique(s),
    ensures
        has_key(
            if has_key(s, k) {
                s.update(find_key(s, k), (k, val))
            } else {
                s.push((k, val))
            },
            k,
        ),
        value_of(
            if has_key(s, k) {
                s.update(find_key(s, k), (k, val))
            } else {
                s.push((k, val))
            },
            k,
        ) == val,
{
    lemma_find_key(s, k);
    if has_key(s, k) {
        let fk = find_key(s, k);
        let out = s.update(fk, (k, val));
        lemma_find_key(out, k);
        let fk2 = find_key(out, k);
        assert(out[fk].0 == k);
        assert(fk2 >= 0) by {
            if fk2 == -1 {
                assert(out[fk].0 != k);
            }
        }
        assert(fk2 == fk) by {
            if fk2 < fk {
                assert(s[fk2] == out[fk2]);
                assert(s[fk2].0 != s[fk].0);
            }
            if fk2 > fk {
                assert(s[fk2] == out[fk2]);
                assert(s[fk].0 != s[fk2].0);
            }
        }
        assert(value_of(out, k) == out[fk2].1);
    } else {
        let out = s.push((k, val));
        lemma_find_key_push_same(s, k, (k, val));
    }
}

} // verus!
