//! The two-way index between authenticated keys and their hashes.
//!
//! One list of (key, hash) pairs serves both directions. Keys are unique
//! and hashes are unique, so the forward and reverse readings are mutual
//! inverses by construction.

use vstd::prelude::*;

use crate::bytes::{bytes_eq, copy_bytes};
use crate::kvmap::{find_key, has_key, keys_unique, lemma_find_key, pairs_view, value_of};

verus! {

/// Index of the last pair whose hash is `h`, or -1 when none is.
pub open spec fn find_hash(s: Seq<(Seq<u8>, Seq<u8>)>, h: Seq<u8>) -> int
    decreases s.len(),
{
    if s.len() == 0 {
        -1
    } else if s.last().1 == h {
        s.len() - 1
    } else {
        find_hash(s.drop_last(), h)
    }
}

/// Whether some pair of `s` has hash `h`.
pub open spec fn has_hash(s: Seq<(Seq<u8>, Seq<u8>)>, h: Seq<u8>) -> bool {
    find_hash(s, h) >= 0
}

/// The key of the last pair of `s` whose hash is `h`.
pub open spec fn key_of_hash(s: Seq<(Seq<u8>, Seq<u8>)>, h: Seq<u8>) -> Seq<u8>
    recommends
        has_hash(s, h),
{
    s[find_hash(s, h)].0
}

/// All hashes of `s` are distinct.
pub open spec fn hashes_unique(s: Seq<(Seq<u8>, Seq<u8>)>) -> bool {
    forall|i: int, j: int| 0 <= i < j < s.len() ==> s[i].1 != s[j].1
}

/// A well-formed index: unique keys and unique hashes.
pub open spec fn index_wf(s: Seq<(Seq<u8>, Seq<u8>)>) -> bool {
    keys_unique(s) && hashes_unique(s)
}

/// What `find_hash` returns: a valid index bearing `h`, or -1 when no
/// pair bears `h`.
pub proof fn lemma_find_hash(s: Seq<(Seq<u8>, Seq<u8>)>, h: Seq<u8>)
    ensures
        -1 <= find_hash(s, h) < s.len(),
        find_hash(s, h) >= 0 ==> s[find_hash(s, h)].1 == h,
        find_hash(s, h) == -1 ==> forall|i: int| 0 <= i < s.len() ==> s[i].1 != h,
        find_hash(s, h) >= 0 ==> forall|i: int| find_hash(s, h) < i < s.len() ==> s[i].1 != h,
    decreases s.len(),
{
    if s.len() > 0 {
        if s.last().1 != h {
            lemma_find_hash(s.drop_last(), h);
            assert(forall|i: int| 0 <= i < s.len() - 1 ==> s.drop_last()[i] == s[i]);
        }
    }
}

/// The result of removing the pair keyed `k`, when present.
pub open spec fn remove_key_spec(s: Seq<(Seq<u8>, Seq<u8>)>, k: Seq<u8>) -> Seq<(Seq<u8>, Seq<u8>)> {
    if has_key(s, k) {
        s.remove(find_key(s, k))
    } else {
        s
    }
}

/// The result of removing the pair hashed `h`, when present.
pub open spec fn remove_hash_spec(s: Seq<(Seq<u8>, Seq<u8>)>, h: Seq<u8>) -> Seq<
    (Seq<u8>, Seq<u8>),
> {
    if has_hash(s, h) {
        s.remove(find_hash(s, h))
    } else {
        s
    }
}

/// The result of binding `k` to `h`: any pair under either side goes,
/// then the new pair is appended.
pub open spec fn insert_spec(s: Seq<(Seq<u8>, Seq<u8>)>, k: Seq<u8>, h: Seq<u8>) -> Seq<
    (Seq<u8>, Seq<u8>),
> {
    remove_hash_spec(remove_key_spec(s, k), h).push((k, h))
}

/// Removes the pair whose key is `k`, if one is present.
pub fn index_remove_key(v: &mut Vec<(Vec<u8>, Vec<u8>)>, k: &Vec<u8>)
    requires
        keys_unique(pairs_view(old(v)@)),
    ensures
        pairs_view(final(v)@) == remove_key_spec(pairs_view(old(v)@), k@),
{
    let ghost view = pairs_view(old(v)@);
    proof {
        lemma_find_key(view, k@);
    }
    let ghost fk = find_key(view, k@);
    let mut i: usize = 0;
    while i < v.len()
        invariant
            i <= v@.len(),
            *v == *old(v),
            view == pairs_view(v@),
            view.len() == v@.len(),
            keys_unique(view),
            fk == find_key(view, k@),
            -1 <= fk < view.len(),
            fk >= 0 ==> view[fk].0 == k@,
            fk == -1 ==> forall|j: int| 0 <= j < view.len() ==> view[j].0 != k@,
            fk >= 0 ==> forall|j: int| fk < j < view.len() ==> view[j].0 != k@,
            forall|j: int| 0 <= j < i ==> view[j].0 != k@,
        decreases v@.len() - i,
    {
        if bytes_eq(&v[i].0, k) {
            proof {
                assert(view[i as int].0 == k@);
                assert(fk >= 0);
                if fk < i as int {
                    assert(view[fk].0 != k@);
                    assert(false);
                }
                if fk > i as int {
                    assert(view[i as int].0 != view[fk].0);
                    assert(false);
                }
                assert(fk == i);
            }
            v.remove(i);
            proof {
                assert(pairs_view(v@) =~= view.remove(fk));
            }
            return ;
        }
        i = i + 1;
    }
    proof {
        assert(fk == -1) by {
            if fk >= 0 {
                assert(view[fk].0 == k@);
            }
        }
        assert(pairs_view(v@) =~= view);
    }
}

/// Removes the pair whose hash is `h`, if one is present.
pub fn index_remove_hash(v: &mut Vec<(Vec<u8>, Vec<u8>)>, h: &Vec<u8>)
    requires
        hashes_unique(pairs_view(old(v)@)),
    ensures
        pairs_view(final(v)@) == remove_hash_spec(pairs_view(old(v)@), h@),
{
    let ghost view = pairs_view(old(v)@);
    proof {
        lemma_find_hash(view, h@);
    }
    let ghost fh = find_hash(view, h@);
    let mut i: usize = 0;
    while i < v.len()
        invariant
            i <= v@.len(),
            *v == *old(v),
            view == pairs_view(v@),
            view.len() == v@.len(),
            hashes_unique(view),
            fh == find_hash(view, h@),
            -1 <= fh < view.len(),
            fh >= 0 ==> view[fh].1 == h@,
            fh == -1 ==> forall|j: int| 0 <= j < view.len() ==> view[j].1 != h@,
            fh >= 0 ==> forall|j: int| fh < j < view.len() ==> view[j].1 != h@,
            forall|j: int| 0 <= j < i ==> view[j].1 != h@,
        decreases v@.len() - i,
    {
        if bytes_eq(&v[i].1, h) {
            proof {
                assert(view[i as int].1 == h@);
                assert(fh >= 0);
                if fh < i as int {
                    assert(view[fh].1 != h@);
                    assert(false);
                }
                if fh > i as int {
                    assert(view[i as int].1 != view[fh].1);
                    assert(false);
                }
                assert(fh == i);
            }
            v.remove(i);
            proof {
                assert(pairs_view(v@) =~= view.remove(fh));
            }
            return ;
        }
        i = i + 1;
    }
    proof {
        assert(fh == -1) by {
            if fh >= 0 {
                assert(view[fh].1 == h@);
            }
        }
        assert(pairs_view(v@) =~= view);
    }
}

/// Binds `key` to `hash` in both directions.
pub fn index_insert(v: &mut Vec<(Vec<u8>, Vec<u8>)>, key: Vec<u8>, hash: Vec<u8>)
    requires
        index_wf(pairs_view(old(v)@)),
    ensures
        pairs_view(final(v)@) == insert_spec(pairs_view(old(v)@), key@, hash@),
        index_wf(pairs_view(final(v)@)),
{
    let ghost view0 = pairs_view(old(v)@);
    index_remove_key(v, &key);
    proof {
        lemma_find_key(view0, key@);
        if has_key(view0, key@) {
            lemma_remove_preserves_wf(view0, find_key(view0, key@));
        }
        lemma_insert_preserves_wf(view0, key@, hash@);
    }
    index_remove_hash(v, &hash);
    v.push((key, hash));
    proof {
        assert(pairs_view(v@) =~= insert_spec(pairs_view(old(v)@), key@, hash@));
    }
}

/// Removing any pair keeps a well-formed index well formed.
pub proof fn lemma_remove_preserves_wf(s: Seq<(Seq<u8>, Seq<u8>)>, i: int)
    requires
        index_wf(s),
        0 <= i < s.len(),
    ensures
        index_wf(s.remove(i)),
{
    let r = s.remove(i);
    assert forall|a: int, b: int| 0 <= a < b < r.len() implies r[a].0 != r[b].0 && r[a].1
        != r[b].1 by {
        let a0 = if a < i {
            a
        } else {
            a + 1
        };
        let b0 = if b < i {
            b
        } else {
            b + 1
        };
        assert(r[a] == s[a0] && r[b] == s[b0]);
        assert(s[a0].0 != s[b0].0 && s[a0].1 != s[b0].1);
    }
}

/// Binding a key to a hash keeps the index well formed.
pub proof fn lemma_insert_preserves_wf(s: Seq<(Seq<u8>, Seq<u8>)>, k: Seq<u8>, h: Seq<u8>)
    requires
        index_wf(s),
    ensures
        index_wf(insert_spec(s, k, h)),
{
    let s1 = remove_key_spec(s, k);
    lemma_find_key(s, k);
    if has_key(s, k) {
        lemma_remove_preserves_wf(s, find_key(s, k));
    }
    assert(index_wf(s1));
    let s2 = remove_hash_spec(s1, h);
    lemma_find_hash(s1, h);
    if has_hash(s1, h) {
        lemma_remove_preserves_wf(s1, find_hash(s1, h));
    }
    assert(index_wf(s2));
    // no pair with key k survives the first removal, nor hash h the second
    lemma_removed_key_gone(s, k);
    lemma_removed_hash_gone(s1, h);
    assert forall|i: int| 0 <= i < s2.len() implies s2[i].0 != k && s2[i].1 != h by {
        if has_hash(s1, h) {
            let fh = find_hash(s1, h);
            let i0 = if i < fh {
                i
            } else {
                i + 1
            };
            assert(s2[i] == s1[i0]);
        } else {
            assert(s2[i] == s1[i]);
        }
    }
    let out = s2.push((k, h));
    assert(index_wf(out)) by {
        assert forall|a: int, b: int| 0 <= a < b < out.len() implies out[a].0 != out[b].0
            && out[a].1 != out[b].1 by {
            if b == out.len() - 1 {
                assert(out[a] == s2[a] && out[b] == (k, h));
            } else {
                assert(out[a] == s2[a] && out[b] == s2[b]);
            }
        }
    }
}

/// After `remove_key_spec`, no pair bears the removed key.
pub proof fn lemma_removed_key_gone(s: Seq<(Seq<u8>, Seq<u8>)>, k: Seq<u8>)
    requires
        keys_unique(s),
    ensures
        forall|i: int|
            0 <= i < remove_key_spec(s, k).len() ==> (#[trigger] remove_key_spec(s, k)[i]).0 != k,
{
    lemma_find_key(s, k);
    if has_key(s, k) {
        let fk = find_key(s, k);
        let r = s.remove(fk);
        assert forall|i: int| 0 <= i < r.len() implies (#[trigger] r[i]).0 != k by {
            let i0 = if i < fk {
                i
            } else {
                i + 1
            };
            assert(r[i] == s[i0]);
            if i0 != fk {
                if i0 < fk {
                    assert(s[i0].0 != s[fk].0);
                } else {
                    assert(s[fk].0 != s[i0].0);
                }
            }
        }
    }
}

/// After `remove_hash_spec`, no pair bears the removed hash.
pub proof fn lemma_removed_hash_gone(s: Seq<(Seq<u8>, Seq<u8>)>, h: Seq<u8>)
    requires
        hashes_unique(s),
    ensures
        forall|i: int|
            0 <= i < remove_hash_spec(s, h).len() ==> (#[trigger] remove_hash_spec(s, h)[i]).1 != h,
{
    lemma_find_hash(s, h);
    if has_hash(s, h) {
        let fh = find_hash(s, h);
        let r = s.remove(fh);
        assert forall|i: int| 0 <= i < r.len() implies (#[trigger] r[i]).1 != h by {
            let i0 = if i < fh {
                i
            } else {
                i + 1
            };
            assert(r[i] == s[i0]);
            if i0 != fh {
                if i0 < fh {
                    assert(s[i0].1 != s[fh].1);
                } else {
                    assert(s[fh].1 != s[i0].1);
                }
            }
        }
    }
}

/// In a well-formed index the two directions are mutual inverses: the
/// hash bound to a key leads back to that key, and conversely.
pub proof fn lemma_index_mutual(s: Seq<(Seq<u8>, Seq<u8>)>)
    requires
        index_wf(s),
    ensures
        forall|k: Seq<u8>|
            #[trigger] has_key(s, k) ==> has_hash(s, value_of(s, k)) && key_of_hash(
                s,
                value_of(s, k),
            ) == k,
        forall|h: Seq<u8>|
            #[trigger] has_hash(s, h) ==> has_key(s, key_of_hash(s, h)) && value_of(
                s,
                key_of_hash(s, h),
            ) == h,
{
    assert forall|k: Seq<u8>| #[trigger] has_key(s, k) implies has_hash(s, value_of(s, k))
        && key_of_hash(s, value_of(s, k)) == k by {
        lemma_find_key(s, k);
        let i = find_key(s, k);
        let h = s[i].1;
        lemma_find_hash(s, h);
        let j = find_hash(s, h);
        assert(j >= 0) by {
            if j == -1 {
                assert(s[i].1 != h);
            }
        }
        if i != j {
            if i < j {
                assert(s[i].1 != s[j].1);
            } else {
                assert(s[j].1 != s[i].1);
            }
        }
        assert(i == j);
    }
    assert forall|h: Seq<u8>| #[trigger] has_hash(s, h) implies has_key(s, key_of_hash(s, h))
        && value_of(s, key_of_hash(s, h)) == h by {
        lemma_find_hash(s, h);
        let j = find_hash(s, h);
        let k = s[j].0;
        lemma_find_key(s, k);
        let i = find_key(s, k);
        assert(i >= 0) by {
            if i == -1 {
                assert(s[j].0 != k);
            }
        }
        if i != j {
            if i < j {
                assert(s[i].0 != s[j].0);
            } else {
                assert(s[j].0 != s[i].0);
            }
        }
        assert(i == j);
    }
}

/// Looks up the key bound to `h` in the reverse direction, copying it
/// out.
pub fn index_get_by_hash(v: &Vec<(Vec<u8>, Vec<u8>)>, h: &Vec<u8>) -> (r: Option<Vec<u8>>)
    requires
        hashes_unique(pairs_view(v@)),
    ensures
        r is Some <==> has_hash(pairs_view(v@), h@),
        r is Some ==> (r->Some_0)@ == key_of_hash(pairs_view(v@), h@),
{
    let ghost view = pairs_view(v@);
    proof {
        lemma_find_hash(view, h@);
    }
    let mut i: usize = 0;
    let mut found: Option<Vec<u8>> = None;
    let ghost fh = find_hash(view, h@);
    while i < v.len()
        invariant
            i <= v@.len(),
            view == pairs_view(v@),
            view.len() == v@.len(),
            hashes_unique(view),
            fh == find_hash(view, h@),
            -1 <= fh < view.len(),
            fh >= 0 ==> view[fh].1 == h@,
            fh == -1 ==> forall|j: int| 0 <= j < view.len() ==> view[j].1 != h@,
            (found is Some) <==> (0 <= fh < i),
            found is Some ==> (found->Some_0)@ == view[fh].0,
        decreases v@.len() - i,
    {
        if bytes_eq(&v[i].1, h) {
            proof {
                assert(view[i as int].1 == h@);
                assert(fh >= 0);
                if fh < i as int {
                    assert(view[fh].1 == view[i as int].1);
                    assert(false);
                }
                if fh > i as int {
                    assert(view[i as int].1 == view[fh].1);
                    assert(false);
                }
            }
            found = Some(copy_bytes(&v[i].0));
        }
        i = i + 1;
    }
    proof {
        if fh >= 0 {
            assert(view[fh].0 == key_of_hash(view, h@));
        }
    }
    found
}

} // verus!
