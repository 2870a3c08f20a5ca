//! The versioned history of authenticated leaf values.
//!
//! Every commit appends one entry per changed key: (key hash, version,
//! optional value). An absent value is a tombstone. Reads at a version
//! see the newest entry at or below that version, so historical
//! snapshots stay readable after later commits.

use vstd::prelude::*;

use crate::bytes::{bytes_eq, copy_opt_bytes};
use crate::kvmap::{find_key, has_key, opt_view, value_of};

verus! {

/// The view of one history entry: (key hash, version, optional value).
pub open spec fn log_view(v: Seq<(Vec<u8>, u64, Option<Vec<u8>>)>) -> Seq<
    (Seq<u8>, u64, Option<Seq<u8>>),
> {
    Seq::new(v.len(), |i: int| (v[i].0@, v[i].1, opt_view(v[i].2)))
}

/// The value live under `kh` at version `ver`: the newest entry at or
/// below `ver`, or nothing when no such entry exists or it is a
/// tombstone.
pub open spec fn value_at(
    log: Seq<(Seq<u8>, u64, Option<Seq<u8>>)>,
    kh: Seq<u8>,
    ver: u64,
) -> Option<Seq<u8>>
    decreases log.len(),
{
    if log.len() == 0 {
        None
    } else if log.last().0 == kh && log.last().1 <= ver {
        log.last().2
    } else {
        value_at(log.drop_last(), kh, ver)
    }
}

/// Entries above `ver` do not affect reads at `ver`: appending them
/// leaves every `value_at` below unchanged.
pub proof fn lemma_value_at_extend(
    log: Seq<(Seq<u8>, u64, Option<Seq<u8>>)>,
    ext: Seq<(Seq<u8>, u64, Option<Seq<u8>>)>,
    kh: Seq<u8>,
    ver: u64,
)
    requires
        forall|i: int| 0 <= i < ext.len() ==> (#[trigger] ext[i]).1 > ver,
    ensures
        value_at(log + ext, kh, ver) == value_at(log, kh, ver),
    decreases ext.len(),
{
    if ext.len() == 0 {
        assert(log + ext =~= log);
    } else {
        assert((log + ext).last() == ext.last());
        assert(ext.last().1 > ver);
        assert((log + ext).drop_last() =~= log + ext.drop_last());
        lemma_value_at_extend(log, ext.drop_last(), kh, ver);
    }
}

/// Reads the value live under `kh` at version `ver` from the history.
pub fn log_value_at(log: &Vec<(Vec<u8>, u64, Option<Vec<u8>>)>, kh: &Vec<u8>, ver: u64) -> (r:
    Option<Vec<u8>>)
    ensures
        opt_view(r) == value_at(log_view(log@), kh@, ver),
{
    let ghost logv = log_view(log@);
    let mut i: usize = log.len();
    proof {
        assert(logv.take(i as int) =~= logv);
    }
    while i > 0
        invariant
            i <= log@.len(),
            logv == log_view(log@),
            logv.len() == log@.len(),
            value_at(logv, kh@, ver) == value_at(logv.take(i as int), kh@, ver),
        decreases i,
    {
        i = i - 1;
        proof {
            assert(logv.take(i as int + 1).last() == logv[i as int]);
            assert(logv.take(i as int + 1).drop_last() =~= logv.take(i as int));
        }
        if log[i].1 <= ver && bytes_eq(&log[i].0, kh) {
            proof {
                assert(logv[i as int].0 == kh@ && logv[i as int].1 <= ver);
                assert(value_at(logv.take(i as int + 1), kh@, ver) == logv[i as int].2);
            }
            return copy_opt_bytes(&log[i].2);
        }
        proof {
            assert(logv[i as int].0 != kh@ || logv[i as int].1 > ver);
            assert(value_at(logv.take(i as int + 1), kh@, ver) == value_at(
                logv.take(i as int),
                kh@,
                ver,
            ));
        }
    }
    proof {
        assert(logv.take(0) =~= Seq::empty());
    }
    None
}

/// Raising the read version past every entry changes nothing.
pub proof fn lemma_value_at_monotone(
    log: Seq<(Seq<u8>, u64, Option<Seq<u8>>)>,
    kh: Seq<u8>,
    t1: u64,
    t2: u64,
)
    requires
        forall|i: int| 0 <= i < log.len() ==> (#[trigger] log[i]).1 <= t1,
        t1 <= t2,
    ensures
        value_at(log, kh, t1) == value_at(log, kh, t2),
    decreases log.len(),
{
    if log.len() > 0 {
        assert(log.last() == log[log.len() - 1]);
        assert(forall|i: int|
            0 <= i < log.len() - 1 ==> (#[trigger] log.drop_last()[i]) == log[i]);
        lemma_value_at_monotone(log.drop_last(), kh, t1, t2);
    }
}

/// Appending one version's entries: a read at that version sees the
/// last entry for the key among them, or falls back to the old log.
pub proof fn lemma_value_at_entries(
    log: Seq<(Seq<u8>, u64, Option<Seq<u8>>)>,
    entries: Seq<(Seq<u8>, u64, Option<Seq<u8>>)>,
    ver: u64,
    kh: Seq<u8>,
)
    requires
        forall|i: int| 0 <= i < entries.len() ==> (#[trigger] entries[i]).1 == ver,
    ensures
        value_at(log + entries, kh, ver) == (if has_key(keyed(entries), kh) {
            value_of(keyed(entries), kh)
        } else {
            value_at(log, kh, ver)
        }),
    decreases entries.len(),
{
    if entries.len() == 0 {
        assert(log + entries =~= log);
    } else {
        let prev = entries.drop_last();
        assert(forall|i: int| 0 <= i < prev.len() ==> (#[trigger] prev[i]) == entries[i]);
        lemma_value_at_entries(log, prev, ver, kh);
        assert((log + entries).drop_last() =~= log + prev);
        assert((log + entries).last() == entries.last());
        assert(keyed(entries).drop_last() =~= keyed(prev));
        assert(keyed(entries).last() == (entries.last().0, entries.last().2));
        if entries.last().0 == kh {
            assert(value_at(log + entries, kh, ver) == entries.last().2);
            assert(find_key(keyed(entries), kh) == keyed(entries).len() - 1);
            assert(value_of(keyed(entries), kh) == entries.last().2);
        } else {
            assert(value_at(log + entries, kh, ver) == value_at(log + prev, kh, ver));
            assert(find_key(keyed(entries), kh) == find_key(keyed(prev), kh));
            crate::kvmap::lemma_find_key(keyed(prev), kh);
            if has_key(keyed(prev), kh) {
                let fk = find_key(keyed(prev), kh);
                assert(keyed(entries)[fk] == keyed(prev)[fk]);
                assert(value_of(keyed(entries), kh) == value_of(keyed(prev), kh));
            }
        }
    }
}

/// The (key hash, value) pairs of a run of history entries.
pub open spec fn keyed(entries: Seq<(Seq<u8>, u64, Option<Seq<u8>>)>) -> Seq<
    (Seq<u8>, Option<Seq<u8>>),
> {
    Seq::new(entries.len(), |i: int| (entries[i].0, entries[i].2))
}

} // verus!
