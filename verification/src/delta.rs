//! Delta scanner: which declared files the local tree still needs.
//!
//! A file needs transfer exactly when it is absent locally, its metadata
//! cannot be read, or its local size differs from the declared one.  Files
//! whose size matches are trusted without rehashing — the same equivalence
//! the external transport applies by default.  The caller observes the
//! local tree and hands one observation per entry: `Some(size)` for a
//! readable file, `None` for a missing or unreadable one.

use vstd::prelude::*;

use crate::bytes::clone_bytes;
use crate::{EntryModel, FileEntry};

verus! {

/// The entry must be transferred, given the local observation.
pub open spec fn needs_transfer(e: EntryModel, st: Option<u64>) -> bool {
    match st {
        None => true,
        Some(sz) => sz != e.size,
    }
}

/// The paths of the entries that need transfer, in list order.
pub open spec fn spec_delta(list: Seq<EntryModel>, stats: Seq<Option<u64>>) -> Seq<Seq<u8>>
    decreases list.len(),
{
    if list.len() == 0 {
        Seq::empty()
    } else {
        let rest = spec_delta(list.drop_first(), stats.drop_first());
        if needs_transfer(list.first(), stats.first()) {
            seq![list.first().path] + rest
        } else {
            rest
        }
    }
}

/// Scan the declared entries against the local observations and return
/// the paths still to be fetched: exactly those of entries that are
/// missing, unreadable, or of the wrong size, in list order.
pub fn scan_delta(list: &Vec<FileEntry>, stats: &Vec<Option<u64>>) -> (r: Vec<Vec<u8>>)
    requires
        list@.len() == stats@.len(),
    ensures
        r.deep_view() == spec_delta(list.deep_view(), stats@),
{
    let mut r: Vec<Vec<u8>> = Vec::new();
    let n = list.len();
    proof {
        assert(list.deep_view().skip(0) =~= list.deep_view());
        assert(stats@.skip(0) =~= stats@);
        assert(r.deep_view() + spec_delta(list.deep_view(), stats@) =~~= spec_delta(
            list.deep_view(),
            stats@,
        ));
    }
    let mut i: usize = 0;
    while i < n
        invariant
            n == list@.len() && n == stats@.len(),
            0 <= i <= n,
            spec_delta(list.deep_view(), stats@) == r.deep_view() + spec_delta(
                list.deep_view().skip(i as int),
                stats@.skip(i as int),
            ),
        decreases n - i,
    {
        let ghost lrest = list.deep_view().skip(i as int);
        let ghost srest = stats@.skip(i as int);
        proof {
            assert(lrest.first() == list.deep_view()[i as int]);
            assert(list.deep_view()[i as int] == list@[i as int]@);
            assert(srest.first() == stats@[i as int]);
            assert(lrest.drop_first() =~= list.deep_view().skip(i + 1));
            assert(srest.drop_first() =~= stats@.skip(i + 1));
        }
        let wanted = match stats[i] {
            None => true,
            Some(sz) => sz != list[i].size,
        };
        if wanted {
            let p = clone_bytes(&list[i].path);
            let ghost old_dv = r.deep_view();
            r.push(p);
            proof {
                assert(r.deep_view() =~~= old_dv + seq![p@]);
                assert(old_dv + seq![p@] + spec_delta(lrest.drop_first(), srest.drop_first())
                    =~= old_dv + (seq![p@] + spec_delta(lrest.drop_first(), srest.drop_first())));
            }
        }
        i = i + 1;
    }
    proof {
        assert(list.deep_view().skip(n as int).len() == 0);
        assert(r.deep_view() =~= r.deep_view() + spec_delta(
            list.deep_view().skip(n as int),
            stats@.skip(n as int),
        ));
    }
    r
}

/// A mirror already in sync needs nothing: when every observation reports
/// exactly the declared size, the delta is empty.  Running a sync again
/// against an unchanged remote therefore transfers nothing.
pub proof fn lemma_delta_empty_when_synced(list: Seq<EntryModel>, stats: Seq<Option<u64>>)
    requires
        list.len() == stats.len(),
        forall|i: int| 0 <= i < list.len() ==> stats[i] == Some(list[i].size),
    ensures
        spec_delta(list, stats) == Seq::<Seq<u8>>::empty(),
    decreases list.len(),
{
    if list.len() > 0 {
        assert(stats[0] == Some(list[0].size));
        lemma_delta_empty_when_synced(list.drop_first(), stats.drop_first());
    }
    assert(spec_delta(list, stats) =~= Seq::<Seq<u8>>::empty());
}

/// The delta is sound and complete: a path stands in it if and only if
/// some declared entry carries that path and its observation calls for a
/// transfer.
pub proof fn lemma_delta_characterises(list: Seq<EntryModel>, stats: Seq<Option<u64>>, p: Seq<u8>)
    requires
        list.len() == stats.len(),
    ensures
        spec_delta(list, stats).contains(p) <==> exists|i: int|
            0 <= i < list.len() && list[i].path == p && needs_transfer(list[i], stats[i]),
    decreases list.len(),
{
    if list.len() > 0 {
        lemma_delta_characterises(list.drop_first(), stats.drop_first(), p);
        let d = spec_delta(list, stats);
        let rest = spec_delta(list.drop_first(), stats.drop_first());
        if needs_transfer(list.first(), stats.first()) {
            assert(d == seq![list.first().path] + rest);
            assert(d[0] == list.first().path);
            if rest.contains(p) {
                let j = choose|j: int| 0 <= j < rest.len() && rest[j] == p;
                assert(d[j + 1] == p);
            }
            if d.contains(p) {
                let j = choose|j: int| 0 <= j < d.len() && d[j] == p;
                if j > 0 {
                    assert(rest[j - 1] == p);
                }
            }
        }
        if exists|i: int|
            0 <= i < list.len() && list[i].path == p && needs_transfer(list[i], stats[i]) {
            let i = choose|i: int|
                0 <= i < list.len() && list[i].path == p && needs_transfer(list[i], stats[i]);
            if i > 0 {
                assert(list.drop_first()[i - 1].path == p && needs_transfer(
                    list.drop_first()[i - 1],
                    stats.drop_first()[i - 1],
                ));
            }
        }
        if exists|i: int|
            0 <= i < list.drop_first().len() && list.drop_first()[i].path == p && needs_transfer(
                list.drop_first()[i],
                stats.drop_first()[i],
            ) {
            let i = choose|i: int|
                0 <= i < list.drop_first().len() && list.drop_first()[i].path == p
                    && needs_transfer(list.drop_first()[i], stats.drop_first()[i]);
            assert(list[i + 1].path == p && needs_transfer(list[i + 1], stats[i + 1]));
        }
    }
}

/// Fetching exactly the delta completes the mirror: if a new scan
/// observes the declared size for every entry that needed transfer and
/// sees everything else unchanged, nothing is left to fetch.
pub proof fn lemma_transfer_completes(
    list: Seq<EntryModel>,
    stats: Seq<Option<u64>>,
    stats2: Seq<Option<u64>>,
)
    requires
        list.len() == stats.len(),
        list.len() == stats2.len(),
        forall|i: int|
            0 <= i < list.len() ==> stats2[i] == (if needs_transfer(list[i], stats[i]) {
                Some(list[i].size)
            } else {
                stats[i]
            }),
    ensures
        spec_delta(list, stats2) == Seq::<Seq<u8>>::empty(),
{
    assert forall|i: int| 0 <= i < list.len() implies stats2[i] == Some(list[i].size) by {
        if !needs_transfer(list[i], stats[i]) {
            assert(stats[i] is Some && stats[i]->0 == list[i].size);
        }
    }
    lemma_delta_empty_when_synced(list, stats2);
}

} // verus!
