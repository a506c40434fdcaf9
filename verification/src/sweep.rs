//! Garbage collection decisions: which snapshot directories and which
//! pool files a finished sync removes.
//!
//! Snapshots: a first-level directory `dists-<N>`, `<N>` a decimal `i64`,
//! is stale exactly when `<N>` is not the running sync's timestamp.  The
//! published snapshot is never stale, and every other one is.
//!
//! Pool files: a file below the mirror root is an orphan exactly when its
//! repository-relative path is absent from the universe the sync just
//! enumerated.

use vstd::prelude::*;
use vstd::slice::slice_subrange;
use vstd::string::StringSliceAdditionalSpecFns;

use crate::bytes::{
    bytes_eq, bytes_lt, dec_of, dec_of_i64, i64_dec_val, i64_to_dec, is_i64_dec, is_prefix_of,
    lemma_dec_of_digits, lemma_lex_asymmetric, lemma_lex_connected, lemma_lex_irreflexive,
    lemma_lex_transitive, lex_lt, parse_i64, slice_to_vec_u8, starts_with,
};
use crate::universe::sorted_strict;
use crate::{EntryModel, FileEntry};

verus! {

/// The directory name of the snapshot of the sync started at `t`:
/// `dists-<t>`.
pub open spec fn spec_snapshot_name(t: int) -> Seq<u8> {
    "dists-".spec_bytes() + dec_of_i64(t)
}

pub fn snapshot_dir_name(t: i64) -> (r: Vec<u8>)
    ensures
        r@ == spec_snapshot_name(t as int),
{
    let mut r = slice_to_vec_u8("dists-".as_bytes());
    let mut d = i64_to_dec(t);
    r.append(&mut d);
    r
}

/// A first-level directory of this name is removed by the sweep of the
/// sync started at `current`: it is `dists-<N>` with `<N>` a decimal
/// `i64` other than `current`.
pub open spec fn spec_stale_snapshot(name: Seq<u8>, current: int) -> bool {
    let tag = "dists-".spec_bytes();
    &&& is_prefix_of(tag, name)
    &&& is_i64_dec(name.skip(tag.len() as int))
    &&& i64_dec_val(name.skip(tag.len() as int)) != current
}

/// Decide whether the sweep removes a first-level directory.
pub fn should_remove_snapshot(name: &Vec<u8>, current: i64) -> (r: bool)
    ensures
        r == spec_stale_snapshot(name@, current as int),
{
    let tag = "dists-".as_bytes();
    if !starts_with(name.as_slice(), tag) {
        return false;
    }
    let rest = slice_subrange(name.as_slice(), tag.len(), name.len());
    proof {
        assert(rest@ =~= name@.skip("dists-".spec_bytes().len() as int));
    }
    match parse_i64(rest) {
        Some(v) => v != current,
        None => false,
    }
}

/// Rendering a timestamp and reading it back is the identity: `dists-<t>`
/// always parses, to `t`.
pub proof fn lemma_snapshot_name_roundtrip(t: int)
    requires
        i64::MIN <= t <= i64::MAX,
    ensures
        is_i64_dec(dec_of_i64(t)),
        i64_dec_val(dec_of_i64(t)) == t,
{
    if t >= 0 {
        lemma_dec_of_digits(t as nat);
        assert(dec_of_i64(t) == dec_of(t as nat));
        assert(dec_of_i64(t)[0] != 45);
    } else {
        lemma_dec_of_digits((-t) as nat);
        let s = dec_of_i64(t);
        assert(s == seq![45u8] + dec_of((-t) as nat));
        assert(s[0] == 45);
        assert(s.skip(1) =~= dec_of((-t) as nat));
    }
}

/// The sweep spares the snapshot being published: `dists-<current>` is
/// never stale.
pub proof fn lemma_sweep_spares_current(current: int)
    requires
        i64::MIN <= current <= i64::MAX,
    ensures
        !spec_stale_snapshot(spec_snapshot_name(current), current),
{
    let tag = "dists-".spec_bytes();
    lemma_snapshot_name_roundtrip(current);
    assert(spec_snapshot_name(current).skip(tag.len() as int) =~= dec_of_i64(current));
}

/// The sweep removes every other snapshot: for `t != current`,
/// `dists-<t>` is stale.
pub proof fn lemma_sweep_removes_others(t: int, current: int)
    requires
        i64::MIN <= t <= i64::MAX,
        i64::MIN <= current <= i64::MAX,
        t != current,
    ensures
        spec_stale_snapshot(spec_snapshot_name(t), current),
{
    let tag = "dists-".spec_bytes();
    lemma_snapshot_name_roundtrip(t);
    assert(spec_snapshot_name(t).skip(tag.len() as int) =~= dec_of_i64(t));
    assert(spec_snapshot_name(t).subrange(0, tag.len() as int) =~= tag);
}

/// The path is one the universe declares.
pub open spec fn in_universe(u: Seq<EntryModel>, p: Seq<u8>) -> bool {
    exists|i: int| 0 <= i < u.len() && u[i].path == p
}

/// Decide whether the sweep removes a pool file: exactly when its
/// repository-relative path is absent from the sorted universe.
pub fn is_orphan(universe: &Vec<FileEntry>, rel_path: &Vec<u8>) -> (r: bool)
    requires
        sorted_strict(universe.deep_view()),
    ensures
        r == !in_universe(universe.deep_view(), rel_path@),
{
    let ghost udv = universe.deep_view();
    let ghost p = rel_path@;
    let mut lo: usize = 0;
    let mut hi: usize = universe.len();
    while lo < hi
        invariant
            0 <= lo <= hi <= udv.len(),
            udv == universe.deep_view(),
            udv.len() == universe@.len(),
            p == rel_path@,
            sorted_strict(udv),
            forall|k: int| 0 <= k < lo ==> lex_lt(#[trigger] udv[k].path, p),
            forall|k: int| hi <= k < udv.len() ==> lex_lt(p, #[trigger] udv[k].path),
        decreases hi - lo,
    {
        let mid = lo + (hi - lo) / 2;
        proof {
            assert(udv[mid as int].path == universe@[mid as int].path@);
        }
        if bytes_lt(universe[mid].path.as_slice(), rel_path.as_slice()) {
            proof {
                assert forall|k: int| 0 <= k < mid + 1 implies lex_lt(
                    #[trigger] udv[k].path,
                    p,
                ) by {
                    if k < mid {
                        assert(lex_lt(udv[k].path, udv[mid as int].path));
                        lemma_lex_transitive(udv[k].path, udv[mid as int].path, p);
                    }
                }
            }
            lo = mid + 1;
        } else if bytes_eq(universe[mid].path.as_slice(), rel_path.as_slice()) {
            proof {
                assert(udv[mid as int].path == p);
            }
            return false;
        } else {
            proof {
                lemma_lex_connected(udv[mid as int].path, p);
                assert(lex_lt(p, udv[mid as int].path));
                assert forall|k: int| mid <= k < udv.len() implies lex_lt(
                    p,
                    #[trigger] udv[k].path,
                ) by {
                    if k > mid {
                        assert(lex_lt(udv[mid as int].path, udv[k].path));
                        lemma_lex_transitive(p, udv[mid as int].path, udv[k].path);
                    }
                }
            }
            hi = mid;
        }
    }
    proof {
        assert forall|i: int| 0 <= i < udv.len() implies udv[i].path != p by {
            lemma_lex_irreflexive(p);
            if i < lo {
                lemma_lex_asymmetric(udv[i].path, p);
            } else {
                lemma_lex_asymmetric(p, udv[i].path);
            }
        }
    }
    true
}

/// The repository-relative paths of the local pool files the sweep
/// removes: exactly those absent from the universe, in walking order.
pub open spec fn spec_orphans(u: Seq<EntryModel>, files: Seq<Seq<u8>>) -> Seq<Seq<u8>>
    decreases files.len(),
{
    if files.len() == 0 {
        Seq::empty()
    } else {
        let rest = spec_orphans(u, files.drop_first());
        if !in_universe(u, files.first()) {
            seq![files.first()] + rest
        } else {
            rest
        }
    }
}

/// From the walked pool files, list the ones to remove.
pub fn orphan_files(universe: &Vec<FileEntry>, files: &Vec<Vec<u8>>) -> (r: Vec<Vec<u8>>)
    requires
        sorted_strict(universe.deep_view()),
    ensures
        r.deep_view() == spec_orphans(universe.deep_view(), files.deep_view()),
{
    let mut r: Vec<Vec<u8>> = Vec::new();
    let n = files.len();
    proof {
        assert(files.deep_view().skip(0) =~= files.deep_view());
        assert(r.deep_view() + spec_orphans(universe.deep_view(), files.deep_view())
            =~~= spec_orphans(universe.deep_view(), files.deep_view()));
    }
    let mut i: usize = 0;
    while i < n
        invariant
            n == files@.len(),
            0 <= i <= n,
            sorted_strict(universe.deep_view()),
            spec_orphans(universe.deep_view(), files.deep_view()) == r.deep_view() + spec_orphans(
                universe.deep_view(),
                files.deep_view().skip(i as int),
            ),
        decreases n - i,
    {
        let ghost rest = files.deep_view().skip(i as int);
        proof {
            assert(rest.first() == files.deep_view()[i as int]);
            assert(files.deep_view()[i as int] == files@[i as int]@);
            assert(rest.drop_first() =~= files.deep_view().skip(i + 1));
        }
        if is_orphan(universe, &files[i]) {
            let ghost old_dv = r.deep_view();
            r.push(crate::bytes::clone_bytes(&files[i]));
            proof {
                assert(r.deep_view() =~~= old_dv + seq![files@[i as int]@]);
                assert(old_dv + seq![rest.first()] + spec_orphans(
                    universe.deep_view(),
                    rest.drop_first(),
                ) =~= old_dv + (seq![rest.first()] + spec_orphans(
                    universe.deep_view(),
                    rest.drop_first(),
                )));
            }
        }
        i = i + 1;
    }
    proof {
        assert(files.deep_view().skip(n as int).len() == 0);
        assert(r.deep_view() =~= r.deep_view() + spec_orphans(
            universe.deep_view(),
            files.deep_view().skip(n as int),
        ));
    }
    r
}

/// Every walked pool file the sweep keeps is one the universe declares:
/// a path in `files` missing from the orphan list is in the universe.
pub proof fn lemma_kept_files_in_universe(u: Seq<EntryModel>, files: Seq<Seq<u8>>, p: Seq<u8>)
    requires
        files.contains(p),
        !spec_orphans(u, files).contains(p),
    ensures
        in_universe(u, p),
    decreases files.len(),
{
    if files.len() > 0 {
        let orphans = spec_orphans(u, files);
        let rest = spec_orphans(u, files.drop_first());
        if files.first() == p {
            if !in_universe(u, p) {
                assert(orphans == seq![p] + rest);
                assert(orphans[0] == p);
            }
        } else {
            let k = choose|k: int| 0 <= k < files.len() && #[trigger] files[k] == p;
            assert(files.drop_first()[k - 1] == p);
            assert(files.drop_first().contains(p));
            assert(!rest.contains(p)) by {
                if rest.contains(p) {
                    let m = choose|m: int| 0 <= m < rest.len() && #[trigger] rest[m] == p;
                    if !in_universe(u, files.first()) {
                        assert(orphans[m + 1] == p);
                    } else {
                        assert(orphans[m] == p);
                    }
                }
            }
            lemma_kept_files_in_universe(u, files.drop_first(), p);
        }
    }
}

} // verus!
