//! Universe assembly: merge the entries of every parsed index into one
//! set, unique by path and sorted.
//!
//! Two indices may declare the same path; that is fine as long as they
//! agree on its size.  A path declared twice with different sizes is an
//! inconsistent remote, and the sync must fail rather than pick one.

use vstd::prelude::*;

use crate::bytes::{
    bytes_eq, bytes_lt, lemma_lex_connected, lemma_lex_irreflexive, lemma_lex_transitive, lex_lt,
};
use crate::{EntryModel, FileEntry, SyncError};

verus! {

/// Paths strictly increase: sorted, and in particular unique.
pub open spec fn sorted_strict(s: Seq<EntryModel>) -> bool {
    forall|i: int, j: int| 0 <= i < j < s.len() ==> lex_lt(s[i].path, s[j].path)
}

/// Some path is declared twice with two different sizes.
pub open spec fn has_conflict(s: Seq<EntryModel>) -> bool {
    exists|i: int, j: int|
        0 <= i < s.len() && 0 <= j < s.len() && s[i].path == s[j].path && s[i].size != s[j].size
}

/// Merge the concatenated index entries into the universe of one sync:
/// the same entries, each path once, sorted by path.  Returns the
/// inconsistency error exactly when two entries disagree on a size.
pub fn dedup_universe(entries: &Vec<FileEntry>) -> (r: Result<Vec<FileEntry>, SyncError>)
    ensures
        match r {
            Ok(u) => {
                &&& sorted_strict(u.deep_view())
                &&& forall|e: EntryModel| #[trigger]
                    u.deep_view().contains(e) ==> entries.deep_view().contains(e)
                &&& forall|e: EntryModel| #[trigger]
                    entries.deep_view().contains(e) ==> u.deep_view().contains(e)
                &&& !has_conflict(entries.deep_view())
            },
            Err(err) => err == SyncError::InconsistentIndex && has_conflict(entries.deep_view()),
        },
{
    let ghost edv = entries.deep_view();
    let mut out: Vec<FileEntry> = Vec::new();
    let n = entries.len();
    let mut i: usize = 0;
    proof {
        assert(edv.take(0) =~= Seq::<EntryModel>::empty());
    }
    while i < n
        invariant
            n == entries@.len(),
            edv == entries.deep_view(),
            0 <= i <= n,
            sorted_strict(out.deep_view()),
            forall|e: EntryModel| #[trigger]
                out.deep_view().contains(e) ==> edv.take(i as int).contains(e),
            forall|e: EntryModel| #[trigger]
                edv.take(i as int).contains(e) ==> out.deep_view().contains(e),
            !has_conflict(edv.take(i as int)),
        decreases n - i,
    {
        let ghost odv = out.deep_view();
        let ghost em = edv[i as int];
        proof {
            assert(em == entries@[i as int]@);
        }
        let mut idx: usize = 0;
        while idx < out.len() && bytes_lt(out[idx].path.as_slice(), entries[i].path.as_slice())
            invariant
                n == entries@.len(),
                0 <= i < n,
                em == entries@[i as int]@,
                0 <= idx <= out@.len(),
                odv == out.deep_view(),
                forall|k: int| 0 <= k < idx ==> lex_lt(#[trigger] odv[k].path, em.path),
            decreases out@.len() - idx,
        {
            proof {
                assert(odv[idx as int].path == out@[idx as int].path@);
            }
            idx = idx + 1;
        }
        proof {
            assert(idx < odv.len() ==> odv[idx as int].path == out@[idx as int].path@);
            assert(idx < odv.len() ==> !lex_lt(odv[idx as int].path, em.path));
        }
        let mut duplicate_here = false;
        if idx < out.len() {
            if bytes_eq(out[idx].path.as_slice(), entries[i].path.as_slice()) {
                duplicate_here = true;
            }
        }
        if duplicate_here {
            proof {
                assert(odv[idx as int].path == em.path);
            }
            if out[idx].size != entries[i].size {
                proof {
                    // the entry already stored came from an earlier index
                    // position: together they witness the inconsistency
                    assert(odv.contains(odv[idx as int]));
                    assert(edv.take(i as int).contains(odv[idx as int]));
                    let k = choose|k: int|
                        0 <= k < i && #[trigger] edv.take(i as int)[k] == odv[idx as int];
                    assert(edv[k] == odv[idx as int]);
                    assert(edv[k].path == edv[i as int].path);
                    assert(edv[k].size != edv[i as int].size);
                }
                return Err(SyncError::InconsistentIndex);
            }
            proof {
                // same path, same size: the stored entry is this entry
                assert(odv[idx as int] == em);
                assert(odv.contains(em));
                assert forall|k: int|
                    0 <= k < odv.len() && (#[trigger] odv[k].path) == em.path implies odv[k].size
                    == em.size by {
                    lemma_lex_irreflexive(em.path);
                    if k < idx {
                        assert(lex_lt(odv[k].path, em.path));
                    } else if k > idx {
                        assert(lex_lt(odv[idx as int].path, odv[k].path));
                    }
                }
                lemma_no_conflict_extends(edv, i as int, odv, em);
                assert(forall|e: EntryModel| #[trigger]
                    edv.take(i + 1).contains(e) ==> edv.take(i as int).contains(e) || e == em)
                    by {
                    assert forall|e: EntryModel| #[trigger]
                        edv.take(i + 1).contains(e) implies edv.take(i as int).contains(e) || e
                        == em by {
                        let k = choose|k: int| 0 <= k < i + 1 && #[trigger] edv.take(i + 1)[k] == e;
                        if k < i {
                            assert(edv.take(i as int)[k] == e);
                        }
                    }
                }
                assert(forall|e: EntryModel| #[trigger]
                    edv.take(i as int).contains(e) ==> edv.take(i + 1).contains(e)) by {
                    assert forall|e: EntryModel| #[trigger]
                        edv.take(i as int).contains(e) implies edv.take(i + 1).contains(e) by {
                        let k = choose|k: int| 0 <= k < i && #[trigger] edv.take(i as int)[k] == e;
                        assert(edv.take(i + 1)[k] == e);
                    }
                }
                assert(edv.take(i + 1).contains(em)) by {
                    assert(edv.take(i + 1)[i as int] == em);
                }
            }
        } else {
            proof {
                // `em.path` is new: everything before `idx` sorts below it,
                // everything from `idx` on sorts above it
                if idx < odv.len() {
                    lemma_lex_connected(odv[idx as int].path, em.path);
                    assert(odv[idx as int].path != em.path);
                    assert(lex_lt(em.path, odv[idx as int].path));
                }
                assert forall|k: int| idx <= k < odv.len() implies lex_lt(
                    em.path,
                    #[trigger] odv[k].path,
                ) by {
                    if k > idx {
                        assert(lex_lt(odv[idx as int].path, odv[k].path));
                        lemma_lex_transitive(em.path, odv[idx as int].path, odv[k].path);
                    }
                }
                assert forall|k: int|
                    0 <= k < odv.len() && (#[trigger] odv[k].path) == em.path implies odv[k].size
                    == em.size by {
                    lemma_lex_irreflexive(em.path);
                    if k < idx {
                        assert(lex_lt(odv[k].path, em.path));
                    } else {
                        assert(lex_lt(em.path, odv[k].path));
                    }
                }
                lemma_no_conflict_extends(edv, i as int, odv, em);
            }
            let fresh = entries[i].duplicate();
            out.insert(idx, fresh);
            proof {
                assert(out.deep_view() =~~= odv.take(idx as int) + seq![em] + odv.skip(idx as int));
                let ndv = out.deep_view();
                assert(ndv.len() == odv.len() + 1);
                assert(forall|k: int| 0 <= k < idx ==> ndv[k] == odv[k]);
                assert(ndv[idx as int] == em);
                assert(forall|k: int| idx < k < ndv.len() ==> ndv[k] == odv[k - 1]);
                assert forall|a: int, b: int| 0 <= a < b < ndv.len() implies lex_lt(
                    ndv[a].path,
                    ndv[b].path,
                ) by {
                    if a < idx && b < idx {
                    } else if a == idx && b > idx {
                        assert(lex_lt(em.path, odv[b - 1].path));
                    } else if a < idx && b == idx {
                        assert(lex_lt(odv[a].path, em.path));
                    } else if a > idx && b > idx {
                        assert(lex_lt(odv[a - 1].path, odv[b - 1].path));
                    } else if a < idx && b > idx {
                        assert(lex_lt(odv[a].path, odv[b - 1].path));
                    }
                }
                assert forall|e: EntryModel| #[trigger] ndv.contains(e) implies edv.take(
                    i + 1,
                ).contains(e) by {
                    let k = choose|k: int| 0 <= k < ndv.len() && #[trigger] ndv[k] == e;
                    if k == idx {
                        assert(edv.take(i + 1)[i as int] == em);
                    } else {
                        let ko: int = if k < idx {
                            k
                        } else {
                            k - 1
                        };
                        assert(odv[ko] == e);
                        assert(odv.contains(e));
                        assert(edv.take(i as int).contains(e));
                        let m = choose|m: int| 0 <= m < i && #[trigger] edv.take(i as int)[m] == e;
                        assert(edv.take(i + 1)[m] == e);
                    }
                }
                assert forall|e: EntryModel| #[trigger]
                    edv.take(i + 1).contains(e) implies ndv.contains(e) by {
                    let k = choose|k: int| 0 <= k < i + 1 && #[trigger] edv.take(i + 1)[k] == e;
                    if k < i {
                        assert(edv.take(i as int)[k] == e);
                        assert(edv.take(i as int).contains(e));
                        assert(odv.contains(e));
                        let m = choose|m: int| 0 <= m < odv.len() && #[trigger] odv[m] == e;
                        if m < idx {
                            assert(ndv[m] == e);
                        } else {
                            assert(ndv[m + 1] == e);
                        }
                    } else {
                        assert(e == em);
                        assert(ndv[idx as int] == em);
                    }
                }
            }
        }
        i = i + 1;
    }
    proof {
        assert(edv.take(n as int) =~= edv);
    }
    Ok(out)
}

/// If every entry of `prefix := edv.take(i)` also stands in the
/// conflict-free, strictly sorted `odv`, and `em := edv[i]` conflicts
/// with nothing in `odv` that shares its path, then `edv.take(i + 1)` is
/// still conflict-free.
proof fn lemma_no_conflict_extends(edv: Seq<EntryModel>, i: int, odv: Seq<EntryModel>, em: EntryModel)
    requires
        0 <= i < edv.len(),
        em == edv[i],
        sorted_strict(odv),
        !has_conflict(edv.take(i)),
        forall|e: EntryModel| #[trigger] edv.take(i).contains(e) ==> odv.contains(e),
        forall|k: int| 0 <= k < odv.len() && odv[k].path == em.path ==> odv[k].size == em.size,
    ensures
        !has_conflict(edv.take(i + 1)),
{
    assert forall|k1: int, k2: int|
        0 <= k1 < i + 1 && 0 <= k2 < i + 1 && #[trigger] edv.take(i + 1)[k1].path == #[trigger] edv.take(
            i + 1,
        )[k2].path implies edv.take(i + 1)[k1].size == edv.take(i + 1)[k2].size by {
        let a = edv.take(i + 1)[k1];
        let b = edv.take(i + 1)[k2];
        if k1 < i && k2 < i {
            assert(edv.take(i)[k1] == a);
            assert(edv.take(i)[k2] == b);
            assert(!has_conflict(edv.take(i)));
            if a.size != b.size {
                assert(has_conflict(edv.take(i)));
            }
        } else if k1 < i && k2 == i {
            assert(edv.take(i)[k1] == a);
            assert(edv.take(i).contains(a));
            assert(odv.contains(a));
            let m = choose|m: int| 0 <= m < odv.len() && #[trigger] odv[m] == a;
            assert(odv[m].path == em.path);
            assert(a.size == em.size);
        } else if k1 == i && k2 < i {
            assert(edv.take(i)[k2] == b);
            assert(edv.take(i).contains(b));
            assert(odv.contains(b));
            let m = choose|m: int| 0 <= m < odv.len() && #[trigger] odv[m] == b;
            assert(odv[m].path == em.path);
            assert(b.size == em.size);
        }
    }
    if has_conflict(edv.take(i + 1)) {
        let (k1, k2) = choose|k1: int, k2: int|
            #![trigger edv.take(i + 1)[k1], edv.take(i + 1)[k2]]
            0 <= k1 < edv.take(i + 1).len() && 0 <= k2 < edv.take(i + 1).len() && edv.take(i + 1)[k1].path
                == edv.take(i + 1)[k2].path && edv.take(i + 1)[k1].size != edv.take(i + 1)[k2].size;
        assert(edv.take(i + 1)[k1].size == edv.take(i + 1)[k2].size);
    }
}

} // verus!
