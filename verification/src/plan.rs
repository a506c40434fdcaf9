//! Transfer planning: even partitioning of work, worklist files and the
//! argument vector for the external transfer program.
//!
//! A non-empty list of items is cut into at most `jobs` contiguous chunks
//! of `ceil(len / workers)` items (`workers` being the smaller of `jobs`
//! and the item count), every chunk non-empty, their concatenation the
//! original list.  An empty list yields no chunks at all, so no worker is
//! ever started for nothing and one item starts exactly one worker.

use vstd::prelude::*;
use vstd::string::StringSliceAdditionalSpecFns;

use crate::bytes::{clone_bytes, dec_of, dec_of_i64, i64_to_dec, slice_to_vec_u8, u64_to_dec};

verus! {

/// How many workers a list of `len` items occupies under a `jobs` cap:
/// the smaller of the two (meaningful for `len >= 1`, `jobs >= 1`).
pub open spec fn spec_workers(len: int, jobs: int) -> int {
    if len < jobs {
        len
    } else {
        jobs
    }
}

/// Chunk size of the even partition: `ceil(len / workers)`.
pub open spec fn spec_chunk_size(len: int, jobs: int) -> int {
    let w = spec_workers(len, jobs);
    len / w + if len % w > 0 {
        1int
    } else {
        0int
    }
}

/// The concatenation of a sequence of chunks.
pub open spec fn concat_vecs<T>(chunks: Seq<Vec<T>>) -> Seq<T>
    decreases chunks.len(),
{
    if chunks.len() == 0 {
        Seq::empty()
    } else {
        chunks.first()@ + concat_vecs(chunks.drop_first())
    }
}

pub proof fn lemma_concat_vecs_push<T>(chunks: Seq<Vec<T>>, c: Vec<T>)
    ensures
        concat_vecs(chunks.push(c)) == concat_vecs(chunks) + c@,
    decreases chunks.len(),
{
    if chunks.len() == 0 {
        assert(chunks.push(c).drop_first() =~= Seq::<Vec<T>>::empty());
        assert(chunks.push(c).first() == c);
        assert(concat_vecs(Seq::<Vec<T>>::empty()) == Seq::<T>::empty());
        assert(concat_vecs(chunks.push(c)) == c@ + Seq::<T>::empty());
        assert(chunks =~= Seq::<Vec<T>>::empty());
        assert(c@ + Seq::<T>::empty() =~= Seq::<T>::empty() + c@);
    } else {
        lemma_concat_vecs_push(chunks.drop_first(), c);
        assert(chunks.push(c).drop_first() =~= chunks.drop_first().push(c));
        assert(chunks.push(c).first() == chunks.first());
        assert(concat_vecs(chunks.push(c)) == chunks.first()@ + concat_vecs(
            chunks.drop_first().push(c),
        ));
        assert(chunks.first()@ + (concat_vecs(chunks.drop_first()) + c@) =~= (chunks.first()@
            + concat_vecs(chunks.drop_first())) + c@);
    }
}

/// Cut `items` into contiguous chunks for up to `jobs` parallel workers.
///
/// The chunks concatenate back to `items` in order; an empty list gives
/// no chunks; otherwise there are between one and `jobs` chunks, never
/// more than there are items, each non-empty and none larger than the
/// even chunk size.  With `jobs == 1` everything stays in one chunk, so
/// serial operation changes no outcome; a single item occupies a single
/// chunk.
pub fn chunk_evenly<T>(items: Vec<T>, jobs: u8) -> (r: Vec<Vec<T>>)
    requires
        jobs >= 1,
    ensures
        concat_vecs(r@) == items@,
        items@.len() == 0 ==> r@.len() == 0,
        items@.len() > 0 ==> 1 <= r@.len() && r@.len() <= jobs && r@.len() <= items@.len(),
        forall|k: int| 0 <= k < r@.len() ==> #[trigger] r@[k]@.len() > 0,
        items@.len() > 0 ==> forall|k: int|
            0 <= k < r@.len() ==> #[trigger] r@[k]@.len() <= spec_chunk_size(
                items@.len() as int,
                jobs as int,
            ),
{
    let ghost items_model = items@;
    if items.len() == 0 {
        let r: Vec<Vec<T>> = Vec::new();
        proof {
            assert(concat_vecs(r@) =~= items_model);
        }
        return r;
    }
    let len = items.len();
    let jobs_us = jobs as usize;
    let actual: usize = if len < jobs_us {
        len
    } else {
        jobs_us
    };
    let each: usize = (len - 1) / actual + 1;
    proof {
        let l = len as int;
        let a = actual as int;
        let q = l / a;
        let rem = l % a;
        vstd::arithmetic::div_mod::lemma_fundamental_div_mod(l, a);
        vstd::arithmetic::div_mod::lemma_mod_bound(l, a);
        vstd::arithmetic::div_mod::lemma_fundamental_div_mod(l - 1, a);
        vstd::arithmetic::div_mod::lemma_mod_bound(l - 1, a);
        if rem > 0 {
            assert(q * a == a * q) by (nonlinear_arith);
            assert(l - 1 == q * a + (rem - 1));
            vstd::arithmetic::div_mod::lemma_fundamental_div_mod_converse(l - 1, a, q, rem - 1);
            assert((l - 1) / a == q);
            assert(each as int == q + 1);
            assert(a * (q + 1) == a * q + a) by (nonlinear_arith);
            assert(l <= a * (each as int));
        } else {
            assert(a * q == l);
            assert(q >= 1) by (nonlinear_arith)
                requires
                    a * q == l,
                    l >= 1,
                    a >= 1,
                    q == l / a,
            ;
            assert((q - 1) * a == q * a - a) by (nonlinear_arith);
            assert(q * a == a * q) by (nonlinear_arith);
            assert(l - 1 == (q - 1) * a + (a - 1));
            vstd::arithmetic::div_mod::lemma_fundamental_div_mod_converse(l - 1, a, q - 1, a - 1);
            assert((l - 1) / a == q - 1);
            assert(each as int == q);
            assert(l <= a * (each as int));
        }
        assert(a == spec_workers(l, jobs as int));
        assert(each as int == spec_chunk_size(l, jobs as int));
    }
    let mut rest = items;
    let mut r: Vec<Vec<T>> = Vec::new();
    proof {
        assert(concat_vecs(r@) + rest@ =~= items_model);
    }
    while rest.len() > each
        invariant
            1 <= each,
            each == spec_chunk_size(items_model.len() as int, jobs as int),
            len == items_model.len(),
            len as int <= (actual as int) * (each as int),
            actual <= jobs,
            concat_vecs(r@) + rest@ == items_model,
            concat_vecs(r@).len() == r@.len() * each,
            forall|k: int| 0 <= k < r@.len() ==> #[trigger] r@[k]@.len() == each,
            rest@.len() >= 1,
        decreases rest@.len(),
    {
        let ghost old_chunks = r@;
        let ghost old_rest = rest@;
        let tail = rest.split_off(each);
        r.push(rest);
        rest = tail;
        proof {
            lemma_concat_vecs_push(old_chunks, r@.last());
            assert(r@.drop_last() =~= old_chunks);
            assert(r@ =~= old_chunks.push(r@.last()));
            assert(r@.last()@ + rest@ =~= old_rest);
            assert(concat_vecs(r@) + rest@ =~= (concat_vecs(old_chunks) + r@.last()@) + rest@);
            assert((concat_vecs(old_chunks) + r@.last()@) + rest@ =~= concat_vecs(old_chunks)
                + old_rest);
            assert((old_chunks.len() + 1) * each as int == old_chunks.len() * each as int
                + each as int) by (nonlinear_arith);
        }
    }
    let ghost old_chunks = r@;
    r.push(rest);
    proof {
        lemma_concat_vecs_push(old_chunks, r@.last());
        assert(r@.drop_last() =~= old_chunks);
        assert(r@ =~= old_chunks.push(r@.last()));
        assert(concat_vecs(r@) =~= items_model);
        // chunk-count bounds
        let k = old_chunks.len() as int;
        let e = each as int;
        let a = actual as int;
        assert(k * e + r@.last()@.len() == len as int);
        assert(r@.last()@.len() >= 1);
        assert(k * e < len as int);
        assert(k * e < a * e);
        assert(k < a) by (nonlinear_arith)
            requires
                k * e < a * e,
                e >= 1,
                k >= 0,
        ;
        assert(k < len as int) by (nonlinear_arith)
            requires
                k * e < len as int,
                e >= 1,
                k >= 0,
        ;
    }
    r
}

/// The bytes of one transfer worklist: every path followed by a line
/// feed, in order.
pub open spec fn spec_file_list(paths: Seq<Seq<u8>>) -> Seq<u8>
    decreases paths.len(),
{
    if paths.len() == 0 {
        Seq::empty()
    } else {
        paths.first() + seq![10u8] + spec_file_list(paths.drop_first())
    }
}

/// Render one chunk of the delta as the newline-terminated worklist the
/// external transfer program reads.
pub fn render_file_list(paths: &Vec<Vec<u8>>) -> (r: Vec<u8>)
    ensures
        r@ == spec_file_list(paths.deep_view()),
{
    let mut r: Vec<u8> = Vec::new();
    let n = paths.len();
    proof {
        assert(paths.deep_view().skip(0) =~= paths.deep_view());
        assert(r@ + spec_file_list(paths.deep_view()) =~= spec_file_list(paths.deep_view()));
    }
    let mut i: usize = 0;
    while i < n
        invariant
            n == paths@.len(),
            0 <= i <= n,
            spec_file_list(paths.deep_view()) == r@ + spec_file_list(
                paths.deep_view().skip(i as int),
            ),
        decreases n - i,
    {
        let ghost rest = paths.deep_view().skip(i as int);
        proof {
            assert(rest.first() == paths.deep_view()[i as int]);
            assert(paths.deep_view()[i as int] == paths@[i as int]@);
            assert(rest.drop_first() =~= paths.deep_view().skip(i + 1));
        }
        let ghost old_r = r@;
        let mut p = clone_bytes(&paths[i]);
        r.append(&mut p);
        r.push(10);
        proof {
            assert(r@ =~= old_r + (rest.first() + seq![10u8]));
            assert(old_r + (rest.first() + seq![10u8]) + spec_file_list(rest.drop_first()) =~= old_r
                + (rest.first() + seq![10u8] + spec_file_list(rest.drop_first())));
        }
        i = i + 1;
    }
    proof {
        assert(paths.deep_view().skip(n as int).len() == 0);
        assert(r@ =~= r@ + spec_file_list(paths.deep_view().skip(n as int)));
    }
    r
}

/// The name of the worklist written for worker `idx` of the sync started
/// at `t`: `files-<t>-<idx>.txt`.
pub open spec fn spec_list_file_name(t: int, idx: nat) -> Seq<u8> {
    "files-".spec_bytes() + dec_of_i64(t) + "-".spec_bytes() + dec_of(idx) + ".txt".spec_bytes()
}

pub fn list_file_name(t: i64, idx: u64) -> (r: Vec<u8>)
    ensures
        r@ == spec_list_file_name(t as int, idx as nat),
{
    let mut r = slice_to_vec_u8("files-".as_bytes());
    let mut tb = i64_to_dec(t);
    r.append(&mut tb);
    let mut dash = slice_to_vec_u8("-".as_bytes());
    r.append(&mut dash);
    let mut ib = u64_to_dec(idx);
    r.append(&mut ib);
    let mut ext = slice_to_vec_u8(".txt".as_bytes());
    r.append(&mut ext);
    proof {
        assert(r@ =~= spec_list_file_name(t as int, idx as nat));
    }
    r
}

/// The argument vector handed to the external transfer program: relative,
/// recursive, verbose, no MOTD, the worklist, the source URL and the
/// destination root.
pub open spec fn spec_rsync_args(url: Seq<u8>, dst: Seq<u8>, list: Seq<u8>) -> Seq<Seq<u8>> {
    seq![
        "-R".spec_bytes(),
        "-r".spec_bytes(),
        "-v".spec_bytes(),
        "--no-motd".spec_bytes(),
        "--files-from=".spec_bytes() + list,
        url,
        dst,
    ]
}

pub fn rsync_args(url: &Vec<u8>, dst: &Vec<u8>, list: &Vec<u8>) -> (r: Vec<Vec<u8>>)
    ensures
        r.deep_view() == spec_rsync_args(url@, dst@, list@),
{
    let mut r: Vec<Vec<u8>> = Vec::new();
    r.push(slice_to_vec_u8("-R".as_bytes()));
    r.push(slice_to_vec_u8("-r".as_bytes()));
    r.push(slice_to_vec_u8("-v".as_bytes()));
    r.push(slice_to_vec_u8("--no-motd".as_bytes()));
    let mut ff = slice_to_vec_u8("--files-from=".as_bytes());
    let mut lp = clone_bytes(list);
    ff.append(&mut lp);
    r.push(ff);
    r.push(clone_bytes(url));
    r.push(clone_bytes(dst));
    proof {
        assert(r.deep_view() =~~= spec_rsync_args(url@, dst@, list@));
    }
    r
}


/// The models of a sequence of chunk vectors.
pub open spec fn vecs_model<T>(s: Seq<Vec<T>>) -> Seq<Seq<T>> {
    s.map_values(|v: Vec<T>| v@)
}

/// The queues after dealing `items` out one at a time, item `i` into
/// queue `i % n`.
pub open spec fn spec_round_robin<T>(items: Seq<T>, n: int) -> Seq<Seq<T>>
    decreases items.len(),
{
    if items.len() == 0 {
        Seq::new(n as nat, |q: int| Seq::empty())
    } else {
        let prev = spec_round_robin(items.drop_last(), n);
        let q = (items.len() - 1) % n;
        prev.update(q, prev[q].push(items.last()))
    }
}

/// Deal index files out to parse queues, round robin: item `i` lands in
/// queue `i % n`, where `n` is `queues`, raised to one when it is zero
/// so that at least one worker always runs.
pub fn partition_round_robin<T>(items: Vec<T>, queues: u8) -> (r: Vec<Vec<T>>)
    ensures
        r@.len() == (if queues >= 1 { queues as int } else { 1int }),
        vecs_model(r@) == spec_round_robin(
            items@,
            if queues >= 1 { queues as int } else { 1int },
        ),
{
    let ghost items_model = items@;
    let total = items.len();
    let nq: usize = if queues >= 1 {
        queues as usize
    } else {
        1
    };
    let mut r: Vec<Vec<T>> = Vec::new();
    let mut k: usize = 0;
    while k < nq
        invariant
            0 <= k <= nq,
            r@.len() == k,
            forall|q: int| 0 <= q < k ==> #[trigger] r@[q]@.len() == 0,
        decreases nq - k,
    {
        r.push(Vec::new());
        k = k + 1;
    }
    proof {
        assert(items_model.take(0) =~= Seq::<T>::empty());
        assert(vecs_model(r@) =~~= spec_round_robin(items_model.take(0), nq as int));
    }
    let mut rest = items;
    let mut i: usize = 0;
    while rest.len() > 0
        invariant
            nq >= 1,
            nq as int == (if queues >= 1 { queues as int } else { 1int }),
            0 <= i <= total,
            total == items_model.len(),
            i + rest@.len() == items_model.len(),
            rest@ == items_model.skip(i as int),
            r@.len() == nq,
            vecs_model(r@) == spec_round_robin(items_model.take(i as int), nq as int),
        decreases rest@.len(),
    {
        let ghost old_model = vecs_model(r@);
        let ghost old_rest = rest@;
        let x = rest.remove(0);
        let q = i % nq;
        proof {
            assert(old_rest[0] == items_model[i as int]);
            assert(rest@ =~= items_model.skip(i + 1));
        }
        let slot = &mut r[q];
        slot.push(x);
        proof {
            assert(r@[q as int]@ =~= old_model[q as int].push(items_model[i as int]));
            assert(items_model.take(i + 1).drop_last() =~= items_model.take(i as int));
            assert(items_model.take(i + 1).last() == items_model[i as int]);
            assert((items_model.take(i + 1).len() - 1) % (nq as int) == q as int);
            assert(vecs_model(r@) =~= spec_round_robin(items_model.take(i as int), nq as int)
                .update(q as int, old_model[q as int].push(items_model[i as int])));
            assert(vecs_model(r@) =~= spec_round_robin(items_model.take(i + 1), nq as int));
        }
        i = i + 1;
    }
    proof {
        assert(rest@.len() == 0);
        assert(items_model.take(i as int) =~= items_model);
    }
    r
}

} // verus!
