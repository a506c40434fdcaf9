//! Parser for Debian `Sources` indices (deb822 paragraphs).
//!
//! The parser is a three-state machine over lines.  It starts in `Normal`;
//! a blank line flushes the rows gathered for the paragraph — each becomes
//! `<Directory>/<name>` with its declared size — and enters `InParagraph`.
//! There, a `Directory:` line sets the paragraph's directory and a `Files:`
//! line opens the file-row block (`InFiles`).  In `InFiles`, a line that
//! begins with whitespace is a row `<checksum> <size> <name>`; one that
//! does not leaves the block and is read again as a paragraph line.  The
//! final paragraph is flushed at end of input.

use vstd::prelude::*;

use crate::bytes::{
    clone_bytes, dec_of, dec_val, fields, is_digits, is_prefix_of, is_space, parse_u64, spec_fields,
    starts_with, SP, TAB,
};
use crate::{EntryModel, FileEntry, SyncError};

verus! {

/// States of the `Sources` line machine.
#[derive(Clone, Copy, Debug, PartialEq, Eq, Structural)]
pub enum SourcesState {
    Normal,
    InParagraph,
    InFiles,
}

/// The bytes of the line tag `Files:`.
pub open spec fn files_tag() -> Seq<u8> {
    seq![70u8, 105u8, 108u8, 101u8, 115u8, 58u8]
}

/// The bytes of the line tag `Directory: ` (with its trailing space).
pub open spec fn dir_tag() -> Seq<u8> {
    seq![68u8, 105u8, 114u8, 101u8, 99u8, 116u8, 111u8, 114u8, 121u8, 58u8, 32u8]
}

/// Parser accumulator: state, current directory, rows of the open
/// paragraph, and the entries already emitted.
pub ghost struct SourcesAcc {
    pub state: SourcesState,
    pub dir: Seq<u8>,
    pub pending: Seq<(Seq<u8>, u64)>,
    pub out: Seq<EntryModel>,
}

pub open spec fn initial_sources_acc() -> SourcesAcc {
    SourcesAcc {
        state: SourcesState::Normal,
        dir: Seq::empty(),
        pending: Seq::empty(),
        out: Seq::empty(),
    }
}

/// The entries a flushed paragraph contributes: `<dir>/<name>`, each with
/// its row's size.
pub open spec fn flushed(dir: Seq<u8>, pending: Seq<(Seq<u8>, u64)>) -> Seq<EntryModel> {
    pending.map_values(
        |row: (Seq<u8>, u64)| EntryModel { path: dir + seq![47u8] + row.0, size: row.1 },
    )
}

/// One step of the machine on one line; `None` is a malformed file row.
pub open spec fn sources_step(acc: SourcesAcc, line: Seq<u8>) -> Option<SourcesAcc> {
    if line.len() == 0 {
        Some(
            SourcesAcc {
                state: SourcesState::InParagraph,
                dir: Seq::empty(),
                pending: Seq::empty(),
                out: acc.out + flushed(acc.dir, acc.pending),
            },
        )
    } else {
        let st = if acc.state is InFiles && !is_space(line[0]) {
            SourcesState::InParagraph
        } else {
            acc.state
        };
        if st is InParagraph && is_prefix_of(files_tag(), line) {
            Some(SourcesAcc { state: SourcesState::InFiles, dir: acc.dir, pending: acc.pending, out: acc.out })
        } else if st is InParagraph && is_prefix_of(dir_tag(), line) {
            let fs = spec_fields(line);
            let d = if fs.len() > 0 {
                fs.last()
            } else {
                Seq::empty()
            };
            Some(SourcesAcc { state: st, dir: d, pending: acc.pending, out: acc.out })
        } else if st is InFiles {
            let fs = spec_fields(line);
            if fs.len() < 3 {
                None
            } else if !is_digits(fs[1]) || dec_val(fs[1]) > u64::MAX {
                None
            } else {
                Some(
                    SourcesAcc {
                        state: st,
                        dir: acc.dir,
                        pending: acc.pending.push((fs.last(), dec_val(fs[1]) as u64)),
                        out: acc.out,
                    },
                )
            }
        } else {
            Some(SourcesAcc { state: st, dir: acc.dir, pending: acc.pending, out: acc.out })
        }
    }
}

pub open spec fn sources_run(lines: Seq<Seq<u8>>, acc: SourcesAcc) -> Option<SourcesAcc>
    decreases lines.len(),
{
    if lines.len() == 0 {
        Some(acc)
    } else {
        match sources_step(acc, lines.first()) {
            Some(a) => sources_run(lines.drop_first(), a),
            None => None,
        }
    }
}

/// The entries a whole `Sources` file yields: run the machine over every
/// line, then flush the final paragraph.  `None` is a malformed file.
pub open spec fn spec_sources_entries(lines: Seq<Seq<u8>>) -> Option<Seq<EntryModel>> {
    match sources_run(lines, initial_sources_acc()) {
        Some(acc) => Some(acc.out + flushed(acc.dir, acc.pending)),
        None => None,
    }
}

/// The executable bytes of [`files_tag`].
fn files_tag_bytes() -> (r: Vec<u8>)
    ensures
        r@ == files_tag(),
{
    let mut v: Vec<u8> = Vec::new();
    v.push(70);
    v.push(105);
    v.push(108);
    v.push(101);
    v.push(115);
    v.push(58);
    proof {
        assert(v@ =~= files_tag());
    }
    v
}

/// The executable bytes of [`dir_tag`].
fn dir_tag_bytes() -> (r: Vec<u8>)
    ensures
        r@ == dir_tag(),
{
    let mut v: Vec<u8> = Vec::new();
    v.push(68);
    v.push(105);
    v.push(114);
    v.push(101);
    v.push(99);
    v.push(116);
    v.push(111);
    v.push(114);
    v.push(121);
    v.push(58);
    v.push(32);
    proof {
        assert(v@ =~= dir_tag());
    }
    v
}

/// The model of an executable pending-row vector.
pub open spec fn pend_model(p: Seq<(Vec<u8>, u64)>) -> Seq<(Seq<u8>, u64)> {
    p.map_values(|q: (Vec<u8>, u64)| (q.0@, q.1))
}

/// Append every pending row to `out` as `<dir>/<name>` with its size.
fn flush_pending(dir: &Vec<u8>, pending: &Vec<(Vec<u8>, u64)>, out: &mut Vec<FileEntry>)
    ensures
        final(out).deep_view() == old(out).deep_view() + flushed(dir@, pend_model(pending@)),
{
    let m = pending.len();
    proof {
        assert(pend_model(pending@).take(0) =~= Seq::<(Seq<u8>, u64)>::empty());
        assert(out.deep_view() + flushed(dir@, pend_model(pending@).take(0)) =~= out.deep_view());
    }
    for j in 0..m
        invariant
            m == pending@.len(),
            out.deep_view() == old(out).deep_view() + flushed(
                dir@,
                pend_model(pending@).take(j as int),
            ),
    {
        let mut path = clone_bytes(dir);
        path.push(47);
        let mut nm = clone_bytes(&pending[j].0);
        path.append(&mut nm);
        let e = FileEntry { path, size: pending[j].1 };
        let ghost old_dv = out.deep_view();
        let ghost em = e@;
        out.push(e);
        proof {
            assert(em.path =~= dir@ + seq![47u8] + pending@[j as int].0@);
            assert(out.deep_view() =~~= old_dv + seq![em]);
            assert(pend_model(pending@).take(j + 1) =~= pend_model(pending@).take(j as int).push(
                (pending@[j as int].0@, pending@[j as int].1),
            ));
            assert(flushed(dir@, pend_model(pending@).take(j + 1)) =~= flushed(
                dir@,
                pend_model(pending@).take(j as int),
            ).push(em));
            assert(old(out).deep_view() + flushed(dir@, pend_model(pending@).take(j + 1)) =~= (old(
                out,
            ).deep_view() + flushed(dir@, pend_model(pending@).take(j as int))) + seq![em]);
        }
    }
    proof {
        assert(pend_model(pending@).take(m as int) =~= pend_model(pending@));
    }
}

/// Parse one `Sources` index, given as its lines, into the file entries it
/// declares.  `Err` is returned exactly when some file row is malformed:
/// fewer than three fields, or a size that is not a decimal number fitting
/// in `u64`.
pub fn parse_files_in_sources(lines: &Vec<Vec<u8>>) -> (r: Result<Vec<FileEntry>, SyncError>)
    ensures
        match r {
            Ok(entries) => spec_sources_entries(lines.deep_view()) == Some(entries.deep_view()),
            Err(e) => spec_sources_entries(lines.deep_view()) is None && e
                == SyncError::IndexMalformed,
        },
{
    let mut state = SourcesState::Normal;
    let mut dir: Vec<u8> = Vec::new();
    let mut pending: Vec<(Vec<u8>, u64)> = Vec::new();
    let mut out: Vec<FileEntry> = Vec::new();
    let n = lines.len();
    proof {
        assert(lines.deep_view().skip(0) =~= lines.deep_view());
        assert(pend_model(pending@) =~= Seq::<(Seq<u8>, u64)>::empty());
        assert(out.deep_view() =~= Seq::<EntryModel>::empty());
    }
    let mut i: usize = 0;
    while i < n
        invariant
            n == lines@.len(),
            0 <= i <= n,
            sources_run(lines.deep_view(), initial_sources_acc()) == sources_run(
                lines.deep_view().skip(i as int),
                SourcesAcc {
                    state: state,
                    dir: dir@,
                    pending: pend_model(pending@),
                    out: out.deep_view(),
                },
            ),
        decreases n - i,
    {
        let ghost curr = SourcesAcc {
            state: state,
            dir: dir@,
            pending: pend_model(pending@),
            out: out.deep_view(),
        };
        let ghost rest = lines.deep_view().skip(i as int);
        proof {
            assert(rest.first() == lines.deep_view()[i as int]);
            assert(lines.deep_view()[i as int] == lines@[i as int]@);
            assert(rest.drop_first() =~= lines.deep_view().skip(i + 1));
        }
        let line = &lines[i];
        if line.len() == 0 {
            flush_pending(&dir, &pending, &mut out);
            dir = Vec::new();
            pending = Vec::new();
            state = SourcesState::InParagraph;
            proof {
                assert(pend_model(pending@) =~= Seq::<(Seq<u8>, u64)>::empty());
                assert(dir@ =~= Seq::<u8>::empty());
                assert(sources_step(curr, line@) == Some(
                    SourcesAcc {
                        state: state,
                        dir: dir@,
                        pending: pend_model(pending@),
                        out: out.deep_view(),
                    },
                ));
            }
        } else {
            let st = if matches!(state, SourcesState::InFiles) && line[0] != SP && line[0] != TAB {
                SourcesState::InParagraph
            } else {
                state
            };
            let ftag = files_tag_bytes();
            let dtag = dir_tag_bytes();
            if matches!(st, SourcesState::InParagraph) && starts_with(
                line.as_slice(),
                ftag.as_slice(),
            ) {
                state = SourcesState::InFiles;
                proof {
                    assert(sources_step(curr, line@) == Some(
                        SourcesAcc {
                            state: state,
                            dir: dir@,
                            pending: pend_model(pending@),
                            out: out.deep_view(),
                        },
                    ));
                }
            } else if matches!(st, SourcesState::InParagraph) && starts_with(
                line.as_slice(),
                dtag.as_slice(),
            ) {
                let mut fs = fields(line.as_slice());
                if fs.len() > 0 {
                    let ghost fsm = fs.deep_view();
                    let ghost fsv = fs@;
                    match fs.pop() {
                        Some(last) => {
                            dir = last;
                            proof {
                                assert(fsm.last() == fsv[fsv.len() - 1]@);
                                assert(dir@ == fsm.last());
                            }
                        },
                        None => {
                            dir = Vec::new();
                        },
                    }
                } else {
                    dir = Vec::new();
                    proof {
                        assert(spec_fields(line@).len() == 0);
                    }
                }
                state = st;
                proof {
                    assert(sources_step(curr, line@) == Some(
                        SourcesAcc {
                            state: state,
                            dir: dir@,
                            pending: pend_model(pending@),
                            out: out.deep_view(),
                        },
                    ));
                }
            } else if matches!(st, SourcesState::InFiles) {
                let fs = fields(line.as_slice());
                if fs.len() < 3 {
                    proof {
                        assert(sources_step(curr, line@) is None);
                        assert(sources_run(rest, curr) is None);
                    }
                    return Err(SyncError::IndexMalformed);
                }
                let sz = match crate::bytes::parse_u64(fs[1].as_slice()) {
                    Some(sz) => sz,
                    None => {
                        proof {
                            assert(fs.deep_view()[1] == fs@[1]@);
                            assert(sources_step(curr, line@) is None);
                            assert(sources_run(rest, curr) is None);
                        }
                        return Err(SyncError::IndexMalformed);
                    },
                };
                let name = clone_bytes(&fs[fs.len() - 1]);
                let ghost old_pm = pend_model(pending@);
                pending.push((name, sz));
                state = st;
                proof {
                    assert(fs.deep_view()[1] == fs@[1]@);
                    assert(fs.deep_view().last() == fs@[fs@.len() - 1]@);
                    assert(pend_model(pending@) =~= old_pm.push((name@, sz)));
                    assert(sources_step(curr, line@) == Some(
                        SourcesAcc {
                            state: state,
                            dir: dir@,
                            pending: pend_model(pending@),
                            out: out.deep_view(),
                        },
                    ));
                }
            } else {
                state = st;
                proof {
                    assert(sources_step(curr, line@) == Some(
                        SourcesAcc {
                            state: state,
                            dir: dir@,
                            pending: pend_model(pending@),
                            out: out.deep_view(),
                        },
                    ));
                }
            }
        }
        i = i + 1;
    }
    proof {
        assert(lines.deep_view().skip(n as int).len() == 0);
    }
    flush_pending(&dir, &pending, &mut out);
    Ok(out)
}


// ---------------------------------------------------------------------
// Formatting a paragraph back
// ---------------------------------------------------------------------

/// A byte string that can stand as one whitespace-separated field:
/// non-empty, no space or tab.
pub open spec fn valid_token(t: Seq<u8>) -> bool {
    t.len() > 0 && forall|i: int| 0 <= i < t.len() ==> !is_space(#[trigger] t[i])
}

/// A formatted file row: ` x <size> <name>` (a placeholder checksum,
/// then the two fields the parser reads).
pub open spec fn spec_row_line(name: Seq<u8>, size: u64) -> Seq<u8> {
    seq![32u8, 120u8, 32u8] + dec_of(size as nat) + seq![32u8] + name
}

/// A formatted `Directory:` line.
pub open spec fn spec_dir_line(dir: Seq<u8>) -> Seq<u8> {
    dir_tag() + dir
}

/// The lines of a formatted paragraph: a blank separator, then — in
/// either order — the `Directory:` line and the `Files:` block.
pub open spec fn spec_paragraph_lines(
    dir: Seq<u8>,
    rows: Seq<(Seq<u8>, u64)>,
    dir_first: bool,
) -> Seq<Seq<u8>> {
    let rl = rows.map_values(|r: (Seq<u8>, u64)| spec_row_line(r.0, r.1));
    if dir_first {
        seq![Seq::<u8>::empty(), spec_dir_line(dir), files_tag()] + rl
    } else {
        seq![Seq::<u8>::empty(), files_tag()] + rl + seq![spec_dir_line(dir)]
    }
}

/// Render one paragraph, `Directory:` before or after the `Files:`
/// block.
pub fn format_sources_paragraph(
    dir: &Vec<u8>,
    rows: &Vec<(Vec<u8>, u64)>,
    dir_first: bool,
) -> (r: Vec<Vec<u8>>)
    ensures
        r.deep_view() == spec_paragraph_lines(dir@, pend_model(rows@), dir_first),
{
    let ghost rl = pend_model(rows@).map_values(|q: (Seq<u8>, u64)| spec_row_line(q.0, q.1));
    let mut r: Vec<Vec<u8>> = Vec::new();
    r.push(Vec::new());
    if dir_first {
        let mut dl = dir_tag_bytes();
        let mut dv = clone_bytes(dir);
        dl.append(&mut dv);
        r.push(dl);
        r.push(files_tag_bytes());
    } else {
        r.push(files_tag_bytes());
    }
    let ghost head = r.deep_view();
    let n = rows.len();
    proof {
        assert(r.deep_view() =~~= head + rl.take(0));
    }
    for i in 0..n
        invariant
            n == rows@.len(),
            rl == pend_model(rows@).map_values(|q: (Seq<u8>, u64)| spec_row_line(q.0, q.1)),
            r.deep_view() == head + rl.take(i as int),
        decreases n - i,
    {
        let mut line: Vec<u8> = Vec::new();
        line.push(32);
        line.push(120);
        line.push(32);
        let mut sz = crate::bytes::u64_to_dec(rows[i].1);
        line.append(&mut sz);
        line.push(32);
        let mut nm = clone_bytes(&rows[i].0);
        line.append(&mut nm);
        let ghost old_dv = r.deep_view();
        r.push(line);
        proof {
            assert(line@ =~= spec_row_line(rows@[i as int].0@, rows@[i as int].1));
            assert(rl[i as int] == spec_row_line(rows@[i as int].0@, rows@[i as int].1));
            assert(r.deep_view() =~~= old_dv + seq![rl[i as int]]);
            assert(rl.take(i + 1) =~= rl.take(i as int).push(rl[i as int]));
            assert(head + rl.take(i as int) + seq![rl[i as int]] =~= head + rl.take(i + 1));
        }
    }
    proof {
        assert(rl.take(n as int) =~= rl);
    }
    if !dir_first {
        let mut dl = dir_tag_bytes();
        let mut dv = clone_bytes(dir);
        dl.append(&mut dv);
        let ghost old_dv = r.deep_view();
        r.push(dl);
        proof {
            assert(r.deep_view() =~~= old_dv + seq![dir_tag() + dir@]);
        }
    }
    proof {
        assert(r.deep_view() =~~= spec_paragraph_lines(dir@, pend_model(rows@), dir_first));
    }
    r
}


// ---------------------------------------------------------------------
// The parse of a formatted paragraph
// ---------------------------------------------------------------------

proof fn lemma_row_line_fields(name: Seq<u8>, size: u64)
    requires
        valid_token(name),
    ensures
        spec_fields(spec_row_line(name, size)) == seq![seq![120u8], dec_of(size as nat), name],
        is_digits(dec_of(size as nat)),
        dec_val(dec_of(size as nat)) == size,
{
    crate::bytes::lemma_dec_of_digits(size as nat);
    let dec = dec_of(size as nat);
    assert(forall|i: int| 0 <= i < dec.len() ==> !is_space(#[trigger] dec[i]));
    let t4 = seq![32u8] + name;
    assert(name + Seq::<u8>::empty() =~= name);
    crate::bytes::lemma_fields_token(name, Seq::<u8>::empty());
    assert(spec_fields(Seq::<u8>::empty()) == Seq::<Seq<u8>>::empty());
    crate::bytes::lemma_fields_skip_space(name);
    assert(spec_fields(t4) == spec_fields(name));
    crate::bytes::lemma_fields_token(dec, t4);
    let t3 = seq![32u8] + (dec + t4);
    crate::bytes::lemma_fields_skip_space(dec + t4);
    crate::bytes::lemma_fields_token(seq![120u8], t3);
    let t1 = seq![120u8] + t3;
    crate::bytes::lemma_fields_skip_space(t1);
    assert(spec_row_line(name, size) =~= seq![32u8] + t1);
    assert(spec_fields(spec_row_line(name, size)) == spec_fields(t1));
    assert(spec_fields(t1) == seq![seq![120u8]] + spec_fields(t3));
    assert(spec_fields(t3) == spec_fields(dec + t4));
    assert(spec_fields(dec + t4) == seq![dec] + spec_fields(t4));
    assert(spec_fields(name) == seq![name] + Seq::<Seq<u8>>::empty());
    assert(seq![seq![120u8]] + (seq![dec] + (seq![name] + Seq::<Seq<u8>>::empty()))
        =~= seq![seq![120u8], dec, name]);
}

proof fn lemma_dir_line_fields(dir: Seq<u8>)
    requires
        valid_token(dir),
    ensures
        spec_fields(spec_dir_line(dir)) == seq![dir_tag().take(10), dir],
{
    let tok = dir_tag().take(10);
    assert forall|i: int| 0 <= i < tok.len() implies !is_space(#[trigger] tok[i]) by {
        if i == 0 {
            assert(tok[0] == 68);
        } else if i == 1 {
            assert(tok[1] == 105);
        } else if i == 2 {
            assert(tok[2] == 114);
        } else if i == 3 {
            assert(tok[3] == 101);
        } else if i == 4 {
            assert(tok[4] == 99);
        } else if i == 5 {
            assert(tok[5] == 116);
        } else if i == 6 {
            assert(tok[6] == 111);
        } else if i == 7 {
            assert(tok[7] == 114);
        } else if i == 8 {
            assert(tok[8] == 121);
        } else {
            assert(tok[9] == 58);
        }
    }
    crate::bytes::lemma_fields_token(dir, Seq::<u8>::empty());
    assert(dir + Seq::<u8>::empty() =~= dir);
    assert(spec_fields(Seq::<u8>::empty()) == Seq::<Seq<u8>>::empty());
    crate::bytes::lemma_fields_skip_space(dir);
    crate::bytes::lemma_fields_token(tok, seq![32u8] + dir);
    assert(spec_dir_line(dir) =~= tok + (seq![32u8] + dir));
    assert(spec_fields(spec_dir_line(dir)) == seq![tok] + spec_fields(seq![32u8] + dir));
    assert(seq![tok] + (seq![dir] + Seq::<Seq<u8>>::empty()) =~= seq![tok, dir]);
}

/// Stepping the machine through the formatted rows, in the `InFiles`
/// state, appends exactly the rows to the pending list.
proof fn lemma_rows_run(rows: Seq<(Seq<u8>, u64)>, tail: Seq<Seq<u8>>, acc: SourcesAcc)
    requires
        acc.state is InFiles,
        forall|i: int| 0 <= i < rows.len() ==> valid_token((#[trigger] rows[i]).0),
    ensures
        sources_run(
            rows.map_values(|q: (Seq<u8>, u64)| spec_row_line(q.0, q.1)) + tail,
            acc,
        ) == sources_run(
            tail,
            SourcesAcc {
                state: SourcesState::InFiles,
                dir: acc.dir,
                pending: acc.pending + rows,
                out: acc.out,
            },
        ),
    decreases rows.len(),
{
    let rl = rows.map_values(|q: (Seq<u8>, u64)| spec_row_line(q.0, q.1));
    if rows.len() == 0 {
        assert(rl + tail =~= tail);
        assert(acc.pending + rows =~= acc.pending);
        assert(acc == SourcesAcc {
            state: SourcesState::InFiles,
            dir: acc.dir,
            pending: acc.pending + rows,
            out: acc.out,
        });
    } else {
        let row = rows[0];
        let line = spec_row_line(row.0, row.1);
        assert((rl + tail).first() == line);
        lemma_row_line_fields(row.0, row.1);
        assert(line[0] == 32);
        assert(is_space(line[0]));
        assert(line.len() > 0);
        let fs = spec_fields(line);
        assert(fs.len() == 3);
        assert(fs[1] == dec_of(row.1 as nat));
        assert(fs.last() == row.0);
        assert(dec_val(fs[1]) == row.1);
        let acc2 = sources_step(acc, line);
        assert(acc2 == Some(SourcesAcc {
            state: SourcesState::InFiles,
            dir: acc.dir,
            pending: acc.pending.push((row.0, row.1)),
            out: acc.out,
        }));
        assert((rl + tail).drop_first() =~= rows.drop_first().map_values(
            |q: (Seq<u8>, u64)| spec_row_line(q.0, q.1),
        ) + tail);
        lemma_rows_run(rows.drop_first(), tail, acc2->0);
        assert(acc.pending.push((row.0, row.1)) + rows.drop_first() =~= acc.pending + rows);
    }
}

/// Parsing a formatted paragraph recovers exactly its entries, wherever
/// the `Directory:` line stands relative to the `Files:` block: the
/// round trip is the identity on the declared set, regardless of field
/// order.
pub proof fn lemma_paragraph_round_trip(dir: Seq<u8>, rows: Seq<(Seq<u8>, u64)>, dir_first: bool)
    requires
        valid_token(dir),
        forall|i: int| 0 <= i < rows.len() ==> valid_token((#[trigger] rows[i]).0),
    ensures
        spec_sources_entries(spec_paragraph_lines(dir, rows, dir_first)) == Some(
            flushed(dir, rows),
        ),
{
    let rl = rows.map_values(|q: (Seq<u8>, u64)| spec_row_line(q.0, q.1));
    let lines = spec_paragraph_lines(dir, rows, dir_first);
    let init = initial_sources_acc();
    // the blank separator flushes nothing and opens the paragraph
    assert(lines.first() == Seq::<u8>::empty());
    let acc1 = SourcesAcc {
        state: SourcesState::InParagraph,
        dir: Seq::empty(),
        pending: Seq::empty(),
        out: Seq::empty(),
    };
    assert(init.out + flushed(init.dir, init.pending) =~= Seq::<EntryModel>::empty());
    assert(sources_step(init, lines.first()) == Some(acc1));
    let dline = spec_dir_line(dir);
    assert(dline.len() > 0);
    assert(dline[0] == 68);
    assert(files_tag()[0] == 70);
    assert(!is_prefix_of(files_tag(), dline)) by {
        if is_prefix_of(files_tag(), dline) {
            assert(dline.subrange(0, 6)[0] == dline[0]);
        }
    }
    assert(is_prefix_of(dir_tag(), dline)) by {
        assert(dline.subrange(0, dir_tag().len() as int) =~= dir_tag());
    }
    lemma_dir_line_fields(dir);
    let fsd = spec_fields(dline);
    assert(fsd.len() == 2 && fsd.last() == dir);
    assert(is_prefix_of(files_tag(), files_tag())) by {
        assert(files_tag().subrange(0, 6) =~= files_tag());
    }
    if dir_first {
        assert(lines.drop_first() =~= seq![dline, files_tag()] + rl);
        let l1 = seq![dline, files_tag()] + rl;
        let acc2 = SourcesAcc {
            state: SourcesState::InParagraph,
            dir: dir,
            pending: Seq::empty(),
            out: Seq::empty(),
        };
        assert(l1.first() == dline);
        assert(sources_step(acc1, dline) == Some(acc2));
        let l2 = seq![files_tag()] + rl;
        assert(l1.drop_first() =~= l2);
        let acc3 = SourcesAcc {
            state: SourcesState::InFiles,
            dir: dir,
            pending: Seq::empty(),
            out: Seq::empty(),
        };
        assert(l2.first() == files_tag());
        assert(sources_step(acc2, files_tag()) == Some(acc3));
        assert(l2.drop_first() =~= rl + Seq::<Seq<u8>>::empty());
        lemma_rows_run(rows, Seq::empty(), acc3);
        let fin = SourcesAcc {
            state: SourcesState::InFiles,
            dir: dir,
            pending: Seq::empty() + rows,
            out: Seq::empty(),
        };
        assert(sources_run(lines, init) == sources_run(l1, acc1));
        assert(sources_run(l1, acc1) == sources_run(l2, acc2));
        assert(sources_run(l2, acc2) == sources_run(rl + Seq::<Seq<u8>>::empty(), acc3));
        assert(sources_run(rl + Seq::<Seq<u8>>::empty(), acc3) == sources_run(
            Seq::<Seq<u8>>::empty(),
            fin,
        ));
        assert(sources_run(Seq::<Seq<u8>>::empty(), fin) == Some(fin));
        assert(sources_run(lines, init) == Some(fin));
        assert(Seq::empty() + rows =~= rows);
        assert(fin.out + flushed(fin.dir, fin.pending) =~= flushed(dir, rows));
    } else {
        assert(lines.drop_first() =~= seq![files_tag()] + (rl + seq![dline]));
        let l1 = seq![files_tag()] + (rl + seq![dline]);
        let acc2 = SourcesAcc {
            state: SourcesState::InFiles,
            dir: Seq::empty(),
            pending: Seq::empty(),
            out: Seq::empty(),
        };
        assert(l1.first() == files_tag());
        assert(sources_step(acc1, files_tag()) == Some(acc2));
        assert(l1.drop_first() =~= rl + seq![dline]);
        lemma_rows_run(rows, seq![dline], acc2);
        let acc3 = SourcesAcc {
            state: SourcesState::InFiles,
            dir: Seq::empty(),
            pending: Seq::empty() + rows,
            out: Seq::empty(),
        };
        let tail = seq![dline];
        assert(tail.first() == dline);
        assert(!is_space(dline[0]));
        let acc4 = SourcesAcc {
            state: SourcesState::InParagraph,
            dir: dir,
            pending: Seq::empty() + rows,
            out: Seq::empty(),
        };
        assert(sources_step(acc3, dline) == Some(acc4));
        assert(tail.drop_first() =~= Seq::<Seq<u8>>::empty());
        assert(sources_run(lines, init) == sources_run(l1, acc1));
        assert(sources_run(l1, acc1) == sources_run(rl + seq![dline], acc2));
        assert(sources_run(rl + seq![dline], acc2) == sources_run(tail, acc3));
        assert(sources_run(tail, acc3) == sources_run(Seq::<Seq<u8>>::empty(), acc4));
        assert(sources_run(Seq::<Seq<u8>>::empty(), acc4) == Some(acc4));
        assert(sources_run(lines, init) == Some(acc4));
        assert(Seq::empty() + rows =~= rows);
        assert(acc4.out + flushed(acc4.dir, acc4.pending) =~= flushed(dir, rows));
    }
}

/// The declared set does not depend on the order of the `Directory:`
/// and `Files:` fields within a paragraph.
pub proof fn lemma_paragraph_order_irrelevant(dir: Seq<u8>, rows: Seq<(Seq<u8>, u64)>)
    requires
        valid_token(dir),
        forall|i: int| 0 <= i < rows.len() ==> valid_token((#[trigger] rows[i]).0),
    ensures
        spec_sources_entries(spec_paragraph_lines(dir, rows, true)) == spec_sources_entries(
            spec_paragraph_lines(dir, rows, false),
        ),
{
    lemma_paragraph_round_trip(dir, rows, true);
    lemma_paragraph_round_trip(dir, rows, false);
}

} // verus!
