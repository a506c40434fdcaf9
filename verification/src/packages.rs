//! Parser for `Packages` indices (deb822 paragraphs).
//!
//! Within a paragraph, `Filename:` and `Size:` may appear in any order and
//! among any other fields; an empty line ends the paragraph.  A paragraph
//! with both fields yields one entry; one missing either field yields
//! nothing — that is a warning for the caller, never an error.

use vstd::prelude::*;
use vstd::string::StringSliceAdditionalSpecFns;

use crate::bytes::{
    clone_bytes, dec_val, fields, is_digits, is_prefix_of, parse_u64, spec_fields, starts_with,
};
use crate::{EntryModel, FileEntry};

verus! {

/// The bytes of the line tag `Filename: `.
pub open spec fn filename_tag() -> Seq<u8> {
    "Filename: ".spec_bytes()
}

/// The bytes of the line tag `Size: `.
pub open spec fn size_tag() -> Seq<u8> {
    "Size: ".spec_bytes()
}

/// Parser accumulator: the fields seen in the open paragraph and the
/// entries already emitted.
pub ghost struct PackagesAcc {
    pub filename: Option<Seq<u8>>,
    pub size: Option<u64>,
    pub out: Seq<EntryModel>,
}

pub open spec fn initial_packages_acc() -> PackagesAcc {
    PackagesAcc { filename: None, size: None, out: Seq::empty() }
}

/// End of a paragraph: emit an entry when both fields were seen.
pub open spec fn packages_flush(acc: PackagesAcc) -> Seq<EntryModel> {
    match (acc.filename, acc.size) {
        (Some(f), Some(s)) => acc.out.push(EntryModel { path: f, size: s }),
        _ => acc.out,
    }
}

/// One step of the paragraph machine on one line.
pub open spec fn packages_step(acc: PackagesAcc, line: Seq<u8>) -> PackagesAcc {
    if line.len() == 0 {
        PackagesAcc { filename: None, size: None, out: packages_flush(acc) }
    } else if is_prefix_of(filename_tag(), line) {
        let fs = spec_fields(line);
        if fs.len() >= 2 {
            PackagesAcc { filename: Some(fs.last()), size: acc.size, out: acc.out }
        } else {
            acc
        }
    } else if is_prefix_of(size_tag(), line) {
        let fs = spec_fields(line);
        if fs.len() >= 2 && is_digits(fs.last()) && dec_val(fs.last()) <= u64::MAX {
            PackagesAcc {
                filename: acc.filename,
                size: Some(dec_val(fs.last()) as u64),
                out: acc.out,
            }
        } else {
            acc
        }
    } else {
        acc
    }
}

pub open spec fn packages_run(lines: Seq<Seq<u8>>, acc: PackagesAcc) -> PackagesAcc
    decreases lines.len(),
{
    if lines.len() == 0 {
        acc
    } else {
        packages_run(lines.drop_first(), packages_step(acc, lines.first()))
    }
}

/// The entries a whole `Packages` file yields, in file order: run the
/// machine over every line and flush the final paragraph.
pub open spec fn spec_packages_entries(lines: Seq<Seq<u8>>) -> Seq<EntryModel> {
    packages_flush(packages_run(lines, initial_packages_acc()))
}

/// Parse one `Packages` index, given as its lines, into the file entries
/// it declares.  Paragraphs missing `Filename:` or `Size:` are dropped;
/// nothing in the index is an error.
pub fn parse_packages(lines: &Vec<Vec<u8>>) -> (r: Vec<FileEntry>)
    ensures
        r.deep_view() == spec_packages_entries(lines.deep_view()),
{
    let mut filename: Option<Vec<u8>> = None;
    let mut size: Option<u64> = None;
    let mut out: Vec<FileEntry> = Vec::new();
    let n = lines.len();
    proof {
        assert(lines.deep_view().skip(0) =~= lines.deep_view());
        assert(out.deep_view() =~= Seq::<EntryModel>::empty());
    }
    let mut i: usize = 0;
    while i < n
        invariant
            n == lines@.len(),
            0 <= i <= n,
            packages_run(lines.deep_view(), initial_packages_acc()) == packages_run(
                lines.deep_view().skip(i as int),
                PackagesAcc { filename: opt_model(filename), size: size, out: out.deep_view() },
            ),
        decreases n - i,
    {
        let ghost curr = PackagesAcc {
            filename: opt_model(filename),
            size: size,
            out: out.deep_view(),
        };
        let ghost rest = lines.deep_view().skip(i as int);
        proof {
            assert(rest.first() == lines.deep_view()[i as int]);
            assert(lines.deep_view()[i as int] == lines@[i as int]@);
            assert(rest.drop_first() =~= lines.deep_view().skip(i + 1));
        }
        let line = &lines[i];
        if line.len() == 0 {
            if let (Some(f), Some(s)) = (&filename, &size) {
                let ghost old_dv = out.deep_view();
                let e = FileEntry { path: clone_bytes(f), size: *s };
                out.push(e);
                proof {
                    assert(out.deep_view() =~~= old_dv.push(
                        EntryModel { path: f@, size: *s },
                    ));
                }
            }
            filename = None;
            size = None;
            proof {
                assert(packages_step(curr, line@) == PackagesAcc {
                    filename: opt_model(filename),
                    size: size,
                    out: out.deep_view(),
                });
            }
        } else if starts_with(line.as_slice(), "Filename: ".as_bytes()) {
            let fs = fields(line.as_slice());
            if fs.len() >= 2 {
                filename = Some(clone_bytes(&fs[fs.len() - 1]));
                proof {
                    assert(fs.deep_view().last() == fs@[fs@.len() - 1]@);
                }
            }
            proof {
                assert(packages_step(curr, line@) == PackagesAcc {
                    filename: opt_model(filename),
                    size: size,
                    out: out.deep_view(),
                });
            }
        } else if starts_with(line.as_slice(), "Size: ".as_bytes()) {
            let fs = fields(line.as_slice());
            if fs.len() >= 2 {
                match parse_u64(fs[fs.len() - 1].as_slice()) {
                    Some(v) => {
                        size = Some(v);
                    },
                    None => {
                    },
                }
                proof {
                    assert(fs.deep_view().last() == fs@[fs@.len() - 1]@);
                }
            }
            proof {
                assert(packages_step(curr, line@) == PackagesAcc {
                    filename: opt_model(filename),
                    size: size,
                    out: out.deep_view(),
                });
            }
        } else {
            proof {
                assert(packages_step(curr, line@) == curr);
            }
        }
        i = i + 1;
    }
    proof {
        assert(lines.deep_view().skip(n as int).len() == 0);
    }
    if let (Some(f), Some(s)) = (&filename, &size) {
        let ghost old_dv = out.deep_view();
        let e = FileEntry { path: clone_bytes(f), size: *s };
        out.push(e);
        proof {
            assert(out.deep_view() =~~= old_dv.push(EntryModel { path: f@, size: *s }));
        }
    }
    out
}

/// The model of an optional byte string.
pub open spec fn opt_model(o: Option<Vec<u8>>) -> Option<Seq<u8>> {
    match o {
        Some(v) => Some(v@),
        None => None,
    }
}

} // verus!
