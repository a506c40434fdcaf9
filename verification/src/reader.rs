//! Transparent reading of index files: plain bytes, gzip, or xz, chosen
//! by the file name's extension (ASCII-case-insensitively), any other
//! extension refused.
//!
//! Decompression itself is the work of the flate2 and xz2 crates; the
//! library names their results and parses the decoded lines.

use vstd::prelude::*;
use vstd::string::StringSliceAdditionalSpecFns;

use crate::bytes::{eq_ignore_case, lower_bytes, slice_to_vec_u8, spec_lines, split_lines};
use crate::SyncError;

verus! {

/// How a file of this name is read.
#[derive(Clone, Copy, Debug, PartialEq, Eq, Structural)]
pub enum IndexEncoding {
    Plain,
    Gzip,
    Xz,
    Unsupported,
}

/// Index of the last occurrence of `b` in `s`, or `-1`.
pub open spec fn last_byte_at(s: Seq<u8>, b: u8) -> int
    decreases s.len(),
{
    if s.len() == 0 {
        -1
    } else if s.last() == b {
        s.len() - 1
    } else {
        last_byte_at(s.drop_last(), b)
    }
}

pub proof fn lemma_last_byte_at(s: Seq<u8>, b: u8)
    ensures
        -1 <= last_byte_at(s, b) < s.len(),
        last_byte_at(s, b) >= 0 ==> s[last_byte_at(s, b)] == b,
        forall|k: int| last_byte_at(s, b) < k < s.len() ==> s[k] != b,
    decreases s.len(),
{
    if s.len() != 0 && s.last() != b {
        lemma_last_byte_at(s.drop_last(), b);
        assert forall|k: int| last_byte_at(s, b) < k < s.len() implies s[k] != b by {
            if k < s.len() - 1 {
                assert(s[k] == s.drop_last()[k]);
            }
        }
    }
}

pub proof fn lemma_last_byte_at_is(s: Seq<u8>, b: u8, i: int)
    requires
        -1 <= i < s.len(),
        i >= 0 ==> s[i] == b,
        forall|k: int| i < k < s.len() ==> s[k] != b,
    ensures
        last_byte_at(s, b) == i,
    decreases s.len(),
{
    if s.len() != 0 {
        if i == s.len() - 1 {
        } else {
            assert(s.last() != b);
            lemma_last_byte_at_is(s.drop_last(), b, i);
        }
    }
}

/// The extension of the file name at the end of `p`: the bytes after the
/// last dot of the final path component, none if that component has no
/// dot or only a leading one.
pub open spec fn spec_extension(p: Seq<u8>) -> Option<Seq<u8>> {
    let name = p.skip(last_byte_at(p, 47) + 1);
    let d = last_byte_at(name, 46);
    if d <= 0 {
        None
    } else {
        Some(name.skip(d + 1))
    }
}

/// The encoding chosen for a file name.
pub open spec fn spec_encoding(p: Seq<u8>) -> IndexEncoding {
    match spec_extension(p) {
        None => IndexEncoding::Plain,
        Some(e) => if lower_bytes(e) == lower_bytes("gz".spec_bytes()) {
            IndexEncoding::Gzip
        } else if lower_bytes(e) == lower_bytes("xz".spec_bytes()) {
            IndexEncoding::Xz
        } else {
            IndexEncoding::Unsupported
        },
    }
}

fn find_last(s: &[u8], b: u8) -> (r: Option<usize>)
    ensures
        match r {
            Some(i) => last_byte_at(s@, b) == i,
            None => last_byte_at(s@, b) == -1,
        },
{
    let n = s.len();
    let mut i: usize = n;
    while i > 0
        invariant
            0 <= i <= n,
            n == s@.len(),
            forall|k: int| i <= k < n ==> s@[k] != b,
        decreases i,
    {
        i = i - 1;
        if s[i] == b {
            proof {
                lemma_last_byte_at_is(s@, b, i as int);
            }
            return Some(i);
        }
    }
    proof {
        lemma_last_byte_at_is(s@, b, -1);
    }
    None
}

/// Classify a file name.
pub fn classify_encoding(name: &Vec<u8>) -> (r: IndexEncoding)
    ensures
        r == spec_encoding(name@),
{
    let nlen = name.len();
    proof {
        lemma_last_byte_at(name@, 47);
    }
    let start = match find_last(name.as_slice(), 47) {
        Some(i) => {
            proof {
                assert(i < nlen);
            }
            i + 1
        },
        None => 0,
    };
    let base = vstd::slice::slice_subrange(name.as_slice(), start, name.len());
    proof {
        assert(base@ =~= name@.skip(last_byte_at(name@, 47) + 1));
    }
    proof {
        lemma_last_byte_at(base@, 46);
    }
    let d = match find_last(base, 46) {
        Some(i) => i,
        None => {
            return IndexEncoding::Plain;
        },
    };
    if d == 0 {
        return IndexEncoding::Plain;
    }
    let ext = vstd::slice::slice_subrange(base, d + 1, base.len());
    proof {
        assert(ext@ =~= name@.skip(last_byte_at(name@, 47) + 1).skip(
            last_byte_at(name@.skip(last_byte_at(name@, 47) + 1), 46) + 1,
        ));
    }
    if eq_ignore_case(ext, "gz".as_bytes()) {
        IndexEncoding::Gzip
    } else if eq_ignore_case(ext, "xz".as_bytes()) {
        IndexEncoding::Xz
    } else {
        IndexEncoding::Unsupported
    }
}

/// What gzip decoding yields for a byte string: the decoded bytes, or
/// nothing when the stream is not valid gzip.  Decoding depends on the
/// bytes alone.
pub uninterp spec fn gunzip_of(data: Seq<u8>) -> Option<Seq<u8>>;

/// What xz decoding yields for a byte string, likewise.
pub uninterp spec fn unxz_of(data: Seq<u8>) -> Option<Seq<u8>>;

/// Relies on flate2's `GzDecoder` (`read_to_end`): decodes a gzip
/// stream, failing on invalid input; the result depends on the bytes
/// alone.
#[verifier::external_body]
fn gz_decode(data: &Vec<u8>) -> (r: Option<Vec<u8>>)
    ensures
        match r {
            Some(v) => gunzip_of(data@) == Some(v@),
            None => gunzip_of(data@) is None,
        },
{
    let mut out: Vec<u8> = Vec::new();
    let mut d = flate2::bufread::GzDecoder::new(data.as_slice());
    match std::io::Read::read_to_end(&mut d, &mut out) {
        Ok(_) => Some(out),
        Err(_) => None,
    }
}

/// Relies on xz2's `XzDecoder` (`read_to_end`): decodes an xz stream,
/// failing on invalid input; the result depends on the bytes alone.
#[verifier::external_body]
fn xz_decode(data: &Vec<u8>) -> (r: Option<Vec<u8>>)
    ensures
        match r {
            Some(v) => unxz_of(data@) == Some(v@),
            None => unxz_of(data@) is None,
        },
{
    let mut out: Vec<u8> = Vec::new();
    let mut d = xz2::bufread::XzDecoder::new(data.as_slice());
    match std::io::Read::read_to_end(&mut d, &mut out) {
        Ok(_) => Some(out),
        Err(_) => None,
    }
}

/// The decoded bytes an index file of this name and raw content holds.
pub open spec fn spec_decoded(name: Seq<u8>, data: Seq<u8>) -> Option<Seq<u8>> {
    match spec_encoding(name) {
        IndexEncoding::Plain => Some(data),
        IndexEncoding::Gzip => gunzip_of(data),
        IndexEncoding::Xz => unxz_of(data),
        IndexEncoding::Unsupported => None,
    }
}

/// Read one index file, given its name and raw bytes, into its lines:
/// decoded as the extension directs, then split at line feeds.  Errors:
/// the unsupported-extension error exactly for a name no decoder
/// handles, and the decode error exactly when the chosen decoder refuses
/// the bytes.
pub fn read_index_lines(name: &Vec<u8>, data: &Vec<u8>) -> (r: Result<Vec<Vec<u8>>, SyncError>)
    ensures
        match r {
            Ok(lines) => spec_decoded(name@, data@) is Some && lines.deep_view() == spec_lines(
                spec_decoded(name@, data@)->0,
            ),
            Err(e) => spec_decoded(name@, data@) is None && (e == SyncError::UnsupportedExtension
                <==> spec_encoding(name@) == IndexEncoding::Unsupported) && (e
                == SyncError::DecodeFailed <==> spec_encoding(name@)
                != IndexEncoding::Unsupported),
        },
{
    match classify_encoding(name) {
        IndexEncoding::Plain => {
            let copy = slice_to_vec_u8(data.as_slice());
            Ok(split_lines(copy.as_slice()))
        },
        IndexEncoding::Gzip => {
            match gz_decode(data) {
                Some(plain) => Ok(split_lines(plain.as_slice())),
                None => Err(SyncError::DecodeFailed),
            }
        },
        IndexEncoding::Xz => {
            match xz_decode(data) {
                Some(plain) => Ok(split_lines(plain.as_slice())),
                None => Err(SyncError::DecodeFailed),
            }
        },
        IndexEncoding::Unsupported => Err(SyncError::UnsupportedExtension),
    }
}

} // verus!
