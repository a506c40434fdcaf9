//! Splitting a cleartext-signed document (`InRelease`) into its signed
//! body and its detached ASCII-armored signature block.
//!
//! The document is read line by line: anything before the
//! `BEGIN PGP SIGNED MESSAGE` marker is ignored, the hash headers run to
//! the first blank line, the body runs to the `BEGIN PGP SIGNATURE`
//! marker, and the signature block runs through `END PGP SIGNATURE`
//! inclusive.  Whitespace inside lines is preserved — the signature
//! covers it — so a blob with stray surrounding whitespace still
//! verifies.  Checking the signature itself is the PGP library's work,
//! outside this crate.

use vstd::prelude::*;
use vstd::string::StringSliceAdditionalSpecFns;

use crate::bytes::{bytes_eq, clone_bytes, spec_lines, split_lines};
use crate::SyncError;

verus! {

#[derive(Clone, Copy, Debug, PartialEq, Eq, Structural)]
pub enum PgpState {
    Preamble,
    Headers,
    Body,
    Signature,
    Done,
}

/// Splitter accumulator: state, body text so far (with a flag for the
/// very first body line), and signature block so far.
pub ghost struct PgpAcc {
    pub state: PgpState,
    pub body: Seq<u8>,
    pub body_started: bool,
    pub sig: Seq<u8>,
}

pub open spec fn initial_pgp_acc() -> PgpAcc {
    PgpAcc { state: PgpState::Preamble, body: Seq::empty(), body_started: false, sig: Seq::empty() }
}

pub open spec fn begin_signed_tag() -> Seq<u8> {
    "-----BEGIN PGP SIGNED MESSAGE-----".spec_bytes()
}

pub open spec fn begin_sig_tag() -> Seq<u8> {
    "-----BEGIN PGP SIGNATURE-----".spec_bytes()
}

pub open spec fn end_sig_tag() -> Seq<u8> {
    "-----END PGP SIGNATURE-----".spec_bytes()
}

/// One step of the splitter on one line.
pub open spec fn pgp_step(acc: PgpAcc, line: Seq<u8>) -> PgpAcc {
    match acc.state {
        PgpState::Preamble => if line == begin_signed_tag() {
            PgpAcc { state: PgpState::Headers, ..acc }
        } else {
            acc
        },
        PgpState::Headers => if line.len() == 0 {
            PgpAcc { state: PgpState::Body, ..acc }
        } else {
            acc
        },
        PgpState::Body => if line == begin_sig_tag() {
            PgpAcc { state: PgpState::Signature, sig: line + seq![10u8], ..acc }
        } else if acc.body_started {
            PgpAcc { body: acc.body + seq![10u8] + line, ..acc }
        } else {
            PgpAcc { body: line, body_started: true, ..acc }
        },
        PgpState::Signature => if line == end_sig_tag() {
            PgpAcc { state: PgpState::Done, sig: acc.sig + line + seq![10u8], ..acc }
        } else {
            PgpAcc { sig: acc.sig + line + seq![10u8], ..acc }
        },
        PgpState::Done => acc,
    }
}

pub open spec fn pgp_run(lines: Seq<Seq<u8>>, acc: PgpAcc) -> PgpAcc
    decreases lines.len(),
{
    if lines.len() == 0 {
        acc
    } else {
        pgp_run(lines.drop_first(), pgp_step(acc, lines.first()))
    }
}

/// What splitting the whole document yields: the signed body and the
/// armored signature block, or nothing when the framing is incomplete.
pub open spec fn spec_split_inrelease(text: Seq<u8>) -> Option<(Seq<u8>, Seq<u8>)> {
    let acc = pgp_run(spec_lines(text), initial_pgp_acc());
    if acc.state is Done {
        Some((acc.body, acc.sig))
    } else {
        None
    }
}

/// Split a cleartext-signed document into `(body, signature)`.  Fails
/// with the malformed-document error exactly when the three framing
/// markers do not all appear in order.
pub fn split_inrelease(text: &Vec<u8>) -> (r: Result<(Vec<u8>, Vec<u8>), SyncError>)
    ensures
        match r {
            Ok(pair) => spec_split_inrelease(text@) == Some((pair.0@, pair.1@)),
            Err(e) => spec_split_inrelease(text@) is None && e
                == SyncError::MalformedSignedDocument,
        },
{
    let lines = split_lines(text.as_slice());
    let ghost ldv = lines.deep_view();
    let mut state = PgpState::Preamble;
    let mut body: Vec<u8> = Vec::new();
    let mut body_started = false;
    let mut sig: Vec<u8> = Vec::new();
    let n = lines.len();
    proof {
        assert(ldv.skip(0) =~= ldv);
        assert(body@ =~= Seq::<u8>::empty());
        assert(sig@ =~= Seq::<u8>::empty());
    }
    let mut i: usize = 0;
    while i < n
        invariant
            n == lines@.len(),
            0 <= i <= n,
            ldv == lines.deep_view(),
            pgp_run(ldv, initial_pgp_acc()) == pgp_run(
                ldv.skip(i as int),
                PgpAcc { state: state, body: body@, body_started: body_started, sig: sig@ },
            ),
        decreases n - i,
    {
        let ghost curr = PgpAcc {
            state: state,
            body: body@,
            body_started: body_started,
            sig: sig@,
        };
        let ghost rest = ldv.skip(i as int);
        proof {
            assert(rest.first() == ldv[i as int]);
            assert(ldv[i as int] == lines@[i as int]@);
            assert(rest.drop_first() =~= ldv.skip(i + 1));
        }
        let line = &lines[i];
        match state {
            PgpState::Preamble => {
                if bytes_eq(line.as_slice(), "-----BEGIN PGP SIGNED MESSAGE-----".as_bytes()) {
                    state = PgpState::Headers;
                }
            },
            PgpState::Headers => {
                if line.len() == 0 {
                    state = PgpState::Body;
                }
            },
            PgpState::Body => {
                if bytes_eq(line.as_slice(), "-----BEGIN PGP SIGNATURE-----".as_bytes()) {
                    state = PgpState::Signature;
                    sig = clone_bytes(line);
                    sig.push(10);
                    proof {
                        assert(sig@ =~= rest.first() + seq![10u8]);
                    }
                } else if body_started {
                    body.push(10);
                    let mut l = clone_bytes(line);
                    body.append(&mut l);
                    proof {
                        assert(body@ =~= curr.body + seq![10u8] + rest.first());
                    }
                } else {
                    body = clone_bytes(line);
                    body_started = true;
                }
            },
            PgpState::Signature => {
                let mut l = clone_bytes(line);
                sig.append(&mut l);
                sig.push(10);
                proof {
                    assert(sig@ =~= curr.sig + rest.first() + seq![10u8]);
                }
                if bytes_eq(line.as_slice(), "-----END PGP SIGNATURE-----".as_bytes()) {
                    state = PgpState::Done;
                }
            },
            PgpState::Done => {
            },
        }
        proof {
            assert(pgp_step(curr, line@) == PgpAcc {
                state: state,
                body: body@,
                body_started: body_started,
                sig: sig@,
            });
        }
        i = i + 1;
    }
    proof {
        assert(ldv.skip(n as int).len() == 0);
        assert(spec_lines(text@) == ldv);
    }
    if matches!(state, PgpState::Done) {
        Ok((body, sig))
    } else {
        Err(SyncError::MalformedSignedDocument)
    }
}

} // verus!
