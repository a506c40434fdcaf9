//! Process state and the request endpoint's decisions.
//!
//! [`AppState`] is the record the server keeps behind its lock: the
//! single-flight `syncing` gate and the bookkeeping of the last finished
//! sync.  [`admit_request`] is the whole decision of `POST /sync`, from
//! the signature checks to the exact response body, taken in one call
//! against the state, so that while `syncing` is
//! set no second job can ever be accepted.  The HTTP layer only carries
//! bytes in and out and spawns the job exactly when told to.

use vstd::prelude::*;
use vstd::string::StringSliceAdditionalSpecFns;

use crate::bytes::{clone_bytes, dec_of_i64, i64_to_dec, slice_to_vec_u8};
use crate::SyncStatus;

verus! {

// ---------------------------------------------------------------------
// JSON rendering
// ---------------------------------------------------------------------

/// Hex digit (lower case) of a value below 16.
pub open spec fn hex_digit(n: u8) -> u8 {
    if n < 10 {
        (48 + n) as u8
    } else {
        (87 + n) as u8
    }
}

/// JSON escaping of one byte of a message: quote and backslash get a
/// backslash, control bytes become `\u00XX`, everything else stands.
pub open spec fn escape_byte(b: u8) -> Seq<u8> {
    if b == 34 {
        seq![92u8, 34u8]
    } else if b == 92 {
        seq![92u8, 92u8]
    } else if b < 32 {
        seq![92u8, 117u8, 48u8, 48u8, hex_digit(b / 16), hex_digit(b % 16)]
    } else {
        seq![b]
    }
}

pub open spec fn json_escaped(s: Seq<u8>) -> Seq<u8>
    decreases s.len(),
{
    if s.len() == 0 {
        Seq::empty()
    } else {
        escape_byte(s.first()) + json_escaped(s.drop_first())
    }
}

fn escape_into(msg: &Vec<u8>, out: &mut Vec<u8>)
    ensures
        final(out)@ == old(out)@ + json_escaped(msg@),
{
    let n = msg.len();
    proof {
        assert(msg@.skip(0) =~= msg@);
        assert(old(out)@ + json_escaped(msg@) =~= old(out)@ + json_escaped(msg@));
    }
    let mut i: usize = 0;
    while i < n
        invariant
            n == msg@.len(),
            0 <= i <= n,
            old(out)@ + json_escaped(msg@) == out@ + json_escaped(msg@.skip(i as int)),
        decreases n - i,
    {
        let ghost rest = msg@.skip(i as int);
        proof {
            assert(rest.first() == msg@[i as int]);
            assert(rest.drop_first() =~= msg@.skip(i + 1));
        }
        let b = msg[i];
        let ghost old_o = out@;
        if b == 34 {
            out.push(92);
            out.push(34);
        } else if b == 92 {
            out.push(92);
            out.push(92);
        } else if b < 32 {
            out.push(92);
            out.push(117);
            out.push(48);
            out.push(48);
            let hi = b / 16;
            let lo = b % 16;
            out.push(if hi < 10 {
                48 + hi
            } else {
                87 + hi
            });
            out.push(if lo < 10 {
                48 + lo
            } else {
                87 + lo
            });
        } else {
            out.push(b);
        }
        proof {
            assert(out@ =~= old_o + escape_byte(b));
            assert(old_o + escape_byte(b) + json_escaped(rest.drop_first()) =~= old_o + (escape_byte(
                b,
            ) + json_escaped(rest.drop_first())));
        }
        i = i + 1;
    }
    proof {
        assert(msg@.skip(n as int).len() == 0);
        assert(out@ =~= out@ + json_escaped(msg@.skip(n as int)));
    }
}

/// The exact response body of `POST /sync`:
/// `{"status":"success","message":"<msg>"}`, or `failed`.
pub open spec fn spec_response_body(ok: bool, msg: Seq<u8>) -> Seq<u8> {
    "{\"status\":\"".spec_bytes() + (if ok {
        "success".spec_bytes()
    } else {
        "failed".spec_bytes()
    }) + "\",\"message\":\"".spec_bytes() + json_escaped(msg) + "\"}".spec_bytes()
}

pub fn render_response_body(ok: bool, msg: &Vec<u8>) -> (r: Vec<u8>)
    ensures
        r@ == spec_response_body(ok, msg@),
{
    let mut r = slice_to_vec_u8("{\"status\":\"".as_bytes());
    let mut word = if ok {
        slice_to_vec_u8("success".as_bytes())
    } else {
        slice_to_vec_u8("failed".as_bytes())
    };
    r.append(&mut word);
    let mut mid = slice_to_vec_u8("\",\"message\":\"".as_bytes());
    r.append(&mut mid);
    escape_into(msg, &mut r);
    let mut tail = slice_to_vec_u8("\"}".as_bytes());
    r.append(&mut tail);
    proof {
        assert(r@ =~= spec_response_body(ok, msg@));
    }
    r
}

/// The word `GET /status` reports for an outcome.
pub open spec fn spec_status_word(s: SyncStatus) -> Seq<u8> {
    match s {
        SyncStatus::Success => "success".spec_bytes(),
        SyncStatus::Failed => "failed".spec_bytes(),
    }
}

// ---------------------------------------------------------------------
// Process state
// ---------------------------------------------------------------------

/// The record behind the server's lock: the single-flight gate and what
/// the last finished sync left behind.
pub struct AppState {
    pub syncing: bool,
    pub last_sync_timestamp: i64,
    pub last_sync_status: SyncStatus,
    pub last_sync_message: Vec<u8>,
}

impl AppState {
    /// The state at process start: idle, nothing synced yet.
    pub fn new() -> (r: AppState)
        ensures
            !r.syncing,
            r.last_sync_timestamp == 0,
            r.last_sync_status == SyncStatus::Success,
            r.last_sync_message@.len() == 0,
    {
        AppState {
            syncing: false,
            last_sync_timestamp: 0,
            last_sync_status: SyncStatus::Success,
            last_sync_message: Vec::new(),
        }
    }

    /// Test-and-set of the single-flight gate.  Succeeds exactly when no
    /// sync is running; afterwards one is, so a second caller always
    /// loses: no two syncs can ever be admitted concurrently.
    pub fn try_begin_sync(&mut self) -> (r: bool)
        ensures
            r == !old(self).syncing,
            final(self).syncing,
            final(self).last_sync_timestamp == old(self).last_sync_timestamp,
            final(self).last_sync_status == old(self).last_sync_status,
            final(self).last_sync_message == old(self).last_sync_message,
    {
        if self.syncing {
            false
        } else {
            self.syncing = true;
            true
        }
    }

    /// Record a finished sync: `syncing` falls back to false and the
    /// outcome fields are written.
    pub fn finish_sync(&mut self, timestamp: i64, status: SyncStatus, message: Vec<u8>)
        ensures
            !final(self).syncing,
            final(self).last_sync_timestamp == timestamp,
            final(self).last_sync_status == status,
            final(self).last_sync_message == message,
    {
        self.syncing = false;
        self.last_sync_timestamp = timestamp;
        self.last_sync_status = status;
        self.last_sync_message = message;
    }

    /// The exact body of `GET /status`.
    pub open spec fn spec_status_body(&self) -> Seq<u8> {
        "{\"syncing\":".spec_bytes() + (if self.syncing {
            "true".spec_bytes()
        } else {
            "false".spec_bytes()
        }) + ",\"last_sync_timestamp\":".spec_bytes() + dec_of_i64(self.last_sync_timestamp as int)
            + ",\"last_sync_status\":\"".spec_bytes() + spec_status_word(self.last_sync_status)
            + "\",\"last_sync_message\":\"".spec_bytes() + json_escaped(self.last_sync_message@)
            + "\"}".spec_bytes()
    }

    pub fn render_status_body(&self) -> (r: Vec<u8>)
        ensures
            r@ == self.spec_status_body(),
    {
        let mut r = slice_to_vec_u8("{\"syncing\":".as_bytes());
        let mut word = if self.syncing {
            slice_to_vec_u8("true".as_bytes())
        } else {
            slice_to_vec_u8("false".as_bytes())
        };
        r.append(&mut word);
        let mut p = slice_to_vec_u8(",\"last_sync_timestamp\":".as_bytes());
        r.append(&mut p);
        let mut ts = i64_to_dec(self.last_sync_timestamp);
        r.append(&mut ts);
        let mut p2 = slice_to_vec_u8(",\"last_sync_status\":\"".as_bytes());
        r.append(&mut p2);
        let mut word2 = match self.last_sync_status {
            SyncStatus::Success => slice_to_vec_u8("success".as_bytes()),
            SyncStatus::Failed => slice_to_vec_u8("failed".as_bytes()),
        };
        r.append(&mut word2);
        let mut p3 = slice_to_vec_u8("\",\"last_sync_message\":\"".as_bytes());
        r.append(&mut p3);
        escape_into(&self.last_sync_message, &mut r);
        let mut tail = slice_to_vec_u8("\"}".as_bytes());
        r.append(&mut tail);
        proof {
            assert(r@ =~= self.spec_status_body());
        }
        r
    }
}

// ---------------------------------------------------------------------
// Request admission
// ---------------------------------------------------------------------

/// What `POST /sync` decided: whether to spawn the orchestrator, the
/// HTTP status to answer, and the exact response body.
pub struct RequestDecision {
    pub accept: bool,
    pub status_code: u16,
    pub body: Vec<u8>,
}

/// Admit or reject a sync request, in one step against the state.
///
/// The request is rejected with `400` and the exact body the caller
/// expects when the signature is required but empty or invalid, or when
/// a sync is already running; only otherwise is it accepted with `200`,
/// and `syncing` becomes true in the same call.  The orchestrator is
/// spawned exactly on acceptance, so a spawned job always saw
/// `syncing == false` and set it itself.
pub fn admit_request(
    skip_verification: bool,
    signature_empty: bool,
    signature_valid: bool,
    state: &mut AppState,
) -> (r: RequestDecision)
    ensures
        r.accept == ((skip_verification || (!signature_empty && signature_valid)) && !old(
            state,
        ).syncing),
        r.accept ==> final(state).syncing && r.status_code == 200 && r.body@
            == spec_response_body(true, "Sync job started".spec_bytes()),
        !r.accept ==> *final(state) == *old(state) && r.status_code == 400,
        !skip_verification && (signature_empty || !signature_valid) ==> r.body@
            == spec_response_body(false, "Invalid signature".spec_bytes()),
        (skip_verification || (!signature_empty && signature_valid)) && old(state).syncing
            ==> r.body@ == spec_response_body(false, "Sync job is already started".spec_bytes()),
        final(state).last_sync_timestamp == old(state).last_sync_timestamp,
        final(state).last_sync_status == old(state).last_sync_status,
        final(state).last_sync_message == old(state).last_sync_message,
{
    if !skip_verification {
        if signature_empty || !signature_valid {
            let msg = slice_to_vec_u8("Invalid signature".as_bytes());
            let body = render_response_body(false, &msg);
            return RequestDecision { accept: false, status_code: 400, body };
        }
    }
    let started = state.try_begin_sync();
    if !started {
        let msg = slice_to_vec_u8("Sync job is already started".as_bytes());
        let body = render_response_body(false, &msg);
        return RequestDecision { accept: false, status_code: 400, body };
    }
    let msg = slice_to_vec_u8("Sync job started".as_bytes());
    let body = render_response_body(true, &msg);
    RequestDecision { accept: true, status_code: 200, body }
}

// ---------------------------------------------------------------------
// The failure message of a sync
// ---------------------------------------------------------------------

/// The recorded message of a failed sync: the root cause followed by its
/// causal chain, joined by `: `.
pub open spec fn spec_error_chain(parts: Seq<Seq<u8>>) -> Seq<u8>
    decreases parts.len(),
{
    if parts.len() == 0 {
        Seq::empty()
    } else if parts.len() == 1 {
        parts.first()
    } else {
        parts.first() + ": ".spec_bytes() + spec_error_chain(parts.drop_first())
    }
}

pub fn format_error_chain(parts: &Vec<Vec<u8>>) -> (r: Vec<u8>)
    ensures
        r@ == spec_error_chain(parts.deep_view()),
{
    let mut r: Vec<u8> = Vec::new();
    let n = parts.len();
    proof {
        assert(parts.deep_view().skip(0) =~= parts.deep_view());
        assert(r@ + spec_error_chain(parts.deep_view()) =~= spec_error_chain(parts.deep_view()));
    }
    let mut i: usize = 0;
    while i < n
        invariant
            n == parts@.len(),
            0 <= i <= n,
            spec_error_chain(parts.deep_view()) == r@ + spec_error_chain(
                parts.deep_view().skip(i as int),
            ),
        decreases n - i,
    {
        let ghost rest = parts.deep_view().skip(i as int);
        proof {
            assert(rest.first() == parts.deep_view()[i as int]);
            assert(parts.deep_view()[i as int] == parts@[i as int]@);
            assert(rest.drop_first() =~= parts.deep_view().skip(i + 1));
        }
        let ghost old_r = r@;
        let mut part = clone_bytes(&parts[i]);
        r.append(&mut part);
        if i + 1 < n {
            let mut sep = slice_to_vec_u8(": ".as_bytes());
            r.append(&mut sep);
        }
        proof {
            if rest.len() == 1 {
                assert(spec_error_chain(rest) == rest.first());
                assert(r@ =~= old_r + rest.first());
            } else {
                assert(r@ =~= old_r + (rest.first() + ": ".spec_bytes()));
                assert(old_r + (rest.first() + ": ".spec_bytes()) + spec_error_chain(
                    rest.drop_first(),
                ) =~= old_r + (rest.first() + ": ".spec_bytes() + spec_error_chain(
                    rest.drop_first(),
                )));
            }
        }
        i = i + 1;
    }
    proof {
        assert(parts.deep_view().skip(n as int).len() == 0);
        assert(r@ =~= r@ + spec_error_chain(parts.deep_view().skip(n as int)));
    }
    r
}

} // verus!
