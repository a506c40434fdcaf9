//! Byte-string primitives: equality, prefixes, lexicographic order,
//! line splitting, whitespace fields, decimal numbers and ASCII case.
//!
//! Repository paths and index text are byte strings; every parser and
//! every ordering in this crate is built from the functions here.

use vstd::prelude::*;
use vstd::slice::slice_subrange;
use vstd::string::StringSliceAdditionalSpecFns;

verus! {

pub const NL: u8 = 10;
pub const CR: u8 = 13;
pub const SP: u8 = 32;
pub const TAB: u8 = 9;

// ---------------------------------------------------------------------
// Equality and prefixes
// ---------------------------------------------------------------------

/// `p` is a prefix of `s`.
pub open spec fn is_prefix_of(p: Seq<u8>, s: Seq<u8>) -> bool {
    p.len() <= s.len() && s.subrange(0, p.len() as int) == p
}

pub fn bytes_eq(a: &[u8], b: &[u8]) -> (r: bool)
    ensures
        r == (a@ == b@),
{
    if a.len() != b.len() {
        return false;
    }
    let n = a.len();
    for i in 0..n
        invariant
            n == a@.len() && n == b@.len(),
            forall|k: int| 0 <= k < i ==> a@[k] == b@[k],
    {
        if a[i] != b[i] {
            return false;
        }
    }
    proof {
        assert(a@ =~= b@);
    }
    true
}

pub fn starts_with(s: &[u8], p: &[u8]) -> (r: bool)
    ensures
        r == is_prefix_of(p@, s@),
{
    if p.len() > s.len() {
        return false;
    }
    let n = p.len();
    for i in 0..n
        invariant
            n == p@.len(),
            n <= s@.len(),
            forall|k: int| 0 <= k < i ==> s@[k] == p@[k],
    {
        if s[i] != p[i] {
            proof {
                assert(s@.subrange(0, p@.len() as int)[i as int] == s@[i as int]);
            }
            return false;
        }
    }
    proof {
        assert(s@.subrange(0, p@.len() as int) =~= p@);
    }
    true
}

// ---------------------------------------------------------------------
// Lexicographic order
// ---------------------------------------------------------------------

/// Strict lexicographic order on byte strings; a proper prefix sorts first.
pub open spec fn lex_lt(a: Seq<u8>, b: Seq<u8>) -> bool
    decreases a.len(),
{
    if b.len() == 0 {
        false
    } else if a.len() == 0 {
        true
    } else if a[0] < b[0] {
        true
    } else if a[0] > b[0] {
        false
    } else {
        lex_lt(a.drop_first(), b.drop_first())
    }
}

pub proof fn lemma_lex_connected(a: Seq<u8>, b: Seq<u8>)
    ensures
        lex_lt(a, b) || lex_lt(b, a) || a == b,
    decreases a.len(),
{
    if b.len() == 0 || a.len() == 0 {
        if a.len() == 0 && b.len() == 0 {
            assert(a =~= b);
        }
    } else if a[0] == b[0] {
        lemma_lex_connected(a.drop_first(), b.drop_first());
        if a.drop_first() == b.drop_first() {
            assert(a.drop_first().len() == b.drop_first().len());
            assert(a.len() == b.len());
            assert forall|i: int| 0 <= i < a.len() implies a[i] == b[i] by {
                if i > 0 {
                    assert(a[i] == a.drop_first()[i - 1]);
                    assert(b[i] == b.drop_first()[i - 1]);
                }
            }
            assert(a =~= b);
        }
    }
}

pub proof fn lemma_lex_asymmetric(a: Seq<u8>, b: Seq<u8>)
    requires
        lex_lt(a, b),
    ensures
        !lex_lt(b, a),
        a != b,
    decreases a.len(),
{
    if a.len() != 0 && b.len() != 0 && a[0] == b[0] {
        lemma_lex_asymmetric(a.drop_first(), b.drop_first());
        assert(a != b) by {
            if a == b {
                assert(a.drop_first() == b.drop_first());
            }
        }
    }
}

pub proof fn lemma_lex_irreflexive(a: Seq<u8>)
    ensures
        !lex_lt(a, a),
    decreases a.len(),
{
    if a.len() != 0 {
        lemma_lex_irreflexive(a.drop_first());
    }
}

pub proof fn lemma_lex_transitive(a: Seq<u8>, b: Seq<u8>, c: Seq<u8>)
    requires
        lex_lt(a, b),
        lex_lt(b, c),
    ensures
        lex_lt(a, c),
    decreases a.len(),
{
    if a.len() != 0 && b.len() != 0 && c.len() != 0 {
        if a[0] == b[0] && b[0] == c[0] {
            lemma_lex_transitive(a.drop_first(), b.drop_first(), c.drop_first());
        }
    }
}

pub fn bytes_lt(a: &[u8], b: &[u8]) -> (r: bool)
    ensures
        r == lex_lt(a@, b@),
{
    let mut i: usize = 0;
    proof {
        assert(a@.skip(0) =~= a@);
        assert(b@.skip(0) =~= b@);
    }
    loop
        invariant
            0 <= i <= a@.len(),
            0 <= i <= b@.len(),
            lex_lt(a@, b@) == lex_lt(a@.skip(i as int), b@.skip(i as int)),
        decreases a@.len() - i,
    {
        if i == b.len() {
            proof {
                assert(b@.skip(i as int).len() == 0);
            }
            return false;
        }
        if i == a.len() {
            proof {
                assert(a@.skip(i as int).len() == 0);
                assert(b@.skip(i as int).len() > 0);
            }
            return true;
        }
        let x = a[i];
        let y = b[i];
        proof {
            assert(a@.skip(i as int)[0] == a@[i as int]);
            assert(b@.skip(i as int)[0] == b@[i as int]);
        }
        if x < y {
            return true;
        }
        if x > y {
            return false;
        }
        proof {
            assert(a@.skip(i as int).drop_first() =~= a@.skip(i + 1));
            assert(b@.skip(i as int).drop_first() =~= b@.skip(i + 1));
        }
        i = i + 1;
    }
}

// ---------------------------------------------------------------------
// Line splitting
// ---------------------------------------------------------------------

/// Index of the first line feed in `s`, or `s.len()` if there is none.
pub open spec fn first_nl(s: Seq<u8>) -> int
    decreases s.len(),
{
    if s.len() == 0 {
        0
    } else if s[0] == NL {
        0
    } else {
        1 + first_nl(s.drop_first())
    }
}

pub proof fn lemma_first_nl_at(s: Seq<u8>, i: int)
    requires
        0 <= i <= s.len(),
        forall|k: int| 0 <= k < i ==> s[k] != NL,
        i == s.len() || s[i] == NL,
    ensures
        first_nl(s) == i,
    decreases i,
{
    if i > 0 {
        assert(s[0] != NL);
        lemma_first_nl_at(s.drop_first(), i - 1);
    }
}

/// A line with any single trailing carriage return removed.
pub open spec fn strip_cr(l: Seq<u8>) -> Seq<u8> {
    if l.len() > 0 && l.last() == CR {
        l.drop_last()
    } else {
        l
    }
}

/// The lines of `s`, split at line feeds, each stripped of a trailing
/// carriage return.  A trailing line feed yields no final empty line.
pub open spec fn spec_lines(s: Seq<u8>) -> Seq<Seq<u8>>
    decreases s.len(),
{
    if s.len() == 0 {
        Seq::empty()
    } else {
        let i = first_nl_clipped(s);
        if i == s.len() {
            seq![strip_cr(s)]
        } else {
            seq![strip_cr(s.take(i))] + spec_lines(s.skip(i + 1))
        }
    }
}

/// `first_nl`, clipped into `0 .. s.len()` so that recursion on it
/// visibly terminates.
pub open spec fn first_nl_clipped(s: Seq<u8>) -> int {
    if 0 <= first_nl(s) <= s.len() {
        first_nl(s)
    } else {
        s.len() as int
    }
}

pub fn split_lines(s: &[u8]) -> (r: Vec<Vec<u8>>)
    ensures
        r.deep_view() == spec_lines(s@),
{
    let mut r: Vec<Vec<u8>> = Vec::new();
    let n = s.len();
    let mut start: usize = 0;
    let mut i: usize = 0;
    proof {
        assert(s@.skip(0) =~= s@);
        assert(r.deep_view() + spec_lines(s@) =~~= spec_lines(s@));
    }
    while i < n
        invariant
            n == s@.len(),
            0 <= start <= i <= n,
            forall|k: int| start <= k < i ==> s@[k] != NL,
            spec_lines(s@) == r.deep_view() + spec_lines(s@.skip(start as int)),
        decreases n - i,
    {
        if s[i] == NL {
            let line = slice_to_vec_u8(slice_subrange(s, start, i));
            proof {
                let rest = s@.skip(start as int);
                assert(forall|k: int|
                    0 <= k < i - start ==> rest[k] == s@[start + k] && rest[k] != NL);
                assert(rest[i - start as int] == s@[i as int]);
                lemma_first_nl_at(rest, i - start as int);
                assert(rest.take(i - start as int) =~= s@.subrange(start as int, i as int));
                assert(rest.skip(i - start + 1) =~= s@.skip(i + 1));
                assert(spec_lines(rest) == seq![strip_cr(s@.subrange(start as int, i as int))]
                    + spec_lines(s@.skip(i + 1)));
            }
            let line = strip_cr_vec(line);
            let ghost old_dv = r.deep_view();
            r.push(line);
            proof {
                assert(r.deep_view() =~~= old_dv + seq![line@]);
                assert(old_dv + seq![line@] + spec_lines(s@.skip(i + 1))
                    =~= old_dv + (seq![line@] + spec_lines(s@.skip(i + 1))));
            }
            start = i + 1;
        }
        i = i + 1;
    }
    if start < n {
        let line = slice_to_vec_u8(slice_subrange(s, start, n));
        proof {
            let rest = s@.skip(start as int);
            assert(forall|k: int|
                0 <= k < n - start ==> rest[k] == s@[start + k] && rest[k] != NL);
            lemma_first_nl_at(rest, n - start as int);
            assert(rest =~= s@.subrange(start as int, n as int));
        }
        let line = strip_cr_vec(line);
        let ghost old_dv = r.deep_view();
        r.push(line);
        proof {
            assert(r.deep_view() =~~= old_dv + seq![line@]);
        }
    } else {
        proof {
            assert(s@.skip(start as int).len() == 0);
            assert(r.deep_view() =~~= r.deep_view() + spec_lines(s@.skip(start as int)));
        }
    }
    r
}

/// `slice_to_vec`, specialised so that callers see the `u8` view directly.
pub fn slice_to_vec_u8(s: &[u8]) -> (r: Vec<u8>)
    ensures
        r@ == s@,
{
    vstd::slice::slice_to_vec(s)
}

fn strip_cr_vec(mut l: Vec<u8>) -> (r: Vec<u8>)
    ensures
        r@ == strip_cr(l@),
{
    if l.len() > 0 && l[l.len() - 1] == CR {
        l.pop();
    }
    l
}

// ---------------------------------------------------------------------
// Whitespace fields
// ---------------------------------------------------------------------

pub open spec fn is_space(b: u8) -> bool {
    b == SP || b == TAB
}

/// Index of the first space or tab in `s`, or `s.len()` if there is none.
pub open spec fn first_space(s: Seq<u8>) -> int
    decreases s.len(),
{
    if s.len() == 0 {
        0
    } else if is_space(s[0]) {
        0
    } else {
        1 + first_space(s.drop_first())
    }
}

pub proof fn lemma_first_space_at(s: Seq<u8>, i: int)
    requires
        0 <= i <= s.len(),
        forall|k: int| 0 <= k < i ==> !is_space(s[k]),
        i == s.len() || is_space(s[i]),
    ensures
        first_space(s) == i,
    decreases i,
{
    if i > 0 {
        assert(!is_space(s[0]));
        lemma_first_space_at(s.drop_first(), i - 1);
    }
}

/// `first_space`, clipped into `0 .. s.len()`.
pub open spec fn first_space_clipped(s: Seq<u8>) -> int {
    if 0 <= first_space(s) <= s.len() {
        first_space(s)
    } else {
        s.len() as int
    }
}

/// The maximal runs of non-whitespace bytes of `s`, in order.
pub open spec fn spec_fields(s: Seq<u8>) -> Seq<Seq<u8>>
    decreases s.len(),
{
    if s.len() == 0 {
        Seq::empty()
    } else if is_space(s[0]) {
        spec_fields(s.drop_first())
    } else {
        let i = if first_space_clipped(s) >= 1 {
            first_space_clipped(s)
        } else {
            1
        };
        seq![s.take(i)] + spec_fields(s.skip(i))
    }
}

pub fn fields(s: &[u8]) -> (r: Vec<Vec<u8>>)
    ensures
        r.deep_view() == spec_fields(s@),
{
    let mut r: Vec<Vec<u8>> = Vec::new();
    let n = s.len();
    let mut i: usize = 0;
    proof {
        assert(s@.skip(0) =~= s@);
        assert(r.deep_view() + spec_fields(s@) =~~= spec_fields(s@));
    }
    while i < n
        invariant
            n == s@.len(),
            0 <= i <= n,
            spec_fields(s@) == r.deep_view() + spec_fields(s@.skip(i as int)),
        decreases n - i,
    {
        if is_space_b(s[i]) {
            proof {
                assert(s@.skip(i as int)[0] == s@[i as int]);
                assert(s@.skip(i as int).drop_first() =~= s@.skip(i + 1));
            }
            i = i + 1;
        } else {
            let start = i;
            let mut j = i + 1;
            while j < n && s[j] != SP && s[j] != TAB
                invariant
                    n == s@.len(),
                    0 <= start < j <= n,
                    forall|k: int| start <= k < j ==> !is_space(s@[k]),
                decreases n - j,
            {
                j = j + 1;
            }
            let tok = slice_to_vec_u8(slice_subrange(s, start, j));
            proof {
                let rest = s@.skip(start as int);
                assert(forall|k: int|
                    0 <= k < j - start ==> rest[k] == s@[start + k] && !is_space(rest[k]));
                if j < n {
                    assert(rest[j - start as int] == s@[j as int]);
                }
                lemma_first_space_at(rest, j - start as int);
                assert(rest.take(j - start as int) =~= s@.subrange(start as int, j as int));
                assert(rest.skip(j - start as int) =~= s@.skip(j as int));
                assert(spec_fields(rest) == seq![s@.subrange(start as int, j as int)]
                    + spec_fields(s@.skip(j as int)));
            }
            let ghost old_dv = r.deep_view();
            r.push(tok);
            proof {
                assert(r.deep_view() =~~= old_dv + seq![tok@]);
                assert(old_dv + seq![tok@] + spec_fields(s@.skip(j as int))
                    =~= old_dv + (seq![tok@] + spec_fields(s@.skip(j as int))));
            }
            i = j;
        }
    }
    proof {
        assert(s@.skip(i as int).len() == 0);
        assert(r.deep_view() =~~= r.deep_view() + spec_fields(s@.skip(i as int)));
    }
    r
}

pub fn is_space_b(b: u8) -> (r: bool)
    ensures
        r == is_space(b),
{
    b == SP || b == TAB
}


// ---------------------------------------------------------------------
// Decimal numbers
// ---------------------------------------------------------------------

pub open spec fn is_digit(b: u8) -> bool {
    48 <= b <= 57
}

pub open spec fn digit_val(b: u8) -> nat {
    if is_digit(b) {
        (b - 48) as nat
    } else {
        0
    }
}

/// `s` is a non-empty run of ASCII digits.
pub open spec fn is_digits(s: Seq<u8>) -> bool {
    s.len() > 0 && forall|i: int| 0 <= i < s.len() ==> is_digit(s[i])
}

/// The value of `s` read as a decimal numeral (non-digits count as zero).
pub open spec fn dec_val(s: Seq<u8>) -> nat
    decreases s.len(),
{
    if s.len() == 0 {
        0
    } else {
        dec_val(s.drop_last()) * 10 + digit_val(s.last())
    }
}

pub proof fn lemma_dec_val_prefix(s: Seq<u8>, i: int)
    requires
        0 <= i <= s.len(),
    ensures
        dec_val(s) >= dec_val(s.take(i)),
    decreases s.len() - i,
{
    if i < s.len() {
        lemma_dec_val_prefix(s, i + 1);
        assert(s.take(i + 1).drop_last() =~= s.take(i));
        assert(dec_val(s.take(i + 1)) == dec_val(s.take(i)) * 10 + digit_val(s.take(i + 1).last()));
    } else {
        assert(s.take(i) =~= s);
    }
}

pub fn parse_u64(s: &[u8]) -> (r: Option<u64>)
    ensures
        match r {
            Some(v) => is_digits(s@) && dec_val(s@) == v,
            None => !is_digits(s@) || dec_val(s@) > u64::MAX,
        },
{
    if s.len() == 0 {
        return None;
    }
    let mut acc: u64 = 0;
    let n = s.len();
    proof {
        assert(s@.take(0) =~= Seq::<u8>::empty());
    }
    for i in 0..n
        invariant
            n == s@.len(),
            n > 0,
            forall|k: int| 0 <= k < i ==> is_digit(s@[k]),
            acc == dec_val(s@.take(i as int)),
    {
        let b = s[i];
        if b < 48 || b > 57 {
            return None;
        }
        let d = (b - 48) as u64;
        let limit = (u64::MAX - d) / 10;
        proof {
            let m = u64::MAX as int;
            let dd = d as int;
            let q = (m - dd) / 10;
            vstd::arithmetic::div_mod::lemma_fundamental_div_mod(m - dd, 10);
            vstd::arithmetic::div_mod::lemma_mod_bound(m - dd, 10);
            assert(m - dd == 10 * q + (m - dd) % 10);
            if acc as int <= q {
                assert((acc as int) * 10 <= q * 10) by (nonlinear_arith)
                    requires
                        acc as int <= q,
                ;
            } else {
                assert((acc as int) * 10 >= (q + 1) * 10) by (nonlinear_arith)
                    requires
                        acc as int >= q + 1,
                ;
            }
            assert(s@.take(i + 1).drop_last() =~= s@.take(i as int));
            assert(s@.take(i + 1).last() == s@[i as int]);
        }
        if acc > limit {
            proof {
                assert(dec_val(s@.take(i + 1)) > u64::MAX);
                lemma_dec_val_prefix(s@, i + 1);
            }
            return None;
        }
        acc = acc * 10 + d;
    }
    proof {
        assert(s@.take(n as int) =~= s@);
    }
    Some(acc)
}

/// The decimal numeral of `n`, without sign and without leading zeros
/// (a single `0` for zero).
pub open spec fn dec_of(n: nat) -> Seq<u8>
    decreases n,
{
    if n < 10 {
        seq![(48 + n) as u8]
    } else {
        dec_of(n / 10) + seq![(48 + n % 10) as u8]
    }
}

pub proof fn lemma_dec_of_digits(n: nat)
    ensures
        is_digits(dec_of(n)),
        dec_val(dec_of(n)) == n,
    decreases n,
{
    if n < 10 {
        assert(dec_of(n).drop_last() =~= Seq::<u8>::empty());
        assert(dec_val(Seq::<u8>::empty()) == 0);
        assert((48 + n) as u8 == 48 + n);
        assert(digit_val(dec_of(n).last()) == n);
        assert(dec_val(dec_of(n)) == n);
    } else {
        lemma_dec_of_digits(n / 10);
        let d = dec_of(n / 10);
        let w = dec_of(n);
        assert(w =~= d + seq![(48 + n % 10) as u8]);
        assert(w.drop_last() =~= d);
        assert(w.last() == (48 + n % 10) as u8);
        assert(0 <= n % 10 < 10);
        assert((48 + n % 10) as u8 == 48 + n % 10);
        assert(digit_val(w.last()) == n % 10);
        vstd::arithmetic::div_mod::lemma_fundamental_div_mod(n as int, 10);
        assert(dec_val(w) == (n / 10) * 10 + n % 10);
        assert(dec_val(dec_of(n)) == n);
        assert(forall|i: int| 0 <= i < w.len() ==> is_digit(#[trigger] w[i]));
    }
}

pub fn u64_to_dec(n: u64) -> (r: Vec<u8>)
    ensures
        r@ == dec_of(n as nat),
    decreases n,
{
    if n < 10 {
        let mut v: Vec<u8> = Vec::new();
        v.push(48 + n as u8);
        proof {
            assert(v@ =~= dec_of(n as nat));
        }
        v
    } else {
        let mut v = u64_to_dec(n / 10);
        v.push(48 + (n % 10) as u8);
        proof {
            assert(v@ =~= dec_of((n / 10) as nat) + seq![(48 + (n as nat) % 10) as u8]);
        }
        v
    }
}

/// The decimal numeral of `n` with a leading minus sign when negative.
pub open spec fn dec_of_i64(n: int) -> Seq<u8> {
    if n >= 0 {
        dec_of(n as nat)
    } else {
        seq![45u8] + dec_of((-n) as nat)
    }
}

pub fn i64_to_dec(n: i64) -> (r: Vec<u8>)
    ensures
        r@ == dec_of_i64(n as int),
{
    if n >= 0 {
        u64_to_dec(n as u64)
    } else {
        let m: u64 = if n == i64::MIN {
            9223372036854775808u64
        } else {
            (-n) as u64
        };
        let mut v: Vec<u8> = Vec::new();
        v.push(45);
        let mut d = u64_to_dec(m);
        v.append(&mut d);
        proof {
            assert(v@ =~= seq![45u8] + dec_of(m as nat));
        }
        v
    }
}

/// `s` is a decimal numeral, optionally signed, whose value fits in `i64`.
pub open spec fn is_i64_dec(s: Seq<u8>) -> bool {
    if s.len() > 0 && s[0] == 45 {
        is_digits(s.skip(1)) && dec_val(s.skip(1)) <= 9223372036854775808
    } else {
        is_digits(s) && dec_val(s) <= 9223372036854775807
    }
}

pub open spec fn i64_dec_val(s: Seq<u8>) -> int {
    if s.len() > 0 && s[0] == 45 {
        -(dec_val(s.skip(1)) as int)
    } else {
        dec_val(s) as int
    }
}

pub fn parse_i64(s: &[u8]) -> (r: Option<i64>)
    ensures
        r is Some <==> is_i64_dec(s@),
        r is Some ==> r->0 == i64_dec_val(s@),
{
    if s.len() > 0 && s[0] == 45 {
        let rest = slice_subrange(s, 1, s.len());
        proof {
            assert(rest@ =~= s@.skip(1));
        }
        match parse_u64(rest) {
            Some(u) => {
                if u < 9223372036854775808u64 {
                    Some(-(u as i64))
                } else if u == 9223372036854775808u64 {
                    Some(i64::MIN)
                } else {
                    None
                }
            },
            None => None,
        }
    } else {
        match parse_u64(s) {
            Some(u) => {
                if u <= 9223372036854775807u64 {
                    Some(u as i64)
                } else {
                    None
                }
            },
            None => None,
        }
    }
}

// ---------------------------------------------------------------------
// ASCII case
// ---------------------------------------------------------------------

pub open spec fn lower_byte(b: u8) -> u8 {
    if 65 <= b <= 90 {
        (b + 32) as u8
    } else {
        b
    }
}

pub open spec fn lower_bytes(s: Seq<u8>) -> Seq<u8> {
    s.map_values(|b: u8| lower_byte(b))
}

/// ASCII-case-insensitive equality of byte strings.
pub fn eq_ignore_case(a: &[u8], b: &[u8]) -> (r: bool)
    ensures
        r == (lower_bytes(a@) == lower_bytes(b@)),
{
    if a.len() != b.len() {
        proof {
            assert(lower_bytes(a@).len() != lower_bytes(b@).len());
        }
        return false;
    }
    let n = a.len();
    for i in 0..n
        invariant
            n == a@.len() && n == b@.len(),
            forall|k: int| 0 <= k < i ==> lower_byte(a@[k]) == lower_byte(b@[k]),
    {
        let x = a[i];
        let y = b[i];
        let lx = if 65 <= x && x <= 90 { x + 32 } else { x };
        let ly = if 65 <= y && y <= 90 { y + 32 } else { y };
        if lx != ly {
            proof {
                assert(lower_bytes(a@)[i as int] == lower_byte(a@[i as int]));
                assert(lower_bytes(b@)[i as int] == lower_byte(b@[i as int]));
            }
            return false;
        }
    }
    proof {
        assert(lower_bytes(a@) =~= lower_bytes(b@));
    }
    true
}


/// A fresh byte string with the same contents.
pub fn clone_bytes(v: &Vec<u8>) -> (r: Vec<u8>)
    ensures
        r@ == v@,
{
    slice_to_vec_u8(v.as_slice())
}


pub proof fn lemma_fields_skip_space(rest: Seq<u8>)
    ensures
        spec_fields(seq![SP] + rest) == spec_fields(rest),
{
    let s = seq![SP] + rest;
    assert(s[0] == SP);
    assert(s.drop_first() =~= rest);
}

pub proof fn lemma_fields_token(tok: Seq<u8>, rest: Seq<u8>)
    requires
        tok.len() > 0,
        forall|i: int| 0 <= i < tok.len() ==> !is_space(#[trigger] tok[i]),
        rest.len() == 0 || is_space(rest[0]),
    ensures
        spec_fields(tok + rest) == seq![tok] + spec_fields(rest),
{
    let s = tok + rest;
    assert(s[0] == tok[0]);
    assert(forall|k: int| 0 <= k < tok.len() ==> s[k] == #[trigger] tok[k]);
    if rest.len() > 0 {
        assert(s[tok.len() as int] == rest[0]);
    }
    lemma_first_space_at(s, tok.len() as int);
    assert(first_space_clipped(s) == tok.len());
    assert(s.take(tok.len() as int) =~= tok);
    assert(s.skip(tok.len() as int) =~= rest);
}

} // verus!
