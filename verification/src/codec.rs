//! Canonical byte codec for the records the pipeline reads from the
//! ledger and writes to its store.
//!
//! The wire form is the canonical binary serialization the chain uses:
//! fixed-width little-endian integers, byte strings and lists prefixed
//! by a canonical ULEB128 length, options tagged 0 or 1, booleans as a
//! single 0 or 1 byte, and account addresses as 32 raw bytes. Every
//! decoder is total and exact: it accepts precisely the canonical
//! encodings, and every encoder's output parses back to the encoded
//! value.

use vstd::prelude::*;
use crate::types::AccountAddress;
use crate::types::DecodeError;
use crate::types::NewQueryEvent;
use crate::types::NewQueryEventS;
use crate::types::Queries;
use crate::types::QueriesS;
use crate::types::Query;
use crate::types::QueryS;
use crate::types::Table;
use crate::types::TableWithLength;
use crate::types::UserQuery;
use crate::types::UserQueryS;
use crate::types::UserQueryProvingResult;
use crate::types::UserQueryProvingResultS;

verus! {

/// Greatest sequence length the wire format accepts, as a ULEB128 value.
pub const MAX_SEQUENCE_LENGTH: u64 = 2147483647;

// ---------------------------------------------------------------------
// Little-endian fixed-width integers
// ---------------------------------------------------------------------

/// The `k` little-endian bytes of `n`.
pub open spec fn le_bytes(n: nat, k: nat) -> Seq<u8>
    decreases k,
{
    if k == 0 {
        Seq::empty()
    } else {
        seq![(n % 256) as u8] + le_bytes(n / 256, (k - 1) as nat)
    }
}

/// The value read back from little-endian bytes.
pub open spec fn le_val(s: Seq<u8>) -> nat
    decreases s.len(),
{
    if s.len() == 0 {
        0
    } else {
        s[0] as nat + 256 * le_val(s.skip(1))
    }
}

/// 256 to the power `k`.
pub open spec fn pow256(k: nat) -> nat
    decreases k,
{
    if k == 0 {
        1
    } else {
        256 * pow256((k - 1) as nat)
    }
}

pub proof fn lemma_le_bytes_len(n: nat, k: nat)
    ensures
        le_bytes(n, k).len() == k,
    decreases k,
{
    if k > 0 {
        lemma_le_bytes_len(n / 256, (k - 1) as nat);
    }
}

/// Writing `n` as `k` little-endian bytes and reading them back gives
/// `n` again, whenever `n` fits in `k` bytes.
pub proof fn lemma_le_round_trip(n: nat, k: nat)
    requires
        n < pow256(k),
    ensures
        le_val(le_bytes(n, k)) == n,
    decreases k,
{
    if k == 0 {
    } else {
        let s = le_bytes(n, k);
        lemma_le_bytes_len(n, k);
        assert(s.skip(1) =~= le_bytes(n / 256, (k - 1) as nat));
        assert(n / 256 < pow256((k - 1) as nat)) by {
            if n / 256 >= pow256((k - 1) as nat) {
                assert(n >= 256 * pow256((k - 1) as nat)) by (nonlinear_arith)
                    requires n / 256 >= pow256((k - 1) as nat),
                ;
            }
        }
        lemma_le_round_trip(n / 256, (k - 1) as nat);
        assert(le_val(s) == n % 256 + 256 * (n / 256));
    }
}

/// Reading `k` bytes and writing the value back gives the same bytes.
pub proof fn lemma_le_bytes_of_val(s: Seq<u8>)
    ensures
        le_val(s) < pow256(s.len()),
        le_bytes(le_val(s), s.len()) =~= s,
    decreases s.len(),
{
    if s.len() == 0 {
    } else {
        let t = s.skip(1);
        lemma_le_bytes_of_val(t);
        let v = le_val(s);
        assert(v == s[0] as nat + 256 * le_val(t));
        assert(v % 256 == s[0] && v / 256 == le_val(t)) by (nonlinear_arith)
            requires
                v == s[0] as nat + 256 * le_val(t),
                0 <= s[0] < 256,
        ;
        assert(v < 256 * pow256(t.len())) by (nonlinear_arith)
            requires
                v == s[0] as nat + 256 * le_val(t),
                0 <= s[0] < 256,
                le_val(t) < pow256(t.len()),
        ;
        assert(le_bytes(v, s.len()) =~= seq![(v % 256) as u8] + le_bytes(v / 256, t.len()));
    }
}

pub proof fn lemma_pow256_u64()
    ensures
        pow256(8) == 0x1_0000_0000_0000_0000,
        pow256(2) == 0x1_0000,
{
    reveal_with_fuel(pow256, 9);
    assert(pow256(8) == 0x1_0000_0000_0000_0000);
    assert(pow256(2) == 0x1_0000);
}

/// The canonical 8-byte little-endian key form of a sequence number.
pub open spec fn spec_seq_key(n: u64) -> Seq<u8> {
    le_bytes(n as nat, 8)
}

/// Encodes a u64 as its 8 little-endian bytes.
pub fn encode_u64_le(n: u64) -> (r: Vec<u8>)
    ensures
        r@ == le_bytes(n as nat, 8),
        r@.len() == 8,
{
    let mut r: Vec<u8> = Vec::new();
    let mut m: u64 = n;
    let mut i: usize = 0;
    while i < 8
        invariant
            0 <= i <= 8,
            r@ =~= le_bytes(n as nat, i as nat),
            r@.len() == i,
            m == spec_shift_down(n as nat, i as nat),
        decreases 8 - i,
    {
        proof {
            lemma_le_snoc(n as nat, i as nat);
            lemma_le_bytes_len(n as nat, (i + 1) as nat);
        }
        r.push((m % 256) as u8);
        m = m / 256;
        i = i + 1;
    }
    r
}

/// `n` with its low `i` bytes shifted away.
pub open spec fn spec_shift_down(n: nat, i: nat) -> nat
    decreases i,
{
    if i == 0 {
        n
    } else {
        spec_shift_down(n, (i - 1) as nat) / 256
    }
}

proof fn lemma_shift_down_div(n: nat, i: nat)
    ensures
        spec_shift_down(n / 256, i) == spec_shift_down(n, i + 1),
    decreases i,
{
    if i == 0 {
        assert(spec_shift_down(n, 1) == spec_shift_down(n, 0) / 256);
    } else {
        lemma_shift_down_div(n, (i - 1) as nat);
        assert(spec_shift_down(n / 256, i) == spec_shift_down(n / 256, (i - 1) as nat) / 256);
        assert(spec_shift_down(n, i + 1) == spec_shift_down(n, i) / 256);
    }
}

proof fn lemma_le_snoc(n: nat, i: nat)
    ensures
        le_bytes(n, (i + 1) as nat) =~= le_bytes(n, i) + seq![(spec_shift_down(n, i) % 256) as u8],
    decreases i,
{
    if i == 0 {
        assert(le_bytes(n, 1) =~= seq![(n % 256) as u8] + le_bytes(n / 256, 0));
    } else {
        lemma_le_snoc(n / 256, (i - 1) as nat);
        lemma_shift_down_div(n, (i - 1) as nat);
        assert(le_bytes(n, (i + 1) as nat) =~= seq![(n % 256) as u8] + le_bytes(
            n / 256,
            i as nat,
        ));
        assert(le_bytes(n, i) =~= seq![(n % 256) as u8] + le_bytes(n / 256, (i - 1) as nat));
    }
}

/// Decodes 8 little-endian bytes at `at`; fails only when fewer than 8
/// bytes remain.
pub fn decode_u64_le(bytes: &Vec<u8>, at: usize) -> (r: Result<(u64, usize), DecodeError>)
    ensures
        at + 8 <= bytes@.len() ==> (r matches Ok((n, next)) && next == at + 8 && le_bytes(
            n as nat,
            8,
        ) == bytes@.subrange(at as int, at + 8)),
        at + 8 > bytes@.len() ==> (r matches Err(e) && e == DecodeError::Truncated),
{
    if bytes.len() < 8 || at > bytes.len() - 8 {
        return Err(DecodeError::Truncated);
    }
    let end: usize = at + 8;
    let s = bytes.as_slice();
    let mut n: u64 = 0;
    let mut i: usize = 8;
    while i > 0
        invariant
            0 <= i <= 8,
            end == at + 8,
            at + 8 <= bytes@.len(),
            s@ == bytes@,
            n as nat == le_val(bytes@.subrange(at + i, at + 8)),
            n < pow256((8 - i) as nat),
        decreases i,
    {
        i = i - 1;
        let b = s[at + i];
        proof {
            let whole = bytes@.subrange(at + i, at + 8);
            assert(whole.skip(1) =~= bytes@.subrange(at + i + 1, at + 8));
            assert(whole[0] == b);
            lemma_pow256_u64();
            assert(pow256((8 - i) as nat) <= pow256(8)) by {
                lemma_pow256_monotone((8 - i) as nat, 8);
            }
            assert(b as nat + 256 * (n as nat) < pow256((8 - i) as nat)) by (nonlinear_arith)
                requires
                    (n as nat) < pow256((8 - i - 1) as nat),
                    0 <= b < 256,
                    pow256((8 - i) as nat) == 256 * pow256((8 - i - 1) as nat),
            ;
        }
        n = b as u64 + 256 * n;
    }
    proof {
        let whole = bytes@.subrange(at as int, at + 8);
        lemma_le_bytes_of_val(whole);
    }
    Ok((n, at + 8))
}

pub proof fn lemma_pow256_monotone(a: nat, b: nat)
    requires
        a <= b,
    ensures
        pow256(a) <= pow256(b),
    decreases b,
{
    if a < b {
        lemma_pow256_monotone(a, (b - 1) as nat);
        assert(pow256(b) == 256 * pow256((b - 1) as nat));
        assert(pow256((b - 1) as nat) <= 256 * pow256((b - 1) as nat)) by (nonlinear_arith)
            requires pow256((b - 1) as nat) >= 0,
        ;
    }
}

/// Encodes a u16 as its 2 little-endian bytes.
pub fn encode_u16_le(n: u16) -> (r: Vec<u8>)
    ensures
        r@ == le_bytes(n as nat, 2),
        r@.len() == 2,
{
    let lo = (n % 256) as u8;
    let hi = (n / 256) as u8;
    let mut r: Vec<u8> = Vec::new();
    r.push(lo);
    r.push(hi);
    proof {
        assert(le_bytes(n as nat, 2) =~= seq![(n as nat % 256) as u8] + le_bytes(
            n as nat / 256,
            1,
        ));
        assert(le_bytes(n as nat / 256, 1) =~= seq![(n as nat / 256 % 256) as u8] + le_bytes(
            n as nat / 256 / 256,
            0,
        ));
        assert(r@ =~= le_bytes(n as nat, 2));
    }
    r
}

// ---------------------------------------------------------------------
// ULEB128 length prefixes
// ---------------------------------------------------------------------

/// The canonical ULEB128 form of `n`: seven value bits per byte, low
/// bits first, the high bit marking continuation.
pub open spec fn uleb(n: nat) -> Seq<u8>
    decreases n,
{
    if n < 0x80 {
        seq![n as u8]
    } else {
        seq![((n % 0x80) + 0x80) as u8] + uleb(n / 0x80)
    }
}

/// Parses a canonical ULEB128 value from the front of `s`: the value
/// and the count of bytes consumed. Rejects a continuation whose
/// remaining value is zero, so every value has exactly one accepted
/// form.
pub open spec fn uleb_parse(s: Seq<u8>) -> Option<(nat, int)>
    decreases s.len(),
{
    if s.len() == 0 {
        None
    } else if s[0] < 0x80 {
        Some((s[0] as nat, 1))
    } else {
        match uleb_parse(s.skip(1)) {
            None => None,
            Some((v, c)) => if v == 0 {
                None
            } else {
                Some(((s[0] - 0x80) as nat + 0x80 * v, c + 1))
            },
        }
    }
}

/// A canonical ULEB128 encoding parses back to its value, whatever
/// follows it.
pub proof fn lemma_uleb_parse_enc(n: nat, rest: Seq<u8>)
    ensures
        uleb_parse(uleb(n) + rest) == Some((n, uleb(n).len() as int)),
    decreases n,
{
    let s = uleb(n) + rest;
    if n < 0x80 {
        assert(s[0] == n as u8);
    } else {
        lemma_uleb_parse_enc(n / 0x80, rest);
        assert(s.skip(1) =~= uleb(n / 0x80) + rest);
        assert(s[0] == ((n % 0x80) + 0x80) as u8);
        assert(n / 0x80 >= 1);
        assert((s[0] - 0x80) as nat + 0x80 * (n / 0x80) == n) by (nonlinear_arith)
            requires
                s[0] == ((n % 0x80) + 0x80) as u8,
                n >= 0x80,
        ;
    }
}

/// A parsed ULEB128 value of `j` continuation bytes is at least
/// `0x80^j`; five or more continuation bytes exceed `u32::MAX`.
pub proof fn lemma_uleb_parse_lower_bound(s: Seq<u8>)
    ensures
        uleb_parse(s) matches Some((v, c)) ==> c >= 1 && v >= 0 && (c >= 2 ==> v >= pow128(
            (c - 1) as nat,
        )),
    decreases s.len(),
{
    if s.len() == 0 {
    } else if s[0] < 0x80 {
    } else {
        lemma_uleb_parse_lower_bound(s.skip(1));
        if uleb_parse(s) is Some {
            let (v, c) = uleb_parse(s)->Some_0;
            let (v2, c2) = uleb_parse(s.skip(1))->Some_0;
            assert(v2 >= 1);
            if c2 >= 2 {
                assert(v2 >= pow128((c2 - 1) as nat));
            }
            assert(v >= 0x80 * v2) by (nonlinear_arith)
                requires
                    v == (s[0] - 0x80) as nat + 0x80 * v2,
                    v2 >= 0,
            ;
            assert(0x80 * v2 >= 0x80 * pow128((c - 2) as nat)) by (nonlinear_arith)
                requires
                    v2 >= pow128((c - 2) as nat) || (c - 2 == 0 && v2 >= 1),
                    pow128(0) == 1,
            ;
        }
    }
}

/// 128 to the power `k`.
pub open spec fn pow128(k: nat) -> nat
    decreases k,
{
    if k == 0 {
        1
    } else {
        128 * pow128((k - 1) as nat)
    }
}

/// Decodes a canonical ULEB128 length at `at`. Succeeds exactly when a
/// canonical encoding of a value at most `u32::MAX` starts there.
pub fn decode_uleb(bytes: &Vec<u8>, at: usize) -> (r: Result<(u64, usize), DecodeError>)
    requires
        at <= bytes@.len(),
    ensures
        match uleb_parse(bytes@.skip(at as int)) {
            Some((v, c)) => if v <= 0xffff_ffff {
                r matches Ok(p) && p.0 == v && p.1 == at + c
            } else {
                r is Err
            },
            None => r is Err,
        },
        r matches Ok(p) ==> at < p.1 <= bytes@.len(),
{
    let ghost s0 = bytes@.skip(at as int);
    let mut pos: usize = at;
    let mut acc: u64 = 0;
    let mut mult: u64 = 1;
    let mut j: u64 = 0;
    loop
        invariant
            at <= pos <= bytes@.len(),
            j == pos - at,
            j <= 5,
            mult == pow128(j as nat),
            acc < pow128(j as nat),
            s0 == bytes@.skip(at as int),
            // how a parse of the remaining suffix determines the parse of the whole
            (match uleb_parse(bytes@.skip(pos as int)) {
                Some((v, c)) => if v >= 1 || j == 0 {
                    uleb_parse(s0) == Some(((acc + mult * v) as nat, (j + c) as int))
                } else {
                    uleb_parse(s0) is None
                },
                None => uleb_parse(s0) is None,
            }),
        decreases bytes@.len() - pos,
    {
        proof {
            lemma_pow128_values();
        }
        if pos >= bytes.len() {
            assert(uleb_parse(bytes@.skip(pos as int)) is None);
            return Err(DecodeError::Truncated);
        }
        let b = bytes[pos];
        proof {
            let suf = bytes@.skip(pos as int);
            assert(suf.len() > 0 && suf[0] == b);
            assert(suf.skip(1) =~= bytes@.skip(pos + 1));
        }
        if b < 0x80 {
            // terminator byte
            proof {
                let suf = bytes@.skip(pos as int);
                assert(uleb_parse(suf) == Some((b as nat, 1int)));
            }
            if j > 0 && b == 0 {
                return Err(DecodeError::NonCanonicalLength);
            }
            let ghost v_whole = (acc + mult * b) as nat;
            proof {
                assert((acc as nat) + (mult as nat) * (b as nat) < pow128((j + 1) as nat))
                    by (nonlinear_arith)
                    requires
                        (acc as nat) < pow128(j as nat),
                        (mult as nat) == pow128(j as nat),
                        (b as nat) < 0x80,
                        pow128((j + 1) as nat) == 128 * pow128(j as nat),
                ;
                lemma_pow128_values();
            }
            let value = acc + mult * (b as u64);
            if value > 0xffff_ffff {
                return Err(DecodeError::LengthOverflow);
            }
            return Ok((value, pos + 1));
        }
        // continuation byte
        if j == 5 {
            // five continuation bytes put any remaining value beyond u32
            proof {
                lemma_uleb_parse_lower_bound(bytes@.skip(pos as int));
                if uleb_parse(s0) is Some {
                    let (v, c) = uleb_parse(s0)->Some_0;
                    let (v2, c2) = uleb_parse(bytes@.skip(pos as int))->Some_0;
                    assert(v == acc + mult * v2);
                    assert(v2 >= 1);
                    assert(v >= pow128(5)) by (nonlinear_arith)
                        requires
                            v == acc + mult * v2,
                            v2 >= 1,
                            mult == pow128(5),
                            acc >= 0,
                    ;
                    lemma_pow128_values();
                }
            }
            return Err(DecodeError::LengthOverflow);
        }
        proof {
            let suf = bytes@.skip(pos as int);
            let suf2 = bytes@.skip(pos + 1);
            // relate a parse of suf2 to a parse of suf, then to the whole
            if uleb_parse(suf2) is Some {
                let (v2, c2) = uleb_parse(suf2)->Some_0;
                if v2 >= 1 {
                    assert(uleb_parse(suf) == Some(
                        (((b - 0x80) as nat + 0x80 * v2) as nat, c2 + 1),
                    ));
                    assert((acc as nat) + (mult as nat) * ((b - 0x80) as nat + 0x80 * v2) == (acc
                        as nat + mult as nat * ((b - 0x80) as nat)) + (mult as nat * 0x80) * v2)
                        by (nonlinear_arith)
                    ;
                } else {
                    assert(uleb_parse(suf) is None);
                }
            } else {
                assert(uleb_parse(suf) is None);
            }
            assert((acc as nat) + (mult as nat) * ((b - 0x80) as nat) < pow128((j + 1) as nat))
                by (nonlinear_arith)
                requires
                    (acc as nat) < pow128(j as nat),
                    (mult as nat) == pow128(j as nat),
                    ((b - 0x80) as nat) < 0x80,
                    pow128((j + 1) as nat) == 128 * pow128(j as nat),
            ;
            lemma_pow128_values();
        }
        acc = acc + mult * (b - 0x80) as u64;
        mult = mult * 0x80;
        j = j + 1;
        pos = pos + 1;
    }
}

proof fn lemma_pow128_values()
    ensures
        pow128(0) == 1,
        pow128(1) == 0x80,
        pow128(2) == 0x4000,
        pow128(3) == 0x20_0000,
        pow128(4) == 0x1000_0000,
        pow128(5) == 0x8_0000_0000,
        pow128(6) == 0x400_0000_0000,
{
    reveal_with_fuel(pow128, 7);
}

/// Encodes a length as canonical ULEB128.
pub fn encode_uleb(n: u64) -> (r: Vec<u8>)
    ensures
        r@ == uleb(n as nat),
{
    let mut r: Vec<u8> = Vec::new();
    let mut m: u64 = n;
    while m >= 0x80
        invariant
            uleb(n as nat) =~= r@ + uleb(m as nat),
        decreases m,
    {
        assert(uleb(m as nat) =~= seq![(((m as nat) % 0x80) + 0x80) as u8] + uleb(
            (m as nat) / 0x80,
        ));
        r.push((m % 0x80 + 0x80) as u8);
        m = m / 0x80;
    }
    assert(uleb(m as nat) =~= seq![m as u8]);
    r.push(m as u8);
    assert(r@ =~= uleb(n as nat));
    r
}

// ---------------------------------------------------------------------
// Fields: byte strings, lists, booleans, options, addresses
// ---------------------------------------------------------------------

/// Appends every byte of `src` to `dst`.
pub fn push_all(dst: &mut Vec<u8>, src: &Vec<u8>)
    ensures
        final(dst)@ == old(dst)@ + src@,
{
    let mut i: usize = 0;
    while i < src.len()
        invariant
            0 <= i <= src@.len(),
            dst@ =~= old(dst)@ + src@.subrange(0, i as int),
        decreases src@.len() - i,
    {
        dst.push(src[i]);
        proof {
            assert(src@.subrange(0, i + 1) =~= src@.subrange(0, i as int) + seq![src@[i as int]]);
        }
        i = i + 1;
    }
    proof {
        assert(src@.subrange(0, src@.len() as int) =~= src@);
    }
}

/// Wire form of a byte string: canonical length prefix, then the bytes.
pub open spec fn bytes_enc(b: Seq<u8>) -> Seq<u8> {
    uleb(b.len()) + b
}

/// Parses a byte string from the front of `s`.
pub open spec fn bytes_parse(s: Seq<u8>) -> Option<(Seq<u8>, int)> {
    match uleb_parse(s) {
        None => None,
        Some((n, c)) => if n > MAX_SEQUENCE_LENGTH as nat || c + n > s.len() {
            None
        } else {
            Some((s.subrange(c, c + n as int), c + n))
        },
    }
}

pub proof fn lemma_bytes_parse_enc(b: Seq<u8>, rest: Seq<u8>)
    requires
        b.len() <= MAX_SEQUENCE_LENGTH,
    ensures
        bytes_parse(bytes_enc(b) + rest) == Some((b, bytes_enc(b).len() as int)),
{
    let s = bytes_enc(b) + rest;
    assert(s =~= uleb(b.len()) + (b + rest));
    lemma_uleb_parse_enc(b.len(), b + rest);
    let c = uleb(b.len()).len() as int;
    assert(s.subrange(c, c + b.len() as int) =~= b);
}

/// Decodes a length-prefixed byte string at `at`.
pub fn decode_bytes_field(bytes: &Vec<u8>, at: usize) -> (r: Result<(Vec<u8>, usize), DecodeError>)
    requires
        at <= bytes@.len(),
    ensures
        match bytes_parse(bytes@.skip(at as int)) {
            Some((b, c)) => r matches Ok(p) && p.0@ == b && p.1 == at + c,
            None => r is Err,
        },
        r matches Ok(p) ==> at < p.1 <= bytes@.len(),
{
    let (n, pos) = match decode_uleb(bytes, at) {
        Ok(p) => p,
        Err(e) => {
            return Err(e);
        },
    };
    if n > MAX_SEQUENCE_LENGTH {
        return Err(DecodeError::LengthOverflow);
    }
    let len = bytes.len();
    if n > (len - pos) as u64 {
        proof {
            let s = bytes@.skip(at as int);
            let (v, c) = uleb_parse(s)->Some_0;
            assert(c + v > s.len());
        }
        return Err(DecodeError::Truncated);
    }
    let n_us = n as usize;
    let mut out: Vec<u8> = Vec::new();
    let mut i: usize = 0;
    while i < n_us
        invariant
            0 <= i <= n_us,
            pos + n_us <= bytes@.len(),
            bytes@.len() == len,
            out@ =~= bytes@.subrange(pos as int, pos + i),
        decreases n_us - i,
    {
        out.push(bytes[pos + i]);
        proof {
            assert(bytes@.subrange(pos as int, pos + i + 1) =~= bytes@.subrange(
                pos as int,
                pos + i,
            ) + seq![bytes@[pos + i]]);
        }
        i = i + 1;
    }
    proof {
        let s = bytes@.skip(at as int);
        let (v, c) = uleb_parse(s)->Some_0;
        assert(c == pos - at && v == n_us);
        assert(c + v <= s.len());
        assert(s.subrange(c, c + v as int) =~= bytes@.subrange(pos as int, pos + n_us));
    }
    Ok((out, pos + n_us))
}

/// Encodes a byte string with its canonical length prefix.
pub fn encode_bytes_field(b: &Vec<u8>) -> (r: Vec<u8>)
    ensures
        r@ == bytes_enc(b@),
{
    let mut r = encode_uleb(b.len() as u64);
    push_all(&mut r, b);
    r
}

/// Wire form of a list of byte strings.
pub open spec fn bytes_list_items_enc(l: Seq<Seq<u8>>) -> Seq<u8>
    decreases l.len(),
{
    if l.len() == 0 {
        Seq::empty()
    } else {
        bytes_enc(l[0]) + bytes_list_items_enc(l.skip(1))
    }
}

pub open spec fn bytes_list_enc(l: Seq<Seq<u8>>) -> Seq<u8> {
    uleb(l.len()) + bytes_list_items_enc(l)
}

/// Parses exactly `count` byte strings from the front of `s`.
pub open spec fn bytes_list_items_parse(s: Seq<u8>, count: nat) -> Option<(Seq<Seq<u8>>, int)>
    decreases count,
{
    if count == 0 {
        Some((Seq::empty(), 0))
    } else {
        match bytes_parse(s) {
            None => None,
            Some((b, c)) => match bytes_list_items_parse(s.skip(c), (count - 1) as nat) {
                None => None,
                Some((l, c2)) => Some((seq![b] + l, c + c2)),
            },
        }
    }
}

/// Parses a length-prefixed list of byte strings.
pub open spec fn bytes_list_parse(s: Seq<u8>) -> Option<(Seq<Seq<u8>>, int)> {
    match uleb_parse(s) {
        None => None,
        Some((n, c)) => if n > MAX_SEQUENCE_LENGTH as nat {
            None
        } else {
            match bytes_list_items_parse(s.skip(c), n) {
                None => None,
                Some((l, c2)) => Some((l, c + c2)),
            }
        },
    }
}

/// Every byte string of `l` is within the length limit.
pub open spec fn bytes_list_ok(l: Seq<Seq<u8>>) -> bool {
    &&& l.len() <= MAX_SEQUENCE_LENGTH
    &&& forall|i: int| 0 <= i < l.len() ==> (#[trigger] l[i]).len() <= MAX_SEQUENCE_LENGTH
}

pub proof fn lemma_bytes_list_items_parse_enc(l: Seq<Seq<u8>>, rest: Seq<u8>)
    requires
        forall|i: int| 0 <= i < l.len() ==> (#[trigger] l[i]).len() <= MAX_SEQUENCE_LENGTH,
    ensures
        bytes_list_items_parse(bytes_list_items_enc(l) + rest, l.len()) == Some(
            (l, bytes_list_items_enc(l).len() as int),
        ),
    decreases l.len(),
{
    if l.len() == 0 {
        assert(bytes_list_items_enc(l) + rest =~= rest);
        assert(l =~= Seq::<Seq<u8>>::empty());
    } else {
        let s = bytes_list_items_enc(l) + rest;
        let tail_enc = bytes_list_items_enc(l.skip(1));
        assert(s =~= bytes_enc(l[0]) + (tail_enc + rest));
        lemma_bytes_parse_enc(l[0], tail_enc + rest);
        let c = bytes_enc(l[0]).len() as int;
        assert(s.skip(c) =~= tail_enc + rest);
        assert(forall|i: int|
            0 <= i < l.skip(1).len() ==> (#[trigger] l.skip(1)[i]).len()
                <= MAX_SEQUENCE_LENGTH);
        lemma_bytes_list_items_parse_enc(l.skip(1), rest);
        assert(seq![l[0]] + l.skip(1) =~= l);
    }
}

pub proof fn lemma_bytes_list_parse_enc(l: Seq<Seq<u8>>, rest: Seq<u8>)
    requires
        bytes_list_ok(l),
    ensures
        bytes_list_parse(bytes_list_enc(l) + rest) == Some((l, bytes_list_enc(l).len() as int)),
{
    let s = bytes_list_enc(l) + rest;
    assert(s =~= uleb(l.len()) + (bytes_list_items_enc(l) + rest));
    lemma_uleb_parse_enc(l.len(), bytes_list_items_enc(l) + rest);
    let c = uleb(l.len()).len() as int;
    assert(s.skip(c) =~= bytes_list_items_enc(l) + rest);
    lemma_bytes_list_items_parse_enc(l, rest);
}

/// Decodes a length-prefixed list of byte strings at `at`.
pub fn decode_bytes_list(bytes: &Vec<u8>, at: usize) -> (r: Result<
    (Vec<Vec<u8>>, usize),
    DecodeError,
>)
    requires
        at <= bytes@.len(),
    ensures
        match bytes_list_parse(bytes@.skip(at as int)) {
            Some((l, c)) => r matches Ok(p) && p.0.deep_view() == l && p.1 == at + c,
            None => r is Err,
        },
        r matches Ok(p) ==> at < p.1 <= bytes@.len(),
{
    let ghost s0 = bytes@.skip(at as int);
    let (n, start) = match decode_uleb(bytes, at) {
        Ok(p) => p,
        Err(e) => {
            return Err(e);
        },
    };
    if n > MAX_SEQUENCE_LENGTH {
        return Err(DecodeError::LengthOverflow);
    }
    let n_us = n as usize;
    let ghost c0 = start - at;
    let mut out: Vec<Vec<u8>> = Vec::new();
    let mut pos: usize = start;
    let mut i: usize = 0;
    while i < n_us
        invariant
            0 <= i <= n_us,
            at <= start <= pos <= bytes@.len(),
            s0 == bytes@.skip(at as int),
            c0 == start - at,
            uleb_parse(s0) == Some((n_us as nat, c0 as int)),
            n_us <= MAX_SEQUENCE_LENGTH,
            out@.len() == i,
            (match bytes_list_items_parse(bytes@.skip(pos as int), (n_us - i) as nat) {
                Some((l, c)) => bytes_list_items_parse(bytes@.skip(start as int), n_us as nat)
                    == Some((out.deep_view() + l, (pos - start) + c)),
                None => bytes_list_items_parse(bytes@.skip(start as int), n_us as nat) is None,
            }),
        decreases n_us - i,
    {
        let ghost pos0 = pos;
        let (item, next) = match decode_bytes_field(bytes, pos) {
            Ok(p) => p,
            Err(e) => {
                proof {
                    assert(bytes_parse(bytes@.skip(pos as int)) is None);
                    assert(bytes_list_items_parse(bytes@.skip(pos as int), (n_us - i) as nat)
                        is None);
                    assert(s0.skip(c0 as int) =~= bytes@.skip(start as int));
                }
                return Err(e);
            },
        };
        proof {
            let suf = bytes@.skip(pos0 as int);
            let (b, c) = bytes_parse(suf)->Some_0;
            assert(suf.skip(c) =~= bytes@.skip(pos0 + c));
        }
        let ghost dprev = out.deep_view();
        out.push(item);
        pos = next;
        i = i + 1;
        proof {
            let suf_prev = bytes@.skip(pos0 as int);
            let (b, c) = bytes_parse(suf_prev)->Some_0;
            assert(item.deep_view() =~= b);
            assert(out.deep_view() =~= dprev.push(b));
            if bytes_list_items_parse(bytes@.skip(pos as int), (n_us - i) as nat) is Some {
                let (l, c2) = bytes_list_items_parse(bytes@.skip(pos as int), (n_us - i) as nat)
                    ->Some_0;
                assert(bytes_list_items_parse(suf_prev, (n_us - i + 1) as nat) == Some(
                    (seq![b] + l, c + c2),
                ));
                assert(out.deep_view() + l =~= dprev + (seq![b] + l));
            } else {
                assert(bytes_list_items_parse(suf_prev, (n_us - i + 1) as nat) is None);
            }
        }
    }
    proof {
        assert(bytes_list_items_parse(bytes@.skip(pos as int), 0) == Some(
            (Seq::<Seq<u8>>::empty(), 0int),
        ));
        assert(out.deep_view() + Seq::<Seq<u8>>::empty() =~= out.deep_view());
        assert(s0.skip(c0 as int) =~= bytes@.skip(start as int));
    }
    Ok((out, pos))
}

/// Encodes a list of byte strings.
pub fn encode_bytes_list(l: &Vec<Vec<u8>>) -> (r: Vec<u8>)
    ensures
        r@ == bytes_list_enc(l.deep_view()),
{
    let mut r = encode_uleb(l.len() as u64);
    let ghost lv = l.deep_view();
    let mut i: usize = 0;
    while i < l.len()
        invariant
            0 <= i <= l@.len(),
            lv == l.deep_view(),
            lv.len() == l@.len(),
            r@ =~= uleb(lv.len()) + bytes_list_items_enc(lv.subrange(0, i as int)),
        decreases l@.len() - i,
    {
        let item = encode_bytes_field(&l[i]);
        push_all(&mut r, &item);
        proof {
            lemma_bytes_list_items_enc_snoc(lv.subrange(0, i as int), lv[i as int]);
            assert(lv.subrange(0, i + 1) =~= lv.subrange(0, i as int).push(lv[i as int]));
            assert(lv[i as int] == l@[i as int]@);
        }
        i = i + 1;
    }
    proof {
        assert(lv.subrange(0, lv.len() as int) =~= lv);
    }
    r
}

pub proof fn lemma_bytes_list_items_enc_snoc(l: Seq<Seq<u8>>, b: Seq<u8>)
    ensures
        bytes_list_items_enc(l.push(b)) =~= bytes_list_items_enc(l) + bytes_enc(b),
    decreases l.len(),
{
    if l.len() == 0 {
        let s1 = l.push(b);
        assert(s1[0] == b);
        assert(s1.skip(1) =~= Seq::<Seq<u8>>::empty());
        assert(bytes_list_items_enc(s1.skip(1)) =~= Seq::<u8>::empty());
        assert(bytes_list_items_enc(s1) =~= bytes_enc(s1[0]) + bytes_list_items_enc(s1.skip(1)));
        assert(bytes_list_items_enc(l) =~= Seq::<u8>::empty());
    } else {
        assert(l.push(b).skip(1) =~= l.skip(1).push(b));
        lemma_bytes_list_items_enc_snoc(l.skip(1), b);
        assert(l.push(b)[0] =~= l[0]);
    }
}

/// Wire form of a boolean: one byte, 0 or 1.
pub open spec fn bool_enc(b: bool) -> Seq<u8> {
    if b {
        seq![1u8]
    } else {
        seq![0u8]
    }
}

pub open spec fn bool_parse(s: Seq<u8>) -> Option<(bool, int)> {
    if s.len() == 0 {
        None
    } else if s[0] == 0 {
        Some((false, 1))
    } else if s[0] == 1 {
        Some((true, 1))
    } else {
        None
    }
}

/// Wire form of an optional boolean: a 0 tag, or a 1 tag and the value.
pub open spec fn opt_bool_enc(v: Option<bool>) -> Seq<u8> {
    match v {
        None => seq![0u8],
        Some(b) => seq![1u8] + bool_enc(b),
    }
}

pub open spec fn opt_bool_parse(s: Seq<u8>) -> Option<(Option<bool>, int)> {
    if s.len() == 0 {
        None
    } else if s[0] == 0 {
        Some((None, 1))
    } else if s[0] == 1 {
        match bool_parse(s.skip(1)) {
            None => None,
            Some((b, c)) => Some((Some(b), c + 1)),
        }
    } else {
        None
    }
}

/// Wire form of an optional byte string.
pub open spec fn opt_bytes_enc(v: Option<Seq<u8>>) -> Seq<u8> {
    match v {
        None => seq![0u8],
        Some(b) => seq![1u8] + bytes_enc(b),
    }
}

pub open spec fn opt_bytes_parse(s: Seq<u8>) -> Option<(Option<Seq<u8>>, int)> {
    if s.len() == 0 {
        None
    } else if s[0] == 0 {
        Some((None, 1))
    } else if s[0] == 1 {
        match bytes_parse(s.skip(1)) {
            None => None,
            Some((b, c)) => Some((Some(b), c + 1)),
        }
    } else {
        None
    }
}

/// Wire form of an account address: its 32 raw bytes, no prefix.
pub open spec fn addr_parse(s: Seq<u8>) -> Option<(Seq<u8>, int)> {
    if s.len() >= 32 {
        Some((s.subrange(0, 32), 32))
    } else {
        None
    }
}

/// Parses a fixed-width little-endian u64 from the front of `s`.
pub open spec fn u64_parse(s: Seq<u8>) -> Option<(nat, int)> {
    if s.len() >= 8 {
        Some((le_val(s.subrange(0, 8)), 8))
    } else {
        None
    }
}

pub proof fn lemma_u64_parse_enc(n: u64, rest: Seq<u8>)
    ensures
        u64_parse(le_bytes(n as nat, 8) + rest) == Some((n as nat, 8int)),
{
    lemma_le_bytes_len(n as nat, 8);
    let s = le_bytes(n as nat, 8) + rest;
    assert(s.subrange(0, 8) =~= le_bytes(n as nat, 8));
    lemma_pow256_u64();
    lemma_le_round_trip(n as nat, 8);
}

pub proof fn lemma_opt_bool_parse_enc(v: Option<bool>, rest: Seq<u8>)
    ensures
        opt_bool_parse(opt_bool_enc(v) + rest) == Some((v, opt_bool_enc(v).len() as int)),
{
    let s = opt_bool_enc(v) + rest;
    match v {
        None => {
            assert(s[0] == 0);
        },
        Some(b) => {
            assert(s[0] == 1);
            assert(s.skip(1) =~= bool_enc(b) + rest);
            assert(bool_parse(bool_enc(b) + rest) == Some((b, 1int)));
        },
    }
}

pub proof fn lemma_opt_bytes_parse_enc(v: Option<Seq<u8>>, rest: Seq<u8>)
    requires
        v matches Some(b) ==> b.len() <= MAX_SEQUENCE_LENGTH,
    ensures
        opt_bytes_parse(opt_bytes_enc(v) + rest) == Some((v, opt_bytes_enc(v).len() as int)),
{
    let s = opt_bytes_enc(v) + rest;
    match v {
        None => {
            assert(s[0] == 0);
        },
        Some(b) => {
            assert(s[0] == 1);
            assert(s.skip(1) =~= bytes_enc(b) + rest);
            lemma_bytes_parse_enc(b, rest);
        },
    }
}

/// Decodes a single boolean byte at `at`.
pub fn decode_bool(bytes: &Vec<u8>, at: usize) -> (r: Result<(bool, usize), DecodeError>)
    requires
        at <= bytes@.len(),
    ensures
        match bool_parse(bytes@.skip(at as int)) {
            Some((b, c)) => r matches Ok(p) && p.0 == b && p.1 == at + c,
            None => r is Err,
        },
        r matches Ok(p) ==> at < p.1 <= bytes@.len(),
{
    if at >= bytes.len() {
        return Err(DecodeError::Truncated);
    }
    let b = bytes[at];
    if b == 0 {
        Ok((false, at + 1))
    } else if b == 1 {
        Ok((true, at + 1))
    } else {
        Err(DecodeError::InvalidBool)
    }
}

/// Decodes an optional boolean at `at`.
pub fn decode_opt_bool(bytes: &Vec<u8>, at: usize) -> (r: Result<
    (Option<bool>, usize),
    DecodeError,
>)
    requires
        at <= bytes@.len(),
    ensures
        match opt_bool_parse(bytes@.skip(at as int)) {
            Some((v, c)) => r matches Ok(p) && p.0 == v && p.1 == at + c,
            None => r is Err,
        },
        r matches Ok(p) ==> at < p.1 <= bytes@.len(),
{
    if at >= bytes.len() {
        return Err(DecodeError::Truncated);
    }
    let tag = bytes[at];
    if tag == 0 {
        Ok((None, at + 1))
    } else if tag == 1 {
        proof {
            assert(bytes@.skip(at as int).skip(1) =~= bytes@.skip(at + 1));
        }
        match decode_bool(bytes, at + 1) {
            Ok((b, next)) => Ok((Some(b), next)),
            Err(e) => Err(e),
        }
    } else {
        Err(DecodeError::InvalidOptionTag)
    }
}

/// Decodes an optional byte string at `at`.
pub fn decode_opt_bytes(bytes: &Vec<u8>, at: usize) -> (r: Result<
    (Option<Vec<u8>>, usize),
    DecodeError,
>)
    requires
        at <= bytes@.len(),
    ensures
        match opt_bytes_parse(bytes@.skip(at as int)) {
            Some((v, c)) => r matches Ok(p) && p.1 == at + c && (match (v, p.0) {
                (Some(b), Some(ob)) => ob@ == b,
                (None, None) => true,
                _ => false,
            }),
            None => r is Err,
        },
        r matches Ok(p) ==> at < p.1 <= bytes@.len(),
{
    if at >= bytes.len() {
        return Err(DecodeError::Truncated);
    }
    let tag = bytes[at];
    if tag == 0 {
        Ok((None, at + 1))
    } else if tag == 1 {
        proof {
            assert(bytes@.skip(at as int).skip(1) =~= bytes@.skip(at + 1));
        }
        match decode_bytes_field(bytes, at + 1) {
            Ok((b, next)) => Ok((Some(b), next)),
            Err(e) => Err(e),
        }
    } else {
        Err(DecodeError::InvalidOptionTag)
    }
}

/// Decodes a 32-byte account address at `at`.
pub fn decode_addr(bytes: &Vec<u8>, at: usize) -> (r: Result<(AccountAddress, usize), DecodeError>)
    requires
        at <= bytes@.len(),
    ensures
        match addr_parse(bytes@.skip(at as int)) {
            Some((a, c)) => r matches Ok(p) && p.0.bytes@ == a && p.1 == at + c && p.0.wf(),
            None => (r matches Err(e) && e == DecodeError::Truncated),
        },
        r matches Ok(p) ==> at < p.1 <= bytes@.len(),
{
    let len = bytes.len();
    if len < 32 || at > len - 32 {
        return Err(DecodeError::Truncated);
    }
    let mut out: Vec<u8> = Vec::new();
    let mut i: usize = 0;
    while i < 32
        invariant
            0 <= i <= 32,
            at + 32 <= bytes@.len(),
            bytes@.len() == len,
            out@ =~= bytes@.subrange(at as int, at + i),
        decreases 32 - i,
    {
        out.push(bytes[at + i]);
        proof {
            assert(bytes@.subrange(at as int, at + i + 1) =~= bytes@.subrange(at as int, at + i)
                + seq![bytes@[at + i]]);
        }
        i = i + 1;
    }
    proof {
        assert(bytes@.skip(at as int).subrange(0, 32) =~= bytes@.subrange(at as int, at + 32));
    }
    Ok((AccountAddress { bytes: out }, at + 32))
}

// ---------------------------------------------------------------------
// Records
// ---------------------------------------------------------------------

/// Wire form of a `Query` record: its fields in declaration order.
pub open spec fn query_enc(q: QueryS) -> Seq<u8> {
    query_head_enc(q) + query_rest_enc(q)
}

/// Wire form of the fixed head of a `Query`: the three identifiers and
/// the deadline.
pub open spec fn query_head_enc(q: QueryS) -> Seq<u8> {
    bytes_enc(q.module_address) + bytes_enc(q.module_name) + bytes_enc(q.function_name)
        + le_bytes(q.deadline as nat, 8)
}

/// Wire form of the tail of a `Query`: arguments, type arguments, and
/// the outcome fields.
pub open spec fn query_rest_enc(q: QueryS) -> Seq<u8> {
    bytes_list_enc(q.args) + bytes_list_enc(q.ty_args) + opt_bool_enc(q.success) + opt_bytes_enc(
        q.result,
    )
}

/// Whether every variable-length field of `q` is within the wire
/// format's length limit, so that `query_enc` is a valid encoding.
pub open spec fn query_enc_ok(q: QueryS) -> bool {
    &&& q.module_address.len() <= MAX_SEQUENCE_LENGTH
    &&& q.module_name.len() <= MAX_SEQUENCE_LENGTH
    &&& q.function_name.len() <= MAX_SEQUENCE_LENGTH
    &&& bytes_list_ok(q.args)
    &&& bytes_list_ok(q.ty_args)
    &&& (q.result matches Some(b) ==> b.len() <= MAX_SEQUENCE_LENGTH)
}

/// Parses the fixed head of a `Query` from the front of `s`.
pub open spec fn query_head_parse(s: Seq<u8>) -> Option<((Seq<u8>, Seq<u8>, Seq<u8>, u64), int)> {
    match bytes_parse(s) {
        None => None,
        Some((ma, c1)) => match bytes_parse(s.skip(c1)) {
            None => None,
            Some((mn, c2)) => match bytes_parse(s.skip(c1 + c2)) {
                None => None,
                Some((fname, c3)) => match u64_parse(s.skip(c1 + c2 + c3)) {
                    None => None,
                    Some((dl, c4)) => Some(((ma, mn, fname, dl as u64), c1 + c2 + c3 + c4)),
                },
            },
        },
    }
}

/// Parses the tail of a `Query` from the front of `s`.
pub open spec fn query_rest_parse(s: Seq<u8>) -> Option<
    ((Seq<Seq<u8>>, Seq<Seq<u8>>, Option<bool>, Option<Seq<u8>>), int),
> {
    match bytes_list_parse(s) {
        None => None,
        Some((args, c5)) => match bytes_list_parse(s.skip(c5)) {
            None => None,
            Some((tys, c6)) => match opt_bool_parse(s.skip(c5 + c6)) {
                None => None,
                Some((suc, c7)) => match opt_bytes_parse(s.skip(c5 + c6 + c7)) {
                    None => None,
                    Some((res, c8)) => Some(((args, tys, suc, res), c5 + c6 + c7 + c8)),
                },
            },
        },
    }
}

/// Parses a `Query` record from the front of `s`.
pub open spec fn query_parse(s: Seq<u8>) -> Option<(QueryS, int)> {
    match query_head_parse(s) {
        None => None,
        Some((h, c)) => match query_rest_parse(s.skip(c)) {
            None => None,
            Some((t, c2)) => Some(
                (
                    QueryS {
                        module_address: h.0,
                        module_name: h.1,
                        function_name: h.2,
                        deadline: h.3,
                        args: t.0,
                        ty_args: t.1,
                        success: t.2,
                        result: t.3,
                    },
                    c + c2,
                ),
            ),
        },
    }
}

/// A valid head encoding parses back to the head fields.
pub proof fn lemma_query_head_parse_enc(q: QueryS, rest: Seq<u8>)
    requires
        q.module_address.len() <= MAX_SEQUENCE_LENGTH,
        q.module_name.len() <= MAX_SEQUENCE_LENGTH,
        q.function_name.len() <= MAX_SEQUENCE_LENGTH,
    ensures
        query_head_parse(query_head_enc(q) + rest) == Some(
            (
                (q.module_address, q.module_name, q.function_name, q.deadline),
                query_head_enc(q).len() as int,
            ),
        ),
{
    let e1 = bytes_enc(q.module_address);
    let e2 = bytes_enc(q.module_name);
    let e3 = bytes_enc(q.function_name);
    let e4 = le_bytes(q.deadline as nat, 8);
    let t4 = e4 + rest;
    let t3 = e3 + t4;
    let t2 = e2 + t3;
    let s = query_head_enc(q) + rest;
    lemma_le_bytes_len(q.deadline as nat, 8);
    assert(s =~= e1 + t2);
    let c1 = e1.len() as int;
    let c2 = e2.len() as int;
    let c3 = e3.len() as int;
    assert(bytes_parse(s) == Some((q.module_address, c1))) by {
        lemma_bytes_parse_enc(q.module_address, t2);
    }
    assert(s.skip(c1) =~= t2);
    assert(bytes_parse(s.skip(c1)) == Some((q.module_name, c2))) by {
        lemma_bytes_parse_enc(q.module_name, t3);
    }
    assert(s.skip(c1 + c2) =~= t3) by {
        assert(s.skip(c1 + c2) =~= s.skip(c1).skip(c2));
    }
    assert(bytes_parse(s.skip(c1 + c2)) == Some((q.function_name, c3))) by {
        lemma_bytes_parse_enc(q.function_name, t4);
    }
    assert(s.skip(c1 + c2 + c3) =~= t4) by {
        assert(s.skip(c1 + c2 + c3) =~= s.skip(c1 + c2).skip(c3));
    }
    assert(u64_parse(s.skip(c1 + c2 + c3)) == Some((q.deadline as nat, 8int))) by {
        lemma_u64_parse_enc(q.deadline, rest);
        assert(s.skip(c1 + c2 + c3) =~= le_bytes(q.deadline as nat, 8) + rest);
    }
}

/// A valid tail encoding parses back to the tail fields.
pub proof fn lemma_query_rest_parse_enc(q: QueryS, rest: Seq<u8>)
    requires
        bytes_list_ok(q.args),
        bytes_list_ok(q.ty_args),
        q.result matches Some(b) ==> b.len() <= MAX_SEQUENCE_LENGTH,
    ensures
        query_rest_parse(query_rest_enc(q) + rest) == Some(
            ((q.args, q.ty_args, q.success, q.result), query_rest_enc(q).len() as int),
        ),
{
    let e5 = bytes_list_enc(q.args);
    let e6 = bytes_list_enc(q.ty_args);
    let e7 = opt_bool_enc(q.success);
    let e8 = opt_bytes_enc(q.result);
    let t8 = e8 + rest;
    let t7 = e7 + t8;
    let t6 = e6 + t7;
    let s = query_rest_enc(q) + rest;
    assert(s =~= e5 + t6);
    let c5 = e5.len() as int;
    let c6 = e6.len() as int;
    let c7 = e7.len() as int;
    assert(bytes_list_parse(s) == Some((q.args, c5))) by {
        lemma_bytes_list_parse_enc(q.args, t6);
    }
    assert(s.skip(c5) =~= t6);
    assert(bytes_list_parse(s.skip(c5)) == Some((q.ty_args, c6))) by {
        lemma_bytes_list_parse_enc(q.ty_args, t7);
    }
    assert(s.skip(c5 + c6) =~= t7) by {
        assert(s.skip(c5 + c6) =~= s.skip(c5).skip(c6));
    }
    assert(opt_bool_parse(s.skip(c5 + c6)) == Some((q.success, c7))) by {
        lemma_opt_bool_parse_enc(q.success, t8);
    }
    assert(s.skip(c5 + c6 + c7) =~= t8) by {
        assert(s.skip(c5 + c6 + c7) =~= s.skip(c5 + c6).skip(c7));
    }
    assert(opt_bytes_parse(s.skip(c5 + c6 + c7)) == Some((q.result, e8.len() as int))) by {
        lemma_opt_bytes_parse_enc(q.result, rest);
    }
}

/// A valid `Query` encoding parses back to the record, whatever
/// follows it.
pub proof fn lemma_query_parse_enc(q: QueryS, rest: Seq<u8>)
    requires
        query_enc_ok(q),
    ensures
        query_parse(query_enc(q) + rest) == Some((q, query_enc(q).len() as int)),
{
    let s = query_enc(q) + rest;
    let he = query_head_enc(q);
    let re = query_rest_enc(q);
    assert(s =~= he + (re + rest));
    lemma_query_head_parse_enc(q, re + rest);
    assert(s.skip(he.len() as int) =~= re + rest);
    lemma_query_rest_parse_enc(q, rest);
    let parsed = query_parse(s)->Some_0.0;
    assert(parsed =~= q);
}

/// Decodes a `Query` table value; the whole input must be one record.
pub fn decode_query_record(bytes: &Vec<u8>) -> (r: Result<Query, DecodeError>)
    ensures
        match query_parse(bytes@) {
            Some((q, c)) => if c == bytes@.len() {
                r matches Ok(out) && out@ == q
            } else {
                (r matches Err(e) && e == DecodeError::TrailingBytes)
            },
            None => r is Err,
        },
{
    proof {
        assert(bytes@.skip(0) =~= bytes@);
    }
    let (q, p) = match decode_query_tail(bytes, 0) {
        Ok(p) => p,
        Err(e) => {
            return Err(e);
        },
    };
    if p != bytes.len() {
        return Err(DecodeError::TrailingBytes);
    }
    Ok(q)
}

/// Encodes a `Query` record.
pub fn encode_query(q: &Query) -> (r: Vec<u8>)
    ensures
        r@ == query_enc(q@),
{
    let mut r = encode_bytes_field(&q.module_address);
    let part = encode_bytes_field(&q.module_name);
    push_all(&mut r, &part);
    let part = encode_bytes_field(&q.function_name);
    push_all(&mut r, &part);
    let part = encode_u64_le(q.deadline);
    push_all(&mut r, &part);
    let part = encode_bytes_list(&q.args);
    push_all(&mut r, &part);
    let part = encode_bytes_list(&q.ty_args);
    push_all(&mut r, &part);
    match q.success {
        None => r.push(0),
        Some(b) => {
            r.push(1);
            r.push(if b {
                1
            } else {
                0
            });
        },
    }
    proof {
        assert(r@ =~= bytes_enc(q@.module_address) + bytes_enc(q@.module_name) + bytes_enc(
            q@.function_name,
        ) + le_bytes(q@.deadline as nat, 8) + bytes_list_enc(q@.args) + bytes_list_enc(
            q@.ty_args,
        ) + opt_bool_enc(q@.success));
    }
    match &q.result {
        None => r.push(0),
        Some(b) => {
            r.push(1);
            let part = encode_bytes_field(b);
            push_all(&mut r, &part);
        },
    }
    proof {
        assert(r@ =~= query_enc(q@));
    }
    r
}

/// Wire form of a `NewQueryEvent` payload: the address, then the id.
pub open spec fn new_query_event_enc(e: NewQueryEventS) -> Seq<u8> {
    e.user + le_bytes(e.id as nat, 8)
}

/// Parses a `NewQueryEvent` payload from the front of `s`.
pub open spec fn new_query_event_parse(s: Seq<u8>) -> Option<(NewQueryEventS, int)> {
    match addr_parse(s) {
        None => None,
        Some((user, c1)) => match u64_parse(s.skip(c1)) {
            None => None,
            Some((id, c2)) => Some((NewQueryEventS { user, id: id as u64 }, c1 + c2)),
        },
    }
}

pub proof fn lemma_new_query_event_parse_enc(e: NewQueryEventS, rest: Seq<u8>)
    requires
        e.user.len() == 32,
    ensures
        new_query_event_parse(new_query_event_enc(e) + rest) == Some(
            (e, new_query_event_enc(e).len() as int),
        ),
{
    let s = new_query_event_enc(e) + rest;
    lemma_le_bytes_len(e.id as nat, 8);
    assert(s.subrange(0, 32) =~= e.user);
    assert(s.skip(32) =~= le_bytes(e.id as nat, 8) + rest);
    lemma_u64_parse_enc(e.id, rest);
    let parsed = new_query_event_parse(s)->Some_0.0;
    assert(parsed =~= e);
}

/// Decodes a `NewQueryEvent` payload; the whole input must be one
/// record.
pub fn decode_new_query_event(bytes: &Vec<u8>) -> (r: Result<NewQueryEvent, DecodeError>)
    ensures
        match new_query_event_parse(bytes@) {
            Some((e, c)) => if c == bytes@.len() {
                r matches Ok(out) && out@ == e && out.user.wf()
            } else {
                (r matches Err(er) && er == DecodeError::TrailingBytes)
            },
            None => r is Err,
        },
{
    proof {
        assert(bytes@.skip(0) =~= bytes@);
    }
    let (user, p1) = match decode_addr(bytes, 0) {
        Ok(p) => p,
        Err(e) => {
            return Err(e);
        },
    };
    proof {
        assert(bytes@.skip(0).skip(p1 as int) =~= bytes@.skip(p1 as int));
    }
    let (id, p2) = match decode_u64_le(bytes, p1) {
        Ok(p) => p,
        Err(e) => {
            proof {
                assert(u64_parse(bytes@.skip(p1 as int)) is None);
            }
            return Err(e);
        },
    };
    proof {
        assert(bytes@.subrange(p1 as int, p1 + 8) =~= bytes@.skip(p1 as int).subrange(0, 8));
        lemma_le_bytes_of_val(bytes@.skip(p1 as int).subrange(0, 8));
        lemma_pow256_u64();
        lemma_le_round_trip(id as nat, 8);
    }
    if p2 != bytes.len() {
        return Err(DecodeError::TrailingBytes);
    }
    let e = NewQueryEvent { user, id };
    proof {
        let (es, c) = new_query_event_parse(bytes@)->Some_0;
        assert(e@ =~= es);
    }
    Ok(e)
}

/// Encodes a `NewQueryEvent` payload.
pub fn encode_new_query_event(e: &NewQueryEvent) -> (r: Vec<u8>)
    ensures
        r@ == new_query_event_enc(e@),
{
    let mut r: Vec<u8> = Vec::new();
    push_all(&mut r, &e.user.bytes);
    let part = encode_u64_le(e.id);
    push_all(&mut r, &part);
    proof {
        assert(r@ =~= new_query_event_enc(e@));
    }
    r
}

/// Wire form of a `Queries` resource: the counter, the table handle's
/// 32 bytes, then the table length.
pub open spec fn queries_enc(v: QueriesS) -> Seq<u8> {
    le_bytes(v.query_counter as nat, 8) + v.handle + le_bytes(v.length as nat, 8)
}

/// Parses a `Queries` resource from the front of `s`.
pub open spec fn queries_parse(s: Seq<u8>) -> Option<(QueriesS, int)> {
    match u64_parse(s) {
        None => None,
        Some((counter, c1)) => match addr_parse(s.skip(c1)) {
            None => None,
            Some((handle, c2)) => match u64_parse(s.skip(c1 + c2)) {
                None => None,
                Some((length, c3)) => Some(
                    (
                        QueriesS {
                            query_counter: counter as u64,
                            handle,
                            length: length as u64,
                        },
                        c1 + c2 + c3,
                    ),
                ),
            },
        },
    }
}

pub proof fn lemma_queries_parse_enc(v: QueriesS, rest: Seq<u8>)
    requires
        v.handle.len() == 32,
    ensures
        queries_parse(queries_enc(v) + rest) == Some((v, queries_enc(v).len() as int)),
{
    let s = queries_enc(v) + rest;
    lemma_le_bytes_len(v.query_counter as nat, 8);
    lemma_le_bytes_len(v.length as nat, 8);
    lemma_u64_parse_enc(v.query_counter, v.handle + (le_bytes(v.length as nat, 8) + rest));
    assert(s =~= le_bytes(v.query_counter as nat, 8) + (v.handle + (le_bytes(
        v.length as nat,
        8,
    ) + rest)));
    assert(s.skip(8) =~= v.handle + (le_bytes(v.length as nat, 8) + rest));
    assert(s.skip(8).subrange(0, 32) =~= v.handle);
    assert(s.skip(8).skip(32) =~= le_bytes(v.length as nat, 8) + rest);
    assert(s.skip(8int + 32) =~= s.skip(8).skip(32));
    lemma_u64_parse_enc(v.length, rest);
    let parsed = queries_parse(s)->Some_0.0;
    assert(parsed =~= v);
}

/// Decodes a `Queries` resource; the whole input must be one record.
pub fn decode_queries_resource(bytes: &Vec<u8>) -> (r: Result<Queries, DecodeError>)
    ensures
        match queries_parse(bytes@) {
            Some((v, c)) => if c == bytes@.len() {
                r matches Ok(out) && out@ == v && out.queries.inner.handle.wf()
            } else {
                (r matches Err(er) && er == DecodeError::TrailingBytes)
            },
            None => r is Err,
        },
{
    proof {
        assert(bytes@.skip(0) =~= bytes@);
    }
    let (query_counter, p1) = match decode_u64_le(bytes, 0) {
        Ok(p) => p,
        Err(e) => {
            proof {
                assert(u64_parse(bytes@) is None);
            }
            return Err(e);
        },
    };
    proof {
        assert(bytes@.subrange(0, 8) =~= bytes@.skip(0).subrange(0, 8));
        lemma_le_bytes_of_val(bytes@.subrange(0, 8));
        lemma_pow256_u64();
        lemma_le_round_trip(query_counter as nat, 8);
        assert(bytes@.skip(0).skip(p1 as int) =~= bytes@.skip(p1 as int));
    }
    let (handle, p2) = match decode_addr(bytes, p1) {
        Ok(p) => p,
        Err(e) => {
            return Err(e);
        },
    };
    proof {
        assert(bytes@.skip(0).skip(p2 as int) =~= bytes@.skip(p2 as int));
    }
    let (length, p3) = match decode_u64_le(bytes, p2) {
        Ok(p) => p,
        Err(e) => {
            proof {
                assert(u64_parse(bytes@.skip(p2 as int)) is None);
            }
            return Err(e);
        },
    };
    proof {
        assert(bytes@.subrange(p2 as int, p2 + 8) =~= bytes@.skip(p2 as int).subrange(0, 8));
        lemma_le_bytes_of_val(bytes@.skip(p2 as int).subrange(0, 8));
        lemma_pow256_u64();
        lemma_le_round_trip(length as nat, 8);
    }
    if p3 != bytes.len() {
        return Err(DecodeError::TrailingBytes);
    }
    let v = Queries {
        query_counter,
        queries: TableWithLength { inner: Table { handle }, length },
    };
    proof {
        let (vs, c) = queries_parse(bytes@)->Some_0;
        assert(v@ =~= vs);
    }
    Ok(v)
}

/// Encodes a `Queries` resource.
pub fn encode_queries_resource(v: &Queries) -> (r: Vec<u8>)
    ensures
        r@ == queries_enc(v@),
{
    let mut r = encode_u64_le(v.query_counter);
    push_all(&mut r, &v.queries.inner.handle.bytes);
    let part = encode_u64_le(v.queries.length);
    push_all(&mut r, &part);
    proof {
        assert(r@ =~= queries_enc(v@));
    }
    r
}

/// Wire form of a `UserQuery` store value: its fields in declaration
/// order, the embedded `Query` last.
pub open spec fn user_query_enc(u: UserQueryS) -> Seq<u8> {
    le_bytes(u.version as nat, 8) + le_bytes(u.sequence_number as nat, 8) + u.user + le_bytes(
        u.id as nat,
        8,
    ) + query_enc(u.query)
}

/// Whether `user_query_enc` is a valid encoding of `u`.
pub open spec fn user_query_enc_ok(u: UserQueryS) -> bool {
    u.user.len() == 32 && query_enc_ok(u.query)
}

/// Parses a `UserQuery` from the front of `s`.
pub open spec fn user_query_parse(s: Seq<u8>) -> Option<(UserQueryS, int)> {
    match u64_parse(s) {
        None => None,
        Some((version, c1)) => match u64_parse(s.skip(c1)) {
            None => None,
            Some((seqno, c2)) => match addr_parse(s.skip(c1 + c2)) {
                None => None,
                Some((user, c3)) => match u64_parse(s.skip(c1 + c2 + c3)) {
                    None => None,
                    Some((id, c4)) => match query_parse(s.skip(c1 + c2 + c3 + c4)) {
                        None => None,
                        Some((query, c5)) => Some(
                            (
                                UserQueryS {
                                    version: version as u64,
                                    sequence_number: seqno as u64,
                                    user,
                                    id: id as u64,
                                    query,
                                },
                                c1 + c2 + c3 + c4 + c5,
                            ),
                        ),
                    },
                },
            },
        },
    }
}

#[verifier::rlimit(100)]
pub proof fn lemma_user_query_parse_enc(u: UserQueryS, rest: Seq<u8>)
    requires
        user_query_enc_ok(u),
    ensures
        user_query_parse(user_query_enc(u) + rest) == Some(
            (u, user_query_enc(u).len() as int),
        ),
{
    let e1 = le_bytes(u.version as nat, 8);
    let e2 = le_bytes(u.sequence_number as nat, 8);
    let e3 = u.user;
    let e4 = le_bytes(u.id as nat, 8);
    let e5 = query_enc(u.query);
    let t5 = e5 + rest;
    let t4 = e4 + t5;
    let t3 = e3 + t4;
    let t2 = e2 + t3;
    let s = user_query_enc(u) + rest;
    lemma_le_bytes_len(u.version as nat, 8);
    lemma_le_bytes_len(u.sequence_number as nat, 8);
    lemma_le_bytes_len(u.id as nat, 8);
    assert(s =~= e1 + t2);
    lemma_u64_parse_enc(u.version, t2);
    assert(s.skip(8) =~= t2);
    lemma_u64_parse_enc(u.sequence_number, t3);
    assert(s.skip(8int + 8) =~= s.skip(8).skip(8));
    assert(s.skip(8int + 8) =~= t3);
    assert(t3.subrange(0, 32) =~= u.user);
    assert(s.skip(8int + 8 + 32) =~= s.skip(8int + 8).skip(32));
    assert(s.skip(8int + 8 + 32) =~= t4);
    lemma_u64_parse_enc(u.id, t5);
    assert(s.skip(8int + 8 + 32 + 8) =~= s.skip(8int + 8 + 32).skip(8));
    assert(s.skip(8int + 8 + 32 + 8) =~= t5);
    lemma_query_parse_enc(u.query, rest);
    let parsed = user_query_parse(s)->Some_0.0;
    assert(parsed =~= u);
}

/// Decodes a `UserQuery` store value; the whole input must be one
/// record.
pub fn decode_user_query(bytes: &Vec<u8>) -> (r: Result<UserQuery, DecodeError>)
    ensures
        match user_query_parse(bytes@) {
            Some((u, c)) => if c == bytes@.len() {
                r matches Ok(out) && out@ == u && out.user.wf()
            } else {
                (r matches Err(er) && er == DecodeError::TrailingBytes)
            },
            None => r is Err,
        },
{
    proof {
        assert(bytes@.skip(0) =~= bytes@);
    }
    let (version, p1) = match decode_u64_le(bytes, 0) {
        Ok(p) => p,
        Err(e) => {
            proof {
                assert(u64_parse(bytes@) is None);
            }
            return Err(e);
        },
    };
    proof {
        assert(bytes@.subrange(0, 8) =~= bytes@.skip(0).subrange(0, 8));
        lemma_le_bytes_of_val(bytes@.subrange(0, 8));
        lemma_pow256_u64();
        lemma_le_round_trip(version as nat, 8);
        assert(bytes@.skip(0).skip(p1 as int) =~= bytes@.skip(p1 as int));
    }
    let (sequence_number, p2) = match decode_u64_le(bytes, p1) {
        Ok(p) => p,
        Err(e) => {
            proof {
                assert(u64_parse(bytes@.skip(p1 as int)) is None);
            }
            return Err(e);
        },
    };
    proof {
        assert(bytes@.subrange(p1 as int, p1 + 8) =~= bytes@.skip(p1 as int).subrange(0, 8));
        lemma_le_bytes_of_val(bytes@.skip(p1 as int).subrange(0, 8));
        lemma_pow256_u64();
        lemma_le_round_trip(sequence_number as nat, 8);
        assert(bytes@.skip(0).skip(p2 as int) =~= bytes@.skip(p2 as int));
    }
    let (user, p3) = match decode_addr(bytes, p2) {
        Ok(p) => p,
        Err(e) => {
            return Err(e);
        },
    };
    proof {
        assert(bytes@.skip(0).skip(p3 as int) =~= bytes@.skip(p3 as int));
    }
    let (id, p4) = match decode_u64_le(bytes, p3) {
        Ok(p) => p,
        Err(e) => {
            proof {
                assert(u64_parse(bytes@.skip(p3 as int)) is None);
            }
            return Err(e);
        },
    };
    proof {
        assert(bytes@.subrange(p3 as int, p3 + 8) =~= bytes@.skip(p3 as int).subrange(0, 8));
        lemma_le_bytes_of_val(bytes@.skip(p3 as int).subrange(0, 8));
        lemma_pow256_u64();
        lemma_le_round_trip(id as nat, 8);
        assert(bytes@.skip(0).skip(p4 as int) =~= bytes@.skip(p4 as int));
    }
    let tail = decode_query_tail(bytes, p4);
    let (query, p5) = match tail {
        Ok(p) => p,
        Err(e) => {
            return Err(e);
        },
    };
    if p5 != bytes.len() {
        return Err(DecodeError::TrailingBytes);
    }
    let u = UserQuery { version, sequence_number, user, id, query };
    proof {
        let (us, c) = user_query_parse(bytes@)->Some_0;
        assert(u@ =~= us);
    }
    Ok(u)
}

/// Decodes a `Query` record starting at `at`, without requiring it to
/// end the input.
#[verifier::rlimit(100)]
pub fn decode_query_tail(bytes: &Vec<u8>, at: usize) -> (r: Result<(Query, usize), DecodeError>)
    requires
        at <= bytes@.len(),
    ensures
        match query_parse(bytes@.skip(at as int)) {
            Some((q, c)) => r matches Ok(p) && p.0@ == q && p.1 == at + c,
            None => r is Err,
        },
        r matches Ok(p) ==> at <= p.1 <= bytes@.len(),
{
    let ghost s = bytes@.skip(at as int);
    let (module_address, p1) = match decode_bytes_field(bytes, at) {
        Ok(p) => p,
        Err(e) => {
            return Err(e);
        },
    };
    proof {
        assert(s.skip(p1 - at) =~= bytes@.skip(p1 as int));
    }
    let (module_name, p2) = match decode_bytes_field(bytes, p1) {
        Ok(p) => p,
        Err(e) => {
            return Err(e);
        },
    };
    proof {
        assert(s.skip(p2 - at) =~= bytes@.skip(p2 as int));
    }
    let (function_name, p3) = match decode_bytes_field(bytes, p2) {
        Ok(p) => p,
        Err(e) => {
            return Err(e);
        },
    };
    proof {
        assert(s.skip(p3 - at) =~= bytes@.skip(p3 as int));
    }
    let (deadline, p4) = match decode_u64_le(bytes, p3) {
        Ok(p) => p,
        Err(e) => {
            proof {
                assert(u64_parse(bytes@.skip(p3 as int)) is None);
            }
            return Err(e);
        },
    };
    let ghost s4 = bytes@.skip(p4 as int);
    proof {
        assert(bytes@.subrange(p3 as int, p3 + 8) =~= bytes@.skip(p3 as int).subrange(0, 8));
        lemma_le_bytes_of_val(bytes@.skip(p3 as int).subrange(0, 8));
        lemma_pow256_u64();
        lemma_le_round_trip(deadline as nat, 8);
        assert(s.skip(p4 - at) =~= s4);
        assert(query_head_parse(s) == Some(
            ((module_address@, module_name@, function_name@, deadline), (p4 - at) as int),
        ));
    }
    let (args, p5) = match decode_bytes_list(bytes, p4) {
        Ok(p) => p,
        Err(e) => {
            return Err(e);
        },
    };
    proof {
        assert(s4.skip(p5 - p4) =~= bytes@.skip(p5 as int));
    }
    let (ty_args, p6) = match decode_bytes_list(bytes, p5) {
        Ok(p) => p,
        Err(e) => {
            return Err(e);
        },
    };
    proof {
        assert(s4.skip(p6 - p4) =~= bytes@.skip(p6 as int));
    }
    let (success, p7) = match decode_opt_bool(bytes, p6) {
        Ok(p) => p,
        Err(e) => {
            return Err(e);
        },
    };
    proof {
        assert(s4.skip(p7 - p4) =~= bytes@.skip(p7 as int));
    }
    let (result, p8) = match decode_opt_bytes(bytes, p7) {
        Ok(p) => p,
        Err(e) => {
            return Err(e);
        },
    };
    let q = Query {
        module_address,
        module_name,
        function_name,
        deadline,
        args,
        ty_args,
        success,
        result,
    };
    proof {
        assert(query_rest_parse(s4) is Some);
        let (qs, c) = query_parse(s)->Some_0;
        assert(q@ =~= qs);
    }
    Ok((q, p8))
}

/// Encodes a `UserQuery` store value.
pub fn encode_user_query(u: &UserQuery) -> (r: Vec<u8>)
    ensures
        r@ == user_query_enc(u@),
{
    let mut r = encode_u64_le(u.version);
    let part = encode_u64_le(u.sequence_number);
    push_all(&mut r, &part);
    push_all(&mut r, &u.user.bytes);
    let part = encode_u64_le(u.id);
    push_all(&mut r, &part);
    let part = encode_query(&u.query);
    push_all(&mut r, &part);
    proof {
        assert(r@ =~= user_query_enc(u@));
    }
    r
}

/// Wire form of a `UserQueryProvingResult` store value.
pub open spec fn proving_result_enc(p: UserQueryProvingResultS) -> Seq<u8> {
    bool_enc(p.success) + bytes_enc(p.result) + bool_enc(p.submitted)
}

/// Parses a `UserQueryProvingResult` from the front of `s`.
pub open spec fn proving_result_parse(s: Seq<u8>) -> Option<(UserQueryProvingResultS, int)> {
    match bool_parse(s) {
        None => None,
        Some((success, c1)) => match bytes_parse(s.skip(c1)) {
            None => None,
            Some((result, c2)) => match bool_parse(s.skip(c1 + c2)) {
                None => None,
                Some((submitted, c3)) => Some(
                    (UserQueryProvingResultS { success, result, submitted }, c1 + c2 + c3),
                ),
            },
        },
    }
}

pub proof fn lemma_proving_result_parse_enc(p: UserQueryProvingResultS, rest: Seq<u8>)
    requires
        p.result.len() <= MAX_SEQUENCE_LENGTH,
    ensures
        proving_result_parse(proving_result_enc(p) + rest) == Some(
            (p, proving_result_enc(p).len() as int),
        ),
{
    let e1 = bool_enc(p.success);
    let e2 = bytes_enc(p.result);
    let e3 = bool_enc(p.submitted);
    let t3 = e3 + rest;
    let t2 = e2 + t3;
    let s = proving_result_enc(p) + rest;
    assert(s =~= e1 + t2);
    assert(s[0] == if p.success { 1u8 } else { 0u8 });
    assert(s.skip(1) =~= t2);
    lemma_bytes_parse_enc(p.result, t3);
    assert(s.skip(1int + e2.len()) =~= s.skip(1).skip(e2.len() as int));
    assert(s.skip(1int + e2.len()) =~= t3);
    assert(t3[0] == if p.submitted { 1u8 } else { 0u8 });
    let parsed = proving_result_parse(s)->Some_0.0;
    assert(parsed =~= p);
}

/// Decodes a `UserQueryProvingResult`; the whole input must be one
/// record.
pub fn decode_proving_result(bytes: &Vec<u8>) -> (r: Result<UserQueryProvingResult, DecodeError>)
    ensures
        match proving_result_parse(bytes@) {
            Some((p, c)) => if c == bytes@.len() {
                r matches Ok(out) && out@ == p
            } else {
                (r matches Err(er) && er == DecodeError::TrailingBytes)
            },
            None => r is Err,
        },
{
    proof {
        assert(bytes@.skip(0) =~= bytes@);
    }
    let (success, p1) = match decode_bool(bytes, 0) {
        Ok(p) => p,
        Err(e) => {
            return Err(e);
        },
    };
    proof {
        assert(bytes@.skip(0).skip(p1 as int) =~= bytes@.skip(p1 as int));
    }
    let (result, p2) = match decode_bytes_field(bytes, p1) {
        Ok(p) => p,
        Err(e) => {
            return Err(e);
        },
    };
    proof {
        assert(bytes@.skip(0).skip(p2 as int) =~= bytes@.skip(p2 as int));
    }
    let (submitted, p3) = match decode_bool(bytes, p2) {
        Ok(p) => p,
        Err(e) => {
            return Err(e);
        },
    };
    if p3 != bytes.len() {
        return Err(DecodeError::TrailingBytes);
    }
    let out = UserQueryProvingResult { success, result, submitted };
    proof {
        let (ps, c) = proving_result_parse(bytes@)->Some_0;
        assert(out@ =~= ps);
    }
    Ok(out)
}

/// Encodes a `UserQueryProvingResult` store value.
pub fn encode_proving_result(p: &UserQueryProvingResult) -> (r: Vec<u8>)
    ensures
        r@ == proving_result_enc(p@),
{
    let mut r: Vec<u8> = Vec::new();
    r.push(if p.success {
        1
    } else {
        0
    });
    let part = encode_bytes_field(&p.result);
    push_all(&mut r, &part);
    r.push(if p.submitted {
        1
    } else {
        0
    });
    proof {
        assert(r@ =~= proving_result_enc(p@));
    }
    r
}

} // verus!
