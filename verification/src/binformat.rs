//! The binary sidecar envelope: the text rendering of the payload,
//! prefixed with its byte length as eight little-endian bytes. This is
//! the layout a length-prefixed string encoder produces, so files written
//! by one can be read back here and the other way round.

use vstd::prelude::*;

verus! {

/// Eight little-endian bytes of a length.
pub open spec fn u64_le(n: int) -> Seq<u8> {
    seq![
        (n % 256) as u8,
        (n / 256 % 256) as u8,
        (n / 65536 % 256) as u8,
        (n / 16777216 % 256) as u8,
        (n / 4294967296 % 256) as u8,
        (n / 1099511627776 % 256) as u8,
        (n / 281474976710656 % 256) as u8,
        (n / 72057594037927936 % 256) as u8,
    ]
}

/// The envelope around a payload.
pub open spec fn bin_wrap(payload: Seq<u8>) -> Seq<u8> {
    u64_le(payload.len() as int) + payload
}

/// The value of eight little-endian bytes.
pub open spec fn u64_le_val(s: Seq<u8>) -> int {
    s[0] + s[1] * 256 + s[2] * 65536 + s[3] * 16777216 + s[4] * 4294967296
        + s[5] * 1099511627776 + s[6] * 281474976710656 + s[7] * 72057594037927936
}

/// The payload inside an envelope, if the length prefix matches the
/// remaining bytes exactly.
pub open spec fn bin_unwrap(s: Seq<u8>) -> Option<Seq<u8>> {
    if s.len() < 8 {
        None
    } else if u64_le_val(s.subrange(0, 8)) == s.len() - 8 {
        Some(s.subrange(8, s.len() as int))
    } else {
        None
    }
}

/// The length prefix reads back to the length it was made from.
proof fn lemma_u64_le_val(n: int)
    requires
        0 <= n < 0x1_0000_0000_0000_0000,
    ensures
        u64_le_val(u64_le(n)) == n,
{
    let s = u64_le(n);
    assert(u64_le_val(s) == n % 256 + (n / 256 % 256) * 256 + (n / 65536 % 256) * 65536 + (n
        / 16777216 % 256) * 16777216 + (n / 4294967296 % 256) * 4294967296 + (n
        / 1099511627776 % 256) * 1099511627776 + (n / 281474976710656 % 256) * 281474976710656
        + (n / 72057594037927936 % 256) * 72057594037927936);
    vstd::arithmetic::div_mod::lemma_fundamental_div_mod(n, 256);
    vstd::arithmetic::div_mod::lemma_fundamental_div_mod(n / 256, 256);
    vstd::arithmetic::div_mod::lemma_fundamental_div_mod(n / 65536, 256);
    vstd::arithmetic::div_mod::lemma_fundamental_div_mod(n / 16777216, 256);
    vstd::arithmetic::div_mod::lemma_fundamental_div_mod(n / 4294967296, 256);
    vstd::arithmetic::div_mod::lemma_fundamental_div_mod(n / 1099511627776, 256);
    vstd::arithmetic::div_mod::lemma_fundamental_div_mod(n / 281474976710656, 256);
    vstd::arithmetic::div_mod::lemma_div_denominator(n, 256, 256);
    vstd::arithmetic::div_mod::lemma_div_denominator(n, 65536, 256);
    vstd::arithmetic::div_mod::lemma_div_denominator(n, 16777216, 256);
    vstd::arithmetic::div_mod::lemma_div_denominator(n, 4294967296, 256);
    vstd::arithmetic::div_mod::lemma_div_denominator(n, 1099511627776, 256);
    vstd::arithmetic::div_mod::lemma_div_denominator(n, 281474976710656, 256);
    assert(n / 72057594037927936 < 256) by {
        vstd::arithmetic::div_mod::lemma_div_is_ordered(n, 0xffff_ffff_ffff_ffff,
            72057594037927936);
    }
    vstd::arithmetic::div_mod::lemma_small_mod((n / 72057594037927936) as nat, 256);
    assert(n / 256 == 256 * (n / 65536) + n / 256 % 256);
    assert(n / 65536 == 256 * (n / 16777216) + n / 65536 % 256);
    assert(n / 16777216 == 256 * (n / 4294967296) + n / 16777216 % 256);
    assert(n / 4294967296 == 256 * (n / 1099511627776) + n / 4294967296 % 256);
    assert(n / 1099511627776 == 256 * (n / 281474976710656) + n / 1099511627776 % 256);
    assert(n / 281474976710656 == 256 * (n / 72057594037927936) + n / 281474976710656 % 256);
}

/// Round trip: unwrapping a wrapped payload gives the payload back.
pub proof fn lemma_bin_round_trip(payload: Seq<u8>)
    requires
        payload.len() < 0x1_0000_0000_0000_0000,
    ensures
        bin_unwrap(bin_wrap(payload)) == Some(payload),
{
    let s = bin_wrap(payload);
    let n = payload.len() as int;
    assert(s.len() == 8 + payload.len());
    assert(s.subrange(0, 8) =~= u64_le(n));
    lemma_u64_le_val(n);
    assert(u64_le_val(s.subrange(0, 8)) == n);
    assert(s.subrange(8, s.len() as int) =~= payload);
}

/// Wraps a payload in the length-prefixed envelope.
pub fn bin_encode(payload: &Vec<u8>) -> (out: Vec<u8>)
    ensures
        out@ == bin_wrap(payload@),
{
    let n = payload.len() as u64;
    let mut out: Vec<u8> = Vec::new();
    out.push((n % 256) as u8);
    out.push((n / 256 % 256) as u8);
    out.push((n / 65536 % 256) as u8);
    out.push((n / 16777216 % 256) as u8);
    out.push((n / 4294967296 % 256) as u8);
    out.push((n / 1099511627776 % 256) as u8);
    out.push((n / 281474976710656 % 256) as u8);
    out.push((n / 72057594037927936 % 256) as u8);
    let mut k: usize = 0;
    while k < payload.len()
        invariant
            k <= payload@.len(),
            out@.len() == 8 + k,
            out@ == u64_le(payload@.len() as int) + payload@.take(k as int),
        decreases payload@.len() - k,
    {
        out.push(payload[k]);
        proof {
            assert(payload@.take(k as int).push(payload@[k as int]) =~= payload@.take(
                k as int + 1));
            assert(out@ =~= u64_le(payload@.len() as int) + payload@.take(k as int + 1));
        }
        k = k + 1;
    }
    proof {
        assert(payload@.take(payload@.len() as int) =~= payload@);
    }
    out
}

/// Opens an envelope; yields nothing exactly when the prefix and the
/// remaining length disagree or the input is shorter than a prefix.
pub fn bin_decode(s: &[u8]) -> (r: Option<Vec<u8>>)
    ensures
        match r {
            Some(p) => bin_unwrap(s@) == Some(p@),
            None => bin_unwrap(s@) is None,
        },
{
    if s.len() < 8 {
        return None;
    }
    let n = (s[0] as u128) + (s[1] as u128) * 256 + (s[2] as u128) * 65536 + (s[3] as u128)
        * 16777216 + (s[4] as u128) * 4294967296 + (s[5] as u128) * 1099511627776
        + (s[6] as u128) * 281474976710656 + (s[7] as u128) * 72057594037927936;
    proof {
        assert(s@.subrange(0, 8)[0] == s@[0]);
        assert(s@.subrange(0, 8)[1] == s@[1]);
        assert(s@.subrange(0, 8)[2] == s@[2]);
        assert(s@.subrange(0, 8)[3] == s@[3]);
        assert(s@.subrange(0, 8)[4] == s@[4]);
        assert(s@.subrange(0, 8)[5] == s@[5]);
        assert(s@.subrange(0, 8)[6] == s@[6]);
        assert(s@.subrange(0, 8)[7] == s@[7]);
        assert(u64_le_val(s@.subrange(0, 8)) == n as int);
    }
    let rest = (s.len() - 8) as u128;
    if n != rest {
        return None;
    }
    let mut out: Vec<u8> = Vec::new();
    let mut k: usize = 8;
    while k < s.len()
        invariant
            8 <= k <= s@.len(),
            out@ == s@.subrange(8, k as int),
        decreases s@.len() - k,
    {
        out.push(s[k]);
        proof {
            assert(s@.subrange(8, k as int).push(s@[k as int]) =~= s@.subrange(8, k as int
                + 1));
        }
        k = k + 1;
    }
    proof {
        assert(u64_le_val(s@.subrange(0, 8)) == s@.len() - 8);
    }
    Some(out)
}

} // verus!
