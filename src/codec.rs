//! Byte-level encodings: little-endian integers and bincode's variable-length
//! integers, as used by the wire format.
use vstd::prelude::*;

verus! {

/// The little-endian value of a byte string (the empty string is 0).
pub open spec fn le_value(s: Seq<u8>) -> nat
    decreases s.len(),
{
    if s.len() == 0 {
        0
    } else {
        s[0] as nat + 256 * le_value(s.drop_first())
    }
}

/// The `k` lowest little-endian bytes of `n`.
pub open spec fn le_bytes(n: nat, k: nat) -> Seq<u8>
    decreases k,
{
    if k == 0 {
        Seq::empty()
    } else {
        seq![(n % 256) as u8] + le_bytes(n / 256, (k - 1) as nat)
    }
}

/// 256 to the power `k`.
pub open spec fn pow256(k: nat) -> nat
    decreases k,
{
    if k == 0 {
        1
    } else {
        256 * pow256((k - 1) as nat)
    }
}

pub proof fn lemma_le_bytes_len(n: nat, k: nat)
    ensures
        le_bytes(n, k).len() == k,
    decreases k,
{
    if k > 0 {
        lemma_le_bytes_len(n / 256, (k - 1) as nat);
    }
}

/// Reading back `k` little-endian bytes gives the number that was written.
pub proof fn lemma_le_round_trip(n: nat, k: nat)
    requires
        n < pow256(k),
    ensures
        le_value(le_bytes(n, k)) == n,
        le_bytes(n, k).len() == k,
    decreases k,
{
    lemma_le_bytes_len(n, k);
    if k > 0 {
        let rest = le_bytes(n / 256, (k - 1) as nat);
        assert(n / 256 < pow256((k - 1) as nat)) by (nonlinear_arith)
            requires
                n < 256 * pow256((k - 1) as nat),
        ;
        lemma_le_round_trip(n / 256, (k - 1) as nat);
        assert((seq![(n % 256) as u8] + rest).drop_first() =~= rest);
        assert(n == n % 256 + 256 * (n / 256)) by (nonlinear_arith);
    }
}

#[verifier::external_type_specification]
#[verifier::external_body]
pub struct ExDecodeError(bincode::error::DecodeError);

/// bincode's variable-length form of an unsigned integer: one byte up to 250,
/// otherwise a marker byte (251, 252, 253) followed by the value in 2, 4 or 8
/// little-endian bytes, the fewest that hold it.
pub open spec fn varint(n: u64) -> Seq<u8> {
    if n <= 250 {
        seq![n as u8]
    } else if n <= 0xffff {
        seq![251u8] + le_bytes(n as nat, 2)
    } else if n <= 0xffff_ffff {
        seq![252u8] + le_bytes(n as nat, 4)
    } else {
        seq![253u8] + le_bytes(n as nat, 8)
    }
}

/// What bincode reads as a variable-length integer at the start of `s`: the
/// value and the number of bytes it takes, or `None` where `s` is too short or
/// starts with a marker that a `u64` cannot have.
pub open spec fn varint_prefix(s: Seq<u8>) -> Option<(u64, nat)> {
    if s.len() == 0 {
        None
    } else if s[0] <= 250 {
        Some((s[0] as u64, 1))
    } else if s[0] == 251 && s.len() >= 3 {
        Some((le_value(s.subrange(1, 3)) as u64, 3))
    } else if s[0] == 252 && s.len() >= 5 {
        Some((le_value(s.subrange(1, 5)) as u64, 5))
    } else if s[0] == 253 && s.len() >= 9 {
        Some((le_value(s.subrange(1, 9)) as u64, 9))
    } else {
        None
    }
}

/// Relies on `bincode::encode_to_vec` with `bincode::config::standard()`
/// (variable-length integers): a `u64` is written as `varint` describes.
/// Writing into a `Vec` does not fail.
#[verifier::external_body]
pub(crate) fn encode_varint(n: u64) -> (r: Vec<u8>)
    ensures
        r@ == varint(n),
{
    match bincode::encode_to_vec(n, bincode::config::standard()) {
        Ok(bytes) => bytes,
        Err(_) => Vec::new(),
    }
}

/// Relies on `bincode::decode_from_slice::<u64, _>` with
/// `bincode::config::standard()`: it reads one variable-length integer from
/// the front of `s` and reports how many bytes it took, and fails where
/// `varint_prefix` has no value.
#[verifier::external_body]
pub(crate) fn decode_varint(s: &[u8]) -> (r: Result<(u64, usize), bincode::error::DecodeError>)
    ensures
        match r {
            Ok((v, k)) => varint_prefix(s@) == Some((v, k as nat)),
            Err(_) => varint_prefix(s@) is None,
        },
{
    bincode::decode_from_slice::<u64, _>(s, bincode::config::standard())
}

pub proof fn lemma_varint_len(n: u64)
    ensures
        1 <= varint(n).len() <= 9,
{
    lemma_le_bytes_len(n as nat, 2);
    lemma_le_bytes_len(n as nat, 4);
    lemma_le_bytes_len(n as nat, 8);
}

/// A variable-length integer followed by anything reads back as itself.
pub proof fn lemma_varint_round_trip(n: u64, rest: Seq<u8>)
    ensures
        varint_prefix(varint(n) + rest) == Some((n, varint(n).len())),
{
    reveal_with_fuel(pow256, 9);
    let s = varint(n) + rest;
    if n <= 250 {
    } else if n <= 0xffff {
        lemma_le_round_trip(n as nat, 2);
        assert(s.subrange(1, 3) =~= le_bytes(n as nat, 2));
    } else if n <= 0xffff_ffff {
        lemma_le_round_trip(n as nat, 4);
        assert(s.subrange(1, 5) =~= le_bytes(n as nat, 4));
    } else {
        lemma_le_round_trip(n as nat, 8);
        assert(s.subrange(1, 9) =~= le_bytes(n as nat, 8));
    }
}

/// The four little-endian bytes of `n`.
pub fn u32_to_le(n: u32) -> (r: Vec<u8>)
    ensures
        r@ == le_bytes(n as nat, 4),
{
    let b1: u32 = n / 256;
    let b2: u32 = b1 / 256;
    let b3: u32 = b2 / 256;
    let mut r: Vec<u8> = Vec::new();
    r.push((n % 256) as u8);
    r.push((b1 % 256) as u8);
    r.push((b2 % 256) as u8);
    r.push((b3 % 256) as u8);
    proof {
        reveal_with_fuel(le_bytes, 5);
        assert(r@ =~= le_bytes(n as nat, 4));
    }
    r
}

/// The number held little-endian in the first four bytes of `s`.
pub fn u32_from_le(s: &[u8]) -> (r: u32)
    requires
        s@.len() >= 4,
    ensures
        r as nat == le_value(s@.subrange(0, 4)),
{
    let r: u32 = s[0] as u32 + 256 * (s[1] as u32 + 256 * (s[2] as u32 + 256 * (s[3] as u32)));
    proof {
        let t = s@.subrange(0, 4);
        reveal_with_fuel(le_value, 5);
        assert(t.drop_first() =~= s@.subrange(1, 4));
        assert(t.drop_first().drop_first() =~= s@.subrange(2, 4));
        assert(t.drop_first().drop_first().drop_first() =~= s@.subrange(3, 4));
        assert(t.drop_first().drop_first().drop_first().drop_first() =~= Seq::<u8>::empty());
    }
    r
}

} // verus!
