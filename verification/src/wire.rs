//! Fixed-width little-endian integers on the wire, written and read by `bincode`.

use vstd::prelude::*;

verus! {

/// The four bytes of `v`, least significant first.
#[verifier::opaque]
pub open spec fn u32_le(v: u32) -> Seq<u8> {
    seq![
        (v % 256) as u8,
        (v / 256 % 256) as u8,
        (v / 65536 % 256) as u8,
        (v / 16777216 % 256) as u8,
    ]
}

/// The number whose four bytes, least significant first, open `s`.
#[verifier::opaque]
pub open spec fn u32_from_le(s: Seq<u8>) -> u32 {
    (s[0] + 256 * s[1] + 65536 * s[2] + 16777216 * s[3]) as u32
}

/// The eight bytes of `v`, least significant first: those of its low half,
/// then those of its high half.
#[verifier::opaque]
pub open spec fn u64_le(v: u64) -> Seq<u8> {
    u32_le((v % 4294967296) as u32) + u32_le((v / 4294967296) as u32)
}

/// The number whose eight bytes, least significant first, open `s`.
#[verifier::opaque]
pub open spec fn u64_from_le(s: Seq<u8>) -> u64 {
    (u32_from_le(s.subrange(0, 4)) + 4294967296 * u32_from_le(s.subrange(4, 8))) as u64
}

/// Writing a `u32` and reading it back gives the number.
pub proof fn lemma_u32_le(v: u32)
    ensures
        u32_le(v).len() == 4,
        u32_from_le(u32_le(v)) == v,
{
    reveal(u32_le);
    reveal(u32_from_le);
}

/// Four digits to the base 256 are the digits of the number they write.
proof fn lemma_digits(d0: int, d1: int, d2: int, d3: int)
    requires
        0 <= d0 < 256,
        0 <= d1 < 256,
        0 <= d2 < 256,
        0 <= d3 < 256,
    ensures
        0 <= d0 + 256 * d1 + 65536 * d2 + 16777216 * d3 < 4294967296,
        (d0 + 256 * d1 + 65536 * d2 + 16777216 * d3) % 256 == d0,
        (d0 + 256 * d1 + 65536 * d2 + 16777216 * d3) / 256 % 256 == d1,
        (d0 + 256 * d1 + 65536 * d2 + 16777216 * d3) / 65536 % 256 == d2,
        (d0 + 256 * d1 + 65536 * d2 + 16777216 * d3) / 16777216 % 256 == d3,
{
    let n = d0 + 256 * d1 + 65536 * d2 + 16777216 * d3;
    assert(n / 256 == d1 + 256 * d2 + 65536 * d3);
    assert(n / 65536 == d2 + 256 * d3);
    assert(n / 16777216 == d3);
}

/// Any four bytes are the bytes of the number read from them.
pub proof fn lemma_u32_from_le(s: Seq<u8>)
    requires
        s.len() == 4,
    ensures
        u32_le(u32_from_le(s)) == s,
{
    reveal(u32_le);
    reveal(u32_from_le);
    lemma_digits(s[0] as int, s[1] as int, s[2] as int, s[3] as int);
    assert(u32_le(u32_from_le(s)) =~= s);
}

/// Writing a `u64` and reading it back gives the number.
pub proof fn lemma_u64_le(v: u64)
    ensures
        u64_le(v).len() == 8,
        u64_from_le(u64_le(v)) == v,
{
    reveal(u64_le);
    reveal(u64_from_le);
    let low = (v % 4294967296) as u32;
    let high = (v / 4294967296) as u32;
    lemma_u32_le(low);
    lemma_u32_le(high);
    assert(u64_le(v).subrange(0, 4) =~= u32_le(low));
    assert(u64_le(v).subrange(4, 8) =~= u32_le(high));
}

/// Any eight bytes are the bytes of the number read from them.
pub proof fn lemma_u64_from_le(s: Seq<u8>)
    requires
        s.len() == 8,
    ensures
        u64_le(u64_from_le(s)) == s,
{
    reveal(u64_le);
    reveal(u64_from_le);
    let low = u32_from_le(s.subrange(0, 4));
    let high = u32_from_le(s.subrange(4, 8));
    lemma_u32_from_le(s.subrange(0, 4));
    lemma_u32_from_le(s.subrange(4, 8));
    let v = u64_from_le(s);
    assert(v == low + 4294967296 * high);
    assert((v % 4294967296) as u32 == low);
    assert((v / 4294967296) as u32 == high);
    assert(u64_le(v) =~= s);
}

/// The four facts above, for every number and every run of bytes.
pub proof fn lemma_le_bytes()
    ensures
        forall|v: u32| #[trigger] u32_le(v).len() == 4 && u32_from_le(u32_le(v)) == v,
        forall|v: u64| #[trigger] u64_le(v).len() == 8 && u64_from_le(u64_le(v)) == v,
        forall|s: Seq<u8>| s.len() == 4 ==> #[trigger] u32_le(u32_from_le(s)) == s,
        forall|s: Seq<u8>| s.len() == 8 ==> #[trigger] u64_le(u64_from_le(s)) == s,
{
    assert forall|v: u32| #[trigger] u32_le(v).len() == 4 && u32_from_le(u32_le(v)) == v by {
        lemma_u32_le(v);
    }
    assert forall|v: u64| #[trigger] u64_le(v).len() == 8 && u64_from_le(u64_le(v)) == v by {
        lemma_u64_le(v);
    }
    assert forall|s: Seq<u8>| s.len() == 4 implies #[trigger] u32_le(u32_from_le(s)) == s by {
        lemma_u32_from_le(s);
    }
    assert forall|s: Seq<u8>| s.len() == 8 implies #[trigger] u64_le(u64_from_le(s)) == s by {
        lemma_u64_from_le(s);
    }
}

/// The error that `bincode` reports; nothing inside it is read here.
#[verifier::external_type_specification]
#[verifier::external_body]
pub struct ExErrorKind(bincode::ErrorKind);

/// `bincode::serialize` on a `u32`. With the crate's default configuration an
/// integer is written at fixed width, least significant byte first; nothing
/// limits the size and the buffer grows, so the call has no failing path.
#[verifier::external_body]
pub(crate) fn put_u32(v: u32) -> (bytes: Vec<u8>)
    ensures
        bytes@ == u32_le(v),
{
    bincode::serialize(&v).unwrap()
}

/// `bincode::serialize` on a `u64`: its eight bytes, least significant first.
/// As for a `u32`, the call has no failing path.
#[verifier::external_body]
pub(crate) fn put_u64(v: u64) -> (bytes: Vec<u8>)
    ensures
        bytes@ == u64_le(v),
{
    bincode::serialize(&v).unwrap()
}

/// `bincode::deserialize` to a `u32`. It reads the first four bytes, least
/// significant first, and accepts whatever follows them; it fails exactly
/// when fewer than four bytes are there.
#[verifier::external_body]
pub(crate) fn take_u32(bytes: &[u8]) -> (r: Result<u32, Box<bincode::ErrorKind>>)
    ensures
        r is Ok <==> bytes@.len() >= 4,
        r matches Ok(v) ==> v == u32_from_le(bytes@.subrange(0, 4)),
{
    bincode::deserialize::<u32>(bytes)
}

/// `bincode::deserialize` to a `u64`. It reads the first eight bytes, least
/// significant first, and accepts whatever follows them; it fails exactly
/// when fewer than eight bytes are there.
#[verifier::external_body]
pub(crate) fn take_u64(bytes: &[u8]) -> (r: Result<u64, Box<bincode::ErrorKind>>)
    ensures
        r is Ok <==> bytes@.len() >= 8,
        r matches Ok(v) ==> v == u64_from_le(bytes@.subrange(0, 8)),
{
    bincode::deserialize::<u64>(bytes)
}

} // verus!
