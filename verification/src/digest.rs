//! Trusted boundary to the hashing and clock functions the venue relies on,
//! plus small verified byte helpers used to build hash inputs.
use vstd::prelude::*;
use sha2::Digest;

verus! {

/// The SHA-256 digest of a byte string, as computed by the `sha2` crate.
pub uninterp spec fn spec_sha256(data: Seq<u8>) -> Seq<u8>;

/// One bit step of the reflected CRC-32 (IEEE) division, repeated `n` times.
pub open spec fn crc32_shift(c: u32, n: nat) -> u32
    decreases n,
{
    if n == 0 {
        c
    } else {
        crc32_shift(if c & 1 == 1 { (c >> 1) ^ 0xEDB8_8320 } else { c >> 1 }, (n - 1) as nat)
    }
}

/// The CRC register after taking in `data`, starting from `c`.
pub open spec fn crc32_register(c: u32, data: Seq<u8>) -> u32
    decreases data.len(),
{
    if data.len() == 0 {
        c
    } else {
        crc32_register(crc32_shift(c ^ (data[0] as u32), 8), data.drop_first())
    }
}

/// The CRC-32 (IEEE) checksum of a byte string: reflected polynomial
/// 0xEDB88320, register preset to all ones, result complemented.
pub open spec fn spec_crc32(data: Seq<u8>) -> u32 {
    !crc32_register(0xFFFF_FFFF, data)
}

/// Calls `sha2::Sha256::digest`. Trusted: the 32 returned bytes are the
/// digest named `spec_sha256` of exactly the bytes handed in.
#[verifier::external_body]
pub(crate) fn sha256(data: &[u8]) -> (digest: [u8; 32])
    ensures
        digest@ == spec_sha256(data@),
{
    sha2::Sha256::digest(data).into()
}

/// Feeds the bytes to a fresh `crc32fast::Hasher` and calls `finalize`.
/// Trusted: the result is the CRC-32 (IEEE) of those bytes, as `spec_crc32`
/// states it.
#[verifier::external_body]
pub(crate) fn crc32(data: &[u8]) -> (checksum: u32)
    ensures
        checksum == spec_crc32(data@),
{
    let mut hasher = crc32fast::Hasher::new();
    hasher.update(data);
    hasher.finalize()
}

/// `std::time::SystemTime`, opaque to the library.
#[verifier::external_type_specification]
#[verifier::external_body]
pub struct ExSystemTime(std::time::SystemTime);

/// `std::time::SystemTimeError`, opaque to the library.
#[verifier::external_type_specification]
#[verifier::external_body]
pub struct ExSystemTimeError(std::time::SystemTimeError);

/// Calls `std::time::SystemTime::now`. Nothing is promised of the value:
/// it is the wall clock.
#[verifier::external_body]
fn system_time_now() -> std::time::SystemTime {
    std::time::SystemTime::now()
}

/// Calls `SystemTime::duration_since(UNIX_EPOCH)`: the time elapsed since
/// the epoch, or an error for a time before it. Nothing more is promised.
#[verifier::external_body]
fn since_unix_epoch(t: &std::time::SystemTime) -> Result<core::time::Duration, std::time::SystemTimeError> {
    t.duration_since(std::time::UNIX_EPOCH)
}

/// Calls `Duration::as_nanos`. Nothing is promised of the value.
#[verifier::external_body]
fn duration_nanos(d: &core::time::Duration) -> u128 {
    d.as_nanos()
}

/// The wall clock in nanoseconds since the Unix epoch, truncated to 64
/// bits; a clock set before the epoch reads as 0.
pub(crate) fn unix_time_nanos() -> u64 {
    let now = system_time_now();
    match since_unix_epoch(&now) {
        Ok(elapsed) => duration_nanos(&elapsed) as u64,
        Err(_) => 0,
    }
}

/// Appends every byte of `src` to `buf`, in order.
pub(crate) fn append_bytes(buf: &mut Vec<u8>, src: &[u8])
    ensures
        final(buf)@ == old(buf)@ + src@,
{
    let ghost start = buf@;
    let mut i: usize = 0;
    while i < src.len()
        invariant
            i <= src@.len(),
            buf@ == start + src@.subrange(0, i as int),
        decreases src@.len() - i,
    {
        buf.push(src[i]);
        assert(src@.subrange(0, i + 1) == src@.subrange(0, i as int).push(src@[i as int]));
        i = i + 1;
    }
    assert(src@.subrange(0, src@.len() as int) == src@);
}

} // verus!
