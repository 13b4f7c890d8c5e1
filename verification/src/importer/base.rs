use vstd::prelude::*;
use crate::math::Vec3i;
use vstd::utf8::{valid_utf8, decode_utf8};

verus! {

/// Errors raised by the standard library's I/O, carried as they are.
#[verifier::external_type_specification]
#[verifier::external_body]
pub struct ExIoError(std::io::Error);

// indicate the type of error encountered while trying to load a file
pub enum ImportError {
    File(std::io::Error),
    Header(usize, usize),
    Content,
    Matrix,
    Schema,
}

/// Value of `bytes` read as an unsigned little-endian integer.
pub open spec fn le_value(bytes: Seq<u8>) -> nat
    decreases bytes.len(),
{
    if bytes.len() == 0 {
        0
    } else {
        bytes[0] as nat + 256 * le_value(bytes.drop_first())
    }
}

/// `256` to the power `n`: the first value that `n` bytes cannot hold.
pub open spec fn byte_bound(n: nat) -> nat
    decreases n,
{
    if n == 0 {
        1
    } else {
        256 * byte_bound((n - 1) as nat)
    }
}

/// The `len` bytes of `buffer` that start at `index`.
pub open spec fn bytes_at(buffer: Seq<u8>, index: int, len: int) -> Seq<u8> {
    buffer.subrange(index, index + len)
}

pub proof fn lemma_le_value_bound(bytes: Seq<u8>)
    ensures
        le_value(bytes) < byte_bound(bytes.len()),
    decreases bytes.len(),
{
    if bytes.len() > 0 {
        lemma_le_value_bound(bytes.drop_first());
    }
}

pub proof fn lemma_byte_bound_monotonic(a: nat, b: nat)
    requires
        a <= b,
    ensures
        byte_bound(a) <= byte_bound(b),
    decreases b,
{
    if a < b {
        lemma_byte_bound_monotonic(a, (b - 1) as nat);
    }
}

/// Reads `len` bytes at `index` as a little-endian integer.
fn read_le(buffer: &[u8], index: usize, len: usize) -> (r: u64)
    requires
        len <= 8,
        index + len <= buffer.len(),
    ensures
        r == le_value(bytes_at(buffer@, index as int, len as int)),
{
    proof {
        reveal_with_fuel(byte_bound, 8);
    }
    let mut r: u64 = 0;
    let mut i: usize = len;
    while i > 0
        invariant
            i <= len <= 8,
            index + len <= buffer.len(),
            r == le_value(buffer@.subrange(index + i, index + len)),
            byte_bound(7) == 0x100_0000_0000_0000,
        decreases i,
    {
        i = i - 1;
        let ghost s = buffer@.subrange(index + i, index + len);
        proof {
            assert(s.drop_first() =~= buffer@.subrange(index + i + 1, index + len));
            lemma_le_value_bound(s.drop_first());
            lemma_byte_bound_monotonic((len - i - 1) as nat, 7);
        }
        r = r * 256 + buffer[index + i] as u64;
    }
    r
}

// read a number
pub fn read_u16(buffer: &[u8], index: usize) -> (r: u16)
    requires
        index + 2 <= buffer.len(),
    ensures
        r == le_value(bytes_at(buffer@, index as int, 2)),
{
    let v = read_le(buffer, index, 2);
    proof {
        lemma_le_value_bound(bytes_at(buffer@, index as int, 2));
        reveal_with_fuel(byte_bound, 3);
    }
    v as u16
}

// read a number
pub fn read_u32(buffer: &[u8], index: usize) -> (r: u32)
    requires
        index + 4 <= buffer.len(),
    ensures
        r == le_value(bytes_at(buffer@, index as int, 4)),
{
    let v = read_le(buffer, index, 4);
    proof {
        lemma_le_value_bound(bytes_at(buffer@, index as int, 4));
        reveal_with_fuel(byte_bound, 5);
    }
    v as u32
}

// read a number
pub fn read_u64(buffer: &[u8], index: usize) -> (r: u64)
    requires
        index + 8 <= buffer.len(),
    ensures
        r == le_value(bytes_at(buffer@, index as int, 8)),
{
    read_le(buffer, index, 8)
}

/// `std::str::from_utf8`: the text that `bytes` encode in UTF-8, or
/// `None` where they are not valid UTF-8 (the error value is dropped).
#[verifier::external_body]
fn str_from_utf8(bytes: &[u8]) -> (r: Option<&str>)
    ensures
        r is Some <==> valid_utf8(bytes@),
        r matches Some(s) ==> s@ == decode_utf8(bytes@),
{
    std::str::from_utf8(bytes).ok()
}

// read a string
pub fn read_string(buffer: &[u8], index: usize, length: usize) -> (s: String)
    requires
        index + length <= buffer.len(),
        valid_utf8(bytes_at(buffer@, index as int, length as int)),
    ensures
        s@ == decode_utf8(bytes_at(buffer@, index as int, length as int)),
{
    str_from_utf8(&buffer[index..(index + length)]).unwrap().to_string()
}

// read a 3D vector
pub fn read_vec3i_from_u8s(buffer: &[u8], index: usize) -> (v: Vec3i)
    requires
        index + 3 <= buffer.len(),
    ensures
        v.x == buffer@[index as int],
        v.y == buffer@[index + 1],
        v.z == buffer@[index + 2],
{
    Vec3i::new(buffer[index] as usize, buffer[index + 1] as usize, buffer[index + 2] as usize)
}

// read a 3D vector
pub fn read_vec3i_from_u16s(buffer: &[u8], index: usize) -> (v: Vec3i)
    requires
        index + 6 <= buffer.len(),
    ensures
        v.x == le_value(bytes_at(buffer@, index as int, 2)),
        v.y == le_value(bytes_at(buffer@, index + 2, 2)),
        v.z == le_value(bytes_at(buffer@, index + 4, 2)),
{
    Vec3i::new(
        read_u16(buffer, index) as usize,
        read_u16(buffer, index + 2) as usize,
        read_u16(buffer, index + 4) as usize,
    )
}

// read a 3D vector
pub fn read_vec3i_from_u32s(buffer: &[u8], index: usize) -> (v: Vec3i)
    requires
        index + 12 <= buffer.len(),
    ensures
        v.x == le_value(bytes_at(buffer@, index as int, 4)),
        v.y == le_value(bytes_at(buffer@, index + 4, 4)),
        v.z == le_value(bytes_at(buffer@, index + 8, 4)),
{
    Vec3i::new(
        read_u32(buffer, index) as usize,
        read_u32(buffer, index + 4) as usize,
        read_u32(buffer, index + 8) as usize,
    )
}

// read a 3D vector; on a target whose `usize` is narrower than 64 bits the
// values are truncated, as `as usize` does
pub fn read_vec3i_from_u64s(buffer: &[u8], index: usize) -> (v: Vec3i)
    requires
        index + 24 <= buffer.len(),
    ensures
        v.x == le_value(bytes_at(buffer@, index as int, 8)) as u64 as usize,
        v.y == le_value(bytes_at(buffer@, index + 8, 8)) as u64 as usize,
        v.z == le_value(bytes_at(buffer@, index + 16, 8)) as u64 as usize,
{
    Vec3i::new(
        read_u64(buffer, index) as usize,
        read_u64(buffer, index + 8) as usize,
        read_u64(buffer, index + 16) as usize,
    )
}

} // verus!
