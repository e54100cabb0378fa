//! The four-byte little-endian length field that starts every framed value.

use vstd::prelude::*;

verus! {

/// Largest length the signed four-byte field can declare.
pub const MAX_FIELD: usize = 0x7fff_ffff;

/// The four bytes of `n`, least significant first.
pub open spec fn le_bytes(n: int) -> Seq<u8> {
    seq![
        (n % 256) as u8,
        (n / 256 % 256) as u8,
        (n / 65536 % 256) as u8,
        (n / 16777216 % 256) as u8,
    ]
}

/// The number held by the four bytes of `mem` that start at `at`.
pub open spec fn le_value(mem: Seq<u8>, at: int) -> int {
    mem[at] as int + 256 * (mem[at + 1] as int) + 65536 * (mem[at + 2] as int) + 16777216 * (
    mem[at + 3] as int)
}

/// Reading back a written field gives the number written.
pub proof fn lemma_le_round_trip(n: int)
    requires
        0 <= n <= MAX_FIELD,
    ensures
        le_bytes(n).len() == 4,
        le_value(le_bytes(n), 0) == n,
{
}

/// Appends the length field for `n` to `buf`.
pub fn put_le(buf: &mut Vec<u8>, n: usize)
    requires
        n <= MAX_FIELD,
    ensures
        final(buf)@ == old(buf)@ + le_bytes(n as int),
{
    let ghost before = buf@;
    buf.push((n % 256) as u8);
    buf.push((n / 256 % 256) as u8);
    buf.push((n / 65536 % 256) as u8);
    buf.push((n / 16777216 % 256) as u8);
    assert(buf@ =~= before + le_bytes(n as int));
}

/// Reads the length field that starts at `at`.
pub fn get_le(mem: &[u8], at: usize) -> (n: usize)
    requires
        at + 4 <= mem@.len(),
    ensures
        n == le_value(mem@, at as int),
{
    let b0: usize = mem[at] as usize;
    let b1: usize = mem[at + 1] as usize;
    let b2: usize = mem[at + 2] as usize;
    let b3: usize = mem[at + 3] as usize;
    b0 + 256 * b1 + 65536 * b2 + 16777216 * b3
}

} // verus!
