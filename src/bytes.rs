use vstd::prelude::*;

verus! {

/// The unsigned integer whose little-endian encoding is `b[at..at + 4]`.
pub open spec fn le_u32_spec(b: Seq<u8>, at: int) -> u32 {
    (b[at] as int + 0x100 * b[at + 1] as int + 0x1_0000 * b[at + 2] as int + 0x100_0000 * b[
        at + 3
    ] as int) as u32
}

/// The two's-complement integer whose little-endian encoding is `b[at..at + 4]`.
pub open spec fn le_i32_spec(b: Seq<u8>, at: int) -> i32 {
    let u = le_u32_spec(b, at) as int;
    if u < 0x8000_0000 {
        u as i32
    } else {
        (u - 0x1_0000_0000) as i32
    }
}

pub fn le_u32(b: &[u8], at: usize) -> (r: u32)
    requires
        at + 4 <= b@.len(),
    ensures
        r == le_u32_spec(b@, at as int),
        r as int == b@[at as int] as int + 0x100 * b@[at + 1] as int + 0x1_0000 * b@[at + 2] as int
            + 0x100_0000 * b@[at + 3] as int,
{
    b[at] as u32 + 0x100 * (b[at + 1] as u32) + 0x1_0000 * (b[at + 2] as u32) + 0x100_0000 * (b[at
        + 3] as u32)
}

pub fn le_i32(b: &[u8], at: usize) -> (r: i32)
    requires
        at + 4 <= b@.len(),
    ensures
        r == le_i32_spec(b@, at as int),
{
    let u = le_u32(b, at);
    if u < 0x8000_0000 {
        u as i32
    } else {
        (u as i64 - 0x1_0000_0000i64) as i32
    }
}

} // verus!
