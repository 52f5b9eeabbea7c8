use vstd::prelude::*;

verus! {

/// The integer hash used to draw pseudo-random values from positions
pub open spec fn spec_hash(b: i32) -> i32 {
    let a1 = b.wrapping_sub(b << 6u32);
    let a2 = a1 ^ (a1 >> 17u32);
    let a3 = a2.wrapping_sub(a2 << 9u32);
    let a4 = a3 ^ (a3 << 4u32);
    let a5 = a4.wrapping_sub(a4 << 3u32);
    let a6 = a5 ^ (a5 << 10u32);
    a6 ^ (a6 >> 15u32)
}

/// The pseudo-random value drawn for a position and a seed
pub open spec fn spec_rand_pos_int(x: i32, y: i32, z: i32, seed: i32) -> i32 {
    let a = spec_hash((x + seed) as i32);
    let b = spec_hash((y + a) as i32);
    spec_hash((z + b) as i32)
}

/// The additions made while drawing the value of a position do not overflow
pub open spec fn rand_pos_fits(x: i32, y: i32, z: i32, seed: i32) -> bool {
    &&& i32::MIN <= x + seed <= i32::MAX
    &&& i32::MIN <= y + spec_hash((x + seed) as i32) <= i32::MAX
    &&& i32::MIN <= z + spec_hash((y + spec_hash((x + seed) as i32)) as i32) <= i32::MAX
}

pub fn hash(b: i32) -> (r: i32)
    ensures
        r == spec_hash(b),
{
    let mut a = b;
    a = a.wrapping_sub(a << 6u32);
    a ^= a >> 17u32;
    a = a.wrapping_sub(a << 9u32);
    a ^= a << 4u32;
    a = a.wrapping_sub(a << 3u32);
    a ^= a << 10u32;
    a ^= a >> 15u32;
    a
}

pub fn rand_pos_int(x: i32, y: i32, z: i32, seed: i32) -> (r: i32)
    requires
        rand_pos_fits(x, y, z, seed),
    ensures
        r == spec_rand_pos_int(x, y, z, seed),
{
    let a = hash(x + seed);
    let b = hash(y + a);
    hash(z + b)
}

/// Whether the additions made while drawing the value of a position stay in range
pub fn rand_pos_fits_check(x: i32, y: i32, z: i32, seed: i32) -> (b: bool)
    ensures
        b == rand_pos_fits(x, y, z, seed),
{
    let s1 = x as i64 + seed as i64;
    if s1 < i32::MIN as i64 || s1 > i32::MAX as i64 {
        return false;
    }
    let a = hash(s1 as i32);
    let s2 = y as i64 + a as i64;
    if s2 < i32::MIN as i64 || s2 > i32::MAX as i64 {
        return false;
    }
    let b = hash(s2 as i32);
    let s3 = z as i64 + b as i64;
    s3 >= i32::MIN as i64 && s3 <= i32::MAX as i64
}

} // verus!
