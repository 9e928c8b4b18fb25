use vstd::prelude::*;

verus! {

/// Calls `rand::random::<u16>()` of the rand crate.  Any value may come
/// back, so nothing is stated of it.
#[verifier::external_body]
fn random_u16() -> u16 {
    rand::random::<u16>()
}

/// The port that a random draw `r` picks: one of the 16382 ports from 49152
/// on.
pub fn port_from_draw(r: u16) -> (p: u16)
    ensures
        p == r % 16382 + 49152,
        49152 <= p < 65534,
{
    r % 16382 + 49152
}

/// A port drawn at random among the 16382 ports from 49152 on.
pub fn random_port() -> (p: u16)
    ensures
        49152 <= p < 65534,
{
    port_from_draw(random_u16())
}

} // verus!
