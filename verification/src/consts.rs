//! Named squares, ranks and files as bitboards.
use vstd::prelude::*;

verus! {

pub const A1: u64 = 0x1u64;
pub const B1: u64 = 0x2u64;
pub const C1: u64 = 0x4u64;
pub const D1: u64 = 0x8u64;
pub const E1: u64 = 0x10u64;
pub const F1: u64 = 0x20u64;
pub const G1: u64 = 0x40u64;
pub const H1: u64 = 0x80u64;
pub const A2: u64 = 0x100u64;
pub const B2: u64 = 0x200u64;
pub const C2: u64 = 0x400u64;
pub const D2: u64 = 0x800u64;
pub const E2: u64 = 0x1000u64;
pub const F2: u64 = 0x2000u64;
pub const G2: u64 = 0x4000u64;
pub const H2: u64 = 0x8000u64;
pub const A3: u64 = 0x10000u64;
pub const B3: u64 = 0x20000u64;
pub const C3: u64 = 0x40000u64;
pub const D3: u64 = 0x80000u64;
pub const E3: u64 = 0x100000u64;
pub const F3: u64 = 0x200000u64;
pub const G3: u64 = 0x400000u64;
pub const H3: u64 = 0x800000u64;
pub const A4: u64 = 0x1000000u64;
pub const B4: u64 = 0x2000000u64;
pub const C4: u64 = 0x4000000u64;
pub const D4: u64 = 0x8000000u64;
pub const E4: u64 = 0x10000000u64;
pub const F4: u64 = 0x20000000u64;
pub const G4: u64 = 0x40000000u64;
pub const H4: u64 = 0x80000000u64;
pub const A5: u64 = 0x100000000u64;
pub const B5: u64 = 0x200000000u64;
pub const C5: u64 = 0x400000000u64;
pub const D5: u64 = 0x800000000u64;
pub const E5: u64 = 0x1000000000u64;
pub const F5: u64 = 0x2000000000u64;
pub const G5: u64 = 0x4000000000u64;
pub const H5: u64 = 0x8000000000u64;
pub const A6: u64 = 0x10000000000u64;
pub const B6: u64 = 0x20000000000u64;
pub const C6: u64 = 0x40000000000u64;
pub const D6: u64 = 0x80000000000u64;
pub const E6: u64 = 0x100000000000u64;
pub const F6: u64 = 0x200000000000u64;
pub const G6: u64 = 0x400000000000u64;
pub const H6: u64 = 0x800000000000u64;
pub const A7: u64 = 0x1000000000000u64;
pub const B7: u64 = 0x2000000000000u64;
pub const C7: u64 = 0x4000000000000u64;
pub const D7: u64 = 0x8000000000000u64;
pub const E7: u64 = 0x10000000000000u64;
pub const F7: u64 = 0x20000000000000u64;
pub const G7: u64 = 0x40000000000000u64;
pub const H7: u64 = 0x80000000000000u64;
pub const A8: u64 = 0x100000000000000u64;
pub const B8: u64 = 0x200000000000000u64;
pub const C8: u64 = 0x400000000000000u64;
pub const D8: u64 = 0x800000000000000u64;
pub const E8: u64 = 0x1000000000000000u64;
pub const F8: u64 = 0x2000000000000000u64;
pub const G8: u64 = 0x4000000000000000u64;
pub const H8: u64 = 0x8000000000000000u64;

pub const R1: u64 = 0xffu64;
pub const R2: u64 = 0xff00u64;
pub const R3: u64 = 0xff0000u64;
pub const R4: u64 = 0xff000000u64;
pub const R5: u64 = 0xff00000000u64;
pub const R6: u64 = 0xff0000000000u64;
pub const R7: u64 = 0xff000000000000u64;
pub const R8: u64 = 0xff00000000000000u64;
pub const CA: u64 = 0x101010101010101u64;
pub const CB: u64 = 0x202020202020202u64;
pub const CC: u64 = 0x404040404040404u64;
pub const CD: u64 = 0x808080808080808u64;
pub const CE: u64 = 0x1010101010101010u64;
pub const CF: u64 = 0x2020202020202020u64;
pub const CG: u64 = 0x4040404040404040u64;
pub const CH: u64 = 0x8080808080808080u64;

} // verus!
