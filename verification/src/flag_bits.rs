//! Bit facts about the flag words that protections, program headers and
//! `pipe2` flags are translated between.
use vstd::prelude::*;

verus! {

/// For a protection word `pb`, segment flags `pf` and `pipe2` flags `fl`,
/// each bit of the translated word is set exactly when the bit it comes
/// from is, and no other bit is set; for a protection `cb` shared
/// copy-on-write, the page flags of its write-less protection with the COW
/// bit are read-only and keep its execute permission.
pub proof fn lemma_flag_bits(pb: u32, pf: u32, fl: i32, cb: u32)
    by (bit_vector)
    ensures
        (pb & 2u32 == 2u32) == (pb & 2u32 != 0),
        (pb & 4u32 == 4u32) == (pb & 4u32 != 0),
        ({
            let c = cb & !2u32;
            let v: u64 = (1u64 | 4u64 | (if c & 2u32 == 2u32 { 2u64 } else { 0u64 })
                | (if c & 4u32 == 4u32 { 0u64 } else { 0x8000_0000_0000_0000u64 })) | 512u64;
            &&& v & 2u64 == 0
            &&& v & 512u64 != 0
            &&& (v & 0x8000_0000_0000_0000u64 != 0) == (cb & 4u32 == 0)
            &&& v & 1u64 == 1u64
            &&& v & 4u64 == 4u64
        }),
        ({
            let v: u64 = 1u64 | 4u64 | (if pb & 2u32 == 2u32 { 2u64 } else { 0u64 })
                | (if pb & 4u32 == 4u32 { 0u64 } else { 0x8000_0000_0000_0000u64 });
            &&& (v & 0x8000_0000_0000_0000u64 != 0) == (pb & 4u32 == 0)
            &&& (v & 2u64 != 0) == (pb & 2u32 != 0)
            &&& v & 1u64 == 1u64
            &&& v & 4u64 == 4u64
            &&& v & 512u64 == 0
            &&& v & !0x8000_0000_0000_0007u64 == 0
        }),
        ({
            let p: u32 = (if pf & 4u32 != 0 { 1u32 } else { 0u32 }) | (if pf & 2u32 != 0 { 2u32 } else { 0u32 })
                | (if pf & 1u32 != 0 { 4u32 } else { 0u32 });
            &&& (p & 1u32 != 0) == (pf & 4u32 != 0)
            &&& (p & 2u32 != 0) == (pf & 2u32 != 0)
            &&& (p & 4u32 != 0) == (pf & 1u32 != 0)
            &&& p & !7u32 == 0
        }),
        ({
            let w: u32 = (if fl & 0o4000i32 != 0 { 0o4000u32 } else { 0u32 })
                | (if fl & 0o2000000i32 != 0 { 0o2000000u32 } else { 0u32 });
            &&& (w & 0o4000u32 != 0) == (fl & 0o4000i32 != 0)
            &&& (w & 0o2000000u32 != 0) == (fl & 0o2000000i32 != 0)
            &&& w & !0o2004000u32 == 0
        }),
{
}

} // verus!
