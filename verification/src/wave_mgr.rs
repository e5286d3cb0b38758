//! Defender waves: which wave a defender uid belongs to.
use vstd::prelude::*;

verus! {

/// Owns wave advancement.
#[derive(Debug, Clone, Copy)]
pub struct WaveMgr {}

/// `x` read as the low 32 bits of a two's complement integer.
pub open spec fn low_i32(x: int) -> int {
    let low = x % 0x1_0000_0000;
    if low >= 0x8000_0000 { low - 0x1_0000_0000 } else { low }
}

/// The wave of a defender uid: uids `-1, -2` are wave 1, `-3, -4` wave 2,
/// and so on (the magnitude read as an `i32`, as Rust's cast does).
pub open spec fn wave_of(uid: i64) -> int {
    let t = low_i32(-(uid as int));
    if t + 1 >= 0 { (t + 1) / 2 } else { -((-(t + 1)) / 2) }
}

impl WaveMgr {
    /// A wave manager.
    pub fn new() -> (r: Self) {
        WaveMgr {}
    }

    /// The wave a defender uid was assigned in: `uid = -(2 * (wave - 1) +
    /// position)` with position 1 or 2. `None` for uids that are not
    /// negative.
    pub fn expected_wave_for_uid(uid: i64) -> (r: Option<i32>)
        requires
            uid < 0 ==> low_i32(-(uid as int)) != i32::MAX,
        ensures
            r == (if uid >= 0 { None } else { Some(wave_of(uid) as i32) }),
    {
        if uid >= 0 {
            return None;
        }
        let abs: u64 = if uid == i64::MIN { 0x8000_0000_0000_0000u64 } else { (-uid) as u64 };
        let low: u64 = abs % 0x1_0000_0000u64;
        let t: i32 = if low >= 0x8000_0000u64 { (low as i64 - 0x1_0000_0000i64) as i32 } else { low as i32 };
        Some((t + 1) / 2)
    }
}

/// The uid a defender gets in `wave` at `position` (1 or 2) maps back to
/// that wave: `uid = -(2 * (wave - 1) + position)`.
pub proof fn law_wave_of_assigned_uid(wave: int, position: int)
    requires
        wave >= 1,
        position == 1 || position == 2,
        2 * (wave - 1) + position < i32::MAX,
    ensures
        ({
            let uid = -(2 * (wave - 1) + position);
            &&& low_i32(-uid) != i32::MAX
            &&& wave_of(uid as i64) == wave
        }),
{
    let a = 2 * (wave - 1) + position;
    assert(a % 0x1_0000_0000 == a);
    assert(low_i32(a) == a);
    assert((a + 1) / 2 == wave);
}

} // verus!
