//! The battery, from what the system's power status says.

use crate::number::Single;
use vstd::prelude::*;

verus! {

#[derive(Clone, Copy, Debug, PartialEq, Eq, Structural)]
pub struct Battery {
    /// From 0 to 1.
    pub level: Single,
    pub charging: bool,
    pub on_ac: bool,
    /// Seconds of battery life left, if the system knows.
    pub remaining_secs: Option<u32>,
}

/// Flag of a machine without a battery.
pub const NO_BATTERY: u8 = 128;

/// Value of a flag or percentage that is not known.
pub const UNKNOWN: u8 = 255;

/// Flag of a battery that is charging.
pub const CHARGING: u8 = 8;

/// The machine has a battery whose level is known.
pub open spec fn has_battery(flag: u8, percent: u8) -> bool {
    flag != NO_BATTERY && flag != UNKNOWN && percent != UNKNOWN
}

/// Whether the machine has a battery whose level is known.
pub fn present(flag: u8, percent: u8) -> (r: bool)
    ensures
        r == has_battery(flag, percent),
{
    !(flag == NO_BATTERY || flag == UNKNOWN || percent == UNKNOWN)
}

/// The battery that a power status tells of.
pub open spec fn battery_told(
    flag: u8,
    percent: u8,
    line: u8,
    life_secs: u32,
    level: Single,
) -> Option<Battery> {
    if has_battery(flag, percent) {
        Some(
            Battery {
                level,
                charging: flag & CHARGING != 0,
                on_ac: line == 1,
                remaining_secs: if life_secs == u32::MAX {
                    None
                } else {
                    Some(life_secs)
                },
            },
        )
    } else {
        None
    }
}

/// The battery from the power status: its flag, percentage, line status and
/// life time, and the percentage as a fraction. `None` when the machine has
/// no battery.
pub fn read(flag: u8, percent: u8, line: u8, life_secs: u32, level: Single) -> (r: Option<Battery>)
    ensures
        r == battery_told(flag, percent, line, life_secs, level),
{
    if !present(flag, percent) {
        return None;
    }
    Some(
        Battery {
            level,
            charging: flag & CHARGING != 0,
            on_ac: line == 1,
            remaining_secs: if life_secs == u32::MAX {
                None
            } else {
                Some(life_secs)
            },
        },
    )
}

#[derive(Clone, Copy, Debug, Default, PartialEq, Eq, Structural)]
pub struct BatteryDetail {
    /// Milliwatts; negative while discharging.
    pub rate_mw: i32,
    pub remaining_mwh: u32,
    pub max_mwh: u32,
}

/// A number of 32 bits read as a signed one.
pub open spec fn as_signed(n: u32) -> int {
    if n >= 0x8000_0000 {
        n - 0x1_0000_0000
    } else {
        n as int
    }
}

/// The detail that the system tells of.
pub open spec fn detail_told(
    answered: bool,
    present: bool,
    rate: u32,
    remaining: u32,
    max: u32,
) -> Option<BatteryDetail> {
    if answered && present {
        Some(
            BatteryDetail {
                rate_mw: as_signed(rate) as i32,
                remaining_mwh: remaining,
                max_mwh: max,
            },
        )
    } else {
        None
    }
}

/// The battery's rate and capacities, where the system answered and there is
/// a battery.
pub fn detail(answered: bool, present: bool, rate: u32, remaining: u32, max: u32) -> (r: Option<
    BatteryDetail,
>)
    ensures
        r == detail_told(answered, present, rate, remaining, max),
{
    if !answered || !present {
        return None;
    }
    let signed: i64 = if rate >= 0x8000_0000 {
        rate as i64 - 0x1_0000_0000
    } else {
        rate as i64
    };
    Some(BatteryDetail { rate_mw: signed as i32, remaining_mwh: remaining, max_mwh: max })
}

/// A battery is there unless the status says that there is none or that it is
/// not known; the mains and the charging are told apart, and a time that is not
/// known is not shown as one.
pub proof fn law_battery_is_what_the_status_says(
    flag: u8,
    percent: u8,
    line: u8,
    life_secs: u32,
    level: Single,
)
    ensures
        battery_told(flag, percent, line, life_secs, level).is_none() == (flag == 128 || flag == 255
            || percent == 255),
        battery_told(flag, percent, line, life_secs, level) matches Some(b) ==> {
            &&& b.level == level
            &&& b.on_ac == (line == 1)
            &&& b.charging == (flag & 8 == 8)
            &&& life_secs != u32::MAX ==> b.remaining_secs == Some(life_secs)
            &&& life_secs == u32::MAX ==> b.remaining_secs.is_none()
        },
{
    assert((flag & 8 == 8) == (flag & 8 != 0)) by (bit_vector);
}

/// The rate has the bits of the number that was told, so that a number with the
/// highest bit is a discharge; the two capacities are told apart.
pub proof fn law_detail_is_what_was_told(rate: u32, remaining: u32, max: u32)
    ensures
        detail_told(true, true, rate, remaining, max) matches Some(d) && {
            &&& d.rate_mw >= 0 ==> rate == d.rate_mw
            &&& d.rate_mw < 0 ==> rate == 0x1_0000_0000 + d.rate_mw
            &&& rate < 0x8000_0000 <==> d.rate_mw >= 0
            &&& d.remaining_mwh == remaining
            &&& d.max_mwh == max
        },
        detail_told(false, true, rate, remaining, max).is_none(),
        detail_told(true, false, rate, remaining, max).is_none(),
{
}

} // verus!
