//! How much indexing work is allowed under the conditions of the machine.

use vstd::prelude::*;

verus! {

/// The conditions that bear on indexing.
#[derive(Clone, Copy, Debug, PartialEq, Eq)]
pub struct ResourceConditions {
    pub low_power_mode: bool,
    pub on_battery: bool,
    pub battery_percent: Option<u8>,
    pub severe_thermal_state: bool,
    pub memory_pressure: bool,
    pub volume_available: bool,
}

impl Default for ResourceConditions {
    fn default() -> (conditions: Self)
        ensures
            conditions == (ResourceConditions {
                low_power_mode: false,
                on_battery: false,
                battery_percent: None,
                severe_thermal_state: false,
                memory_pressure: false,
                volume_available: false,
            }),
    {
        ResourceConditions {
            low_power_mode: false,
            on_battery: false,
            battery_percent: None,
            severe_thermal_state: false,
            memory_pressure: false,
            volume_available: false,
        }
    }
}

/// How much indexing work is allowed.
#[derive(Clone, Copy, Debug, PartialEq, Eq, Structural)]
pub enum WorkAllowance {
    Normal,
    Reduced,
    Paused,
}

/// Work has to stop.
pub open spec fn must_pause(user_paused: bool, conditions: ResourceConditions) -> bool {
    user_paused || !conditions.volume_available || conditions.severe_thermal_state
        || conditions.memory_pressure
}

/// Power is short: low power mode, or a battery in use with at most a fifth of its charge.
pub open spec fn power_is_short(conditions: ResourceConditions) -> bool {
    conditions.low_power_mode || (conditions.on_battery && match conditions.battery_percent {
        Some(percent) => percent <= 20,
        None => false,
    })
}

/// Decides how much indexing work is allowed.
pub fn work_allowance(user_paused: bool, conditions: ResourceConditions) -> (allowance:
    WorkAllowance)
    ensures
        allowance == if must_pause(user_paused, conditions) {
            WorkAllowance::Paused
        } else if power_is_short(conditions) {
            WorkAllowance::Reduced
        } else {
            WorkAllowance::Normal
        },
{
    let short = conditions.low_power_mode || (conditions.on_battery
        && match conditions.battery_percent {
        Some(percent) => percent <= 20,
        None => false,
    });
    if user_paused || !conditions.volume_available || conditions.severe_thermal_state
        || conditions.memory_pressure {
        WorkAllowance::Paused
    } else if short {
        WorkAllowance::Reduced
    } else {
        WorkAllowance::Normal
    }
}

/// Each of these alone stops the work: a pause by the user, a volume that is not there, severe heat
/// and short memory. Without any of them work goes on.
pub proof fn each_reason_alone_pauses(user_paused: bool, conditions: ResourceConditions)
    ensures
        user_paused ==> must_pause(user_paused, conditions),
        !conditions.volume_available ==> must_pause(user_paused, conditions),
        conditions.severe_thermal_state ==> must_pause(user_paused, conditions),
        conditions.memory_pressure ==> must_pause(user_paused, conditions),
        !user_paused && conditions.volume_available && !conditions.severe_thermal_state
            && !conditions.memory_pressure ==> !must_pause(user_paused, conditions),
{
}

/// Power is short in low power mode, and on a battery in use whose charge is known to be a fifth or
/// less. A battery that is not in use, or whose charge is unknown, is not short.
pub proof fn power_is_short_on_a_low_battery(conditions: ResourceConditions, percent: u8)
    ensures
        conditions.low_power_mode ==> power_is_short(conditions),
        conditions.on_battery && conditions.battery_percent == Some(percent) && 5 * percent <= 100
            ==> power_is_short(conditions),
        !conditions.low_power_mode && conditions.battery_percent == Some(percent) && 5 * percent
            > 100 ==> !power_is_short(conditions),
        !conditions.low_power_mode && !conditions.on_battery ==> !power_is_short(conditions),
        !conditions.low_power_mode && conditions.battery_percent is None ==> !power_is_short(
            conditions,
        ),
{
}

} // verus!
