use vstd::prelude::*;

verus! {

/// Why an optimisation was refused or could not be carried through.
#[derive(Clone, Copy, Debug, PartialEq, Eq, Structural)]
pub enum OptimizeError {
    /// A forecast series does not hold one value per timestep.
    SeriesLength,
    /// A price, a generation or a consumption forecast is negative.
    NegativeForecast,
    /// The fraction of the first timestep is not in `(0, 1]`.
    FirstTimestepFraction,
    /// A battery with a negative capacity, level or rate.
    BatteryNegative(u32),
    /// A battery whose initial level exceeds its capacity.
    BatteryInitialLevel(u32),
    /// A variable load with a negative total or cap.
    VariableNegative(u32),
    /// A variable load whose window is empty or ends after the day.
    VariableWindow(u32),
    /// A constant load with a negative consumption.
    ConstantNegative(u32),
    /// A constant load that does not fit its window, or whose window ends
    /// after the day.
    ConstantWindow(u32),
    /// A constant load that was assigned a start outside its window.
    AssignedOutOfWindow(u32),
    /// Two batteries, two variable loads or two constant loads share an id.
    DuplicateId(u32),
    /// The demand, or the size of the network, does not fit the machine's
    /// 64-bit arithmetic.
    TooLarge,
    /// No schedule delivers what the loads must consume.
    Infeasible,
    /// The solver gave up before it had found the sink out of reach. It
    /// does so only where prices or demand are beyond what its arithmetic
    /// holds.
    Internal,
}

} // verus!
