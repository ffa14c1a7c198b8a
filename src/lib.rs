//! Monte Carlo estimation of the birthday paradox: a small xorshift generator,
//! calendar formatting of days of the year, sets of sampled birthdays, a
//! bitset-based duplicate detector and a trial-counting simulation driver.

pub mod birthday;
pub mod detect;
pub mod random;
pub mod simulation;
pub mod storage;

pub use birthday::{Birthday, DAYS_IN_YEAR};
pub use detect::{detect_collision, find_duplicate, has_duplicate};
pub use random::{u16, u64_to_u16, FastRng};
pub use simulation::{
    estimate_from_draws, estimate_probability, run_simulations, run_trials, sample_set,
    SimulationError, SimulationResult,
};
pub use storage::{BirthdayStorage, MAX_BIRTHDAYS};
