//! How an exploration is carried out.

use crate::loc::CommunicationModel;
use vstd::prelude::*;

verus! {

/// Whether all executions are visited or their number is estimated.
#[derive(Clone, Copy, Debug, PartialEq, Eq, Structural)]
pub enum ExplorationMode {
    Verification,
    Estimation,
}

/// Which of the runnable tasks runs next.
#[derive(Clone, Copy, Debug, PartialEq, Eq, Structural)]
pub enum SchedulePolicy {
    /// The first one.
    LTR,
    /// One at random.
    Arbitrary,
}

/// How the messages of one sender are ordered.
#[derive(Clone, Copy, Debug, PartialEq, Eq, Structural)]
pub enum ConsType {
    Bag,
    FIFO,
}

impl ConsType {
    /// The communication model that a send under this setting has.
    pub fn model(self) -> (m: CommunicationModel)
        ensures
            self is Bag ==> m is NoOrder,
            self is FIFO ==> m is LocalOrder,
    {
        match self {
            ConsType::Bag => CommunicationModel::NoOrder,
            ConsType::FIFO => CommunicationModel::LocalOrder,
        }
    }
}

/// The settings of an exploration.
#[derive(Clone, Copy, Debug, PartialEq, Eq, Structural)]
pub struct Config {
    pub mode: ExplorationMode,
    pub schedule_policy: SchedulePolicy,
    pub cons_type: ConsType,
    /// Whether symmetric threads are told apart.
    pub symmetry: bool,
    /// How many messages may be lost in one execution.
    pub lossy_budget: usize,
    /// A thread with more events than this draws a warning.
    pub thread_threshold: u32,
    /// Whether a warning ends the process.
    pub warnings_as_errors: bool,
    /// How often progress is reported; zero for ever rarer reports.
    pub progress_report: u64,
    /// How many executions are visited at most.
    pub max_iterations: Option<u64>,
    pub verbose: usize,
    /// Whether pictures of the graphs are kept.
    pub tikz: bool,
    /// Whether a failing execution is kept to be replayed.
    pub error_trace: bool,
    pub seed: u64,
}

impl Config {
    pub open spec fn default_config() -> Config {
        Config {
            mode: ExplorationMode::Verification,
            schedule_policy: SchedulePolicy::LTR,
            cons_type: ConsType::FIFO,
            symmetry: false,
            lossy_budget: 0,
            thread_threshold: 1000,
            warnings_as_errors: false,
            progress_report: 0,
            max_iterations: None,
            verbose: 0,
            tikz: false,
            error_trace: false,
            seed: 0,
        }
    }

    pub fn new() -> (c: Self)
        ensures
            c == Config::default_config(),
    {
        Config {
            mode: ExplorationMode::Verification,
            schedule_policy: SchedulePolicy::LTR,
            cons_type: ConsType::FIFO,
            symmetry: false,
            lossy_budget: 0,
            thread_threshold: 1000,
            warnings_as_errors: false,
            progress_report: 0,
            max_iterations: None,
            verbose: 0,
            tikz: false,
            error_trace: false,
            seed: 0,
        }
    }

    pub fn with_cons_type(self, cons_type: ConsType) -> (c: Self)
        ensures
            c == (Config { cons_type, ..self }),
    {
        Config { cons_type, ..self }
    }
}

} // verus!
