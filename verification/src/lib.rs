//! A tick-based simulation harness together with a trace-aggregation and
//! proportional-geometry engine: repeated samples of nested execution-timing
//! trees are folded into one aggregated tree with per-node averages, and a
//! recursive layout specification subdivides rectangles among weighted or
//! time-proportional children, both for UI regions and for rendering the
//! aggregated trace as a nested icicle diagram.

pub mod duration_text;
pub mod folded;
pub mod geom;
pub mod icicle;
pub mod imap;
pub mod layout;
pub mod span;

use vstd::prelude::*;

verus! {

/// A simulation advances a caller-owned state by one tick at a time.
pub trait Simulation {
    type TState;

    fn tick(&mut self, state: &mut Self::TState);
}

/// Owns a simulation together with its state and advances them tick by tick.
pub struct Simulator<TSimulation> where TSimulation: Simulation {
    simulation: TSimulation,
    state: TSimulation::TState,
}

impl<TSimulation> Simulator<TSimulation> where TSimulation: Simulation {
    pub closed spec fn spec_simulation(&self) -> TSimulation {
        self.simulation
    }

    pub closed spec fn spec_state(&self) -> TSimulation::TState {
        self.state
    }

    pub fn new(simulation: TSimulation, init_state: TSimulation::TState) -> (r: Self)
        ensures
            r.spec_simulation() == simulation,
            r.spec_state() == init_state,
    {
        Self { simulation, state: init_state }
    }

    /// Advances the state by one tick of the owned simulation. What the new
    /// state is depends on the `Simulation` implementation alone, so nothing
    /// more is promised here.
    pub fn tick(&mut self) {
        self.simulation.tick(&mut self.state);
    }

    pub fn state(&self) -> (r: &TSimulation::TState)
        ensures
            *r == self.spec_state(),
    {
        &self.state
    }
}

/// Configuration for a statistics-tracking simulator: statistics are recorded
/// every `step` ticks.
pub struct StatisticsTrackingSimulatorConfig {
    step: usize,
}

impl StatisticsTrackingSimulatorConfig {
    pub closed spec fn spec_step(&self) -> usize {
        self.step
    }

    pub fn step(self, step: usize) -> (r: Self)
        ensures
            r.spec_step() == step,
    {
        StatisticsTrackingSimulatorConfig { step }
    }

    pub fn get_step(&self) -> (r: usize)
        ensures
            r == self.spec_step(),
    {
        self.step
    }
}

impl Default for StatisticsTrackingSimulatorConfig {
    fn default() -> (r: Self)
        ensures
            r.spec_step() == 1,
    {
        StatisticsTrackingSimulatorConfig { step: 1 }
    }
}

} // verus!
