use simulate::duration_text::{u64_to_string, HumanReadableDuration};
use simulate::{Simulation, Simulator, StatisticsTrackingSimulatorConfig};

struct AddOneSimulation;

impl Simulation for AddOneSimulation {
    type TState = u32;

    fn tick(&mut self, state: &mut u32) {
        *state += 1;
    }
}

#[test]
fn simulator_advances_its_state_tick_by_tick() {
    let mut sim = Simulator::new(AddOneSimulation, 0u32);
    assert_eq!(*sim.state(), 0);
    for _ in 0..10 {
        sim.tick();
    }
    assert_eq!(*sim.state(), 10);
}

#[test]
fn config_records_the_step() {
    let config = StatisticsTrackingSimulatorConfig::default();
    assert_eq!(config.get_step(), 1);
    let config = config.step(25);
    assert_eq!(config.get_step(), 25);
}

#[test]
fn decimal_rendering_of_integers() {
    assert_eq!(u64_to_string(0), "0");
    assert_eq!(u64_to_string(7), "7");
    assert_eq!(u64_to_string(10), "10");
    assert_eq!(u64_to_string(1234567890), "1234567890");
    assert_eq!(u64_to_string(u64::MAX), "18446744073709551615");
}

#[test]
fn durations_pick_the_coarsest_readable_unit() {
    assert_eq!(HumanReadableDuration(0).to_text(), "0 ns");
    assert_eq!(HumanReadableDuration(9999).to_text(), "9999 ns");
    assert_eq!(HumanReadableDuration(10000).to_text(), "10 us");
    assert_eq!(HumanReadableDuration(9_999_999).to_text(), "9999 us");
    assert_eq!(HumanReadableDuration(10_000_000).to_text(), "10 ms");
    assert_eq!(HumanReadableDuration(9_999_999_999).to_text(), "9999 ms");
    assert_eq!(HumanReadableDuration(10_000_000_000).to_text(), "10 s");
    assert_eq!(HumanReadableDuration(90_000_000_000).to_text(), "90 s");
}
