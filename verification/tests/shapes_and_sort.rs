use particle_sim::particles::operations::operation::OperationContext;
use particle_sim::particles::particle::ParticleTopology;
use particle_sim::particles::particle_manipulator::ParticleManipulator;
use particle_sim::particles::shape_builder::adjacent_sticks::AdjacentSticks;
use particle_sim::simulation::particles::simulation_demos::SimulationDemos;
use particle_sim::sort::{dispatch_count, first_unsorted_index, reversed_input};

#[test]
fn adjacent_sticks_without_wrap() {
    let sticks = AdjacentSticks::new("template", 1, false);
    assert_eq!(*sticks.constraint_template(), "template");
    assert_eq!(sticks.stride(), 1);
    assert!(!sticks.wrap_around());
    let pairs = sticks.stick_handle_pairs(&vec![10, 11, 12, 13]);
    assert_eq!(pairs, vec![(10, 11), (11, 12), (12, 13)]);
}

#[test]
fn adjacent_sticks_with_wrap() {
    let sticks = AdjacentSticks::new((), 2, true);
    let pairs = sticks.stick_handle_pairs(&vec![10, 11, 12, 13]);
    assert_eq!(pairs, vec![(10, 12), (11, 13), (12, 10), (13, 11)]);
}

#[test]
fn adjacent_sticks_long_stride() {
    let sticks = AdjacentSticks::new(0u8, 5, false);
    assert!(sticks.stick_handle_pairs(&vec![1, 2, 3]).is_empty());
    assert!(sticks.stick_handle_pairs(&vec![]).is_empty());
}

#[test]
fn reversed_input_descends() {
    let data = reversed_input(128 * 9);
    assert_eq!(data.len(), 1152);
    assert_eq!(data[0], 1151);
    assert_eq!(data[1151], 0);
    assert_eq!(first_unsorted_index(&data), Some(1));
    assert!(reversed_input(0).is_empty());
}

#[test]
fn dispatches_cover_every_item() {
    assert_eq!(dispatch_count(1152, 128), 9);
    assert_eq!(dispatch_count(1153, 128), 10);
    assert_eq!(dispatch_count(0, 128), 0);
    assert_eq!(dispatch_count(1, 128), 1);
    assert_eq!(dispatch_count(u32::MAX, 1), u32::MAX);
    assert_eq!(dispatch_count(u32::MAX, 2), 1 << 31);
}

#[test]
fn sortedness_check() {
    assert_eq!(first_unsorted_index(&[]), None);
    assert_eq!(first_unsorted_index(&[4]), None);
    assert_eq!(first_unsorted_index(&[1, 2, 3]), None);
    assert_eq!(first_unsorted_index(&[1, 2, 2, 5]), Some(2));
    assert_eq!(first_unsorted_index(&[3, 1]), Some(1));
}

#[test]
fn plain_helpers() {
    let _ctx = OperationContext {};
    let _m = ParticleManipulator::new();
    let _d = SimulationDemos {};
    let mut p = ParticleTopology::default();
    assert!(p.is_simulated());
    p.set_static(true);
    assert!(!p.is_simulated());
    let mut q = ParticleTopology::default();
    q.set_merged(true);
    assert!(!q.is_simulated());
}
