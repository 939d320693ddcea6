use particle_sim::particles::operations::merge::Merge;
use particle_sim::particles::particle::{ParticleTopology, ParticleType};
use particle_sim::particles::particle_vec::TopologyVec;
use particle_sim::simulation::constraints::constraint_counts::{
    add_count, add_counts_for_indices, add_pair_counts,
};
use particle_sim::simulation::constraints::contact_constraint::ContactConstraint;
use particle_sim::simulation::constraints::total_fluid_constraint::{
    init_neighbours_and_deltas_for_size, FluidParticles,
};
use particle_sim::simulation::constraints::volume_constraint::{polygon_edges, polygon_neighbours};
use particle_sim::simulation::particles::operations::split::{split, split_meta_particles};
use particle_sim::simulation::particles::particle::Phase;
use particle_sim::simulation::particles::particle_manipulator::ParticleManipulator;
use particle_sim::simulation::particles::shape_builder::circle::SpaceDistribution;
use particle_sim::simulation::particles::simulation::{
    contact_constraint_kind, find_boundary_contacts, find_contact_pairs, BoundaryWall, ContactKind,
};

fn contacts(n: usize, pairs: &[(usize, usize)]) -> Vec<Vec<bool>> {
    let mut c = vec![vec![false; n]; n];
    for &(a, b) in pairs {
        c[a][b] = true;
    }
    c
}

#[test]
fn contact_update_counts() {
    let c = ContactConstraint::new(0, 2, false);
    let mut counts = vec![0, 5, 1];
    c.update_counts(&mut counts);
    assert_eq!(counts, vec![1, 5, 2]);
    assert_eq!((c.i1, c.i2, c.stable), (0, 2, false));
}

#[test]
fn pair_counts_on_the_same_particle_add_two() {
    let mut counts = vec![3, 0];
    add_pair_counts(&mut counts, 0, 0);
    assert_eq!(counts, vec![5, 0]);
}

#[test]
fn single_count() {
    let mut counts = vec![0, 0, 0];
    add_count(&mut counts, 1);
    assert_eq!(counts, vec![0, 1, 0]);
}

#[test]
fn counts_for_indices_add_per_occurrence() {
    let mut counts = vec![0, 1, 2, 3];
    add_counts_for_indices(&mut counts, &vec![1, 3, 1], 2);
    assert_eq!(counts, vec![0, 5, 2, 5]);
    add_counts_for_indices(&mut counts, &vec![], 7);
    assert_eq!(counts, vec![0, 5, 2, 5]);
}

#[test]
fn neighbours_and_deltas_start_empty() {
    let (neighbours, deltas) = init_neighbours_and_deltas_for_size(3, (0.0f32, 0.0f32));
    assert_eq!(neighbours.len(), 3);
    assert!(neighbours.iter().all(|n| n.is_empty()));
    assert_eq!(deltas, vec![(0.0, 0.0); 3]);
    let (neighbours, deltas) = init_neighbours_and_deltas_for_size(0, 1u8);
    assert!(neighbours.is_empty() && deltas.is_empty());
}

#[test]
fn polygon_ring() {
    let idx = vec![4, 7, 9, 2];
    assert_eq!(polygon_edges(&idx), vec![(4, 7), (7, 9), (9, 2), (2, 4)]);
    assert_eq!(polygon_neighbours(&idx), vec![(2, 7), (4, 9), (7, 2), (9, 4)]);
    assert_eq!(polygon_edges(&vec![5]), vec![(5, 5)]);
    assert!(polygon_neighbours(&vec![]).is_empty());
}

#[test]
fn contact_kinds() {
    // Two immovable particles never collide.
    assert_eq!(contact_constraint_kind(Phase::Solid, Phase::Solid, -1, -1, true, true), None);
    // Particles of the same rigid body never collide.
    assert_eq!(contact_constraint_kind(Phase::Solid, Phase::Solid, 3, 3, false, true), None);
    // Solids of no body, or of different bodies, collide rigidly.
    assert_eq!(contact_constraint_kind(Phase::Solid, Phase::Solid, -1, -1, false, true), Some(ContactKind::RigidContact));
    assert_eq!(contact_constraint_kind(Phase::Solid, Phase::Solid, 1, 2, false, true), Some(ContactKind::RigidContact));
    // Solid against fluid: a plain contact.
    assert_eq!(contact_constraint_kind(Phase::Fluid, Phase::Solid, 1, 1, false, true), Some(ContactKind::Contact));
    assert_eq!(contact_constraint_kind(Phase::Solid, Phase::Gas, 1, 2, false, true), Some(ContactKind::Contact));
    // Fluid against gas: nothing.
    assert_eq!(contact_constraint_kind(Phase::Fluid, Phase::Gas, 1, 2, false, true), None);
    // Not overlapping: nothing.
    assert_eq!(contact_constraint_kind(Phase::Solid, Phase::Solid, 1, 2, false, false), None);
}

#[test]
fn manipulator_and_enums() {
    let _m = ParticleManipulator::new();
    assert_ne!(SpaceDistribution::AdjustRadius, SpaceDistribution::SpaceBetweenParticles);
    assert_ne!(Phase::Solid, Phase::Gas);
}

#[test]
fn recursive_split_undoes_merge_of_three() {
    let original = TopologyVec::from_vec(vec![ParticleTopology::default(); 3]);
    let mut ps = TopologyVec::from_vec(vec![ParticleTopology::default(); 3]);
    Merge::default().execute(&mut ps, &contacts(3, &[(0, 1), (0, 2)]));
    assert_eq!(ps.len(), 5);
    let order = split_meta_particles(&mut ps);
    // The root (4) splits first, then its right child (3).
    assert_eq!(order, vec![4, 3]);
    assert_eq!(ps.as_slice(), original.as_slice());
}

#[test]
fn recursive_split_of_a_balanced_tree() {
    let original = TopologyVec::from_vec(vec![ParticleTopology::default(); 4]);
    let mut ps = TopologyVec::from_vec(vec![ParticleTopology::default(); 4]);
    Merge::default().execute(&mut ps, &contacts(4, &[(0, 1), (0, 2), (0, 3)]));
    assert_eq!(ps.len(), 7);
    let order = split_meta_particles(&mut ps);
    // 6 joins 4 = (0, 1) and 5 = (2, 3): only the root is visible, and the
    // tree below it is split in preorder.
    assert_eq!(order, vec![6, 4, 5]);
    assert_eq!(ps.as_slice(), original.as_slice());
}

#[test]
fn recursive_split_leaves_ordinary_particles_alone() {
    let mut ps = TopologyVec::from_vec(vec![ParticleTopology::default(); 2]);
    ps.set_merged(0, true);
    let mut order = vec![];
    split(0, &mut ps, &mut order);
    assert!(order.is_empty());
    assert!(ps.get(0).is_merged);
    let order = split_meta_particles(&mut ps);
    assert!(order.is_empty());
    assert_eq!(ps.len(), 2);
}

#[test]
fn recursive_split_one_meta() {
    let mut ps = TopologyVec::from_vec(vec![ParticleTopology::default(); 2]);
    Merge::default().execute(&mut ps, &contacts(2, &[(0, 1)]));
    let mut order = vec![];
    split(2, &mut ps, &mut order);
    assert_eq!(order, vec![2]);
    assert_eq!(ps.len(), 3);
    assert!(!ps.get(0).is_merged && !ps.get(1).is_merged);
    assert_eq!(ps.get(2).particle_type, ParticleType::MetaParticle);
}

#[test]
fn contact_search_sorts_pairs_by_kind() {
    // Two solids of one body, a solid of no body, and a fluid, all overlapping.
    let phases = vec![Phase::Solid, Phase::Solid, Phase::Solid, Phase::Fluid];
    let bodies = vec![1, 1, -1, -1];
    let immovable = vec![false; 4];
    let overlapping = vec![vec![true; 4]; 4];
    let (rigid, plain) = find_contact_pairs(&phases, &bodies, &immovable, &overlapping);
    assert_eq!(rigid, vec![(0, 2), (1, 2)]);
    assert_eq!(plain, vec![(0, 3), (1, 3), (2, 3)]);
}

#[test]
fn contact_search_skips_immovable_and_apart_pairs() {
    let phases = vec![Phase::Solid, Phase::Solid, Phase::Solid];
    let bodies = vec![-1, -1, -1];
    let immovable = vec![true, true, false];
    // 0 and 1 overlap but cannot move; 1 and 2 do not overlap.
    let overlapping = contacts(3, &[(0, 1), (0, 2)]);
    let (rigid, plain) = find_contact_pairs(&phases, &bodies, &immovable, &overlapping);
    assert_eq!(rigid, vec![(0, 2)]);
    assert!(plain.is_empty());
    let (rigid, plain) = find_contact_pairs(&vec![], &vec![], &vec![], &vec![]);
    assert!(rigid.is_empty() && plain.is_empty());
}

#[test]
fn boundary_search_takes_one_wall_per_axis() {
    let below_min_x = vec![true, false, false];
    let above_max_x = vec![true, false, true];
    let below_min_y = vec![true, false, false];
    let above_max_y = vec![false, false, true];
    let found = find_boundary_contacts(&below_min_x, &above_max_x, &below_min_y, &above_max_y);
    assert_eq!(
        found,
        vec![
            (0, BoundaryWall::MinX),
            (0, BoundaryWall::MinY),
            (2, BoundaryWall::MaxX),
            (2, BoundaryWall::MaxY),
        ]
    );
}

#[test]
fn fluid_particles_track_membership() {
    let mut fluid = FluidParticles::new(&vec![4, 7, 9], 0u8);
    assert_eq!(fluid.ps, vec![4, 7, 9]);
    assert_eq!(fluid.deltas, vec![0, 0, 0]);
    assert!(fluid.neighbors.len() == 3 && fluid.neighbors.iter().all(|n| n.is_empty()));

    fluid.neighbors[1].push(4);
    fluid.deltas[1] = 5;
    fluid.add_particle(12, 0);
    assert_eq!(fluid.ps, vec![4, 7, 9, 12]);
    assert_eq!(fluid.deltas, vec![0, 0, 0, 0]);
    assert!(fluid.neighbors.len() == 4 && fluid.neighbors.iter().all(|n| n.is_empty()));

    // Removal is by position in the fluid, not by particle index.
    fluid.remove_particle(1, 0);
    assert_eq!(fluid.ps, vec![4, 9, 12]);
    assert_eq!(fluid.deltas, vec![0, 0, 0]);
    assert_eq!(fluid.neighbors.len(), 3);
}
