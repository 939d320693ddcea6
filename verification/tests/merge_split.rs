use particle_sim::particles::operations::merge::{build_meta_tree, merge, Merge};
use particle_sim::particles::operations::split::split_meta_particles;
use particle_sim::particles::particle::{ParticleTopology, ParticleType};
use particle_sim::particles::particle_vec::TopologyVec;

/// A contact table of `n` particles in which the listed pairs collide.
fn contacts(n: usize, pairs: &[(usize, usize)]) -> Vec<Vec<bool>> {
    let mut c = vec![vec![false; n]; n];
    for &(a, b) in pairs {
        c[a][b] = true;
    }
    c
}

#[test]
fn merge_2_intersecting() {
    // p1 at the origin moving right, p2 at (0.9, 0): they overlap and approach.
    let p1 = ParticleTopology::default();
    let p2 = ParticleTopology::default();

    let mut ps = TopologyVec::from_vec(vec![p1, p2]);

    assert_eq!(ps.get(0).particle_type, ParticleType::Particle);
    assert_eq!(ps.get(0).is_merged, false);

    assert_eq!(ps.get(1).particle_type, ParticleType::Particle);
    assert_eq!(ps.get(1).is_merged, false);

    // This should merge p2 and p1 as they intersect.
    let psm = Merge::default();
    psm.execute(&mut ps, &contacts(2, &[(0, 1)]));

    assert_eq!(ps.len(), 3); // A meta particle has been added to the Particle System.

    assert_eq!(ps.get(0).particle_type, ParticleType::Particle);
    assert_eq!(ps.get(0).is_merged, true);
    assert_eq!(ps.get(0).index, 0);

    assert_eq!(ps.get(1).particle_type, ParticleType::Particle);
    assert_eq!(ps.get(1).is_merged, true);
    assert_eq!(ps.get(1).index, 1);

    assert_eq!(ps.get(2).particle_type, ParticleType::MetaParticle);
    assert_eq!(ps.get(2).is_merged, false);
    assert_eq!(ps.get(2).index, 2);
    assert_eq!(ps.get(2).left_index, 0);
    assert_eq!(ps.get(2).right_index, 1);
}

#[test]
fn merge_3_intersecting() {
    // p1 at the origin moving right, p2 at (0.9, 0), p3 at (0.5, 0.5): p1
    // collides with both, p2 and p3 do not move towards each other.
    let p1 = ParticleTopology::default();
    let p2 = ParticleTopology::default();
    let p3 = ParticleTopology::default();

    let mut ps = TopologyVec::from_vec(vec![p1, p2, p3]);

    assert_eq!(ps.get(0).particle_type, ParticleType::Particle);
    assert_eq!(ps.get(0).is_merged, false);

    assert_eq!(ps.get(1).particle_type, ParticleType::Particle);
    assert_eq!(ps.get(1).is_merged, false);

    assert_eq!(ps.get(2).particle_type, ParticleType::Particle);
    assert_eq!(ps.get(2).is_merged, false);

    // This should merge p1, p2 and p3 as they intersect.
    let psm = Merge::default();
    psm.execute(&mut ps, &contacts(3, &[(0, 1), (0, 2)]));

    assert_eq!(ps.len(), 5); // 3 original particles + 2 meta particles.

    assert_eq!(ps.get(0).particle_type, ParticleType::Particle);
    assert_eq!(ps.get(0).is_merged, true);

    assert_eq!(ps.get(1).particle_type, ParticleType::Particle);
    assert_eq!(ps.get(1).is_merged, true);

    assert_eq!(ps.get(2).particle_type, ParticleType::Particle);
    assert_eq!(ps.get(2).is_merged, true);

    assert_eq!(ps.get(3).particle_type, ParticleType::MetaParticle); // The merging of p2 and p3 -> p23
    assert_eq!(ps.get(3).is_merged, true);
    assert_eq!(ps.get(3).left_index, 1);
    assert_eq!(ps.get(3).right_index, 2);

    assert_eq!(ps.get(4).particle_type, ParticleType::MetaParticle); // The merging of p1 and p23 -> p123
    assert_eq!(ps.get(4).is_merged, false);
    assert_eq!(ps.get(4).left_index, 0);
    assert_eq!(ps.get(4).right_index, 3);
}

#[test]
fn ignore_non_intersecting() {
    // p2 at (1.1, 0) does not touch p1 at the origin.
    let p1 = ParticleTopology::default();
    let p2 = ParticleTopology::default();

    let mut ps = TopologyVec::from_vec(vec![p1, p2]);

    assert_eq!(ps.get(0).particle_type, ParticleType::Particle);
    assert_eq!(ps.get(1).particle_type, ParticleType::Particle);

    // This should NOT merge p1 and p2, as they are not close enough.
    let psm = Merge::default();
    psm.execute(&mut ps, &contacts(2, &[]));

    assert_eq!(ps.get(0).particle_type, ParticleType::Particle);
    assert_eq!(ps.get(1).particle_type, ParticleType::Particle);
    assert_eq!(ps.len(), 2);
}

#[test]
fn two_static_particles_never_merge() {
    let mut p = ParticleTopology::default();
    p.set_static(true);
    let ps = TopologyVec::from_vec(vec![p, p]);
    let collisions = Merge::default().compute_collisions(&ps, &contacts(2, &[(0, 1)]));
    assert_eq!(collisions, vec![vec![0], vec![1]]);
}

#[test]
fn one_static_particle_merges() {
    let mut p = ParticleTopology::default();
    p.set_static(true);
    let q = ParticleTopology::default();
    let mut ps = TopologyVec::from_vec(vec![p, q]);
    Merge::default().execute(&mut ps, &contacts(2, &[(0, 1)]));
    assert_eq!(ps.len(), 3);
    assert!(ps.get(0).is_static);
    assert!(!ps.get(2).is_static);
}

#[test]
fn compute_collisions_lists_later_partners() {
    let ps = TopologyVec::from_vec(vec![ParticleTopology::default(); 4]);
    let c = contacts(4, &[(0, 2), (0, 3), (1, 3), (2, 1)]);
    let collisions = Merge::default().compute_collisions(&ps, &c);
    // The entry (2, 1) is below the diagonal and is never consulted.
    assert_eq!(collisions, vec![vec![0, 2, 3], vec![1, 3], vec![2], vec![3]]);
}

#[test]
fn build_meta_tree_balances() {
    let mut ps = TopologyVec::from_vec(vec![ParticleTopology::default(); 4]);
    let root = build_meta_tree(&[0, 1, 2, 3], &mut ps);
    assert_eq!(ps.len(), 7);
    // [0, 1] -> 4, [2, 3] -> 5, [4, 5] -> 6
    assert_eq!((ps.get(4).left_index, ps.get(4).right_index), (0, 1));
    assert_eq!((ps.get(5).left_index, ps.get(5).right_index), (2, 3));
    assert_eq!((ps.get(6).left_index, ps.get(6).right_index), (4, 5));
    assert_eq!(root.index, 6);
    assert_eq!(root.particle_type, ParticleType::MetaParticle);
    for i in 0..6 {
        assert!(ps.get(i).is_merged);
    }
    assert!(!ps.get(6).is_merged);
}

#[test]
fn build_meta_tree_single_index_changes_nothing() {
    let mut ps = TopologyVec::from_vec(vec![ParticleTopology::default(); 2]);
    let root = build_meta_tree(&[1], &mut ps);
    assert_eq!(ps.len(), 2);
    assert_eq!(root, ps.get(1));
    assert!(!ps.get(1).is_merged);
}

#[test]
fn merge_links_children() {
    let mut a = ParticleTopology::default();
    a.set_index(7);
    let mut b = ParticleTopology::default();
    b.set_index(9);
    let m = merge(a, b);
    assert_eq!(m.particle_type, ParticleType::MetaParticle);
    assert_eq!(m.left_index, 7);
    assert_eq!(m.right_index, 9);
    assert_eq!(m.index, usize::MAX);
    assert!(!m.is_merged);
}

#[test]
fn merge_and_split_2_restores_particles() {
    let original = TopologyVec::from_vec(vec![ParticleTopology::default(); 2]);
    let mut ps = TopologyVec::from_vec(vec![ParticleTopology::default(); 2]);
    Merge::default().execute(&mut ps, &contacts(2, &[(0, 1)]));
    assert_eq!(ps.len(), 3);
    let order = split_meta_particles(&mut ps);
    assert_eq!(order, vec![2]);
    assert_eq!(ps.as_slice(), original.as_slice());
}

#[test]
fn merge_and_split_3_restores_particles() {
    let original = TopologyVec::from_vec(vec![ParticleTopology::default(); 3]);
    let mut ps = TopologyVec::from_vec(vec![ParticleTopology::default(); 3]);
    Merge::default().execute(&mut ps, &contacts(3, &[(0, 1), (0, 2)]));
    assert_eq!(ps.len(), 5);
    let order = split_meta_particles(&mut ps);
    assert_eq!(order, vec![4, 3]);
    assert_eq!(ps.len(), 3);
    for i in 0..3 {
        assert_eq!(ps.get(i).particle_type, ParticleType::Particle);
        assert!(!ps.get(i).is_merged);
    }
    assert_eq!(ps.as_slice(), original.as_slice());
}

#[test]
fn split_without_meta_particles_changes_nothing() {
    let mut ps = TopologyVec::from_vec(vec![ParticleTopology::default(); 3]);
    ps.set_merged(1, true);
    let order = split_meta_particles(&mut ps);
    assert!(order.is_empty());
    assert_eq!(ps.len(), 3);
    assert!(ps.get(1).is_merged);
}

#[test]
fn split_overlapping_lists() {
    // Particle 1 belongs to the lists of 0 and of 1 (via 2): it is hidden
    // twice, and a single split shows it again.
    let mut ps = TopologyVec::from_vec(vec![ParticleTopology::default(); 3]);
    Merge::default().execute(&mut ps, &contacts(3, &[(0, 1), (1, 2)]));
    assert_eq!(ps.len(), 5);
    assert_eq!((ps.get(3).left_index, ps.get(3).right_index), (0, 1));
    assert_eq!((ps.get(4).left_index, ps.get(4).right_index), (1, 2));
    split_meta_particles(&mut ps);
    assert_eq!(ps.len(), 3);
    for i in 0..3 {
        assert!(!ps.get(i).is_merged);
    }
}

#[test]
fn static_partners_of_one_particle_share_a_meta_particle() {
    // A dynamic particle colliding with two static ones: the balanced tree
    // over [0, 1, 2] joins the two static particles first.
    let q = ParticleTopology::default();
    let mut p = ParticleTopology::default();
    p.set_static(true);
    let mut ps = TopologyVec::from_vec(vec![q, p, p]);
    Merge::default().execute(&mut ps, &contacts(3, &[(0, 1), (0, 2)]));
    assert_eq!(ps.len(), 5);
    assert_eq!((ps.get(3).left_index, ps.get(3).right_index), (1, 2));
    assert!(ps.get(1).is_static && ps.get(2).is_static);
    assert_eq!((ps.get(4).left_index, ps.get(4).right_index), (0, 3));
}
