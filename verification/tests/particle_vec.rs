use particle_sim::particles::particle::{ParticleTopology, ParticleType};
use particle_sim::particles::particle_vec::TopologyVec;

#[test]
fn new() {
    let ps = TopologyVec::new();
    assert_eq!(ps.as_slice(), &[] as &[ParticleTopology]);
}

#[test]
fn particle_vec_from_constructor() {
    let ps = TopologyVec::from_vec(vec![ParticleTopology::default(), ParticleTopology::default()]);
    assert_eq!(ps.len(), 2);
}

#[test]
fn from_vec_stamps_positions() {
    let ps = TopologyVec::from_vec(vec![ParticleTopology::default(); 3]);
    for i in 0..3 {
        assert_eq!(ps.get(i).index, i);
    }
}

#[test]
fn push_stamps_position() {
    let mut ps = TopologyVec::new();
    let mut p = ParticleTopology::default();
    p.set_index(42).set_static(true);
    ps.push(p);
    ps.push(p);
    assert_eq!(ps.len(), 2);
    assert_eq!(ps.get(0).index, 0);
    assert_eq!(ps.get(1).index, 1);
    assert!(ps.get(1).is_static);
}

#[test]
fn extend_stamps_positions() {
    let mut a = TopologyVec::from_vec(vec![ParticleTopology::default(); 2]);
    let b = TopologyVec::from_vec(vec![ParticleTopology::default(); 3]);
    a.extend(&b);
    assert_eq!(a.len(), 5);
    for i in 0..5 {
        assert_eq!(a.get(i).index, i);
    }
}

#[test]
fn truncate_and_clear() {
    let mut a = TopologyVec::from_vec(vec![ParticleTopology::default(); 4]);
    a.truncate(10);
    assert_eq!(a.len(), 4);
    a.truncate(1);
    assert_eq!(a.len(), 1);
    a.clear();
    assert_eq!(a.len(), 0);
}

#[test]
fn set_merged_changes_only_the_flag() {
    let mut a = TopologyVec::from_vec(vec![ParticleTopology::default(); 2]);
    a.set_merged(1, true);
    assert!(a.get(1).is_merged);
    assert!(!a.get(0).is_merged);
    assert_eq!(a.get(1).index, 1);
    assert_eq!(a.get(1).particle_type, ParticleType::Particle);
}

#[test]
fn particle_default() {
    let p = ParticleTopology::default();
    assert_eq!(p.index, usize::MAX);
    assert_eq!(p.particle_type, ParticleType::Particle);
    assert!(!p.is_merged);
    assert!(!p.is_static);
    assert_eq!(p.left_index, usize::MAX);
    assert_eq!(p.right_index, usize::MAX);
}

#[test]
fn setters_chain() {
    let mut p = ParticleTopology::default();
    p.set_particle_type(ParticleType::MetaParticle)
        .set_left_index(3)
        .set_right_index(4)
        .set_merged(true);
    assert_eq!(p.particle_type, ParticleType::MetaParticle);
    assert_eq!(p.left_index, 3);
    assert_eq!(p.right_index, 4);
    assert!(p.is_merged);
}
