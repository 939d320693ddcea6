use vstd::prelude::*;
use crate::simulation::particles::particle::Phase;

verus! {

/// The contact constraint that joins two colliding particles.
#[derive(Debug, Clone, Copy, PartialEq, Eq, Structural)]
pub enum ContactKind {
    /// Rigid contact, with friction: between two solid particles.
    RigidContact,
    /// Plain contact, without friction: between a solid and a non-solid
    /// particle.
    Contact,
}

/// The body number of a particle that belongs to no rigid body.
pub open spec fn no_body() -> isize {
    -1isize
}

/// Which contact constraint a pair of particles receives. Two immovable
/// particles never collide, nor do two particles of the same rigid body;
/// otherwise overlapping particles collide, rigidly when both are solid,
/// plainly when one is, and not at all when neither is.
pub open spec fn contact_kind(
    phase1: Phase,
    phase2: Phase,
    body1: isize,
    body2: isize,
    both_immovable: bool,
    overlapping: bool,
) -> Option<ContactKind> {
    if both_immovable {
        None
    } else if phase1 == Phase::Solid && phase2 == Phase::Solid && body1 == body2 && body1 != no_body() {
        None
    } else if !overlapping {
        None
    } else if phase1 == Phase::Solid && phase2 == Phase::Solid {
        Some(ContactKind::RigidContact)
    } else if phase1 == Phase::Solid || phase2 == Phase::Solid {
        Some(ContactKind::Contact)
    } else {
        None
    }
}

/// Which pairs receive which contact constraint: a rigid contact exactly when
/// both particles are solid, at least one can move, they overlap, and they
/// are not two particles of the same rigid body; a plain contact exactly when
/// one particle is solid and the other is not, at least one can move, and
/// they overlap. So a pair in which neither particle is solid never receives
/// a contact constraint.
pub proof fn lemma_contact_kind_cases(
    phase1: Phase,
    phase2: Phase,
    body1: isize,
    body2: isize,
    both_immovable: bool,
    overlapping: bool,
)
    ensures
        (contact_kind(phase1, phase2, body1, body2, both_immovable, overlapping) == Some(
            ContactKind::RigidContact,
        )) <==> (phase1 == Phase::Solid && phase2 == Phase::Solid && !both_immovable && overlapping
            && !(body1 == body2 && body1 != -1)),
        (contact_kind(phase1, phase2, body1, body2, both_immovable, overlapping) == Some(
            ContactKind::Contact,
        )) <==> ((phase1 == Phase::Solid) != (phase2 == Phase::Solid) && !both_immovable
            && overlapping),
        phase1 != Phase::Solid && phase2 != Phase::Solid ==> contact_kind(
            phase1,
            phase2,
            body1,
            body2,
            both_immovable,
            overlapping,
        ) is None,
{
}

/// The contact constraint, if any, that a step of the simulation creates for
/// two particles, given their phases and bodies, whether both have infinite
/// mass, and whether their predicted positions overlap.
pub fn contact_constraint_kind(
    phase1: Phase,
    phase2: Phase,
    body1: isize,
    body2: isize,
    both_immovable: bool,
    overlapping: bool,
) -> (kind: Option<ContactKind>)
    ensures
        kind == contact_kind(phase1, phase2, body1, body2, both_immovable, overlapping),
{
    // Skip collision between two immovables
    if both_immovable {
        return None;
    }
    // Skip collisions between particles in the same rigid body
    let both_solid = phase1 == Phase::Solid && phase2 == Phase::Solid;
    if both_solid && body1 == body2 && body1 != -1 {
        return None;
    }
    if !overlapping {
        return None;
    }
    if both_solid {
        Some(ContactKind::RigidContact)
    } else if phase1 == Phase::Solid || phase2 == Phase::Solid {
        Some(ContactKind::Contact)
    } else {
        None
    }
}

/// The contact constraint, if any, of particles `a` and `b`, read from the
/// per-particle phases, bodies and immovability flags and the overlap table.
pub open spec fn pair_contact_kind(
    phases: Seq<Phase>,
    bodies: Seq<isize>,
    immovable: Seq<bool>,
    overlapping: Seq<Vec<bool>>,
    a: int,
    b: int,
) -> Option<ContactKind> {
    contact_kind(
        phases[a],
        phases[b],
        bodies[a],
        bodies[b],
        immovable[a] && immovable[b],
        overlapping[a]@[b],
    )
}

/// Pair `(a, b)` comes before position `(i, j)` of the search, which visits
/// the pairs row by row.
pub open spec fn visited_before(a: int, b: int, i: int, j: int) -> bool {
    a < i || (a == i && b < j)
}

/// `pairs` lists, in increasing order, exactly the pairs `a < b` visited
/// before position `(i, j)` whose contact constraint is `kind`.
pub open spec fn lists_pairs_before(
    pairs: Seq<(usize, usize)>,
    phases: Seq<Phase>,
    bodies: Seq<isize>,
    immovable: Seq<bool>,
    overlapping: Seq<Vec<bool>>,
    kind: ContactKind,
    i: int,
    j: int,
) -> bool {
    &&& forall|k: int|
        0 <= k < pairs.len() ==> {
            let (a, b) = #[trigger] pairs[k];
            &&& a < b < phases.len()
            &&& visited_before(a as int, b as int, i, j)
            &&& pair_contact_kind(phases, bodies, immovable, overlapping, a as int, b as int)
                == Some(kind)
        }
    &&& forall|a: int, b: int|
        0 <= a < b < phases.len() && visited_before(a, b, i, j) && pair_contact_kind(
            phases,
            bodies,
            immovable,
            overlapping,
            a,
            b,
        ) == Some(kind) ==> exists|k: int|
            0 <= k < pairs.len() && #[trigger] pairs[k] == (a as usize, b as usize)
    &&& forall|k: int, l: int|
        0 <= k < l < pairs.len() ==> visited_before(
            pairs[k].0 as int,
            pairs[k].1 as int,
            pairs[l].0 as int,
            pairs[l].1 as int,
        )
}

/// `pairs` lists, in increasing order, exactly the pairs `a < b` of particles
/// whose contact constraint is `kind`.
pub open spec fn lists_pairs_of_kind(
    pairs: Seq<(usize, usize)>,
    phases: Seq<Phase>,
    bodies: Seq<isize>,
    immovable: Seq<bool>,
    overlapping: Seq<Vec<bool>>,
    kind: ContactKind,
) -> bool {
    lists_pairs_before(pairs, phases, bodies, immovable, overlapping, kind, phases.len() as int, 0)
}

/// The search positions `(i1, j1)` and `(i2, j2)` have visited the same
/// pairs, so a list of the pairs before one is a list of those before the
/// other.
proof fn lemma_same_pairs_visited(
    pairs: Seq<(usize, usize)>,
    phases: Seq<Phase>,
    bodies: Seq<isize>,
    immovable: Seq<bool>,
    overlapping: Seq<Vec<bool>>,
    kind: ContactKind,
    i1: int,
    j1: int,
    i2: int,
    j2: int,
)
    requires
        lists_pairs_before(pairs, phases, bodies, immovable, overlapping, kind, i1, j1),
        forall|a: int, b: int|
            0 <= a < b < phases.len() ==> (visited_before(a, b, i1, j1) <==> visited_before(
                a,
                b,
                i2,
                j2,
            )),
    ensures
        lists_pairs_before(pairs, phases, bodies, immovable, overlapping, kind, i2, j2),
{
    assert forall|k: int| 0 <= k < pairs.len() implies {
        let (a, b) = #[trigger] pairs[k];
        &&& a < b < phases.len()
        &&& visited_before(a as int, b as int, i2, j2)
        &&& pair_contact_kind(phases, bodies, immovable, overlapping, a as int, b as int) == Some(
            kind,
        )
    } by {
        let (a, b) = pairs[k];
        assert(visited_before(a as int, b as int, i1, j1));
    }
    assert forall|a: int, b: int|
        0 <= a < b < phases.len() && visited_before(a, b, i2, j2) && pair_contact_kind(
            phases,
            bodies,
            immovable,
            overlapping,
            a,
            b,
        ) == Some(kind) implies exists|k: int|
        0 <= k < pairs.len() && #[trigger] pairs[k] == (a as usize, b as usize) by {
        assert(visited_before(a, b, i1, j1));
    }
}

/// One more step of the search, at pair `(i, j)`: the pair joins the list
/// exactly when its contact constraint is `kind`.
proof fn lemma_visit_pair(
    pairs: Seq<(usize, usize)>,
    phases: Seq<Phase>,
    bodies: Seq<isize>,
    immovable: Seq<bool>,
    overlapping: Seq<Vec<bool>>,
    kind: ContactKind,
    i: int,
    j: int,
)
    requires
        lists_pairs_before(pairs, phases, bodies, immovable, overlapping, kind, i, j),
        0 <= i < j < phases.len(),
        j <= usize::MAX,
    ensures
        pair_contact_kind(phases, bodies, immovable, overlapping, i, j) == Some(kind)
            ==> lists_pairs_before(
            pairs.push((i as usize, j as usize)),
            phases,
            bodies,
            immovable,
            overlapping,
            kind,
            i,
            j + 1,
        ),
        pair_contact_kind(phases, bodies, immovable, overlapping, i, j) != Some(kind)
            ==> lists_pairs_before(pairs, phases, bodies, immovable, overlapping, kind, i, j + 1),
{
    if pair_contact_kind(phases, bodies, immovable, overlapping, i, j) == Some(kind) {
        let p2 = pairs.push((i as usize, j as usize));
        assert forall|k: int| 0 <= k < p2.len() implies {
            let (a, b) = #[trigger] p2[k];
            &&& a < b < phases.len()
            &&& visited_before(a as int, b as int, i, j + 1)
            &&& pair_contact_kind(phases, bodies, immovable, overlapping, a as int, b as int)
                == Some(kind)
        } by {
            if k < pairs.len() {
                assert(p2[k] == pairs[k]);
            }
        }
        assert forall|a: int, b: int|
            0 <= a < b < phases.len() && visited_before(a, b, i, j + 1) && pair_contact_kind(
                phases,
                bodies,
                immovable,
                overlapping,
                a,
                b,
            ) == Some(kind) implies exists|k: int|
            0 <= k < p2.len() && #[trigger] p2[k] == (a as usize, b as usize) by {
            if a == i && b == j {
                assert(p2[pairs.len() as int] == (a as usize, b as usize));
            } else {
                assert(visited_before(a, b, i, j));
                let k = choose|k: int| 0 <= k < pairs.len() && #[trigger] pairs[k] == (a as usize, b as usize);
                assert(p2[k] == pairs[k]);
            }
        }
        assert forall|k: int, l: int| 0 <= k < l < p2.len() implies visited_before(
            p2[k].0 as int,
            p2[k].1 as int,
            p2[l].0 as int,
            p2[l].1 as int,
        ) by {
            assert(p2[k] == pairs[k]);
            if l < pairs.len() {
                assert(p2[l] == pairs[l]);
            } else {
                let (a, b) = pairs[k];
                assert(visited_before(a as int, b as int, i, j));
            }
        }
    } else {
        assert forall|a: int, b: int|
            0 <= a < b < phases.len() && visited_before(a, b, i, j + 1) && pair_contact_kind(
                phases,
                bodies,
                immovable,
                overlapping,
                a,
                b,
            ) == Some(kind) implies exists|k: int|
            0 <= k < pairs.len() && #[trigger] pairs[k] == (a as usize, b as usize) by {
            assert(visited_before(a, b, i, j));
        }
        assert forall|k: int| 0 <= k < pairs.len() implies {
            let (a, b) = #[trigger] pairs[k];
            &&& a < b < phases.len()
            &&& visited_before(a as int, b as int, i, j + 1)
            &&& pair_contact_kind(phases, bodies, immovable, overlapping, a as int, b as int)
                == Some(kind)
        } by {
            let (a, b) = pairs[k];
            assert(visited_before(a as int, b as int, i, j));
        }
    }
}

/// The contact search of a simulation step: walks every pair `i < j` of
/// particles in order and collects the pairs that get a rigid contact
/// constraint and those that get a plain contact constraint. Particle `i`
/// has phase `phases[i]`, body `bodies[i]`, infinite mass when
/// `immovable[i]`, and `overlapping[i][j]` tells whether the predicted
/// positions of `i` and `j` overlap.
pub fn find_contact_pairs(
    phases: &Vec<Phase>,
    bodies: &Vec<isize>,
    immovable: &Vec<bool>,
    overlapping: &Vec<Vec<bool>>,
) -> (found: (Vec<(usize, usize)>, Vec<(usize, usize)>))
    requires
        bodies.len() == phases.len(),
        immovable.len() == phases.len(),
        overlapping.len() == phases.len(),
        forall|a: int| 0 <= a < overlapping.len() ==> #[trigger] overlapping[a].len() == phases.len(),
    ensures
        lists_pairs_of_kind(found.0@, phases@, bodies@, immovable@, overlapping@, ContactKind::RigidContact),
        lists_pairs_of_kind(found.1@, phases@, bodies@, immovable@, overlapping@, ContactKind::Contact),
{
    let n = phases.len();
    let mut rigid: Vec<(usize, usize)> = Vec::new();
    let mut plain: Vec<(usize, usize)> = Vec::new();
    let mut i: usize = 0;
    while i < n
        invariant
            n == phases.len(),
            bodies.len() == n,
            immovable.len() == n,
            overlapping.len() == n,
            forall|a: int| 0 <= a < overlapping.len() ==> #[trigger] overlapping[a].len() == n,
            i <= n,
            lists_pairs_before(rigid@, phases@, bodies@, immovable@, overlapping@, ContactKind::RigidContact, i as int, 0),
            lists_pairs_before(plain@, phases@, bodies@, immovable@, overlapping@, ContactKind::Contact, i as int, 0),
        decreases n - i,
    {
        let mut j: usize = i + 1;
        proof {
            lemma_same_pairs_visited(rigid@, phases@, bodies@, immovable@, overlapping@, ContactKind::RigidContact, i as int, 0, i as int, j as int);
            lemma_same_pairs_visited(plain@, phases@, bodies@, immovable@, overlapping@, ContactKind::Contact, i as int, 0, i as int, j as int);
        }
        while j < n
            invariant
                n == phases.len(),
                bodies.len() == n,
                immovable.len() == n,
                overlapping.len() == n,
                forall|a: int| 0 <= a < overlapping.len() ==> #[trigger] overlapping[a].len() == n,
                i < n,
                i < j <= n,
                lists_pairs_before(rigid@, phases@, bodies@, immovable@, overlapping@, ContactKind::RigidContact, i as int, j as int),
                lists_pairs_before(plain@, phases@, bodies@, immovable@, overlapping@, ContactKind::Contact, i as int, j as int),
            decreases n - j,
        {
            assert(overlapping[i as int].len() == n);
            proof {
                lemma_visit_pair(rigid@, phases@, bodies@, immovable@, overlapping@, ContactKind::RigidContact, i as int, j as int);
                lemma_visit_pair(plain@, phases@, bodies@, immovable@, overlapping@, ContactKind::Contact, i as int, j as int);
            }
            let kind = contact_constraint_kind(
                phases[i],
                phases[j],
                bodies[i],
                bodies[j],
                immovable[i] && immovable[j],
                overlapping[i][j],
            );
            match kind {
                Some(ContactKind::RigidContact) => {
                    rigid.push((i, j));
                },
                Some(ContactKind::Contact) => {
                    plain.push((i, j));
                },
                None => {},
            }
            j += 1;
        }
        proof {
            lemma_same_pairs_visited(rigid@, phases@, bodies@, immovable@, overlapping@, ContactKind::RigidContact, i as int, n as int, i + 1, 0);
            lemma_same_pairs_visited(plain@, phases@, bodies@, immovable@, overlapping@, ContactKind::Contact, i as int, n as int, i + 1, 0);
        }
        i += 1;
    }
    (rigid, plain)
}

/// Every pair the contact search lists as a plain contact is one solid
/// particle and one that is not, and every pair it lists as a rigid contact
/// is two solid particles; each listed pair overlaps and has a particle that
/// can move.
pub proof fn lemma_listed_contacts(
    rigid: Seq<(usize, usize)>,
    plain: Seq<(usize, usize)>,
    phases: Seq<Phase>,
    bodies: Seq<isize>,
    immovable: Seq<bool>,
    overlapping: Seq<Vec<bool>>,
)
    requires
        lists_pairs_of_kind(rigid, phases, bodies, immovable, overlapping, ContactKind::RigidContact),
        lists_pairs_of_kind(plain, phases, bodies, immovable, overlapping, ContactKind::Contact),
    ensures
        forall|k: int|
            0 <= k < rigid.len() ==> {
                let (a, b) = #[trigger] rigid[k];
                &&& phases[a as int] == Phase::Solid && phases[b as int] == Phase::Solid
                &&& !(immovable[a as int] && immovable[b as int])
                &&& overlapping[a as int]@[b as int]
            },
        forall|k: int|
            0 <= k < plain.len() ==> {
                let (a, b) = #[trigger] plain[k];
                &&& (phases[a as int] == Phase::Solid) != (phases[b as int] == Phase::Solid)
                &&& !(immovable[a as int] && immovable[b as int])
                &&& overlapping[a as int]@[b as int]
            },
{
    assert forall|k: int| 0 <= k < rigid.len() implies {
        let (a, b) = #[trigger] rigid[k];
        &&& phases[a as int] == Phase::Solid && phases[b as int] == Phase::Solid
        &&& !(immovable[a as int] && immovable[b as int])
        &&& overlapping[a as int]@[b as int]
    } by {
        let (a, b) = rigid[k];
        lemma_contact_kind_cases(
            phases[a as int],
            phases[b as int],
            bodies[a as int],
            bodies[b as int],
            immovable[a as int] && immovable[b as int],
            overlapping[a as int]@[b as int],
        );
    }
    assert forall|k: int| 0 <= k < plain.len() implies {
        let (a, b) = #[trigger] plain[k];
        &&& (phases[a as int] == Phase::Solid) != (phases[b as int] == Phase::Solid)
        &&& !(immovable[a as int] && immovable[b as int])
        &&& overlapping[a as int]@[b as int]
    } by {
        let (a, b) = plain[k];
        lemma_contact_kind_cases(
            phases[a as int],
            phases[b as int],
            bodies[a as int],
            bodies[b as int],
            immovable[a as int] && immovable[b as int],
            overlapping[a as int]@[b as int],
        );
    }
}

/// A wall of the simulation's bounding box.
#[derive(Debug, Clone, Copy, PartialEq, Eq, Structural)]
pub enum BoundaryWall {
    /// The wall at the smallest `x`.
    MinX,
    /// The wall at the largest `x`.
    MaxX,
    /// The wall at the smallest `y`.
    MinY,
    /// The wall at the largest `y`.
    MaxY,
}

/// The boundary contacts of particle `i`: at most one wall along `x` (the
/// lower one when the particle reaches both) and then at most one along `y`.
pub open spec fn walls_of(
    i: int,
    below_min_x: bool,
    above_max_x: bool,
    below_min_y: bool,
    above_max_y: bool,
) -> Seq<(usize, BoundaryWall)> {
    let x: Seq<(usize, BoundaryWall)> = if below_min_x {
        seq![(i as usize, BoundaryWall::MinX)]
    } else if above_max_x {
        seq![(i as usize, BoundaryWall::MaxX)]
    } else {
        Seq::empty()
    };
    let y: Seq<(usize, BoundaryWall)> = if below_min_y {
        seq![(i as usize, BoundaryWall::MinY)]
    } else if above_max_y {
        seq![(i as usize, BoundaryWall::MaxY)]
    } else {
        Seq::empty()
    };
    x + y
}

/// The boundary contacts of the first `k` particles, particle by particle.
pub open spec fn boundary_contacts(
    below_min_x: Seq<bool>,
    above_max_x: Seq<bool>,
    below_min_y: Seq<bool>,
    above_max_y: Seq<bool>,
    k: int,
) -> Seq<(usize, BoundaryWall)>
    decreases k,
{
    if k <= 0 {
        Seq::empty()
    } else {
        boundary_contacts(below_min_x, above_max_x, below_min_y, above_max_y, k - 1) + walls_of(
            k - 1,
            below_min_x[k - 1],
            above_max_x[k - 1],
            below_min_y[k - 1],
            above_max_y[k - 1],
        )
    }
}

/// The boundary search of a simulation step: for each particle in order,
/// the wall along `x` and then the wall along `y` that its predicted
/// position reaches (`below_min_x[i]`: it reaches past the lowest `x`, and
/// so on).
pub fn find_boundary_contacts(
    below_min_x: &Vec<bool>,
    above_max_x: &Vec<bool>,
    below_min_y: &Vec<bool>,
    above_max_y: &Vec<bool>,
) -> (found: Vec<(usize, BoundaryWall)>)
    requires
        above_max_x.len() == below_min_x.len(),
        below_min_y.len() == below_min_x.len(),
        above_max_y.len() == below_min_x.len(),
    ensures
        found@ == boundary_contacts(
            below_min_x@,
            above_max_x@,
            below_min_y@,
            above_max_y@,
            below_min_x.len() as int,
        ),
{
    let n = below_min_x.len();
    let mut found: Vec<(usize, BoundaryWall)> = Vec::new();
    let mut i: usize = 0;
    while i < n
        invariant
            n == below_min_x.len(),
            above_max_x.len() == n,
            below_min_y.len() == n,
            above_max_y.len() == n,
            i <= n,
            found@ == boundary_contacts(below_min_x@, above_max_x@, below_min_y@, above_max_y@, i as int),
        decreases n - i,
    {
        let ghost before = found@;
        if below_min_x[i] {
            found.push((i, BoundaryWall::MinX));
        } else if above_max_x[i] {
            found.push((i, BoundaryWall::MaxX));
        }
        if below_min_y[i] {
            found.push((i, BoundaryWall::MinY));
        } else if above_max_y[i] {
            found.push((i, BoundaryWall::MaxY));
        }
        assert(found@ =~= before + walls_of(
            i as int,
            below_min_x@[i as int],
            above_max_x@[i as int],
            below_min_y@[i as int],
            above_max_y@[i as int],
        ));
        i += 1;
    }
    found
}

} // verus!
