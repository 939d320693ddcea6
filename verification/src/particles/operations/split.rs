use vstd::prelude::*;
use crate::particles::particle::{ParticleTopology, ParticleType};
use crate::particles::particle_vec::{TopologyVec, indices_match_positions};
use crate::particles::operations::merge::{
    appended_metas,
    contacts_shaped,
    fresh_meta_at,
    lemma_merged_trees_appends,
    merge_pass,
    same_but_merged,
};

verus! {

pub open spec fn is_meta(p: ParticleTopology) -> bool {
    p.particle_type == ParticleType::MetaParticle
}

/// The position of the first meta particle of `s`, or `s.len()` when there
/// is none.
pub open spec fn meta_start(s: Seq<ParticleTopology>) -> int
    decreases s.len(),
{
    if s.len() == 0 {
        0
    } else if is_meta(s[0]) {
        0
    } else {
        1 + meta_start(s.drop_first())
    }
}

/// Some meta particle at a position in `lo..hi` has `j` as a child.
pub open spec fn child_in(s: Seq<ParticleTopology>, lo: int, hi: int, j: int) -> bool {
    exists|k: int|
        lo <= k < hi && #[trigger] is_meta(s[k]) && (s[k].left_index == j || s[k].right_index == j)
}

/// Once a meta particle appears, every later entry is a meta particle too,
/// and every meta particle names two particles of the vector as children.
pub open spec fn metas_well_formed(s: Seq<ParticleTopology>) -> bool {
    &&& forall|i: int, j: int|
        #![trigger is_meta(s[i]), is_meta(s[j])]
        0 <= i <= j < s.len() && is_meta(s[i]) ==> is_meta(s[j])
    &&& forall|k: int|
        0 <= k < s.len() && #[trigger] is_meta(s[k]) ==> s[k].left_index < s.len()
            && s[k].right_index < s.len()
}

/// The vector after a split pass: the particles before the first meta
/// particle, each child of some meta particle shown again; the meta
/// particles are gone.
pub open spec fn split_pass(s: Seq<ParticleTopology>) -> Seq<ParticleTopology> {
    let f = meta_start(s);
    Seq::new(
        f as nat,
        |j: int|
            ParticleTopology { is_merged: s[j].is_merged && !child_in(s, f, s.len() as int, j), ..s[j] },
    )
}

/// `meta_start` is the first meta particle, if there is one.
pub proof fn lemma_meta_start(s: Seq<ParticleTopology>)
    ensures
        0 <= meta_start(s) <= s.len(),
        forall|j: int| 0 <= j < meta_start(s) ==> !is_meta(#[trigger] s[j]),
        meta_start(s) < s.len() ==> is_meta(s[meta_start(s)]),
    decreases s.len(),
{
    if s.len() > 0 && !is_meta(s[0]) {
        lemma_meta_start(s.drop_first());
        assert forall|j: int| 0 <= j < meta_start(s) implies !is_meta(#[trigger] s[j]) by {
            if j > 0 {
                assert(s[j] == s.drop_first()[j - 1]);
            }
        }
    }
}

/// Splits every meta particle back into its two children, last meta particle
/// first, then removes the meta particles. Gives the positions of the meta
/// particles in the order they were split.
#[verifier::loop_isolation(false)]
pub fn split_meta_particles(ps: &mut TopologyVec) -> (order: Vec<usize>)
    requires
        metas_well_formed(old(ps)@),
    ensures
        final(ps)@ == split_pass(old(ps)@),
        order@.len() == old(ps)@.len() - meta_start(old(ps)@),
        forall|t: int| 0 <= t < order@.len() ==> #[trigger] order@[t] == old(ps)@.len() - 1 - t,
{
    let ghost s = ps@;
    proof {
        lemma_meta_start(s);
    }
    let particle_count = ps.len();
    let mut order: Vec<usize> = Vec::new();

    // Meta particles are always at the end of the vector: find the first.
    let mut first_meta_particle_index = particle_count;
    let mut i: usize = 0;
    while i < particle_count
        invariant
            0 <= i <= particle_count,
            particle_count == s.len(),
            ps@ == s,
            first_meta_particle_index <= particle_count,
            first_meta_particle_index == particle_count ==> forall|j: int|
                0 <= j < i ==> !is_meta(#[trigger] s[j]),
            first_meta_particle_index < particle_count ==> first_meta_particle_index == meta_start(s),
        decreases particle_count - i,
    {
        if first_meta_particle_index == particle_count && ps.get(i).particle_type
            == ParticleType::MetaParticle {
            first_meta_particle_index = i;
        }
        i = i + 1;
    }
    let first = first_meta_particle_index;
    proof {
        if first == particle_count && meta_start(s) < s.len() {
            assert(!is_meta(s[meta_start(s)]));
        }
    }

    // Work backwards: by the time the first meta particle is reached every
    // meta particle has released its children.
    let mut i: usize = particle_count;
    while i > first
        invariant
            first <= i <= particle_count,
            first == meta_start(s),
            particle_count == s.len(),
            metas_well_formed(s),
            ps@.len() == s.len(),
            forall|j: int|
                0 <= j < s.len() ==> #[trigger] ps@[j] == (ParticleTopology {
                    is_merged: s[j].is_merged && !child_in(s, i as int, s.len() as int, j),
                    ..s[j]
                }),
            order@.len() == particle_count - i,
            forall|t: int| 0 <= t < order@.len() ==> #[trigger] order@[t] == particle_count - 1 - t,
        decreases i,
    {
        let k = i - 1;
        let meta_particle = ps.get(k);
        let ai = meta_particle.left_index;
        let bi = meta_particle.right_index;
        proof {
            assert(is_meta(s[first as int]));
            assert(is_meta(s[k as int]));
        }
        ps.set_merged(ai, false);
        ps.set_merged(bi, false);
        order.push(k);
        proof {
            assert forall|j: int| 0 <= j < s.len() implies #[trigger] ps@[j] == (ParticleTopology {
                is_merged: s[j].is_merged && !child_in(s, k as int, s.len() as int, j),
                ..s[j]
            }) by {
                if j == ai || j == bi {
                    assert(child_in(s, k as int, s.len() as int, j));
                } else {
                    if child_in(s, k as int, s.len() as int, j) {
                        let w = choose|w: int|
                            k <= w < s.len() && #[trigger] is_meta(s[w]) && (s[w].left_index == j
                                || s[w].right_index == j);
                        assert(w != k);
                        assert(child_in(s, i as int, s.len() as int, j));
                    }
                }
            }
        }
        i = k;
    }

    // Remove the meta particles.
    ps.truncate(first);
    proof {
        assert(ps@ =~= split_pass(s));
    }
    order
}

/// The state between passes: no meta particles and no hidden particles.
pub open spec fn plain_particles(s: Seq<ParticleTopology>) -> bool {
    forall|j: int| 0 <= j < s.len() ==> !is_meta(#[trigger] s[j]) && !s[j].is_merged
}

/// A merge pass appends meta particles after the particles it starts from
/// and hides exactly the children of the appended meta particles; the
/// result is fit for a split pass.
pub proof fn lemma_merge_pass_appends(s: Seq<ParticleTopology>, contacts: Seq<Vec<bool>>)
    requires
        indices_match_positions(s),
        contacts_shaped(contacts, s.len() as int),
        merge_pass(s, contacts).len() <= usize::MAX,
    ensures
        appended_metas(s, merge_pass(s, contacts)),
        indices_match_positions(merge_pass(s, contacts)),
        (forall|j: int| 0 <= j < s.len() ==> !is_meta(#[trigger] s[j])) ==> metas_well_formed(
            merge_pass(s, contacts),
        ),
{
    let n = s.len() as int;
    lemma_merged_trees_appends(s, contacts, n);
    let r = merge_pass(s, contacts);
    if forall|j: int| 0 <= j < s.len() ==> !is_meta(#[trigger] s[j]) {
        assert forall|k: int| 0 <= k < r.len() implies #[trigger] is_meta(r[k]) == (k >= n) by {
            if k < n {
                assert(same_but_merged(r[k], s[k]));
            } else {
                assert(fresh_meta_at(r, k));
            }
        }
        assert forall|k: int| 0 <= k < r.len() && #[trigger] is_meta(r[k]) implies r[k].left_index
            < r.len() && r[k].right_index < r.len() by {
            assert(fresh_meta_at(r, k));
        }
    }
}

/// Splitting undoes merging: from a vector with no meta particles and no
/// hidden particles, a merge pass followed by a split pass gives back the
/// very same particles.
pub proof fn lemma_split_undoes_merge(s: Seq<ParticleTopology>, contacts: Seq<Vec<bool>>)
    requires
        indices_match_positions(s),
        plain_particles(s),
        contacts_shaped(contacts, s.len() as int),
        merge_pass(s, contacts).len() <= usize::MAX,
    ensures
        metas_well_formed(merge_pass(s, contacts)),
        split_pass(merge_pass(s, contacts)) == s,
{
    let n = s.len() as int;
    lemma_merge_pass_appends(s, contacts);
    let r = merge_pass(s, contacts);
    lemma_meta_start(r);
    assert(meta_start(r) == n) by {
        if meta_start(r) < n {
            assert(same_but_merged(r[meta_start(r)], s[meta_start(r)]));
        }
        if meta_start(r) > n {
            assert(fresh_meta_at(r, n));
        }
    }
    let out = split_pass(r);
    assert forall|j: int| 0 <= j < n implies #[trigger] out[j] == s[j] by {
        assert(same_but_merged(r[j], s[j]));
        assert(r[j].is_merged == ((j < n && s[j].is_merged) || child_in(r, n, r.len() as int, j)));
    }
    assert(out =~= s);
}

} // verus!
