use vstd::prelude::*;
use crate::particles::particle::{ParticleTopology, ParticleType};
use crate::particles::particle_vec::{TopologyVec, indices_match_positions};
use crate::particles::operations::merge::{
    appended_metas,
    contacts_shaped,
    fresh_meta_at,
    links_agree,
    merge_pass,
    same_but_merged,
};
use crate::particles::operations::split::{
    child_in,
    is_meta,
    lemma_meta_start,
    lemma_merge_pass_appends,
    meta_start,
    metas_well_formed,
    plain_particles,
};

verus! {

/// Every meta particle comes after both of its children.
pub open spec fn children_precede(s: Seq<ParticleTopology>) -> bool {
    forall|k: int|
        0 <= k < s.len() && #[trigger] is_meta(s[k]) ==> s[k].left_index < k && s[k].right_index < k
}

/// `j` lies in the tree below the meta particle at `i` (not counting `i`
/// itself).
pub open spec fn descends(s: Seq<ParticleTopology>, i: int, j: int) -> bool
    decreases i,
{
    if 0 <= i < s.len() && is_meta(s[i]) {
        let l = s[i].left_index as int;
        let r = s[i].right_index as int;
        j == l || j == r || (0 <= l < i && descends(s, l, j)) || (0 <= r < i && descends(s, r, j))
    } else {
        false
    }
}

/// The meta particles that splitting the particle at `i` splits, in the
/// order it splits them: `i` itself, then its left tree, then its right tree.
pub open spec fn split_order_from(s: Seq<ParticleTopology>, i: int) -> Seq<usize>
    decreases i,
{
    if 0 <= i < s.len() && is_meta(s[i]) {
        let l = s[i].left_index as int;
        let r = s[i].right_index as int;
        seq![i as usize] + (if 0 <= l < i {
            split_order_from(s, l)
        } else {
            Seq::empty()
        }) + (if 0 <= r < i {
            split_order_from(s, r)
        } else {
            Seq::empty()
        })
    } else {
        Seq::empty()
    }
}

/// `j` lies below some meta particle at a position in `lo..hi`.
pub open spec fn descends_from_any(s: Seq<ParticleTopology>, lo: int, hi: int, j: int) -> bool {
    exists|r: int| lo <= r < hi && #[trigger] descends(s, r, j)
}

/// The order in which splitting every particle from `hi - 1` down to `lo`
/// splits meta particles.
pub open spec fn split_orders(s: Seq<ParticleTopology>, lo: int, hi: int) -> Seq<usize>
    decreases hi - lo,
{
    if hi <= lo {
        Seq::empty()
    } else {
        split_orders(s, lo + 1, hi) + split_order_from(s, lo)
    }
}

/// The position of the first meta particle that is not hidden inside
/// another, or `s.len()` when there is none.
pub open spec fn root_start(s: Seq<ParticleTopology>) -> int
    decreases s.len(),
{
    if s.len() == 0 {
        0
    } else if is_meta(s[0]) && !s[0].is_merged {
        0
    } else {
        1 + root_start(s.drop_first())
    }
}

/// The vector after a split pass: every particle below a meta particle from
/// the first visible meta particle on is shown again, and the meta particles
/// are removed.
pub open spec fn recursive_split_pass(s: Seq<ParticleTopology>) -> Seq<ParticleTopology> {
    let f = meta_start(s);
    let g = root_start(s);
    Seq::new(
        f as nat,
        |j: int|
            ParticleTopology {
                is_merged: s[j].is_merged && !descends_from_any(s, g, s.len() as int, j),
                ..s[j]
            },
    )
}

/// `root_start` is the first visible meta particle, if there is one.
pub proof fn lemma_root_start(s: Seq<ParticleTopology>)
    ensures
        0 <= root_start(s) <= s.len(),
        forall|j: int|
            0 <= j < root_start(s) ==> !(is_meta(#[trigger] s[j]) && !s[j].is_merged),
        root_start(s) < s.len() ==> is_meta(s[root_start(s)]) && !s[root_start(s)].is_merged,
    decreases s.len(),
{
    if s.len() > 0 && !(is_meta(s[0]) && !s[0].is_merged) {
        lemma_root_start(s.drop_first());
        assert forall|j: int| 0 <= j < root_start(s) implies !(is_meta(#[trigger] s[j])
            && !s[j].is_merged) by {
            if j > 0 {
                assert(s[j] == s.drop_first()[j - 1]);
            }
        }
    }
}

/// `s` with the particles below `i` shown again.
pub open spec fn shown_below(s: Seq<ParticleTopology>, i: int) -> Seq<ParticleTopology> {
    Seq::new(
        s.len(),
        |j: int| ParticleTopology { is_merged: s[j].is_merged && !descends(s, i, j), ..s[j] },
    )
}

/// Trees depend only on the kinds and children of the particles.
pub proof fn lemma_trees_follow_links(a: Seq<ParticleTopology>, b: Seq<ParticleTopology>, i: int)
    requires
        a.len() == b.len(),
        links_agree(a, b, 0, a.len() as int),
    ensures
        split_order_from(a, i) == split_order_from(b, i),
        forall|j: int| #[trigger] descends(a, i, j) == descends(b, i, j),
    decreases i,
{
    if 0 <= i < a.len() {
        assert(is_meta(a[i]) == is_meta(b[i]));
        let l = a[i].left_index as int;
        let r = a[i].right_index as int;
        if 0 <= l < i {
            lemma_trees_follow_links(a, b, l);
        }
        if 0 <= r < i {
            lemma_trees_follow_links(a, b, r);
        }
        assert forall|j: int| #[trigger] descends(a, i, j) == descends(b, i, j) by {
            if 0 <= l < i {
                assert(descends(a, l, j) == descends(b, l, j));
            }
            if 0 <= r < i {
                assert(descends(a, r, j) == descends(b, r, j));
            }
        }
    }
}

/// Splits the meta particle at `meta_index` back into its two children,
/// then splits the children in turn; an ordinary particle is left alone.
/// Appends the positions of the split meta particles to `order`.
pub fn split(meta_index: usize, ps: &mut TopologyVec, order: &mut Vec<usize>)
    requires
        meta_index < old(ps)@.len(),
        children_precede(old(ps)@),
    ensures
        final(ps)@ == shown_below(old(ps)@, meta_index as int),
        final(order)@ == old(order)@ + split_order_from(old(ps)@, meta_index as int),
    decreases meta_index,
{
    let ghost s0 = ps@;
    // Reading the length recalls that every particle records its own position.
    let _ = ps.len();
    let meta = ps.get(meta_index);
    if meta.particle_type != ParticleType::MetaParticle {
        proof {
            assert(ps@ =~= shown_below(s0, meta_index as int));
            assert(order@ =~= old(order)@ + split_order_from(s0, meta_index as int));
        }
        return;
    }
    proof {
        assert(is_meta(s0[meta_index as int]));
    }
    let left = ps.get(meta.left_index);
    let right = ps.get(meta.right_index);
    order.push(meta_index);
    ps.set_merged(meta.left_index, false);
    ps.set_merged(meta.right_index, false);
    let ghost s1 = ps@;
    let ghost o1 = order@;
    proof {
        assert(links_agree(s1, s0, 0, s0.len() as int));
        assert(children_precede(s1)) by {
            assert forall|k: int| 0 <= k < s1.len() && #[trigger] is_meta(s1[k]) implies s1[k].left_index
                < k && s1[k].right_index < k by {
                assert(is_meta(s0[k]));
            }
        }
        lemma_trees_follow_links(s1, s0, left.index as int);
        lemma_trees_follow_links(s1, s0, right.index as int);
    }
    split(left.index, ps, order);
    let ghost s2 = ps@;
    proof {
        assert(links_agree(s2, s0, 0, s0.len() as int));
        assert(children_precede(s2)) by {
            assert forall|k: int| 0 <= k < s2.len() && #[trigger] is_meta(s2[k]) implies s2[k].left_index
                < k && s2[k].right_index < k by {
                assert(is_meta(s0[k]));
            }
        }
        lemma_trees_follow_links(s2, s0, right.index as int);
    }
    split(right.index, ps, order);
    proof {
        assert(ps@ =~= shown_below(s0, meta_index as int));
        assert(order@ =~= old(order)@ + split_order_from(s0, meta_index as int));
    }
}

/// Splits every meta particle from the first visible one to the end, last
/// first, each together with the trees below it, then removes the meta
/// particles. Gives the positions of the meta particles in the order they
/// were split.
#[verifier::loop_isolation(false)]
pub fn split_meta_particles(ps: &mut TopologyVec) -> (order: Vec<usize>)
    requires
        metas_well_formed(old(ps)@),
        children_precede(old(ps)@),
    ensures
        final(ps)@ == recursive_split_pass(old(ps)@),
        order@ == split_orders(old(ps)@, root_start(old(ps)@), old(ps)@.len() as int),
{
    let ghost s = ps@;
    proof {
        lemma_meta_start(s);
        lemma_root_start(s);
    }
    let particle_count = ps.len();
    let mut order: Vec<usize> = Vec::new();

    // Meta particles are always at the end; find the first one, and the
    // first one that is not merged into another (a root).
    let mut first_meta_particle_index = particle_count;
    let mut first_non_merged_meta_particle_index = particle_count;
    let mut i: usize = 0;
    while i < particle_count
        invariant
            0 <= i <= particle_count,
            particle_count == s.len(),
            ps@ == s,
            first_meta_particle_index <= particle_count,
            first_non_merged_meta_particle_index <= particle_count,
            first_meta_particle_index == particle_count ==> forall|j: int|
                0 <= j < i ==> !is_meta(#[trigger] s[j]),
            first_meta_particle_index < particle_count ==> first_meta_particle_index == meta_start(s),
            first_non_merged_meta_particle_index == particle_count ==> forall|j: int|
                0 <= j < i ==> !(is_meta(#[trigger] s[j]) && !s[j].is_merged),
            first_non_merged_meta_particle_index < particle_count
                ==> first_non_merged_meta_particle_index == root_start(s),
        decreases particle_count - i,
    {
        let p = ps.get(i);
        if p.particle_type == ParticleType::MetaParticle {
            if first_meta_particle_index == particle_count {
                first_meta_particle_index = i;
            }
            if !p.is_merged && first_non_merged_meta_particle_index == particle_count {
                first_non_merged_meta_particle_index = i;
            }
        }
        i = i + 1;
    }
    proof {
        if first_meta_particle_index == particle_count && meta_start(s) < s.len() {
            assert(!is_meta(s[meta_start(s)]));
        }
        if first_non_merged_meta_particle_index == particle_count && root_start(s) < s.len() {
            assert(!(is_meta(s[root_start(s)]) && !s[root_start(s)].is_merged));
        }
    }
    let first_meta = first_meta_particle_index;
    let first_root = first_non_merged_meta_particle_index;

    if first_meta == particle_count {
        // No meta particles to split.
        proof {
            assert forall|j: int| 0 <= j < s.len() implies !descends_from_any(
                s,
                first_root as int,
                s.len() as int,
                j,
            ) by {
                if descends_from_any(s, first_root as int, s.len() as int, j) {
                    let r = choose|r: int|
                        first_root <= r < s.len() && #[trigger] descends(s, r, j);
                    assert(!is_meta(s[r]));
                }
            }
            assert(ps@ =~= recursive_split_pass(s));
        }
        return order;
    }

    // Split every root (and whatever follows it), last first.
    let mut i: usize = particle_count;
    while i > first_root
        invariant
            first_root <= i <= particle_count,
            particle_count == s.len(),
            ps@.len() == s.len(),
            links_agree(ps@, s, 0, s.len() as int),
            children_precede(ps@),
            forall|j: int|
                0 <= j < s.len() ==> #[trigger] ps@[j] == (ParticleTopology {
                    is_merged: s[j].is_merged && !descends_from_any(s, i as int, s.len() as int, j),
                    ..s[j]
                }),
            order@ == split_orders(s, i as int, s.len() as int),
        decreases i,
    {
        let k = i - 1;
        let ghost before = ps@;
        proof {
            lemma_trees_follow_links(before, s, k as int);
        }
        split(k, ps, &mut order);
        proof {
            assert(links_agree(ps@, s, 0, s.len() as int));
            assert(children_precede(ps@)) by {
                assert forall|t: int| 0 <= t < ps@.len() && #[trigger] is_meta(ps@[t]) implies ps@[t].left_index
                    < t && ps@[t].right_index < t by {
                    assert(is_meta(s[t]));
                }
            }
            assert forall|j: int| 0 <= j < s.len() implies #[trigger] ps@[j] == (ParticleTopology {
                is_merged: s[j].is_merged && !descends_from_any(s, k as int, s.len() as int, j),
                ..s[j]
            }) by {
                assert(descends(before, k as int, j) == descends(s, k as int, j));
                if descends_from_any(s, k as int, s.len() as int, j) {
                    let r = choose|r: int| k <= r < s.len() && #[trigger] descends(s, r, j);
                    if r != k {
                        assert(descends_from_any(s, i as int, s.len() as int, j));
                    }
                }
                if descends_from_any(s, i as int, s.len() as int, j) {
                    let r = choose|r: int| i <= r < s.len() && #[trigger] descends(s, r, j);
                    assert(descends_from_any(s, k as int, s.len() as int, j));
                }
                if descends(s, k as int, j) {
                    assert(descends_from_any(s, k as int, s.len() as int, j));
                }
            }
        }
        i = k;
    }

    // Remove the meta particles.
    ps.truncate(first_meta);
    proof {
        assert(ps@ =~= recursive_split_pass(s));
    }
    order
}

/// What lies below something below `q` lies below `q`.
pub proof fn lemma_descends_trans(s: Seq<ParticleTopology>, q: int, k: int, j: int)
    requires
        children_precede(s),
        descends(s, q, k),
        descends(s, k, j),
    ensures
        descends(s, q, j),
    decreases q,
{
    let l = s[q].left_index as int;
    let r = s[q].right_index as int;
    assert(is_meta(s[q]));
    if k == l || k == r {
    } else if 0 <= l < q && descends(s, l, k) {
        lemma_descends_trans(s, l, k, j);
    } else {
        lemma_descends_trans(s, r, k, j);
    }
}

/// `k` is `q` or lies below it.
pub open spec fn reaches(s: Seq<ParticleTopology>, q: int, k: int) -> bool {
    q == k || descends(s, q, k)
}

/// Every appended meta particle is a visible meta particle or lies below
/// one.
proof fn lemma_reaches_root(s: Seq<ParticleTopology>, r: Seq<ParticleTopology>, k: int)
    requires
        appended_metas(s, r),
        children_precede(r),
        s.len() <= k < r.len(),
    ensures
        exists|q: int| root_start(r) <= q < r.len() && #[trigger] reaches(r, q, k),
    decreases r.len() - k,
{
    let n = s.len() as int;
    lemma_root_start(r);
    assert(fresh_meta_at(r, k));
    if !r[k].is_merged {
        if k < root_start(r) {
            assert(!(is_meta(r[k]) && !r[k].is_merged));
        }
        assert(root_start(r) <= k < r.len() && reaches(r, k, k));
    } else {
        assert(r[k].is_merged == ((k < n && s[k].is_merged) || child_in(r, n, r.len() as int, k)));
        let w = choose|w: int|
            n <= w < r.len() && #[trigger] is_meta(r[w]) && (r[w].left_index == k || r[w].right_index
                == k);
        assert(fresh_meta_at(r, w));
        lemma_reaches_root(s, r, w);
        let q = choose|q: int| root_start(r) <= q < r.len() && #[trigger] reaches(r, q, w);
        assert(descends(r, w, k));
        if q != w {
            lemma_descends_trans(r, q, w, k);
        }
        assert(root_start(r) <= q < r.len() && reaches(r, q, k));
    }
}

/// Splitting undoes merging here too: from a vector with no meta particles
/// and no hidden particles, a merge pass followed by this split pass gives
/// back the very same particles.
pub proof fn lemma_recursive_split_undoes_merge(s: Seq<ParticleTopology>, contacts: Seq<Vec<bool>>)
    requires
        indices_match_positions(s),
        plain_particles(s),
        contacts_shaped(contacts, s.len() as int),
        merge_pass(s, contacts).len() <= usize::MAX,
    ensures
        metas_well_formed(merge_pass(s, contacts)),
        children_precede(merge_pass(s, contacts)),
        recursive_split_pass(merge_pass(s, contacts)) == s,
{
    let n = s.len() as int;
    lemma_merge_pass_appends(s, contacts);
    let r = merge_pass(s, contacts);
    assert(children_precede(r)) by {
        assert forall|k: int| 0 <= k < r.len() && #[trigger] is_meta(r[k]) implies r[k].left_index < k
            && r[k].right_index < k by {
            if k < n {
                assert(same_but_merged(r[k], s[k]));
            }
            assert(fresh_meta_at(r, k));
        }
    }
    lemma_meta_start(r);
    assert(meta_start(r) == n) by {
        if meta_start(r) < n {
            assert(same_but_merged(r[meta_start(r)], s[meta_start(r)]));
        }
        if meta_start(r) > n {
            assert(fresh_meta_at(r, n));
        }
    }
    let g = root_start(r);
    let out = recursive_split_pass(r);
    assert forall|j: int| 0 <= j < n implies #[trigger] out[j] == s[j] by {
        assert(same_but_merged(r[j], s[j]));
        assert(r[j].is_merged == ((j < n && s[j].is_merged) || child_in(r, n, r.len() as int, j)));
        if r[j].is_merged {
            let k = choose|k: int|
                n <= k < r.len() && #[trigger] is_meta(r[k]) && (r[k].left_index == j
                    || r[k].right_index == j);
            assert(fresh_meta_at(r, k));
            lemma_reaches_root(s, r, k);
            let q = choose|q: int| g <= q < r.len() && #[trigger] reaches(r, q, k);
            assert(descends(r, k, j));
            if q != k {
                lemma_descends_trans(r, q, k, j);
            }
            assert(descends(r, q, j));
            assert(descends_from_any(r, g, r.len() as int, j));
        }
    }
    assert(out =~= s);
}

} // verus!
