use vstd::prelude::*;
use crate::particles::particle::{ParticleTopology, ParticleType};
use crate::particles::particle_vec::{TopologyVec, indices_match_positions, placed_at};
use crate::particles::operations::split::{is_meta, child_in};
use vstd::multiset::Multiset;

verus! {

/// Two particles may merge when they are not both static and the continuous
/// collision test (they overlap and move towards each other) reported a
/// contact for the pair.
pub open spec fn pair_collides(
    s: Seq<ParticleTopology>,
    contacts: Seq<Vec<bool>>,
    a: int,
    b: int,
) -> bool {
    !(s[a].is_static && s[b].is_static) && contacts[a]@[b]
}

/// The partners `b` of particle `a` with `a < b < upto` that collide with
/// it, in increasing order.
pub open spec fn colliding_partners(
    s: Seq<ParticleTopology>,
    contacts: Seq<Vec<bool>>,
    a: int,
    upto: int,
) -> Seq<usize>
    decreases upto - a,
{
    if upto <= a + 1 {
        Seq::empty()
    } else {
        colliding_partners(s, contacts, a, upto - 1) + if pair_collides(s, contacts, a, upto - 1) {
            seq![(upto - 1) as usize]
        } else {
            Seq::empty()
        }
    }
}

/// The collision list of particle `a`: `a` itself, then every later
/// particle that collides with it.
pub open spec fn collision_list(s: Seq<ParticleTopology>, contacts: Seq<Vec<bool>>, a: int) -> Seq<
    usize,
> {
    seq![a as usize] + colliding_partners(s, contacts, a, s.len() as int)
}

/// The meta particle that joins `left` and `right`, placed at `at`.
pub open spec fn meta_of(left: ParticleTopology, right: ParticleTopology, at: int) -> ParticleTopology {
    ParticleTopology {
        index: at as usize,
        is_static: false,
        particle_type: ParticleType::MetaParticle,
        is_merged: false,
        left_index: left.index,
        right_index: right.index,
    }
}

/// `s` with the particle at `i` hidden.
pub open spec fn mark_merged(s: Seq<ParticleTopology>, i: int) -> Seq<ParticleTopology> {
    if 0 <= i < s.len() {
        s.update(i, ParticleTopology { is_merged: true, ..s[i] })
    } else {
        s
    }
}

/// Appends the meta particle of `left` and `right` and hides both children.
pub open spec fn joined(s: Seq<ParticleTopology>, left: ParticleTopology, right: ParticleTopology) -> (
    Seq<ParticleTopology>,
    ParticleTopology,
) {
    let m = meta_of(left, right, s.len() as int);
    (mark_merged(mark_merged(s.push(m), left.index as int), right.index as int), m)
}

/// Merges the particles at `idx` into a balanced tree of meta particles:
/// a single index stands for itself; otherwise the first half and the second
/// half are merged into trees that are then joined. Gives the new vector and
/// the root.
pub open spec fn meta_tree(s: Seq<ParticleTopology>, idx: Seq<usize>) -> (
    Seq<ParticleTopology>,
    ParticleTopology,
)
    decreases idx.len(),
{
    if idx.len() <= 1 {
        (s, s[idx[0] as int])
    } else {
        let mid = idx.len() / 2;
        let (s1, l) = meta_tree(s, idx.subrange(0, mid as int));
        let (s2, r) = meta_tree(s1, idx.subrange(mid as int, idx.len() as int));
        joined(s2, l, r)
    }
}

/// Every index of `idx` names a particle of `s`.
pub open spec fn indices_in_range(s: Seq<ParticleTopology>, idx: Seq<usize>) -> bool {
    forall|k: int| 0 <= k < idx.len() ==> #[trigger] idx[k] < s.len()
}

/// Builds the trees of the first `k` collision lists, one after the other.
pub open spec fn merged_trees(s: Seq<ParticleTopology>, lists: Seq<Seq<usize>>, k: int) -> Seq<
    ParticleTopology,
>
    decreases k,
{
    if k <= 0 {
        s
    } else {
        meta_tree(merged_trees(s, lists, k - 1), lists[k - 1]).0
    }
}

/// The collision lists of all particles of `s`.
pub open spec fn all_collision_lists(s: Seq<ParticleTopology>, contacts: Seq<Vec<bool>>) -> Seq<
    Seq<usize>,
> {
    Seq::new(s.len(), |a: int| collision_list(s, contacts, a))
}

/// The vector after a merge pass: every particle's collision list is merged
/// into a tree of meta particles, in particle order.
pub open spec fn merge_pass(s: Seq<ParticleTopology>, contacts: Seq<Vec<bool>>) -> Seq<ParticleTopology> {
    merged_trees(s, all_collision_lists(s, contacts), s.len() as int)
}

/// `contacts` holds one row per particle and one entry per particle in each
/// row.
pub open spec fn contacts_shaped(contacts: Seq<Vec<bool>>, n: int) -> bool {
    &&& contacts.len() == n
    &&& forall|a: int| 0 <= a < n ==> #[trigger] contacts[a]@.len() == n
}

/// Building a tree over `k` indices appends `k - 1` meta particles.
pub proof fn lemma_meta_tree_len(s: Seq<ParticleTopology>, idx: Seq<usize>)
    requires
        idx.len() > 0,
    ensures
        meta_tree(s, idx).0.len() == s.len() + idx.len() - 1,
    decreases idx.len(),
{
    if idx.len() > 1 {
        let mid = idx.len() / 2;
        let left_idx = idx.subrange(0, mid as int);
        let right_idx = idx.subrange(mid as int, idx.len() as int);
        lemma_meta_tree_len(s, left_idx);
        lemma_meta_tree_len(meta_tree(s, left_idx).0, right_idx);
    }
}

/// Each tree of a merge pass adds particles: the vector only grows from one
/// tree to the next.
pub proof fn lemma_merged_trees_grow(s: Seq<ParticleTopology>, contacts: Seq<Vec<bool>>, j: int, k: int)
    requires
        0 <= j <= k <= s.len(),
    ensures
        s.len() <= merged_trees(s, all_collision_lists(s, contacts), j).len() <= merged_trees(
            s,
            all_collision_lists(s, contacts),
            k,
        ).len(),
    decreases k,
{
    let lists = all_collision_lists(s, contacts);
    if k > 0 {
        if j < k {
            lemma_merged_trees_grow(s, contacts, j, k - 1);
        } else {
            lemma_merged_trees_grow(s, contacts, j - 1, k - 1);
        }
        assert(lists[k - 1] == collision_list(s, contacts, k - 1));
        lemma_meta_tree_len(merged_trees(s, lists, k - 1), lists[k - 1]);
    }
}

/// Building a tree over `k` indices appends `k - 1` meta particles, keeps
/// every particle recording its own position, and gives a root that names a
/// particle of the result.
pub proof fn lemma_meta_tree_shape(s: Seq<ParticleTopology>, idx: Seq<usize>)
    requires
        indices_match_positions(s),
        idx.len() > 0,
        indices_in_range(s, idx),
        s.len() + idx.len() - 1 <= usize::MAX,
    ensures
        meta_tree(s, idx).0.len() == s.len() + idx.len() - 1,
        indices_match_positions(meta_tree(s, idx).0),
        meta_tree(s, idx).1.index < meta_tree(s, idx).0.len(),
    decreases idx.len(),
{
    if idx.len() <= 1 {
        assert(idx[0] < s.len());
    } else {
        let mid = idx.len() / 2;
        let left_idx = idx.subrange(0, mid as int);
        let right_idx = idx.subrange(mid as int, idx.len() as int);
        assert forall|k: int| 0 <= k < left_idx.len() implies #[trigger] left_idx[k] < s.len() by {
            assert(left_idx[k] == idx[k]);
        }
        lemma_meta_tree_shape(s, left_idx);
        let (s1, l) = meta_tree(s, left_idx);
        assert forall|k: int| 0 <= k < right_idx.len() implies #[trigger] right_idx[k] < s1.len() by {
            assert(right_idx[k] == idx[mid + k]);
        }
        lemma_meta_tree_shape(s1, right_idx);
        let (s2, r) = meta_tree(s1, right_idx);
        let m = meta_of(l, r, s2.len() as int);
        let s3 = s2.push(m);
        assert(indices_match_positions(s3)) by {
            assert forall|i: int| 0 <= i < s3.len() implies #[trigger] s3[i].index == i by {
                if i < s2.len() {
                    assert(s3[i] == s2[i]);
                }
            }
        }
    }
}

/// `a` and `b` agree on everything but the merged flag.
pub open spec fn same_but_merged(a: ParticleTopology, b: ParticleTopology) -> bool {
    a == (ParticleTopology { is_merged: a.is_merged, ..b })
}

/// `a` and `b` agree on kind and children at every position in `lo..hi`.
pub open spec fn links_agree(a: Seq<ParticleTopology>, b: Seq<ParticleTopology>, lo: int, hi: int) -> bool {
    forall|k: int|
        lo <= k < hi ==> #[trigger] is_meta(a[k]) == is_meta(b[k]) && a[k].left_index == b[k].left_index
            && a[k].right_index == b[k].right_index
}

/// Where two vectors agree on kind and children, they have the same
/// children there.
pub proof fn lemma_child_in_links_agree(
    a: Seq<ParticleTopology>,
    b: Seq<ParticleTopology>,
    lo: int,
    hi: int,
    j: int,
)
    requires
        links_agree(a, b, lo, hi),
    ensures
        child_in(a, lo, hi, j) == child_in(b, lo, hi, j),
{
    if child_in(a, lo, hi, j) {
        let w = choose|w: int|
            lo <= w < hi && #[trigger] is_meta(a[w]) && (a[w].left_index == j || a[w].right_index == j);
        assert(is_meta(b[w]));
    }
    if child_in(b, lo, hi, j) {
        let w = choose|w: int|
            lo <= w < hi && #[trigger] is_meta(b[w]) && (b[w].left_index == j || b[w].right_index == j);
        assert(is_meta(a[w]));
    }
}

/// A child of a meta particle in `lo..hi` is one of a meta particle in
/// `lo..mid` or in `mid..hi`.
pub proof fn lemma_child_in_split(a: Seq<ParticleTopology>, lo: int, mid: int, hi: int, j: int)
    requires
        lo <= mid <= hi,
    ensures
        child_in(a, lo, hi, j) == (child_in(a, lo, mid, j) || child_in(a, mid, hi, j)),
{
    if child_in(a, lo, hi, j) {
        let w = choose|w: int|
            lo <= w < hi && #[trigger] is_meta(a[w]) && (a[w].left_index == j || a[w].right_index == j);
        if w < mid {
            assert(child_in(a, lo, mid, j));
        } else {
            assert(child_in(a, mid, hi, j));
        }
    }
    if child_in(a, lo, mid, j) {
        let w = choose|w: int|
            lo <= w < mid && #[trigger] is_meta(a[w]) && (a[w].left_index == j || a[w].right_index == j);
        assert(child_in(a, lo, hi, j));
    }
    if child_in(a, mid, hi, j) {
        let w = choose|w: int|
            mid <= w < hi && #[trigger] is_meta(a[w]) && (a[w].left_index == j || a[w].right_index == j);
        assert(child_in(a, lo, hi, j));
    }
}

/// The entry at `k` is a dynamic meta particle whose children come before
/// it.
pub open spec fn fresh_meta_at(r: Seq<ParticleTopology>, k: int) -> bool {
    is_meta(r[k]) && !r[k].is_static && r[k].left_index < k && r[k].right_index < k
}

/// What appending meta particles over the vector `s` did, when the result is
/// `r`: the old particles changed at most their merged flag; every appended
/// entry is a dynamic meta particle whose children come before it; and a
/// particle is hidden exactly when it was hidden before or is a child of an
/// appended meta particle.
pub open spec fn appended_metas(s: Seq<ParticleTopology>, r: Seq<ParticleTopology>) -> bool {
    &&& s.len() <= r.len()
    &&& forall|j: int| 0 <= j < s.len() ==> #[trigger] same_but_merged(r[j], s[j])
    &&& forall|k: int| s.len() <= k < r.len() ==> #[trigger] fresh_meta_at(r, k)
    &&& forall|j: int|
        0 <= j < r.len() ==> #[trigger] r[j].is_merged == ((j < s.len() && s[j].is_merged) || child_in(
            r,
            s.len() as int,
            r.len() as int,
            j,
        ))
}

/// Appending in two steps is appending.
pub proof fn lemma_appended_metas_trans(
    s: Seq<ParticleTopology>,
    r1: Seq<ParticleTopology>,
    r2: Seq<ParticleTopology>,
)
    requires
        appended_metas(s, r1),
        appended_metas(r1, r2),
    ensures
        appended_metas(s, r2),
{
    let n = s.len() as int;
    let n1 = r1.len() as int;
    let n2 = r2.len() as int;
    assert(links_agree(r2, r1, n, n1)) by {
        assert forall|k: int| n <= k < n1 implies #[trigger] is_meta(r2[k]) == is_meta(r1[k])
            && r2[k].left_index == r1[k].left_index && r2[k].right_index == r1[k].right_index by {
            assert(same_but_merged(r2[k], r1[k]));
        }
    }
    assert forall|j: int| 0 <= j < n implies #[trigger] same_but_merged(r2[j], s[j]) by {
        assert(same_but_merged(r2[j], r1[j]));
        assert(same_but_merged(r1[j], s[j]));
    }
    assert forall|k: int| n <= k < n2 implies #[trigger] fresh_meta_at(r2, k) by {
        if k < n1 {
            assert(same_but_merged(r2[k], r1[k]));
            assert(fresh_meta_at(r1, k));
        } else {
            assert(fresh_meta_at(r2, k));
        }
    }
    assert forall|j: int| 0 <= j < n2 implies #[trigger] r2[j].is_merged == ((j < n && s[j].is_merged)
        || child_in(r2, n, n2, j)) by {
        lemma_child_in_split(r2, n, n1, n2, j);
        lemma_child_in_links_agree(r2, r1, n, n1, j);
        assert(r2[j].is_merged == ((j < n1 && r1[j].is_merged) || child_in(r2, n1, n2, j)));
        if j < n1 {
            assert(r1[j].is_merged == ((j < n && s[j].is_merged) || child_in(r1, n, n1, j)));
        } else if child_in(r1, n, n1, j) {
            let w = choose|w: int|
                n <= w < n1 && #[trigger] is_meta(r1[w]) && (r1[w].left_index == j
                    || r1[w].right_index == j);
            assert(fresh_meta_at(r1, w));
        }
    }
    assert(n <= n2);
}

/// Building a tree appends meta particles in the sense of
/// `appended_metas`.
pub proof fn lemma_meta_tree_appends(s: Seq<ParticleTopology>, idx: Seq<usize>)
    requires
        indices_match_positions(s),
        idx.len() > 0,
        indices_in_range(s, idx),
        s.len() + idx.len() - 1 <= usize::MAX,
    ensures
        appended_metas(s, meta_tree(s, idx).0),
    decreases idx.len(),
{
    lemma_meta_tree_shape(s, idx);
    if idx.len() <= 1 {
        assert forall|j: int| 0 <= j < s.len() implies #[trigger] s[j].is_merged == ((j < s.len()
            && s[j].is_merged) || child_in(s, s.len() as int, s.len() as int, j)) by {
        }
    } else {
        let mid = idx.len() / 2;
        let left_idx = idx.subrange(0, mid as int);
        let right_idx = idx.subrange(mid as int, idx.len() as int);
        assert forall|k: int| 0 <= k < left_idx.len() implies #[trigger] left_idx[k] < s.len() by {
            assert(left_idx[k] == idx[k]);
        }
        lemma_meta_tree_shape(s, left_idx);
        lemma_meta_tree_appends(s, left_idx);
        let (s1, l) = meta_tree(s, left_idx);
        assert forall|k: int| 0 <= k < right_idx.len() implies #[trigger] right_idx[k] < s1.len() by {
            assert(right_idx[k] == idx[mid + k]);
        }
        lemma_meta_tree_shape(s1, right_idx);
        lemma_meta_tree_appends(s1, right_idx);
        let (s2, rt) = meta_tree(s1, right_idx);
        lemma_appended_metas_trans(s, s1, s2);
        let p = s2.len() as int;
        let m = meta_of(l, rt, p);
        let s3 = s2.push(m);
        let res = mark_merged(mark_merged(s3, l.index as int), rt.index as int);
        assert(res == meta_tree(s, idx).0);
        assert(appended_metas(s2, res)) by {
            assert forall|j: int| 0 <= j < p implies #[trigger] same_but_merged(res[j], s2[j]) by {
            }
            assert forall|k: int| p <= k < res.len() implies #[trigger] fresh_meta_at(res, k) by {
                assert(k == p);
            }
            assert forall|j: int| 0 <= j < res.len() implies #[trigger] res[j].is_merged == ((j < p
                && s2[j].is_merged) || child_in(res, p, res.len() as int, j)) by {
                if child_in(res, p, res.len() as int, j) {
                    let w = choose|w: int|
                        p <= w < res.len() && #[trigger] is_meta(res[w]) && (res[w].left_index == j
                            || res[w].right_index == j);
                    assert(w == p);
                }
                if j == l.index || j == rt.index {
                    assert(is_meta(res[p]));
                    assert(child_in(res, p, res.len() as int, j));
                }
            }
        }
        lemma_appended_metas_trans(s, s2, res);
    }
}

/// The children named by the meta particles at positions `lo..hi` of `r`,
/// one entry per link.
pub open spec fn tree_children(r: Seq<ParticleTopology>, lo: int, hi: int) -> Multiset<usize>
    decreases hi - lo,
{
    if hi <= lo {
        Multiset::empty()
    } else if is_meta(r[hi - 1]) {
        tree_children(r, lo, hi - 1).insert(r[hi - 1].left_index).insert(r[hi - 1].right_index)
    } else {
        tree_children(r, lo, hi - 1)
    }
}

/// The positions `lo..hi`, each once.
pub open spec fn positions(lo: int, hi: int) -> Multiset<usize>
    decreases hi - lo,
{
    if hi <= lo {
        Multiset::empty()
    } else {
        positions(lo, hi - 1).insert((hi - 1) as usize)
    }
}

proof fn lemma_tree_children_split(r: Seq<ParticleTopology>, lo: int, mid: int, hi: int)
    requires
        lo <= mid <= hi,
    ensures
        tree_children(r, lo, hi) == tree_children(r, lo, mid).add(tree_children(r, mid, hi)),
    decreases hi - mid,
{
    broadcast use vstd::multiset::group_multiset_axioms;

    if hi > mid {
        lemma_tree_children_split(r, lo, mid, hi - 1);
    }
    assert(tree_children(r, lo, hi) =~= tree_children(r, lo, mid).add(tree_children(r, mid, hi)));
}

proof fn lemma_positions_split(lo: int, mid: int, hi: int)
    requires
        lo <= mid <= hi,
    ensures
        positions(lo, hi) == positions(lo, mid).add(positions(mid, hi)),
    decreases hi - mid,
{
    broadcast use vstd::multiset::group_multiset_axioms;

    if hi > mid {
        lemma_positions_split(lo, mid, hi - 1);
    }
    assert(positions(lo, hi) =~= positions(lo, mid).add(positions(mid, hi)));
}

/// Every entry of `positions(lo, hi)` lies in `lo..hi`, once.
proof fn lemma_positions_count(lo: int, hi: int, j: usize)
    requires
        0 <= lo,
        hi <= usize::MAX + 1,
    ensures
        positions(lo, hi).count(j) == if lo <= j < hi { 1nat } else { 0nat },
    decreases hi - lo,
{
    broadcast use vstd::multiset::group_multiset_axioms;

    if hi > lo {
        lemma_positions_count(lo, hi - 1, j);
    }
}

proof fn lemma_tree_children_agree(a: Seq<ParticleTopology>, b: Seq<ParticleTopology>, lo: int, hi: int)
    requires
        links_agree(a, b, lo, hi),
    ensures
        tree_children(a, lo, hi) == tree_children(b, lo, hi),
    decreases hi - lo,
{
    if hi > lo {
        assert(is_meta(a[hi - 1]) == is_meta(b[hi - 1]));
        lemma_tree_children_agree(a, b, lo, hi - 1);
    }
}

/// A particle named among the children is a child of some meta particle
/// there.
proof fn lemma_tree_children_child_in(r: Seq<ParticleTopology>, lo: int, hi: int, j: usize)
    requires
        tree_children(r, lo, hi).count(j) > 0,
    ensures
        child_in(r, lo, hi, j as int),
    decreases hi - lo,
{
    broadcast use vstd::multiset::group_multiset_axioms;

    if hi > lo {
        if is_meta(r[hi - 1]) && (r[hi - 1].left_index == j || r[hi - 1].right_index == j) {
            assert(is_meta(r[hi - 1]));
        } else {
            lemma_tree_children_child_in(r, lo, hi - 1, j);
            let w = choose|w: int|
                lo <= w < hi - 1 && #[trigger] is_meta(r[w]) && (r[w].left_index == j
                    || r[w].right_index == j);
            assert(is_meta(r[w]));
        }
    }
}

/// Appending meta particles keeps the kinds and children of the particles
/// already there.
proof fn lemma_appended_links_agree(s: Seq<ParticleTopology>, r: Seq<ParticleTopology>, lo: int)
    requires
        appended_metas(s, r),
        0 <= lo,
    ensures
        links_agree(r, s, lo, s.len() as int),
{
    assert forall|k: int| lo <= k < s.len() implies #[trigger] is_meta(r[k]) == is_meta(s[k])
        && r[k].left_index == s[k].left_index && r[k].right_index == s[k].right_index by {
        assert(same_but_merged(r[k], s[k]));
    }
}

/// The leaves of a tree are exactly the indices it was built over: the
/// children named by the appended meta particles, together with the root,
/// are the indices of `idx` and the positions of the appended meta
/// particles, each as often as it occurs there.
pub proof fn lemma_meta_tree_leaves(s: Seq<ParticleTopology>, idx: Seq<usize>)
    requires
        indices_match_positions(s),
        idx.len() > 0,
        indices_in_range(s, idx),
        s.len() + idx.len() - 1 <= usize::MAX,
    ensures
        tree_children(meta_tree(s, idx).0, s.len() as int, meta_tree(s, idx).0.len() as int).insert(
            meta_tree(s, idx).1.index,
        ) == idx.to_multiset().add(positions(s.len() as int, meta_tree(s, idx).0.len() as int)),
        idx.len() >= 2 ==> meta_tree(s, idx).1.index == meta_tree(s, idx).0.len() - 1,
    decreases idx.len(),
{
    broadcast use vstd::multiset::group_multiset_axioms;
    broadcast use vstd::seq_lib::group_to_multiset_ensures;

    lemma_meta_tree_shape(s, idx);
    if idx.len() <= 1 {
        assert(idx =~= Seq::<usize>::empty().push(idx[0]));
        vstd::multiset::lemma_multiset_empty_len(Seq::<usize>::empty().to_multiset());
        assert(idx[0] < s.len());
        assert(s[idx[0] as int].index == idx[0]);
        assert(tree_children(s, s.len() as int, s.len() as int).insert(idx[0]) =~= idx.to_multiset().add(
            positions(s.len() as int, s.len() as int),
        ));
    } else {
        let n = s.len() as int;
        let mid = idx.len() / 2;
        let left_idx = idx.subrange(0, mid as int);
        let right_idx = idx.subrange(mid as int, idx.len() as int);
        assert forall|k: int| 0 <= k < left_idx.len() implies #[trigger] left_idx[k] < s.len() by {
            assert(left_idx[k] == idx[k]);
        }
        lemma_meta_tree_shape(s, left_idx);
        lemma_meta_tree_leaves(s, left_idx);
        let (s1, l) = meta_tree(s, left_idx);
        assert forall|k: int| 0 <= k < right_idx.len() implies #[trigger] right_idx[k] < s1.len() by {
            assert(right_idx[k] == idx[mid + k]);
        }
        lemma_meta_tree_shape(s1, right_idx);
        lemma_meta_tree_leaves(s1, right_idx);
        lemma_meta_tree_appends(s1, right_idx);
        let (s2, rt) = meta_tree(s1, right_idx);
        let n1 = s1.len() as int;
        let p = s2.len() as int;
        let m = meta_of(l, rt, p);
        let res = mark_merged(mark_merged(s2.push(m), l.index as int), rt.index as int);
        assert(res == meta_tree(s, idx).0);
        assert(m == meta_tree(s, idx).1);
        // The links below `p` are those of `s2`, and below `n1` those of `s1`.
        assert(links_agree(res, s2, n, p)) by {
            assert forall|k: int| n <= k < p implies #[trigger] is_meta(res[k]) == is_meta(s2[k])
                && res[k].left_index == s2[k].left_index && res[k].right_index == s2[k].right_index by {
            }
        }
        lemma_appended_links_agree(s1, s2, n);
        lemma_tree_children_agree(res, s2, n, p);
        lemma_tree_children_split(s2, n, n1, p);
        lemma_tree_children_agree(s2, s1, n, n1);
        lemma_positions_split(n, n1, p);
        assert(is_meta(res[p]) && res[p].left_index == l.index && res[p].right_index == rt.index);
        assert(tree_children(res, n, p + 1) == tree_children(res, n, p).insert(l.index).insert(
            rt.index,
        ));
        assert(left_idx + right_idx =~= idx);
        vstd::seq_lib::lemma_multiset_commutative(left_idx, right_idx);
        let tc1 = tree_children(s1, n, n1);
        let tc2 = tree_children(s2, n1, p);
        let pos1 = positions(n, n1);
        let pos2 = positions(n1, p);
        assert(tc1.insert(l.index) == left_idx.to_multiset().add(pos1));
        assert(tc2.insert(rt.index) == right_idx.to_multiset().add(pos2));
        assert(positions(n, p + 1) == positions(n, p).insert(p as usize));
        assert(positions(n, p) == pos1.add(pos2));
        assert(tree_children(res, n, p) == tc1.add(tc2));
        let lhs = tree_children(res, n, p + 1).insert(p as usize);
        let rhs = idx.to_multiset().add(positions(n, p + 1));
        assert(lhs == tc1.add(tc2).insert(l.index).insert(rt.index).insert(p as usize));
        assert(rhs == left_idx.to_multiset().add(right_idx.to_multiset()).add(pos1.add(pos2)).insert(
            p as usize,
        ));
        assert forall|x: usize| #[trigger] lhs.count(x) == rhs.count(x) by {
            assert(tc1.insert(l.index).count(x) == left_idx.to_multiset().add(pos1).count(x));
            assert(tc2.insert(rt.index).count(x) == right_idx.to_multiset().add(pos2).count(x));
        }
        assert(lhs =~= rhs);
    }
}

/// After building a tree over two or more distinct indices, every one of
/// them is hidden, and no particle is named as a child more than once: no
/// particle belongs to two meta particles of the tree, nor twice to one.
pub proof fn lemma_meta_tree_hides_leaves_once(s: Seq<ParticleTopology>, idx: Seq<usize>)
    requires
        indices_match_positions(s),
        idx.len() >= 2,
        indices_in_range(s, idx),
        idx.no_duplicates(),
        s.len() + idx.len() - 1 <= usize::MAX,
    ensures
        forall|k: int| 0 <= k < idx.len() ==> #[trigger] meta_tree(s, idx).0[idx[k] as int].is_merged,
        forall|j: usize|
            #[trigger] tree_children(meta_tree(s, idx).0, s.len() as int, meta_tree(s, idx).0.len() as int).count(j)
                <= 1,
{
    broadcast use vstd::multiset::group_multiset_axioms;
    broadcast use vstd::seq_lib::group_to_multiset_ensures;

    let n = s.len() as int;
    let (r, root) = meta_tree(s, idx);
    lemma_meta_tree_shape(s, idx);
    lemma_meta_tree_leaves(s, idx);
    lemma_meta_tree_appends(s, idx);
    let tc = tree_children(r, n, r.len() as int);
    assert forall|j: usize| #[trigger] tc.count(j) <= 1 by {
        lemma_positions_count(n, r.len() as int, j);
        lemma_distinct_count(idx, j);
        if j >= n {
            if idx.to_multiset().count(j) > 0 {
                assert(idx.contains(j));
                let k = choose|k: int| 0 <= k < idx.len() && idx[k] == j;
                assert(idx[k] < s.len());
            }
        }
        assert(tc.insert(root.index).count(j) == idx.to_multiset().count(j) + positions(n, r.len() as int).count(j));
    }
    assert forall|k: int| 0 <= k < idx.len() implies #[trigger] r[idx[k] as int].is_merged by {
        let j = idx[k];
        assert(j < s.len());
        assert(idx.contains(j));
        assert(idx.to_multiset().count(j) > 0);
        assert(tc.insert(root.index).count(j) > 0);
        assert(root.index != j);
        lemma_tree_children_child_in(r, n, r.len() as int, j);
    }
}

/// An element of a sequence without duplicates occurs in it at most once.
proof fn lemma_distinct_count(xs: Seq<usize>, j: usize)
    requires
        xs.no_duplicates(),
    ensures
        xs.to_multiset().count(j) <= 1,
    decreases xs.len(),
{
    broadcast use vstd::multiset::group_multiset_axioms;
    broadcast use vstd::seq_lib::group_to_multiset_ensures;

    if xs.len() == 0 {
        vstd::multiset::lemma_multiset_empty_len(xs.to_multiset());
    } else {
        let d = xs.drop_last();
        assert(d.no_duplicates());
        lemma_distinct_count(d, j);
        assert(d.push(xs.last()) =~= xs);
        if xs.last() == j && d.to_multiset().count(j) > 0 {
            assert(d.contains(j));
            let k = choose|k: int| 0 <= k < d.len() && d[k] == j;
            assert(xs[k] == xs[xs.len() - 1]);
        }
    }
}

/// The first `k` trees of a merge pass append meta particles and keep every
/// particle recording its own position.
pub proof fn lemma_merged_trees_appends(s: Seq<ParticleTopology>, contacts: Seq<Vec<bool>>, k: int)
    requires
        indices_match_positions(s),
        contacts_shaped(contacts, s.len() as int),
        merge_pass(s, contacts).len() <= usize::MAX,
        0 <= k <= s.len(),
    ensures
        appended_metas(s, merged_trees(s, all_collision_lists(s, contacts), k)),
        indices_match_positions(merged_trees(s, all_collision_lists(s, contacts), k)),
    decreases k,
{
    let n = s.len() as int;
    let lists = all_collision_lists(s, contacts);
    if k == 0 {
        assert forall|j: int| 0 <= j < n implies #[trigger] s[j].is_merged == ((j < n
            && s[j].is_merged) || child_in(s, n, n, j)) by {
        }
    } else {
        lemma_merged_trees_appends(s, contacts, k - 1);
        let r = merged_trees(s, lists, k - 1);
        lemma_merged_trees_grow(s, contacts, k, n);
        lemma_merged_trees_grow(s, contacts, k - 1, k);
        lemma_collision_list_bounds(s, contacts, k - 1);
        let l = lists[k - 1];
        assert(l == collision_list(s, contacts, k - 1));
        assert(indices_in_range(r, l)) by {
            assert forall|t: int| 0 <= t < l.len() implies #[trigger] l[t] < r.len() by {
                assert(l[t] < n);
            }
        }
        lemma_meta_tree_len(r, l);
        lemma_meta_tree_shape(r, l);
        lemma_meta_tree_appends(r, l);
        lemma_appended_metas_trans(s, r, meta_tree(r, l).0);
    }
}

/// The partners of `a` come in strictly increasing order.
proof fn lemma_colliding_partners_increasing(
    s: Seq<ParticleTopology>,
    contacts: Seq<Vec<bool>>,
    a: int,
    upto: int,
)
    requires
        0 <= a,
        upto <= usize::MAX + 1,
    ensures
        forall|i: int, j: int|
            0 <= i < j < colliding_partners(s, contacts, a, upto).len() ==> #[trigger] colliding_partners(
                s,
                contacts,
                a,
                upto,
            )[i] < #[trigger] colliding_partners(s, contacts, a, upto)[j],
    decreases upto - a,
{
    if upto > a + 1 {
        lemma_colliding_partners_increasing(s, contacts, a, upto - 1);
        lemma_colliding_partners_bounds(s, contacts, a, upto - 1);
        let prev = colliding_partners(s, contacts, a, upto - 1);
        let cur = colliding_partners(s, contacts, a, upto);
        assert forall|i: int, j: int| 0 <= i < j < cur.len() implies #[trigger] cur[i] < #[trigger] cur[j] by {
            assert(cur[i] == prev[i]);
            if j < prev.len() {
                assert(cur[j] == prev[j]);
            }
        }
    }
}

/// A collision list names each particle at most once.
proof fn lemma_collision_list_distinct(s: Seq<ParticleTopology>, contacts: Seq<Vec<bool>>, a: int)
    requires
        0 <= a < s.len(),
        s.len() <= usize::MAX,
    ensures
        collision_list(s, contacts, a).no_duplicates(),
{
    let t = colliding_partners(s, contacts, a, s.len() as int);
    let l = collision_list(s, contacts, a);
    lemma_colliding_partners_bounds(s, contacts, a, s.len() as int);
    lemma_colliding_partners_increasing(s, contacts, a, s.len() as int);
    assert forall|i: int, j: int| 0 <= i < l.len() && 0 <= j < l.len() && i != j implies l[i] != l[j] by {
        if i > 0 {
            assert(l[i] == t[i - 1]);
        }
        if j > 0 {
            assert(l[j] == t[j - 1]);
        }
        if i > 0 && j > 0 {
            if i < j {
                assert(t[i - 1] < t[j - 1]);
            } else {
                assert(t[j - 1] < t[i - 1]);
            }
        }
    }
}

/// After the first `k` trees of a merge pass, every particle of a collision
/// list of two or more particles among the first `k` lists is hidden.
proof fn lemma_merged_trees_hide_lists(s: Seq<ParticleTopology>, contacts: Seq<Vec<bool>>, k: int)
    requires
        indices_match_positions(s),
        contacts_shaped(contacts, s.len() as int),
        merge_pass(s, contacts).len() <= usize::MAX,
        0 <= k <= s.len(),
    ensures
        forall|a: int, t: int|
            0 <= a < k && collision_list(s, contacts, a).len() >= 2 && 0 <= t < collision_list(
                s,
                contacts,
                a,
            ).len() ==> merged_trees(s, all_collision_lists(s, contacts), k)[#[trigger] collision_list(
                s,
                contacts,
                a,
            )[t] as int].is_merged,
    decreases k,
{
    let n = s.len() as int;
    let lists = all_collision_lists(s, contacts);
    if k > 0 {
        lemma_merged_trees_hide_lists(s, contacts, k - 1);
        lemma_merged_trees_appends(s, contacts, k - 1);
        let r = merged_trees(s, lists, k - 1);
        lemma_merged_trees_grow(s, contacts, k, n);
        lemma_merged_trees_grow(s, contacts, k - 1, k);
        lemma_collision_list_bounds(s, contacts, k - 1);
        lemma_collision_list_distinct(s, contacts, k - 1);
        let l = lists[k - 1];
        assert(l == collision_list(s, contacts, k - 1));
        assert(indices_in_range(r, l)) by {
            assert forall|t: int| 0 <= t < l.len() implies #[trigger] l[t] < r.len() by {
                assert(l[t] < n);
            }
        }
        lemma_meta_tree_len(r, l);
        lemma_meta_tree_appends(r, l);
        let r2 = meta_tree(r, l).0;
        assert(r2 == merged_trees(s, lists, k));
        if l.len() >= 2 {
            lemma_meta_tree_hides_leaves_once(r, l);
        }
        assert forall|a: int, t: int|
            0 <= a < k && collision_list(s, contacts, a).len() >= 2 && 0 <= t < collision_list(
                s,
                contacts,
                a,
            ).len() implies r2[#[trigger] collision_list(s, contacts, a)[t] as int].is_merged by {
            let c = collision_list(s, contacts, a);
            lemma_collision_list_bounds(s, contacts, a);
            let j = c[t] as int;
            assert(j < n);
            if a < k - 1 {
                assert(r[j].is_merged);
                assert(r2[j].is_merged == ((j < r.len() && r[j].is_merged) || child_in(
                    r2,
                    r.len() as int,
                    r2.len() as int,
                    j,
                )));
            }
        }
    }
}

/// After a merge pass, every particle of a collision list of two or more
/// particles is hidden inside a meta particle.
pub proof fn lemma_merge_pass_hides_colliding(s: Seq<ParticleTopology>, contacts: Seq<Vec<bool>>)
    requires
        indices_match_positions(s),
        contacts_shaped(contacts, s.len() as int),
        merge_pass(s, contacts).len() <= usize::MAX,
    ensures
        forall|a: int, t: int|
            0 <= a < s.len() && collision_list(s, contacts, a).len() >= 2 && 0 <= t
                < collision_list(s, contacts, a).len() ==> merge_pass(s, contacts)[#[trigger] collision_list(
                s,
                contacts,
                a,
            )[t] as int].is_merged,
{
    lemma_merged_trees_hide_lists(s, contacts, s.len() as int);
}

/// The number of colliding pairs `(a, b)` with `a < k`.
pub open spec fn colliding_pair_count(s: Seq<ParticleTopology>, contacts: Seq<Vec<bool>>, k: int) -> nat
    decreases k,
{
    if k <= 0 {
        0
    } else {
        colliding_pair_count(s, contacts, k - 1) + colliding_partners(
            s,
            contacts,
            k - 1,
            s.len() as int,
        ).len()
    }
}

/// A merge pass adds exactly one meta particle for every colliding pair.
pub proof fn lemma_merge_pass_len(s: Seq<ParticleTopology>, contacts: Seq<Vec<bool>>)
    ensures
        merge_pass(s, contacts).len() == s.len() + colliding_pair_count(s, contacts, s.len() as int),
{
    lemma_merged_trees_len(s, contacts, s.len() as int);
}

proof fn lemma_merged_trees_len(s: Seq<ParticleTopology>, contacts: Seq<Vec<bool>>, k: int)
    requires
        0 <= k <= s.len(),
    ensures
        merged_trees(s, all_collision_lists(s, contacts), k).len() == s.len() + colliding_pair_count(
            s,
            contacts,
            k,
        ),
    decreases k,
{
    if k > 0 {
        lemma_merged_trees_len(s, contacts, k - 1);
        let lists = all_collision_lists(s, contacts);
        assert(lists[k - 1] == collision_list(s, contacts, k - 1));
        lemma_meta_tree_len(merged_trees(s, lists, k - 1), lists[k - 1]);
    }
}

/// The discrete part of merging two particles: a meta particle whose
/// children are `left` and `right` and whose position is not yet assigned.
pub fn merge(left: ParticleTopology, right: ParticleTopology) -> (m: ParticleTopology)
    ensures
        m == (ParticleTopology { index: usize::MAX, ..meta_of(left, right, 0) }),
{
    let mut meta = ParticleTopology::new();
    meta.particle_type = ParticleType::MetaParticle;
    meta.left_index = left.index;
    meta.right_index = right.index;
    meta
}

/// Merges the particles at `indices` into a balanced tree of meta particles
/// appended to `ps`, hiding every child, and gives the root (for one index,
/// the particle itself).
pub fn build_meta_tree(indices: &[usize], ps: &mut TopologyVec) -> (root: ParticleTopology)
    requires
        indices@.len() > 0,
        indices_in_range(old(ps)@, indices@),
        old(ps)@.len() + indices@.len() - 1 <= usize::MAX,
    ensures
        (final(ps)@, root) == meta_tree(old(ps)@, indices@),
    decreases indices@.len(),
{
    let n = ps.len();
    if indices.len() == 1 {
        ps.get(indices[0])
    } else if indices.len() == 2 {
        let left = ps.get(indices[0]);
        let right = ps.get(indices[1]);
        let mut meta_particle = merge(left, right);
        meta_particle.index = n;
        ps.push(meta_particle);
        ps.set_merged(left.index, true);
        ps.set_merged(right.index, true);
        proof {
            let idx = indices@;
            assert(idx.subrange(0, 1) =~= seq![idx[0]]);
            assert(idx.subrange(1, 2) =~= seq![idx[1]]);
            reveal_with_fuel(meta_tree, 2);
        }
        meta_particle
    } else {
        let mid = indices.len() / 2;
        let ghost s0 = ps@;
        let left_indices = vstd::slice::slice_subrange(indices, 0, mid);
        proof {
            assert forall|k: int| 0 <= k < left_indices@.len() implies #[trigger] left_indices@[k]
                < s0.len() by {
                assert(left_indices@[k] == indices@[k]);
            }
            lemma_meta_tree_shape(s0, left_indices@);
        }
        let left_tree = build_meta_tree(left_indices, ps);
        let ghost s1 = ps@;
        let right_indices = vstd::slice::slice_subrange(indices, mid, indices.len());
        proof {
            assert forall|k: int| 0 <= k < right_indices@.len() implies #[trigger] right_indices@[k]
                < s1.len() by {
                assert(right_indices@[k] == indices@[mid + k]);
            }
        }
        let right_tree = build_meta_tree(right_indices, ps);
        let len = ps.len();
        proof {
            lemma_meta_tree_shape(s1, right_indices@);
        }
        let mut meta_particle = merge(left_tree, right_tree);
        meta_particle.index = len;
        ps.push(meta_particle);
        ps.set_merged(left_tree.index, true);
        ps.set_merged(right_tree.index, true);
        meta_particle
    }
}

/// The partners of `a` below `upto` lie strictly between `a` and `upto`,
/// so there are fewer of them than `upto - a`.
pub proof fn lemma_colliding_partners_bounds(
    s: Seq<ParticleTopology>,
    contacts: Seq<Vec<bool>>,
    a: int,
    upto: int,
)
    requires
        0 <= a,
        upto <= usize::MAX + 1,
    ensures
        colliding_partners(s, contacts, a, upto).len() <= if upto > a { upto - a - 1 } else { 0 },
        forall|k: int|
            0 <= k < colliding_partners(s, contacts, a, upto).len() ==> a < #[trigger] colliding_partners(
                s,
                contacts,
                a,
                upto,
            )[k] < upto,
    decreases upto - a,
{
    if upto > a + 1 {
        lemma_colliding_partners_bounds(s, contacts, a, upto - 1);
    }
}

/// Each collision list of a vector of `n` particles names only particles
/// of the vector and is at most `n` long.
pub proof fn lemma_collision_list_bounds(s: Seq<ParticleTopology>, contacts: Seq<Vec<bool>>, a: int)
    requires
        0 <= a < s.len(),
        s.len() <= usize::MAX,
    ensures
        collision_list(s, contacts, a).len() >= 1,
        collision_list(s, contacts, a).len() <= s.len() - a,
        indices_in_range(s, collision_list(s, contacts, a)),
{
    lemma_colliding_partners_bounds(s, contacts, a, s.len() as int);
    let l = collision_list(s, contacts, a);
    let t = colliding_partners(s, contacts, a, s.len() as int);
    assert forall|k: int| 0 <= k < l.len() implies #[trigger] l[k] < s.len() by {
        if k > 0 {
            assert(l[k] == t[k - 1]);
        }
    }
}

/// Groups particles into inelastic collisions and merges each group into
/// meta particles.
pub struct Merge {}

impl Default for Merge {
    fn default() -> (m: Merge)
        ensures
            m == (Merge {  }),
    {
        Merge {  }
    }
}

impl Merge {
    /// For every particle `a`, the list that starts with `a` and goes on with
    /// every later particle `b` that collides with it. `contacts[a][b]` is the
    /// continuous collision test of the pair (`a < b`).
    pub fn compute_collisions(&self, ps: &TopologyVec, contacts: &Vec<Vec<bool>>) -> (collisions: Vec<
        Vec<usize>,
    >)
        requires
            contacts_shaped(contacts@, ps@.len() as int),
        ensures
            collisions@.len() == ps@.len(),
            forall|a: int|
                0 <= a < ps@.len() ==> #[trigger] collisions@[a]@ == collision_list(
                    ps@,
                    contacts@,
                    a,
                ),
    {
        let particle_count = ps.len();
        let mut collisions: Vec<Vec<usize>> = Vec::new();
        let mut ai: usize = 0;
        while ai < particle_count
            invariant
                0 <= ai <= particle_count,
                particle_count == ps@.len(),
                contacts_shaped(contacts@, ps@.len() as int),
                collisions@.len() == ai,
                forall|a: int|
                    0 <= a < ai ==> #[trigger] collisions@[a]@ == collision_list(
                        ps@,
                        contacts@,
                        a,
                    ),
            decreases particle_count - ai,
        {
            let mut row: Vec<usize> = Vec::new();
            row.push(ai);
            let mut bi: usize = ai + 1;
            while bi < particle_count
                invariant
                    ai < particle_count,
                    ai + 1 <= bi <= particle_count,
                    particle_count == ps@.len(),
                    contacts_shaped(contacts@, ps@.len() as int),
                    row@ == seq![ai] + colliding_partners(ps@, contacts@, ai as int, bi as int),
                decreases particle_count - bi,
            {
                let p1 = ps.get(ai);
                let p2 = ps.get(bi);
                if !(p1.is_static && p2.is_static) && contacts[ai][bi] {
                    row.push(bi);
                }
                proof {
                    assert(row@ =~= seq![ai] + colliding_partners(
                        ps@,
                        contacts@,
                        ai as int,
                        bi + 1,
                    ));
                }
                bi = bi + 1;
            }
            collisions.push(row);
            ai = ai + 1;
        }
        collisions
    }

    /// Merges the collision list of every particle, in particle order, into
    /// a tree of meta particles appended to `ps`. `contacts[a][b]` is the
    /// continuous collision test of particles `a < b`.
    pub fn execute(&self, ps: &mut TopologyVec, contacts: &Vec<Vec<bool>>)
        requires
            contacts_shaped(contacts@, old(ps)@.len() as int),
            merge_pass(old(ps)@, contacts@).len() <= usize::MAX,
        ensures
            final(ps)@ == merge_pass(old(ps)@, contacts@),
    {
        let collisions = self.compute_collisions(ps, contacts);
        let n = ps.len();
        let ghost s0 = ps@;
        let ghost lists = all_collision_lists(s0, contacts@);
        let mut ci: usize = 0;
        while ci < n
            invariant
                indices_match_positions(ps@),
                0 <= ci <= n,
                n == s0.len(),
                merge_pass(s0, contacts@).len() <= usize::MAX,
                collisions@.len() == n,
                lists == all_collision_lists(s0, contacts@),
                forall|a: int|
                    0 <= a < n ==> #[trigger] collisions@[a]@ == collision_list(s0, contacts@, a),
                ps@ == merged_trees(s0, lists, ci as int),
            decreases n - ci,
        {
            proof {
                lemma_collision_list_bounds(s0, contacts@, ci as int);
                lemma_merged_trees_grow(s0, contacts@, ci as int, ci + 1);
                lemma_merged_trees_grow(s0, contacts@, ci + 1, n as int);
                let l = collisions@[ci as int]@;
                assert(indices_in_range(ps@, l)) by {
                    assert forall|k: int| 0 <= k < l.len() implies #[trigger] l[k] < ps@.len() by {
                        assert(l[k] < s0.len());
                    }
                }
                assert(l == lists[ci as int]);
                lemma_meta_tree_len(ps@, l);
            }
            let _root = build_meta_tree(collisions[ci].as_slice(), ps);
            // Reading the length recalls that every particle records its own
            // position.
            let _ = ps.len();
            ci = ci + 1;
        }
    }
}

} // verus!
