use vstd::prelude::*;

verus! {

/// `counts` with one more constraint counted for particle `i`.
pub open spec fn counted(counts: Seq<usize>, i: int) -> Seq<usize> {
    counts.update(i, (counts[i] + 1) as usize)
}

/// `counts` with one more constraint counted for `i1` and one for `i2`.
pub open spec fn pair_counted(counts: Seq<usize>, i1: int, i2: int) -> Seq<usize> {
    counted(counted(counts, i1), i2)
}

/// What `count` constraints for every occurrence of `j` in `indices` add to
/// the count of particle `j`.
pub open spec fn added_count(indices: Seq<usize>, count: nat, j: int) -> nat
    decreases indices.len(),
{
    if indices.len() == 0 {
        0
    } else {
        added_count(indices.drop_last(), count, j) + if indices.last() == j {
            count
        } else {
            0
        }
    }
}

/// `count` constraints for every occurrence of a particle add `count` times
/// the number of its occurrences in `indices` to its count: each occurrence
/// counts, whatever the particle.
pub proof fn lemma_added_count_occurrences(indices: Seq<usize>, count: nat, j: int)
    requires
        0 <= j <= usize::MAX,
    ensures
        added_count(indices, count, j) == count * indices.to_multiset().count(j as usize),
    decreases indices.len(),
{
    broadcast use vstd::seq_lib::group_to_multiset_ensures;
    broadcast use vstd::multiset::group_multiset_axioms;

    if indices.len() == 0 {
        vstd::multiset::lemma_multiset_empty_len(indices.to_multiset());
        assert(indices.to_multiset().count(j as usize) == 0);
    } else {
        let d = indices.drop_last();
        lemma_added_count_occurrences(d, count, j);
        assert(d.push(indices.last()) =~= indices);
        let m = d.to_multiset().count(j as usize);
        assert(count * (m + 1) == count * m + count) by (nonlinear_arith);
    }
}

/// Every particle named in `indices` gains at least `count` from counting
/// over `indices`.
pub proof fn lemma_added_count_named(indices: Seq<usize>, count: nat, k: int)
    requires
        0 <= k < indices.len(),
    ensures
        added_count(indices, count, indices[k] as int) >= count,
{
    broadcast use vstd::seq_lib::group_to_multiset_ensures;

    let j = indices[k];
    lemma_added_count_occurrences(indices, count, j as int);
    assert(indices.contains(j));
    assert(indices.to_multiset().count(j) >= 1);
    assert(count * indices.to_multiset().count(j) >= count) by (nonlinear_arith)
        requires
            indices.to_multiset().count(j) >= 1,
    ;
}

/// Counts one more constraint for particle `index`.
pub fn add_count(counts: &mut Vec<usize>, index: usize)
    requires
        index < old(counts)@.len(),
        old(counts)@[index as int] + 1 <= usize::MAX,
    ensures
        final(counts)@ == counted(old(counts)@, index as int),
{
    let c = counts[index];
    counts.set(index, c + 1);
}

/// Counts one more constraint for each of `i1` and `i2` (two for the same
/// particle when they are equal).
pub fn add_pair_counts(counts: &mut Vec<usize>, i1: usize, i2: usize)
    requires
        i1 < old(counts)@.len(),
        i2 < old(counts)@.len(),
        old(counts)@[i1 as int] + 1 <= usize::MAX,
        old(counts)@[i2 as int] + 1 + (if i1 == i2 { 1int } else { 0 }) <= usize::MAX,
    ensures
        final(counts)@ == pair_counted(old(counts)@, i1 as int, i2 as int),
{
    add_count(counts, i1);
    add_count(counts, i2);
}

/// Counting over a prefix of `indices` adds no more than over all of it.
pub proof fn lemma_added_count_prefix(indices: Seq<usize>, count: nat, j: int, k: int)
    requires
        0 <= k <= indices.len(),
    ensures
        added_count(indices.subrange(0, k), count, j) <= added_count(indices, count, j),
    decreases indices.len(),
{
    if k < indices.len() {
        lemma_added_count_prefix(indices.drop_last(), count, j, k);
        assert(indices.drop_last().subrange(0, k) =~= indices.subrange(0, k));
    } else {
        assert(indices.subrange(0, k) =~= indices);
    }
}

/// Counts `count` more constraints for the particle at each of `indices`.
pub fn add_counts_for_indices(counts: &mut Vec<usize>, indices: &Vec<usize>, count: usize)
    requires
        forall|k: int| 0 <= k < indices@.len() ==> #[trigger] indices@[k] < old(counts)@.len(),
        forall|j: int|
            0 <= j < old(counts)@.len() ==> #[trigger] old(counts)@[j] + added_count(
                indices@,
                count as nat,
                j,
            ) <= usize::MAX,
    ensures
        final(counts)@.len() == old(counts)@.len(),
        forall|j: int|
            0 <= j < old(counts)@.len() ==> #[trigger] final(counts)@[j] == old(counts)@[j]
                + added_count(indices@, count as nat, j),
        forall|j: int|
            0 <= j < old(counts)@.len() ==> #[trigger] final(counts)@[j] == old(counts)@[j] + count
                * indices@.to_multiset().count(j as usize),
{
    let ghost start = counts@;
    let n = indices.len();
    let mut i: usize = 0;
    while i < n
        invariant
            0 <= i <= n,
            n == indices@.len(),
            counts@.len() == start.len(),
            forall|k: int| 0 <= k < indices@.len() ==> #[trigger] indices@[k] < start.len(),
            forall|j: int|
                0 <= j < start.len() ==> #[trigger] start[j] + added_count(indices@, count as nat, j)
                    <= usize::MAX,
            forall|j: int|
                0 <= j < start.len() ==> #[trigger] counts@[j] == start[j] + added_count(
                    indices@.subrange(0, i as int),
                    count as nat,
                    j,
                ),
        decreases n - i,
    {
        let idx = indices[i];
        proof {
            let pre = indices@.subrange(0, i as int);
            let post = indices@.subrange(0, i + 1);
            assert(post.drop_last() =~= pre);
            lemma_added_count_prefix(indices@, count as nat, idx as int, i + 1);
            assert(start[idx as int] + added_count(indices@, count as nat, idx as int) <= usize::MAX);
        }
        let c = counts[idx];
        counts.set(idx, c + count);
        proof {
            let pre = indices@.subrange(0, i as int);
            let post = indices@.subrange(0, i + 1);
            assert(post.drop_last() =~= pre);
            assert forall|j: int| 0 <= j < start.len() implies #[trigger] counts@[j] == start[j]
                + added_count(post, count as nat, j) by {
            }
        }
        i = i + 1;
    }
    let len = counts.len();
    proof {
        assert(indices@.subrange(0, n as int) =~= indices@);
        assert(len == start.len());
        assert forall|j: int| 0 <= j < start.len() implies #[trigger] counts@[j] == start[j] + count
            * indices@.to_multiset().count(j as usize) by {
            lemma_added_count_occurrences(indices@, count as nat, j);
        }
    }
}

} // verus!
