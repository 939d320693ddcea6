use vstd::prelude::*;

verus! {

/// The position after `i` on a closed ring of `n` positions.
pub open spec fn ring_next(i: int, n: int) -> int {
    (i + 1) % n
}

/// The position before `i` on a closed ring of `n` positions.
pub open spec fn ring_prev(i: int, n: int) -> int {
    (i + n - 1) % n
}

/// On a closed ring of `n` positions, the position after `i` is `i + 1`,
/// except that the last position is followed by the first; the position
/// before `i` is `i - 1`, except that the first is preceded by the last. A
/// step back and a step forward return to `i`, and on a ring of two or more
/// positions neither step stays put.
pub proof fn lemma_ring_steps(i: int, n: int)
    requires
        0 <= i < n,
    ensures
        ring_next(i, n) == if i + 1 == n { 0 } else { i + 1 },
        ring_prev(i, n) == if i == 0 { n - 1 } else { i - 1 },
        0 <= ring_next(i, n) < n,
        0 <= ring_prev(i, n) < n,
        ring_next(ring_prev(i, n), n) == i,
        ring_prev(ring_next(i, n), n) == i,
        n >= 2 ==> ring_prev(i, n) != i && ring_next(i, n) != i,
{
    lemma_ring_steps_closed(i, n);
    let p = if i == 0 { n - 1 } else { i - 1 };
    let q = if i + 1 == n { 0 } else { i + 1 };
    lemma_ring_steps_closed(p, n);
    lemma_ring_steps_closed(q, n);
}

proof fn lemma_ring_steps_closed(i: int, n: int)
    requires
        0 <= i < n,
    ensures
        ring_next(i, n) == if i + 1 == n { 0 } else { i + 1 },
        ring_prev(i, n) == if i == 0 { n - 1 } else { i - 1 },
{
    if i + 1 == n {
        vstd::arithmetic::div_mod::lemma_mod_self_0(n);
    } else {
        vstd::arithmetic::div_mod::lemma_small_mod((i + 1) as nat, n as nat);
    }
    if i == 0 {
        vstd::arithmetic::div_mod::lemma_small_mod((n - 1) as nat, n as nat);
    } else {
        vstd::arithmetic::div_mod::lemma_mod_add_multiples_vanish(i - 1, n);
        vstd::arithmetic::div_mod::lemma_small_mod((i - 1) as nat, n as nat);
        assert(i + n - 1 == n + (i - 1));
    }
}

/// The edges of the closed polygon through the particles at
/// `particle_indices`, in order: each particle paired with the next one, the
/// last with the first.
pub fn polygon_edges(particle_indices: &Vec<usize>) -> (edges: Vec<(usize, usize)>)
    ensures
        edges@.len() == particle_indices@.len(),
        forall|i: int|
            0 <= i < edges@.len() ==> #[trigger] edges@[i] == (
                particle_indices@[i],
                particle_indices@[ring_next(i, particle_indices@.len() as int)],
            ),
        forall|i: int|
            0 <= i < edges@.len() ==> #[trigger] edges@[i] == (
                particle_indices@[i],
                particle_indices@[if i + 1 == edges@.len() { 0 } else { i + 1 }],
            ),
{
    let n = particle_indices.len();
    let mut edges: Vec<(usize, usize)> = Vec::new();
    let mut i: usize = 0;
    while i < n
        invariant
            0 <= i <= n,
            n == particle_indices@.len(),
            edges@.len() == i,
            forall|k: int|
                0 <= k < i ==> #[trigger] edges@[k] == (
                    particle_indices@[k],
                    particle_indices@[ring_next(k, n as int)],
                ),
        decreases n - i,
    {
        let next = (i + 1) % n;
        edges.push((particle_indices[i], particle_indices[next]));
        i = i + 1;
    }
    proof {
        assert forall|k: int| 0 <= k < n implies ring_next(k, n as int) == if k + 1 == n { 0 } else { k + 1 } by {
            lemma_ring_steps(k, n as int);
        }
    }
    edges
}

/// For each particle of the closed polygon through `particle_indices`, the
/// particles before and after it.
pub fn polygon_neighbours(particle_indices: &Vec<usize>) -> (neighbours: Vec<(usize, usize)>)
    requires
        2 * particle_indices@.len() <= usize::MAX + 1,
    ensures
        neighbours@.len() == particle_indices@.len(),
        forall|i: int|
            0 <= i < neighbours@.len() ==> #[trigger] neighbours@[i] == (
                particle_indices@[ring_prev(i, particle_indices@.len() as int)],
                particle_indices@[ring_next(i, particle_indices@.len() as int)],
            ),
        forall|i: int|
            0 <= i < neighbours@.len() ==> #[trigger] neighbours@[i] == (
                particle_indices@[if i == 0 { neighbours@.len() - 1 } else { i - 1 }],
                particle_indices@[if i + 1 == neighbours@.len() { 0 } else { i + 1 }],
            ),
{
    let n = particle_indices.len();
    let mut neighbours: Vec<(usize, usize)> = Vec::new();
    let mut i: usize = 0;
    while i < n
        invariant
            0 <= i <= n,
            n == particle_indices@.len(),
            2 * n <= usize::MAX + 1,
            neighbours@.len() == i,
            forall|k: int|
                0 <= k < i ==> #[trigger] neighbours@[k] == (
                    particle_indices@[ring_prev(k, n as int)],
                    particle_indices@[ring_next(k, n as int)],
                ),
        decreases n - i,
    {
        let prev = (i + n - 1) % n;
        let next = (i + 1) % n;
        neighbours.push((particle_indices[prev], particle_indices[next]));
        i = i + 1;
    }
    proof {
        assert forall|k: int| 0 <= k < n implies ring_next(k, n as int) == (if k + 1 == n { 0 } else { k + 1 })
            && ring_prev(k, n as int) == (if k == 0 { n - 1 } else { k - 1 }) by {
            lemma_ring_steps(k, n as int);
        }
    }
    neighbours
}

} // verus!
