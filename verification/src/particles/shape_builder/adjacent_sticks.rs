use vstd::prelude::*;

verus! {

/// Where the stick that starts at position `pi` of a shape ends, `stride`
/// positions further on, wrapping once past the end.
pub open spec fn stick_end(pi: int, stride: int, count: int) -> int {
    if pi + stride >= count {
        pi + stride - count
    } else {
        pi + stride
    }
}

/// The handle pairs that the first `upto` particles of a shape start: particle
/// `pi` is joined to the particle `stride` positions further on, and past the
/// end only when the shape wraps around.
pub open spec fn stick_pairs(handles: Seq<usize>, stride: int, wrap_around: bool, upto: int) -> Seq<
    (usize, usize),
>
    decreases upto,
{
    if upto <= 0 {
        Seq::empty()
    } else {
        let pi = upto - 1;
        let count = handles.len() as int;
        stick_pairs(handles, stride, wrap_around, upto - 1) + if pi + stride >= count && !wrap_around {
            Seq::empty()
        } else {
            seq![(handles[pi], handles[stick_end(pi, stride, count)])]
        }
    }
}

/// A shape of `n` particles gets one stick per particle when it wraps
/// around, and otherwise one per particle that has a partner `stride`
/// positions further on.
pub proof fn lemma_stick_count(handles: Seq<usize>, stride: int, wrap_around: bool, upto: int)
    requires
        0 <= upto <= handles.len(),
        stride >= 0,
    ensures
        stick_pairs(handles, stride, wrap_around, upto).len() == if wrap_around {
            upto
        } else if upto + stride <= handles.len() {
            upto
        } else if stride < handles.len() {
            handles.len() - stride
        } else {
            0
        },
    decreases upto,
{
    if upto > 0 {
        lemma_stick_count(handles, stride, wrap_around, upto - 1);
    }
}

/// No stick joins a particle to itself: with distinct handles and a stride
/// that does not bring a wrapping shape back to its start, the two handles
/// of every pair differ.
pub proof fn lemma_no_self_sticks(handles: Seq<usize>, stride: int, wrap_around: bool, upto: int)
    requires
        0 <= upto <= handles.len(),
        stride > 0,
        wrap_around ==> stride < handles.len(),
        forall|a: int, b: int|
            0 <= a < b < handles.len() ==> #[trigger] handles[a] != #[trigger] handles[b],
    ensures
        forall|t: int|
            0 <= t < stick_pairs(handles, stride, wrap_around, upto).len() ==> (#[trigger] stick_pairs(
                handles,
                stride,
                wrap_around,
                upto,
            )[t]).0 != stick_pairs(handles, stride, wrap_around, upto)[t].1,
    decreases upto,
{
    if upto > 0 {
        lemma_no_self_sticks(handles, stride, wrap_around, upto - 1);
        let pi = upto - 1;
        let n = handles.len() as int;
        let end = stick_end(pi, stride, n);
        if !(pi + stride >= n && !wrap_around) {
            assert(0 <= end < n && end != pi);
            if end < pi {
                assert(handles[end] != handles[pi]);
            } else {
                assert(handles[pi] != handles[end]);
            }
        }
        let prev = stick_pairs(handles, stride, wrap_around, upto - 1);
        let cur = stick_pairs(handles, stride, wrap_around, upto);
        assert forall|t: int| 0 <= t < cur.len() implies (#[trigger] cur[t]).0 != cur[t].1 by {
            if t < prev.len() {
                assert(cur[t] == prev[t]);
            }
        }
    }
}

/// Every stick joins a particle to the one `stride` positions further on,
/// counting round the shape: on a wrapping shape of `n` particles the `pi`-th
/// stick joins `handles[pi]` and `handles[(pi + stride) % n]`; on a shape that
/// does not wrap, the `pi`-th stick joins `handles[pi]` and
/// `handles[pi + stride]`, for every `pi` whose partner lies inside the shape.
pub proof fn lemma_stick_ends(handles: Seq<usize>, stride: int, wrap_around: bool)
    requires
        stride >= 0,
        wrap_around ==> stride <= handles.len(),
    ensures
        wrap_around ==> forall|pi: int|
            0 <= pi < handles.len() ==> #[trigger] stick_pairs(handles, stride, true, handles.len() as int)[pi]
                == (handles[pi], handles[(pi + stride) % (handles.len() as int)]),
        !wrap_around ==> forall|pi: int|
            0 <= pi < handles.len() - stride ==> #[trigger] stick_pairs(
                handles,
                stride,
                false,
                handles.len() as int,
            )[pi] == (handles[pi], handles[pi + stride]),
{
    let n = handles.len() as int;
    lemma_stick_ends_upto(handles, stride, wrap_around, n);
    if !wrap_around {
        assert forall|pi: int| 0 <= pi < n - stride implies #[trigger] stick_pairs(
            handles,
            stride,
            false,
            n,
        )[pi] == (handles[pi], handles[pi + stride]) by {
            vstd::arithmetic::div_mod::lemma_small_mod((pi + stride) as nat, n as nat);
        }
    }
}

proof fn lemma_stick_ends_upto(handles: Seq<usize>, stride: int, wrap_around: bool, upto: int)
    requires
        stride >= 0,
        wrap_around ==> stride <= handles.len(),
        0 <= upto <= handles.len(),
    ensures
        forall|pi: int|
            0 <= pi < upto && (wrap_around || pi + stride < handles.len()) ==> pi < stick_pairs(
                handles,
                stride,
                wrap_around,
                upto,
            ).len() && #[trigger] stick_pairs(handles, stride, wrap_around, upto)[pi] == (
                handles[pi],
                handles[(pi + stride) % (handles.len() as int)],
            ),
    decreases upto,
{
    let n = handles.len() as int;
    if upto > 0 {
        lemma_stick_ends_upto(handles, stride, wrap_around, upto - 1);
        lemma_stick_count(handles, stride, wrap_around, upto - 1);
        let prev = stick_pairs(handles, stride, wrap_around, upto - 1);
        let cur = stick_pairs(handles, stride, wrap_around, upto);
        let pi = upto - 1;
        if wrap_around || pi + stride < n {
            assert(prev.len() == pi);
            if pi + stride >= n {
                vstd::arithmetic::div_mod::lemma_mod_add_multiples_vanish(pi + stride - n, n);
                vstd::arithmetic::div_mod::lemma_small_mod((pi + stride - n) as nat, n as nat);
                assert(n + (pi + stride - n) == pi + stride);
            } else {
                vstd::arithmetic::div_mod::lemma_small_mod((pi + stride) as nat, n as nat);
            }
            assert(cur[pi] == (handles[pi], handles[(pi + stride) % n]));
        }
        assert forall|q: int|
            0 <= q < upto && (wrap_around || q + stride < n) implies q < cur.len()
                && #[trigger] cur[q] == (handles[q], handles[(q + stride) % n]) by {
            if q < pi {
                assert(cur[q] == prev[q]);
            }
        }
    }
}

/// Joins the particles of a shape with sticks in a grid layout: each
/// particle to the one `stride` positions further on, copying the stick
/// `constraint_template`.
pub struct AdjacentSticks<T> {
    constraint_template: T,
    stride: usize,
    wrap_around: bool,
}

impl<T> AdjacentSticks<T> {
    pub closed spec fn template(&self) -> T {
        self.constraint_template
    }

    pub closed spec fn stride_len(&self) -> usize {
        self.stride
    }

    pub closed spec fn wraps(&self) -> bool {
        self.wrap_around
    }

    /// A stride of zero would join a particle to itself.
    pub fn new(constraint_template: T, stride: usize, wrap_around: bool) -> (s: Self)
        requires
            stride > 0,
        ensures
            s.template() == constraint_template,
            s.stride_len() == stride,
            s.wraps() == wrap_around,
    {
        AdjacentSticks { constraint_template, stride, wrap_around }
    }

    pub fn constraint_template(&self) -> (t: &T)
        ensures
            *t == self.template(),
    {
        &self.constraint_template
    }

    pub fn stride(&self) -> (s: usize)
        ensures
            s == self.stride_len(),
    {
        self.stride
    }

    pub fn wrap_around(&self) -> (w: bool)
        ensures
            w == self.wraps(),
    {
        self.wrap_around
    }

    /// The pairs of particle handles that receive a stick, in the order the
    /// sticks are made. A wrapping shape may not have a stride longer than
    /// the shape, whose end would then lie past the shape.
    pub fn stick_handle_pairs(&self, particle_handles: &Vec<usize>) -> (pairs: Vec<(usize, usize)>)
        requires
            self.wraps() ==> self.stride_len() <= particle_handles@.len(),
            particle_handles@.len() + self.stride_len() <= usize::MAX + 1,
        ensures
            pairs@ == stick_pairs(
                particle_handles@,
                self.stride_len() as int,
                self.wraps(),
                particle_handles@.len() as int,
            ),
    {
        let particle_count = particle_handles.len();
        let mut pairs: Vec<(usize, usize)> = Vec::new();
        let mut pi: usize = 0;
        while pi < particle_count
            invariant
                0 <= pi <= particle_count,
                particle_count == particle_handles@.len(),
                self.wraps() ==> self.stride_len() <= particle_count,
                particle_count + self.stride_len() <= usize::MAX + 1,
                pairs@ == stick_pairs(
                    particle_handles@,
                    self.stride_len() as int,
                    self.wraps(),
                    pi as int,
                ),
            decreases particle_count - pi,
        {
            let mut pi_next = pi + self.stride;
            if pi_next >= particle_count {
                if self.wrap_around {
                    pi_next = pi_next - particle_count;
                    pairs.push((particle_handles[pi], particle_handles[pi_next]));
                }
            } else {
                pairs.push((particle_handles[pi], particle_handles[pi_next]));
            }
            pi = pi + 1;
        }
        pairs
    }
}

} // verus!
