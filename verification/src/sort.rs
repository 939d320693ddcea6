use vstd::prelude::*;

verus! {

/// The numbers `count - 1` down to `0`: the worst-case input for a sort.
pub fn reversed_input(count: u32) -> (data: Vec<u32>)
    ensures
        data@.len() == count,
        forall|i: int| 0 <= i < count ==> #[trigger] data@[i] == count - 1 - i,
{
    let mut data: Vec<u32> = Vec::new();
    let mut k: u32 = count;
    while k > 0
        invariant
            0 <= k <= count,
            data@.len() == count - k,
            forall|i: int| 0 <= i < data@.len() ==> #[trigger] data@[i] == count - 1 - i,
        decreases k,
    {
        k = k - 1;
        data.push(k);
    }
    data
}

/// The number of workgroups of `num_threads` threads that cover `len`
/// items: `len / num_threads`, rounded up.
pub fn dispatch_count(len: u32, num_threads: u32) -> (n: u32)
    requires
        num_threads > 0,
    ensures
        n == (len + num_threads - 1) / (num_threads as int),
        (n - 1) * num_threads < len <= n * num_threads || (n == 0 && len == 0),
{
    let whole = len / num_threads;
    let rest = len % num_threads;
    proof {
        let t = num_threads as int;
        let l = len as int;
        vstd::arithmetic::div_mod::lemma_fundamental_div_mod(l, t);
        if rest > 0 {
            assert(whole < u32::MAX) by (nonlinear_arith)
                requires
                    l == t * whole + rest,
                    rest > 0,
                    rest < t,
                    l <= u32::MAX,
                    whole >= 0,
            ;
        }
    }
    let n = if rest > 0 {
        whole + 1
    } else {
        whole
    };
    proof {
        let t = num_threads as int;
        let l = len as int;
        vstd::arithmetic::div_mod::lemma_fundamental_div_mod(l, t);
        vstd::arithmetic::div_mod::lemma_fundamental_div_mod(l + t - 1, t);
        assert(0 <= (l + t - 1) % t < t) by {
            vstd::arithmetic::div_mod::lemma_mod_bound(l + t - 1, t);
        }
        assert(0 <= l % t < t) by {
            vstd::arithmetic::div_mod::lemma_mod_bound(l, t);
        }
        assert(n == (l + t - 1) / t) by (nonlinear_arith)
            requires
                l == t * (l / t) + l % t,
                l + t - 1 == t * ((l + t - 1) / t) + (l + t - 1) % t,
                0 <= (l + t - 1) % t < t,
                0 <= l % t < t,
                t > 0,
                whole == l / t,
                rest == l % t,
                n == if rest > 0 { whole + 1 } else { whole as int },
        ;
        assert((n - 1) * t < l <= n * t || (n == 0 && l == 0)) by (nonlinear_arith)
            requires
                l == t * (l / t) + l % t,
                0 <= l % t < t,
                t > 0,
                l >= 0,
                whole == l / t,
                rest == l % t,
                n == if rest > 0 { whole + 1 } else { whole as int },
        ;
    }
    n
}

/// The first position `i > 0` whose number is not larger than the one
/// before it, if any; `None` means `data` is strictly increasing.
pub fn first_unsorted_index(data: &[u32]) -> (r: Option<usize>)
    ensures
        r is None <==> forall|i: int| 1 <= i < data@.len() ==> #[trigger] data@[i] > data@[i - 1],
        r matches Some(i) ==> 1 <= i < data@.len() && data@[i as int] <= data@[i - 1] && forall|
            k: int,
        | 1 <= k < i ==> #[trigger] data@[k] > data@[k - 1],
{
    let len = data.len();
    let mut i: usize = 1;
    while i < len
        invariant
            1 <= i,
            len == data@.len(),
            forall|k: int| 1 <= k < i && k < len ==> #[trigger] data@[k] > data@[k - 1],
        decreases len - i,
    {
        if data[i] <= data[i - 1] {
            return Some(i);
        }
        i = i + 1;
    }
    None
}

} // verus!
