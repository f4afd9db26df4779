//! Near-duplicate image detection over embedding similarities: the chunked
//! matcher, the embedding cache's bookkeeping, and the keep list.
use vstd::prelude::*;

pub mod cache;
pub mod error;
pub mod matcher;

verus! {

/// Number of blocks of `chunk` rows needed to cover `n` rows.
pub fn chunk_count(n: usize, chunk: usize) -> (r: usize)
    requires
        chunk > 0,
    ensures
        r as int == (n as int + chunk as int - 1) / chunk as int,
{
    let q: usize = n / chunk;
    let rem: usize = n % chunk;
    proof {
        vstd::arithmetic::div_mod::lemma_fundamental_div_mod(n as int, chunk as int);
    }
    if rem == 0 {
        proof {
            assert((n as int + chunk as int - 1) / chunk as int == q as int) by (nonlinear_arith)
                requires
                    n as int == chunk as int * q as int,
                    chunk > 0,
            {
                vstd::arithmetic::div_mod::lemma_div_plus_one(q as int, chunk as int);
            }
        }
        q
    } else {
        proof {
            assert((n as int + chunk as int - 1) / chunk as int == q as int + 1) by (nonlinear_arith)
                requires
                    n as int == chunk as int * q as int + rem as int,
                    0 < rem < chunk,
            {}
            assert(q < usize::MAX) by (nonlinear_arith)
                requires
                    n as int == chunk as int * q as int + rem as int,
                    0 < rem < chunk,
                    n <= usize::MAX,
            {}
        }
        q + 1
    }
}

/// Consecutive ranges `(start, end)` that cover rows `0..n` in order, each of
/// `size` rows but the last, which has between one and `size`.
pub fn batches(n: usize, size: usize) -> (r: Vec<(usize, usize)>)
    requires
        size > 0,
    ensures
        r@.len() == 0 <==> n == 0,
        r@.len() > 0 ==> r@[0].0 == 0 && r@[r@.len() - 1].1 == n,
        forall|k: int| 0 <= k < r@.len() ==> (#[trigger] r@[k]).0 < r@[k].1 <= r@[k].0 + size,
        forall|k: int|
            0 <= k < r@.len() - 1 ==> (#[trigger] r@[k]).1 == r@[k].0 + size && r@[k + 1].0 == r@[k].1,
{
    let mut r: Vec<(usize, usize)> = Vec::new();
    let mut start: usize = 0;
    while start < n
        invariant
            start <= n,
            size > 0,
            r@.len() == 0 <==> start == 0,
            r@.len() > 0 ==> r@[0].0 == 0 && r@[r@.len() - 1].1 == start,
            r@.len() > 0 && start < n ==> r@[r@.len() - 1].1 == r@[r@.len() - 1].0 + size,
            forall|k: int| 0 <= k < r@.len() ==> (#[trigger] r@[k]).0 < r@[k].1 <= r@[k].0 + size,
            forall|k: int|
                0 <= k < r@.len() - 1 ==> (#[trigger] r@[k]).1 == r@[k].0 + size && r@[k + 1].0 == r@[k].1,
        decreases n - start,
    {
        let end: usize = if size < n - start {
            start + size
        } else {
            n
        };
        r.push((start, end));
        start = end;
    }
    r
}

} // verus!
