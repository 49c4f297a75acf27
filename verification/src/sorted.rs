use vstd::prelude::*;

use core::marker::PhantomData;

use crate::rng::{fresh_rng, rand_below};
use crate::sampler::{clone_prefix, indices_increasing, selected_from, Sampler};

verus! {

/// Sequential (selection) sampling: a random subset of size `min(k, n)` that
/// preserves the relative input order of the selected elements, drawn in one
/// forward pass. At each position the element is kept with probability
/// `remaining_to_select / remaining_items`, which guarantees a full sample.
/// Each instance owns its generator, so successive calls consume an evolving
/// stream of draws.
pub struct SortedSampler<T> {
    rng: rand::rngs::ThreadRng,
    _phantom: PhantomData<T>,
}

impl<T> SortedSampler<T> {
    pub fn new() -> (s: Self) {
        SortedSampler { rng: fresh_rng(), _phantom: PhantomData }
    }
}

impl<T: Clone + Ord> Sampler<T> for SortedSampler<T> {
    fn sample(&mut self, data: &[T], k: usize) -> (result: Vec<T>)
        ensures
            exists|idxs: Seq<int>| selected_from(data@, result@, idxs) && indices_increasing(
                idxs,
            ),
    {
        let n = data.len();

        if k == 0 || n == 0 {
            let result: Vec<T> = Vec::new();
            proof {
                assert(selected_from(data@, result@, Seq::<int>::empty()));
                assert(indices_increasing(Seq::<int>::empty()));
            }
            return result;
        }
        if k >= n {
            let result = clone_prefix(data, n);
            proof {
                let idxs = Seq::new(n as nat, |a: int| a);
                assert(selected_from(data@, result@, idxs));
                assert(indices_increasing(idxs));
            }
            return result;
        }

        // Walk the input once. At each position the element is selected with
        // probability remaining_to_select / remaining_items: a draw uniform
        // over [0, remaining_items) falls below remaining_to_select exactly
        // that often. Since remaining_to_select never exceeds remaining_items,
        // the walk always ends with exactly k elements selected.
        let mut result: Vec<T> = Vec::new();
        let ghost mut idxs: Seq<int> = Seq::empty();
        let mut current_index: usize = 0;
        let mut remaining = n;

        while result.len() < k && current_index < n
            invariant
                n == data@.len(),
                0 < k < n,
                current_index <= n,
                remaining == n - current_index,
                result@.len() <= k,
                k - result@.len() <= remaining,
                idxs.len() == result@.len(),
                forall|a: int|
                    #![trigger idxs[a]]
                    0 <= a < idxs.len() ==> 0 <= idxs[a] < current_index && cloned::<T>(
                        data@[idxs[a]],
                        result@[a],
                    ),
                forall|a: int, b: int|
                    #![trigger idxs[a], idxs[b]]
                    0 <= a < b < idxs.len() ==> idxs[a] < idxs[b],
            decreases n - current_index,
        {
            let remaining_to_select = k - result.len();
            let j = rand_below(&mut self.rng, remaining);

            if j < remaining_to_select {
                result.push(data[current_index].clone());
                proof {
                    idxs = idxs.push(current_index as int);
                }
            }

            current_index += 1;
            remaining -= 1;
        }

        proof {
            assert(selected_from(data@, result@, idxs));
            assert(indices_increasing(idxs));
        }
        result
    }
}

} // verus!
