use vstd::prelude::*;

use core::marker::PhantomData;

use crate::rng::{fresh_rng, rand_below};
use crate::sampler::{clone_prefix, selected_from, Sampler};

verus! {

/// Reservoir sampling (Algorithm R): a uniformly random unordered subset of
/// size `min(k, n)`, drawn in one forward pass. The order of the output is
/// incidental. Each instance owns its generator, so successive calls consume
/// an evolving stream of draws.
pub struct ReservoirSampler<T> {
    rng: rand::rngs::ThreadRng,
    _phantom: PhantomData<T>,
}

impl<T> ReservoirSampler<T> {
    pub fn new() -> (s: Self) {
        ReservoirSampler { rng: fresh_rng(), _phantom: PhantomData }
    }
}

impl<T> Sampler<T> for ReservoirSampler<T> {
    fn sample(&mut self, data: &[T], k: usize) -> (result: Vec<T>) where T: Clone
        ensures
            k >= data@.len() ==> result@.len() == data@.len() && forall|a: int|
                #![trigger result@[a]]
                0 <= a < data@.len() ==> cloned::<T>(data@[a], result@[a]),
    {
        let n = data.len();

        if k == 0 || n == 0 {
            let result: Vec<T> = Vec::new();
            proof {
                assert(selected_from(data@, result@, Seq::<int>::empty()));
            }
            return result;
        }
        if k >= n {
            let result = clone_prefix(data, n);
            proof {
                let idxs = Seq::new(n as nat, |a: int| a);
                assert(selected_from(data@, result@, idxs));
            }
            return result;
        }

        // Fill the reservoir with the first k elements, then for each later
        // position i draw j uniformly from [0, i]; replace slot j when j < k.
        let mut reservoir = clone_prefix(data, k);
        let ghost mut idxs: Seq<int> = Seq::new(k as nat, |a: int| a);

        let mut i: usize = k;
        while i < n
            invariant
                n == data@.len(),
                0 < k < n,
                k <= i <= n,
                reservoir@.len() == k,
                idxs.len() == k,
                forall|a: int|
                    #![trigger idxs[a]]
                    0 <= a < k ==> 0 <= idxs[a] < i && cloned::<T>(
                        data@[idxs[a]],
                        reservoir@[a],
                    ),
                forall|a: int, b: int|
                    #![trigger idxs[a], idxs[b]]
                    0 <= a < b < k ==> idxs[a] != idxs[b],
            decreases n - i,
        {
            let j = rand_below(&mut self.rng, i + 1);
            if j < k {
                reservoir[j] = data[i].clone();
                proof {
                    idxs = idxs.update(j as int, i as int);
                }
            }
            i += 1;
        }

        proof {
            assert(selected_from(data@, reservoir@, idxs));
        }
        reservoir
    }
}

} // verus!
