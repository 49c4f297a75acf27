use vstd::prelude::*;

verus! {

/// `result` was drawn from `data` at the source positions listed in `idxs`:
/// one source position per output element, no source position used twice, and
/// each output element a clone of the input element at its source position.
pub open spec fn selected_from<T: Clone>(data: Seq<T>, result: Seq<T>, idxs: Seq<int>) -> bool {
    &&& idxs.len() == result.len()
    &&& forall|a: int|
        #![trigger idxs[a]]
        0 <= a < idxs.len() ==> 0 <= idxs[a] < data.len() && cloned::<T>(data[idxs[a]], result[a])
    &&& forall|a: int, b: int|
        #![trigger idxs[a], idxs[b]]
        0 <= a < b < idxs.len() ==> idxs[a] != idxs[b]
}

/// The source positions are strictly increasing: the selection preserves the
/// relative order of the input.
pub open spec fn indices_increasing(idxs: Seq<int>) -> bool {
    forall|a: int, b: int|
        #![trigger idxs[a], idxs[b]]
        0 <= a < b < idxs.len() ==> idxs[a] < idxs[b]
}

/// A sampling strategy: draw `k` of the borrowed input's elements, consuming
/// the instance's own stream of randomness. Every strategy returns exactly
/// `min(k, data.len())` elements and never fabricates a value: the result is
/// a selection of clones of input elements at pairwise distinct positions.
pub trait Sampler<T> {
    /// Sample k items from the input data
    fn sample(&mut self, data: &[T], k: usize) -> (result: Vec<T>) where T: Clone
        ensures
            result@.len() == vstd::math::min(k as int, data@.len() as int),
            exists|idxs: Seq<int>| selected_from(data@, result@, idxs),
    ;
}

/// Clones the first `m` elements of `data`, in order.
pub(crate) fn clone_prefix<T: Clone>(data: &[T], m: usize) -> (out: Vec<T>)
    requires
        m <= data@.len(),
    ensures
        out@.len() == m,
        forall|a: int| #![trigger out@[a]] 0 <= a < m ==> cloned::<T>(data@[a], out@[a]),
{
    let mut out: Vec<T> = Vec::new();
    let mut i: usize = 0;
    while i < m
        invariant
            m <= data@.len(),
            i <= m,
            out@.len() == i,
            forall|a: int| #![trigger out@[a]] 0 <= a < i ==> cloned::<T>(data@[a], out@[a]),
        decreases m - i,
    {
        out.push(data[i].clone());
        i += 1;
    }
    out
}

/// Law: a selection at pairwise distinct source positions never fabricates
/// values. Whenever each result element equals the input element at its
/// source position, the result's multiset of values is contained in the
/// input's multiset of values.
pub proof fn lemma_selection_is_submultiset<T>(data: Seq<T>, result: Seq<T>, idxs: Seq<int>)
    requires
        idxs.len() == result.len(),
        forall|a: int| #![trigger idxs[a]] 0 <= a < idxs.len() ==> 0 <= idxs[a] < data.len(),
        forall|a: int| #![trigger idxs[a]] 0 <= a < idxs.len() ==> result[a] == data[idxs[a]],
        forall|a: int, b: int|
            #![trigger idxs[a], idxs[b]]
            0 <= a < b < idxs.len() ==> idxs[a] != idxs[b],
    ensures
        result.to_multiset().subset_of(data.to_multiset()),
    decreases result.len(),
{
    broadcast use vstd::seq_lib::group_to_multiset_ensures;

    if result.len() == 0 {
        assert(forall|x: T| result.to_multiset().count(x) == 0);
    } else {
        let m = (result.len() - 1) as nat;
        let last_idx = idxs[m as int];
        let data2 = data.remove(last_idx);
        let result2 = result.drop_last();
        let idxs2 = Seq::new(m, |a: int| if idxs[a] > last_idx { idxs[a] - 1 } else { idxs[a] });

        assert forall|a: int| #![trigger idxs2[a]] 0 <= a < idxs2.len() implies
            0 <= idxs2[a] < data2.len() && result2[a] == data2[idxs2[a]] by {
            assert(idxs[a] != last_idx);
        }
        lemma_selection_is_submultiset(data2, result2, idxs2);

        assert(result =~= result2.push(result[m as int]));
        assert(result.to_multiset() =~= result2.to_multiset().insert(result[m as int]));
        assert(data2.to_multiset() =~= data.to_multiset().remove(data[last_idx]));
        assert(data.contains(data[last_idx]));
        assert(data.to_multiset().count(data[last_idx]) > 0);
        assert forall|x: T| result.to_multiset().count(x) <= data.to_multiset().count(x) by {
            assert(result2.to_multiset().count(x) <= data2.to_multiset().count(x));
        }
    }
}

} // verus!
