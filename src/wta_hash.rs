use vstd::prelude::*;

use crate::hasher::{
    draw_selection, fold_indices, selection_ok, shifts_fit, sparse_to_dense, table_indices, wta_dense,
    wta_raw, wta_sparse, BIN_SIZE,
};

verus! {

/// Plain winner-take-all hasher: `size` slots, each the position of the
/// largest of `BIN_SIZE` distinct random positions of the input.
pub struct WtaHash {
    size: usize,
    number_of_bits: usize,
    indices: Vec<usize>,
}

impl WtaHash {
    pub closed spec fn size_spec(&self) -> nat {
        self.size as nat
    }

    pub closed spec fn number_of_bits(&self) -> nat {
        self.number_of_bits as nat
    }

    /// The selected positions: slot `i` reads `selection()[BIN_SIZE·i + j]`.
    pub closed spec fn selection(&self) -> Seq<usize> {
        self.indices@
    }

    pub closed spec fn wf(&self) -> bool {
        &&& selection_ok(self.indices@, self.size as nat, self.number_of_bits as nat)
        &&& BIN_SIZE <= self.number_of_bits
    }

    /// The hash of the dense key vector `w`.
    pub open spec fn hash_of(&self, w: Seq<u32>) -> Seq<usize> {
        wta_raw(w, self.selection(), self.size_spec())
    }

    /// A hasher with `size` slots over inputs of `number_of_bits` positions.
    pub fn new(size: usize, number_of_bits: usize) -> (r: Self)
        requires
            BIN_SIZE <= number_of_bits,
            BIN_SIZE * size <= usize::MAX,
        ensures
            r.wf(),
            r.size_spec() == size,
            r.number_of_bits() == number_of_bits,
            selection_ok(r.selection(), size as nat, number_of_bits as nat),
    {
        let indices = draw_selection(size, number_of_bits);
        WtaHash { size, number_of_bits, indices }
    }

    /// Hashes a dense key vector of length `number_of_bits`.
    pub fn hash(&self, weights: &[u32]) -> (r: Vec<usize>)
        requires
            self.wf(),
            weights@.len() == self.number_of_bits(),
        ensures
            r@ == self.hash_of(weights@),
            forall|i: int| 0 <= i < self.size_spec() ==> #[trigger] r@[i] < BIN_SIZE,
    {
        wta_dense(&self.indices, self.size, weights)
    }

    /// Hashes the sparse key vector whose entry `p` puts `weights[p]` at
    /// position `indices[p]`; omitted positions count as zero.
    pub fn hash_sparse(&self, weights: &[u32], indices: &[usize]) -> (r: Vec<usize>)
        requires
            self.wf(),
            indices@.len() <= weights@.len(),
        ensures
            r@ == self.hash_of(sparse_to_dense(weights@, indices@, self.number_of_bits())),
            forall|i: int| 0 <= i < self.size_spec() ==> #[trigger] r@[i] < BIN_SIZE,
    {
        wta_sparse(&self.indices, self.size, self.number_of_bits, weights, indices)
    }

    /// Folds `k·l` slot hashes into `l` bucket indices below `2^range_pow`.
    pub fn hashes_to_indices(hashes: &[usize], k: usize, l: usize, range_pow: usize) -> (r: Vec<usize>)
        requires
            k * l <= hashes@.len(),
            shifts_fit(k as nat),
            range_pow < usize::BITS,
        ensures
            r@ == table_indices(hashes@, k as nat, l as nat, range_pow),
            forall|i: int| 0 <= i < l ==> #[trigger] r@[i] < (1usize << range_pow),
    {
        fold_indices(hashes, k, l, range_pow)
    }
}

/// A dense vector and a sparse vector that agree at every position hash alike.
pub proof fn lemma_wta_dense_sparse_agree(
    hasher: &WtaHash,
    dense: Seq<u32>,
    values: Seq<u32>,
    positions: Seq<usize>,
)
    requires
        dense.len() == hasher.number_of_bits(),
        forall|k: int| 0 <= k < dense.len() ==> #[trigger] dense[k] == sparse_to_dense(values, positions, hasher.number_of_bits())[k],
    ensures
        hasher.hash_of(dense) == hasher.hash_of(sparse_to_dense(values, positions, hasher.number_of_bits())),
{
    assert(dense =~= sparse_to_dense(values, positions, hasher.number_of_bits()));
}

} // verus!
