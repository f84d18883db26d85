use vstd::prelude::*;

use crate::hasher::{
    draw_selection, fold_indices, selection_ok, shifts_fit, sparse_to_dense, table_indices, wta_dense,
    wta_raw, wta_sparse, BIN_SIZE,
};

verus! {

/// Probes at most this many slots when filling an empty one.
pub const MAX_ATTEMPTS: usize = 100;

/// Added once per probe to a value taken from another slot.
pub const ATTEMPT_OFFSET: usize = 1234;

/// Multipliers of the probe sequence `(i·PROBE_SLOT + a·PROBE_ATTEMPT) mod size`.
pub const PROBE_SLOT: usize = 1234;

pub const PROBE_ATTEMPT: usize = 567;

/// The slot looked at in attempt `a` when filling slot `i`.
pub open spec fn probe(size: nat, i: nat, a: nat) -> nat {
    if a == 0 {
        i
    } else {
        ((i * PROBE_SLOT + a * PROBE_ATTEMPT) % (size as int)) as nat
    }
}

/// The densified value of slot `i`, starting at attempt `a`: the first probed
/// slot with a non-zero raw value gives that value plus `a·ATTEMPT_OFFSET`;
/// after `MAX_ATTEMPTS - 1` fruitless probes the slot gets 0.
pub open spec fn densify_from(h: Seq<usize>, size: nat, i: nat, a: nat) -> usize
    decreases MAX_ATTEMPTS - a,
{
    let v = h[probe(size, i, a) as int];
    if v != 0 {
        (v + a * ATTEMPT_OFFSET) as usize
    } else if a + 1 >= MAX_ATTEMPTS {
        0
    } else {
        densify_from(h, size, i, a + 1)
    }
}

/// The densified form of the raw hashes `h`.
pub open spec fn densify_spec(h: Seq<usize>, size: nat) -> Seq<usize> {
    Seq::new(size, |i: int| densify_from(h, size, i as nat, 0))
}

/// Densified winner-take-all hasher: `size` slots, each the argmax of
/// `BIN_SIZE` distinct random positions of the input; empty slots borrow a
/// value from another slot.
pub struct DensifiedWtaHash {
    size: usize,
    number_of_bits: usize,
    indices: Vec<usize>,
}

impl DensifiedWtaHash {
    pub closed spec fn size_spec(&self) -> nat {
        self.size as nat
    }

    pub closed spec fn number_of_bits(&self) -> nat {
        self.number_of_bits as nat
    }

    /// The selected positions: slot `i` reads `selection()[BIN_SIZE·i + j]`.
    pub closed spec fn selection(&self) -> Seq<usize> {
        self.indices@
    }

    pub closed spec fn wf(&self) -> bool {
        &&& selection_ok(self.indices@, self.size as nat, self.number_of_bits as nat)
        &&& BIN_SIZE <= self.number_of_bits
    }

    /// The hash of the dense key vector `w`.
    pub open spec fn hash_of(&self, w: Seq<u32>) -> Seq<usize> {
        densify_spec(wta_raw(w, self.selection(), self.size_spec()), self.size_spec())
    }

    /// A hasher with `size` slots over inputs of `number_of_bits` positions.
    pub fn new(size: usize, number_of_bits: usize) -> (r: Self)
        requires
            BIN_SIZE <= number_of_bits,
            BIN_SIZE * size <= usize::MAX,
        ensures
            r.wf(),
            r.size_spec() == size,
            r.number_of_bits() == number_of_bits,
            selection_ok(r.selection(), size as nat, number_of_bits as nat),
    {
        let indices = draw_selection(size, number_of_bits);
        DensifiedWtaHash { size, number_of_bits, indices }
    }

    pub fn get_size(&self) -> (r: usize)
        ensures
            r == self.size_spec(),
    {
        self.size
    }

    pub fn get_number_of_bits(&self) -> (r: usize)
        ensures
            r == self.number_of_bits(),
    {
        self.number_of_bits
    }

    /// Hashes a dense key vector of length `number_of_bits`.
    pub fn hash(&self, weights: &[u32]) -> (r: Vec<usize>)
        requires
            self.wf(),
            weights@.len() == self.number_of_bits(),
        ensures
            r@ == self.hash_of(weights@),
    {
        let hashes = wta_dense(&self.indices, self.size, weights);
        self.densify(hashes)
    }

    /// Hashes the sparse key vector whose entry `p` puts `weights[p]` at
    /// position `indices[p]`; omitted positions count as zero.
    pub fn hash_sparse(&self, weights: &[u32], indices: &[usize]) -> (r: Vec<usize>)
        requires
            self.wf(),
            indices@.len() <= weights@.len(),
        ensures
            r@ == self.hash_of(sparse_to_dense(weights@, indices@, self.number_of_bits())),
    {
        let hashes = wta_sparse(&self.indices, self.size, self.number_of_bits, weights, indices);
        self.densify(hashes)
    }

    /// Folds `k·l` slot hashes into `l` bucket indices below `2^range_pow`.
    pub fn hashes_to_indices(hashes: &[usize], k: usize, l: usize, range_pow: usize) -> (r: Vec<usize>)
        requires
            k * l <= hashes@.len(),
            shifts_fit(k as nat),
            range_pow < usize::BITS,
        ensures
            r@ == table_indices(hashes@, k as nat, l as nat, range_pow),
            forall|i: int| 0 <= i < l ==> #[trigger] r@[i] < (1usize << range_pow),
    {
        fold_indices(hashes, k, l, range_pow)
    }

    /// Fills every slot whose raw value is 0 from the first probed slot
    /// with a non-zero value.
    pub fn densify(&self, hashes: Vec<usize>) -> (r: Vec<usize>)
        requires
            hashes@.len() == self.size_spec(),
            forall|i: int| 0 <= i < hashes@.len() ==> #[trigger] hashes@[i] < BIN_SIZE,
        ensures
            r@ == densify_spec(hashes@, self.size_spec()),
    {
        let size = self.size;
        let mut densified: Vec<usize> = Vec::with_capacity(size);
        let mut i: usize = 0;
        while i < size
            invariant
                i <= size,
                size == self.size_spec(),
                hashes@.len() == size,
                forall|t: int| 0 <= t < hashes@.len() ==> #[trigger] hashes@[t] < BIN_SIZE,
                densified@.len() == i,
                forall|t: int|
                    0 <= t < i ==> #[trigger] densified@[t] == densify_from(hashes@, size as nat, t as nat, 0),
            decreases size - i,
        {
            let mut next: usize = i;
            let mut attempt: usize = 0;
            let mut failed = false;
            while hashes[next] == 0
                invariant_except_break
                    attempt < MAX_ATTEMPTS,
                    !failed,
                    next == probe(size as nat, i as nat, attempt as nat),
                    densify_from(hashes@, size as nat, i as nat, 0) == densify_from(
                        hashes@,
                        size as nat,
                        i as nat,
                        attempt as nat,
                    ),
                invariant
                    i < size,
                    hashes@.len() == size,
                    attempt <= MAX_ATTEMPTS,
                    next < size,
                ensures
                    failed ==> densify_from(hashes@, size as nat, i as nat, 0) == 0,
                    !failed ==> {
                        &&& hashes@[next as int] != 0
                        &&& attempt < MAX_ATTEMPTS
                        &&& next == probe(size as nat, i as nat, attempt as nat)
                        &&& densify_from(hashes@, size as nat, i as nat, 0) == densify_from(
                            hashes@,
                            size as nat,
                            i as nat,
                            attempt as nat,
                        )
                    },
                decreases MAX_ATTEMPTS - attempt,
            {
                attempt = attempt + 1;
                if attempt == MAX_ATTEMPTS {
                    failed = true;
                    break;
                }
                let wide = (i as u128 * PROBE_SLOT as u128 + attempt as u128 * PROBE_ATTEMPT as u128)
                    % size as u128;
                next = wide as usize;
            }
            if failed {
                densified.push(0);
            } else {
                densified.push(hashes[next] + attempt * ATTEMPT_OFFSET);
            }
            i = i + 1;
        }
        proof {
            assert(densified@ =~= densify_spec(hashes@, size as nat));
        }
        densified
    }
}


/// A dense vector and a sparse vector that agree at every position hash alike
/// (the all-zero vector and the empty sparse vector among them).
pub proof fn lemma_dense_sparse_agree(
    hasher: &DensifiedWtaHash,
    dense: Seq<u32>,
    values: Seq<u32>,
    positions: Seq<usize>,
)
    requires
        dense.len() == hasher.number_of_bits(),
        forall|k: int| 0 <= k < dense.len() ==> #[trigger] dense[k] == sparse_to_dense(values, positions, hasher.number_of_bits())[k],
    ensures
        hasher.hash_of(dense) == hasher.hash_of(sparse_to_dense(values, positions, hasher.number_of_bits())),
{
    assert(dense =~= sparse_to_dense(values, positions, hasher.number_of_bits()));
}

} // verus!
