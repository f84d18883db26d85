use vstd::prelude::*;

use crate::random::shuffle;

verus! {

/// Number of input positions each hash slot looks at.
pub const BIN_SIZE: usize = 8;

/// Bits that one slot's winner contributes to a bucket index (`log2(BIN_SIZE)`).
pub const BIN_BITS: usize = 3;

/// Order key of the lowest finite `f32` (`f32::MIN`): a weight wins a slot only
/// when its key is above this one.
pub const FLOOR_KEY: u32 = 0x0080_0000;

/// Order key of `0.0`, which a sparse vector gives to every position it omits.
pub const ZERO_KEY: u32 = 0x8000_0000;

/// Hashing reads a weight only through comparisons, so weights are handled
/// as order keys: for two `f32` values that are not NaN, `a < b` holds exactly
/// when `order_key(a.to_bits()) < order_key(b.to_bits())`. Both zeros share
/// one key; a NaN gets key 0, below every number, so that it never wins a
/// comparison, as with `<` on `f32`.
pub open spec fn order_key_spec(bits: u32) -> u32 {
    if bits & 0x7F80_0000 == 0x7F80_0000 && bits & 0x007F_FFFF != 0 {
        0
    } else if bits == 0x8000_0000 {
        ZERO_KEY
    } else if bits & 0x8000_0000 != 0 {
        !bits
    } else {
        bits | 0x8000_0000
    }
}

/// The order key of the `f32` whose bit pattern is `bits`.
pub fn order_key(bits: u32) -> (r: u32)
    ensures
        r == order_key_spec(bits),
{
    if bits & 0x7F80_0000 == 0x7F80_0000 && bits & 0x007F_FFFF != 0 {
        0
    } else if bits == 0x8000_0000 {
        ZERO_KEY
    } else if bits & 0x8000_0000 != 0 {
        !bits
    } else {
        bits | 0x8000_0000
    }
}

/// The bits that table `i` collects from its `k` slots before masking:
/// slot `j` is shifted left by `BIN_BITS * j`, and the parts are or-ed.
pub open spec fn fold_bits(hashes: Seq<usize>, k: nat, i: nat, j: nat) -> usize
    decreases j,
{
    if j == 0 {
        0
    } else {
        fold_bits(hashes, k, i, (j - 1) as nat) | (hashes[(k * i + j - 1) as int] << ((
        BIN_BITS * (j - 1)) as usize))
    }
}

/// Folding `k` slots shifts by at most `BIN_BITS·(k - 1)`, which must stay
/// below the word size.
pub open spec fn shifts_fit(k: nat) -> bool {
    k == 0 || BIN_BITS * (k - 1) < usize::BITS
}

/// `2^range_pow - 1`.
pub open spec fn range_mask(range_pow: usize) -> usize {
    ((1usize << range_pow) - 1) as usize
}

/// The bucket index of table `i`.
pub open spec fn table_index(hashes: Seq<usize>, k: nat, range_pow: usize, i: nat) -> usize {
    fold_bits(hashes, k, i, k) & range_mask(range_pow)
}

/// The bucket indices of all `l` tables.
pub open spec fn table_indices(hashes: Seq<usize>, k: nat, l: nat, range_pow: usize) -> Seq<usize> {
    Seq::new(l, |i: int| table_index(hashes, k, range_pow, i as nat))
}

proof fn lemma_mask_below(x: usize, range_pow: usize)
    requires
        range_pow < usize::BITS,
    ensures
        x & range_mask(range_pow) < (1usize << range_pow),
        1 <= (1usize << range_pow),
{
    assert(x & (((1usize << range_pow) - 1) as usize) < (1usize << range_pow)) by (bit_vector)
        requires
            range_pow < usize::BITS,
    ;
    assert(1 <= (1usize << range_pow)) by (bit_vector)
        requires
            range_pow < usize::BITS,
    ;
}

/// Every folded bucket index is below `2^range_pow`.
pub proof fn lemma_table_indices_in_range(hashes: Seq<usize>, k: nat, l: nat, range_pow: usize)
    requires
        range_pow < usize::BITS,
    ensures
        forall|i: int| 0 <= i < l ==> #[trigger] table_indices(hashes, k, l, range_pow)[i] < (1usize << range_pow),
{
    assert forall|i: int| 0 <= i < l implies #[trigger] table_indices(hashes, k, l, range_pow)[i] < (1usize
        << range_pow) by {
        lemma_mask_below(fold_bits(hashes, k, i as nat, k), range_pow);
    }
}

/// Folds `k·l` slot hashes into `l` bucket indices, each below `2^range_pow`.
pub fn fold_indices(hashes: &[usize], k: usize, l: usize, range_pow: usize) -> (r: Vec<usize>)
    requires
        k * l <= hashes@.len(),
        shifts_fit(k as nat),
        range_pow < usize::BITS,
    ensures
        r@ == table_indices(hashes@, k as nat, l as nat, range_pow),
        forall|i: int| 0 <= i < l ==> #[trigger] r@[i] < (1usize << range_pow),
{
    let mut r: Vec<usize> = Vec::with_capacity(l);
    proof {
        lemma_mask_below(0, range_pow);
    }
    let mask: usize = (1usize << range_pow) - 1;
    let len = hashes.len();
    let mut i: usize = 0;
    while i < l
        invariant
            i <= l,
            k * l <= hashes@.len(),
            shifts_fit(k as nat),
            range_pow < usize::BITS,
            mask == range_mask(range_pow),
            len == hashes@.len(),
            r@.len() == i,
            forall|t: int| 0 <= t < i ==> #[trigger] r@[t] == table_index(hashes@, k as nat, range_pow, t as nat),
        decreases l - i,
    {
        let mut index: usize = 0;
        let mut j: usize = 0;
        proof {
            assert(k * i + k <= k * l) by (nonlinear_arith)
                requires
                    i < l,
            ;
        }
        while j < k
            invariant
                j <= k,
                i < l,
                k * i + k <= hashes@.len(),
                len == hashes@.len(),
                shifts_fit(k as nat),
                index == fold_bits(hashes@, k as nat, i as nat, j as nat),
            decreases k - j,
        {
            assert(k * i + j < len);
            let h = hashes[k * i + j];
            index = index | (h << (BIN_BITS * j));
            j = j + 1;
        }
        r.push(index & mask);
        i = i + 1;
    }
    proof {
        assert(r@ =~= table_indices(hashes@, k as nat, l as nat, range_pow));
        assert forall|t: int| 0 <= t < l implies #[trigger] r@[t] < (1usize << range_pow) by {
            lemma_mask_below(fold_bits(hashes@, k as nat, t as nat, k as nat), range_pow);
        }
    }
    r
}


/// The key at bin position `j` of slot `i`.
pub open spec fn selected_key(w: Seq<u32>, sel: Seq<usize>, i: int, j: int) -> u32 {
    w[sel[BIN_SIZE * i + j] as int]
}

/// Slot `i`'s winner among its first `j` positions: the largest key seen so
/// far (starting from `FLOOR_KEY`) and the position in the bin where it first
/// appeared; position 0 when no key rose above the floor.
pub open spec fn wta_scan(w: Seq<u32>, sel: Seq<usize>, i: int, j: int) -> (u32, usize)
    decreases j,
{
    if j <= 0 {
        (FLOOR_KEY, 0usize)
    } else {
        let prev = wta_scan(w, sel, i, j - 1);
        let v = selected_key(w, sel, i, j - 1);
        if prev.0 < v {
            (v, (j - 1) as usize)
        } else {
            prev
        }
    }
}

/// The scan picks the first position of the largest selected key, provided
/// that key lies above `FLOOR_KEY`; otherwise it picks position 0.
pub proof fn lemma_wta_scan_first_max(w: Seq<u32>, sel: Seq<usize>, i: int, m: int)
    requires
        0 <= m <= usize::MAX,
    ensures
        wta_scan(w, sel, i, m).0 >= FLOOR_KEY,
        forall|j: int| 0 <= j < m ==> #[trigger] selected_key(w, sel, i, j) <= wta_scan(w, sel, i, m).0,
        wta_scan(w, sel, i, m).0 == FLOOR_KEY ==> wta_scan(w, sel, i, m).1 == 0,
        wta_scan(w, sel, i, m).0 > FLOOR_KEY ==> {
            let p = wta_scan(w, sel, i, m).1 as int;
            &&& p < m
            &&& selected_key(w, sel, i, p) == wta_scan(w, sel, i, m).0
            &&& forall|j: int| 0 <= j < p ==> #[trigger] selected_key(w, sel, i, j) < wta_scan(w, sel, i, m).0
        },
    decreases m,
{
    if m > 0 {
        lemma_wta_scan_first_max(w, sel, i, m - 1);
    }
}

/// The raw winner-take-all hash: for each of `size` slots, the position of the
/// largest of its `BIN_SIZE` selected keys.
pub open spec fn wta_raw(w: Seq<u32>, sel: Seq<usize>, size: nat) -> Seq<usize> {
    Seq::new(size, |i: int| wta_scan(w, sel, i, BIN_SIZE as int).1)
}

/// The key that a sparse vector gives to position `k`, looking from entry `p`
/// on: the value of the first entry at `k`, or the key of zero.
pub open spec fn sparse_value(values: Seq<u32>, positions: Seq<usize>, k: usize, p: int) -> u32
    decreases positions.len() - p,
{
    if p < 0 || p >= positions.len() {
        ZERO_KEY
    } else if positions[p] == k {
        values[p]
    } else {
        sparse_value(values, positions, k, p + 1)
    }
}

/// The dense vector of length `n` that a sparse vector stands for.
pub open spec fn sparse_to_dense(values: Seq<u32>, positions: Seq<usize>, n: nat) -> Seq<u32> {
    Seq::new(n, |k: int| sparse_value(values, positions, k as usize, 0))
}

/// The selected positions of each bin are distinct.
pub open spec fn bins_distinct(sel: Seq<usize>, size: nat) -> bool {
    forall|i: int|
        0 <= i < size ==> #[trigger] sel.subrange(BIN_SIZE * i, BIN_SIZE * i + BIN_SIZE).no_duplicates()
}

/// A valid selection table for `size` slots over inputs of length `n`.
pub open spec fn selection_ok(sel: Seq<usize>, size: nat, n: nat) -> bool {
    &&& sel.len() == BIN_SIZE * size
    &&& forall|p: int| 0 <= p < sel.len() ==> #[trigger] sel[p] < n
    &&& bins_distinct(sel, size)
}

pub(crate) proof fn lemma_permutation_of_range(v: Seq<usize>, n: nat)
    requires
        v.to_multiset() == Seq::new(n, |x: int| x as usize).to_multiset(),
        n <= usize::MAX + 1,
    ensures
        v.no_duplicates(),
        forall|p: int| 0 <= p < v.len() ==> #[trigger] v[p] < n,
{
    let base = Seq::new(n, |x: int| x as usize);
    assert(base.no_duplicates());
    base.lemma_multiset_has_no_duplicates();
    v.lemma_multiset_has_no_duplicates_conv();
    assert forall|p: int| 0 <= p < v.len() implies #[trigger] v[p] < n by {
        v.to_multiset_ensures();
        base.to_multiset_ensures();
        assert(v.to_multiset().count(v[p]) > 0);
        assert(base.contains(v[p]));
        let x = choose|x: int| 0 <= x < base.len() && base[x] == v[p];
        assert(base[x] == x as usize);
    }
}

/// Draws, for each of `size` slots, `BIN_SIZE` distinct positions below `n`:
/// the first `BIN_SIZE` entries of a fresh shuffle of `0..n`.
pub fn draw_selection(size: usize, n: usize) -> (r: Vec<usize>)
    requires
        BIN_SIZE <= n,
        BIN_SIZE * size <= usize::MAX,
    ensures
        selection_ok(r@, size as nat, n as nat),
{
    let mut n_array: Vec<usize> = Vec::with_capacity(n);
    let mut x: usize = 0;
    while x < n
        invariant
            x <= n,
            n_array@ == Seq::new(x as nat, |y: int| y as usize),
        decreases n - x,
    {
        n_array.push(x);
        x = x + 1;
        proof {
            assert(n_array@ =~= Seq::new(x as nat, |y: int| y as usize));
        }
    }
    let ghost base = n_array@;
    let mut indices: Vec<usize> = Vec::with_capacity(size * BIN_SIZE);
    let mut i: usize = 0;
    while i < size
        invariant
            i <= size,
            BIN_SIZE <= n,
            BIN_SIZE * size <= usize::MAX,
            base == Seq::new(n as nat, |y: int| y as usize),
            n_array@.to_multiset() == base.to_multiset(),
            n_array@.len() == n,
            selection_ok(indices@, i as nat, n as nat),
        decreases size - i,
    {
        shuffle(&mut n_array);
        proof {
            n_array@.to_multiset_ensures();
            base.to_multiset_ensures();
            lemma_permutation_of_range(n_array@, n as nat);
        }
        let ghost before = indices@;
        let mut j: usize = 0;
        while j < BIN_SIZE
            invariant
                j <= BIN_SIZE,
                BIN_SIZE <= n,
                n_array@.len() == n,
                indices@ == before + n_array@.subrange(0, j as int),
            decreases BIN_SIZE - j,
        {
            indices.push(n_array[j]);
            j = j + 1;
            proof {
                assert(indices@ =~= before + n_array@.subrange(0, j as int));
            }
        }
        proof {
            let bin = n_array@.subrange(0, BIN_SIZE as int);
            assert(bin.no_duplicates());
            assert forall|t: int| 0 <= t < i + 1 implies #[trigger] indices@.subrange(
                BIN_SIZE * t,
                BIN_SIZE * t + BIN_SIZE,
            ).no_duplicates() by {
                if t < i {
                    assert(indices@.subrange(BIN_SIZE * t, BIN_SIZE * t + BIN_SIZE) =~= before.subrange(
                        BIN_SIZE * t,
                        BIN_SIZE * t + BIN_SIZE,
                    ));
                } else {
                    assert(indices@.subrange(BIN_SIZE * t, BIN_SIZE * t + BIN_SIZE) =~= bin);
                }
            }
        }
        i = i + 1;
    }
    indices
}

/// The key that the sparse vector `(values, positions)` gives to position `k`.
fn lookup_sparse(values: &[u32], positions: &[usize], k: usize) -> (r: u32)
    requires
        positions@.len() <= values@.len(),
    ensures
        r == sparse_value(values@, positions@, k, 0),
{
    let mut p: usize = 0;
    while p < positions.len() && positions[p] != k
        invariant
            p <= positions@.len(),
            sparse_value(values@, positions@, k, 0) == sparse_value(values@, positions@, k, p as int),
        decreases positions@.len() - p,
    {
        p = p + 1;
    }
    if p < positions.len() {
        values[p]
    } else {
        ZERO_KEY
    }
}

/// The raw winner-take-all hash of the dense key vector `w`.
pub fn wta_dense(sel: &Vec<usize>, size: usize, w: &[u32]) -> (r: Vec<usize>)
    requires
        selection_ok(sel@, size as nat, w@.len()),
    ensures
        r@ == wta_raw(w@, sel@, size as nat),
        forall|i: int| 0 <= i < size ==> #[trigger] r@[i] < BIN_SIZE,
{
    let sel_len = sel.len();
    let mut r: Vec<usize> = Vec::with_capacity(size);
    let mut i: usize = 0;
    while i < size
        invariant
            i <= size,
            selection_ok(sel@, size as nat, w@.len()),
            sel_len == sel@.len(),
            r@.len() == i,
            forall|t: int| 0 <= t < i ==> #[trigger] r@[t] == wta_scan(w@, sel@, t, BIN_SIZE as int).1,
            forall|t: int| 0 <= t < i ==> #[trigger] r@[t] < BIN_SIZE,
        decreases size - i,
    {
        let mut best: u32 = FLOOR_KEY;
        let mut h: usize = 0;
        let mut j: usize = 0;
        while j < BIN_SIZE
            invariant
                j <= BIN_SIZE,
                i < size,
                sel_len == sel@.len(),
                selection_ok(sel@, size as nat, w@.len()),
                (best, h) == wta_scan(w@, sel@, i as int, j as int),
                h < BIN_SIZE,
            decreases BIN_SIZE - j,
        {
            assert(BIN_SIZE * i + j < BIN_SIZE * size) by (nonlinear_arith)
                requires
                    i < size,
                    j < BIN_SIZE,
            ;
            let k = sel[BIN_SIZE * i + j];
            if best < w[k] {
                best = w[k];
                h = j;
            }
            j = j + 1;
        }
        r.push(h);
        i = i + 1;
    }
    proof {
        assert(r@ =~= wta_raw(w@, sel@, size as nat));
    }
    r
}

/// The raw winner-take-all hash of the sparse key vector `(values, positions)`
/// over inputs of length `n`.
pub fn wta_sparse(sel: &Vec<usize>, size: usize, n: usize, values: &[u32], positions: &[usize]) -> (r: Vec<usize>)
    requires
        selection_ok(sel@, size as nat, n as nat),
        positions@.len() <= values@.len(),
    ensures
        r@ == wta_raw(sparse_to_dense(values@, positions@, n as nat), sel@, size as nat),
        forall|i: int| 0 <= i < size ==> #[trigger] r@[i] < BIN_SIZE,
{
    let ghost w = sparse_to_dense(values@, positions@, n as nat);
    let sel_len = sel.len();
    let mut r: Vec<usize> = Vec::with_capacity(size);
    let mut i: usize = 0;
    while i < size
        invariant
            i <= size,
            selection_ok(sel@, size as nat, n as nat),
            positions@.len() <= values@.len(),
            w == sparse_to_dense(values@, positions@, n as nat),
            sel_len == sel@.len(),
            r@.len() == i,
            forall|t: int| 0 <= t < i ==> #[trigger] r@[t] == wta_scan(w, sel@, t, BIN_SIZE as int).1,
            forall|t: int| 0 <= t < i ==> #[trigger] r@[t] < BIN_SIZE,
        decreases size - i,
    {
        let mut best: u32 = FLOOR_KEY;
        let mut h: usize = 0;
        let mut j: usize = 0;
        while j < BIN_SIZE
            invariant
                j <= BIN_SIZE,
                i < size,
                sel_len == sel@.len(),
                selection_ok(sel@, size as nat, n as nat),
                positions@.len() <= values@.len(),
                w == sparse_to_dense(values@, positions@, n as nat),
                (best, h) == wta_scan(w, sel@, i as int, j as int),
                h < BIN_SIZE,
            decreases BIN_SIZE - j,
        {
            assert(BIN_SIZE * i + j < BIN_SIZE * size) by (nonlinear_arith)
                requires
                    i < size,
                    j < BIN_SIZE,
            ;
            let k = sel[BIN_SIZE * i + j];
            let v = lookup_sparse(values, positions, k);
            if best < v {
                best = v;
                h = j;
            }
            j = j + 1;
        }
        r.push(h);
        i = i + 1;
    }
    proof {
        assert(r@ =~= wta_raw(w, sel@, size as nat));
    }
    r
}

} // verus!
