use vstd::prelude::*;

use crate::hasher::{lemma_permutation_of_range, BIN_SIZE, FLOOR_KEY};
use crate::random::{random_usize, shuffle};

verus! {

/// Bits per slot when this hasher folds slots into a bucket index
/// (`floor(ln BIN_SIZE)`).
pub const SLOT_SHIFT: usize = 2;

/// Densification gives up after this many probes.
pub const MAX_PROBES: usize = 100;

/// Marks a slot that no input reached.
pub const EMPTY_SLOT: usize = usize::MAX;

/// `floor(log2(n))`, and 0 for `n <= 1`.
pub open spec fn floor_log2(n: nat) -> nat
    decreases n,
{
    if n <= 1 {
        0
    } else {
        1 + floor_log2(n / 2)
    }
}

/// The probe for slot `binid` at attempt `count`.
pub open spec fn double_hash(rand_hash: usize, lognumhashes: usize, binid: usize, count: usize) -> usize {
    let tohash = vstd::wrapping::usize_specs::wrapping_add(
        vstd::wrapping::usize_specs::wrapping_add(binid, 1) << 6usize,
        count,
    );
    (vstd::wrapping::usize_specs::wrapping_mul(rand_hash, tohash) << 3usize) >> ((32 - lognumhashes) as usize)
}

/// A probe clamped to the last slot.
pub open spec fn clamp_slot(x: usize, numhashes: usize) -> usize {
    if x < numhashes - 1 {
        x
    } else {
        (numhashes - 1) as usize
    }
}

/// `ceil(a / b)`.
pub open spec fn ceil_div(a: nat, b: nat) -> nat {
    ((a + b - 1) / (b as int)) as nat
}

/// Bucket index of table `i` before all `k` slots are in: the sum, wrapping,
/// of slot `k·i + j` shifted left by `SLOT_SHIFT·(k - 1 - j)`, over `j < n`.
pub open spec fn shifted_sum(hashes: Seq<usize>, k: nat, i: nat, n: nat) -> usize
    decreases n,
{
    if n == 0 {
        0
    } else {
        vstd::wrapping::usize_specs::wrapping_add(
            shifted_sum(hashes, k, i, (n - 1) as nat),
            hashes[(k * i + n - 1) as int] << ((SLOT_SHIFT * (k - n)) as usize),
        )
    }
}

/// Winner-take-all hasher whose bins are consecutive runs of `BIN_SIZE`
/// positions of `permute` random permutations of the input; empty slots are
/// filled by probing a random double hash.
pub struct DesifiedWtaHash {
    rand_hash: usize,
    numhashes: usize,
    range_pow: usize,
    lognumhashes: usize,
    indices: Vec<usize>,
    pos: Vec<usize>,
    permute: usize,
}

impl DesifiedWtaHash {
    pub closed spec fn numhashes(&self) -> usize {
        self.numhashes
    }

    /// Number of input positions.
    pub closed spec fn input_len(&self) -> nat {
        self.range_pow as nat
    }

    pub closed spec fn permute(&self) -> nat {
        self.permute as nat
    }

    pub closed spec fn rand_hash(&self) -> usize {
        self.rand_hash
    }

    pub closed spec fn lognumhashes(&self) -> usize {
        self.lognumhashes
    }

    /// Bin of position `x` of permutation `p`, at index `p·input_len + x`.
    pub closed spec fn bin_ids(&self) -> Seq<usize> {
        self.indices@
    }

    /// Place of position `x` of permutation `p` inside its bin.
    pub closed spec fn bin_pos(&self) -> Seq<usize> {
        self.pos@
    }

    pub closed spec fn wf(&self) -> bool {
        &&& 1 <= self.range_pow
        &&& self.lognumhashes == floor_log2(self.numhashes as nat)
        &&& self.lognumhashes <= 32
        &&& 32 - self.lognumhashes < usize::BITS
        &&& self.permute * self.range_pow <= usize::MAX
        &&& self.indices@.len() == self.permute * self.range_pow
        &&& self.pos@.len() == self.permute * self.range_pow
        &&& forall|x: int| 0 <= x < self.pos@.len() ==> #[trigger] self.pos@[x] < BIN_SIZE
    }

    /// The scan state `(winners, best keys)` before any input is read.
    pub open spec fn scan_start(&self) -> (Seq<usize>, Seq<u32>) {
        (
            Seq::new(self.numhashes() as nat, |i: int| EMPTY_SLOT),
            Seq::new(self.numhashes() as nat, |i: int| FLOOR_KEY),
        )
    }

    /// Reading input position `x` with key `w` in permutation `p`.
    pub open spec fn scan_step(&self, st: (Seq<usize>, Seq<u32>), p: nat, x: usize, w: u32) -> (Seq<usize>, Seq<u32>) {
        let index = p * self.input_len() + x;
        let binid = self.bin_ids()[index as int];
        if binid < self.numhashes() && st.1[binid as int] < w {
            (st.0.update(binid as int, self.bin_pos()[index as int]), st.1.update(binid as int, w))
        } else {
            st
        }
    }

    /// The scan state after permutations `0 .. p` and the first `i` entries
    /// of the sparse input in permutation `p`.
    pub open spec fn scan(&self, values: Seq<u32>, positions: Seq<usize>, p: nat, i: nat) -> (Seq<usize>, Seq<u32>)
        decreases p, i,
    {
        if i == 0 {
            if p == 0 {
                self.scan_start()
            } else {
                self.scan(values, positions, (p - 1) as nat, values.len())
            }
        } else if i <= values.len() {
            self.scan_step(self.scan(values, positions, p, (i - 1) as nat), p, positions[i - 1], values[i - 1])
        } else {
            self.scan_start()
        }
    }

    /// Slot `i`'s final value: its winner, or the first winner met by the
    /// probes `double_hash(i, 0), double_hash(i, 1), …`; after `MAX_PROBES + 1`
    /// probes the last one read is kept even if empty.
    pub open spec fn fill_from(&self, h: Seq<usize>, i: usize, count: nat, next: usize) -> usize
        decreases MAX_PROBES + 1 - count,
    {
        if next != EMPTY_SLOT {
            next
        } else {
            let n2 = h[clamp_slot(
                double_hash(self.rand_hash(), self.lognumhashes(), i, count as usize),
                self.numhashes(),
            ) as int];
            if count + 1 > MAX_PROBES {
                n2
            } else {
                self.fill_from(h, i, count + 1, n2)
            }
        }
    }

    /// The hash of the sparse key vector `(values, positions)`.
    pub open spec fn hash_of(&self, values: Seq<u32>, positions: Seq<usize>) -> Seq<usize> {
        let h = self.scan(values, positions, self.permute(), 0).0;
        Seq::new(self.numhashes() as nat, |i: int| self.fill_from(h, i as usize, 0, h[i]))
    }

    /// A hasher with `size` slots over inputs of `number_of_bits_to_hash`
    /// positions, drawing `ceil(size·BIN_SIZE / number_of_bits_to_hash)`
    /// permutations of the input.
    pub fn new(size: usize, number_of_bits_to_hash: usize) -> (r: Self)
        requires
            1 <= number_of_bits_to_hash,
            BIN_SIZE * size + number_of_bits_to_hash <= usize::MAX,
            floor_log2(size as nat) <= 32,
            32 - floor_log2(size as nat) < usize::BITS,
        ensures
            r.wf(),
            r.numhashes() == size,
            r.input_len() == number_of_bits_to_hash,
            r.permute() == ceil_div((BIN_SIZE * size) as nat, number_of_bits_to_hash as nat),
            r.rand_hash() % 2 == 1,
    {
        let n = number_of_bits_to_hash;
        let permute = (size * BIN_SIZE + n - 1) / n;
        proof {
            let a = size * BIN_SIZE + n - 1;
            vstd::arithmetic::div_mod::lemma_fundamental_div_mod(a as int, n as int);
            assert(n * permute <= a) by (nonlinear_arith)
                requires
                    a == n * (a / n as int) + a % (n as int),
                    permute == a / n as int,
                    0 <= a % (n as int),
            ;
        }
        let total = n * permute;
        let mut n_array: Vec<usize> = Vec::with_capacity(n);
        let mut x: usize = 0;
        while x < n
            invariant
                x <= n,
                n_array@ == Seq::new(x as nat, |y: int| y as usize),
            decreases n - x,
        {
            n_array.push(x);
            x = x + 1;
            proof {
                assert(n_array@ =~= Seq::new(x as nat, |y: int| y as usize));
            }
        }
        let ghost base = n_array@;
        let mut indices: Vec<usize> = Vec::with_capacity(total);
        let mut pos: Vec<usize> = Vec::with_capacity(total);
        let mut t: usize = 0;
        while t < total
            invariant
                t <= total,
                indices@.len() == t,
                pos@.len() == t,
                forall|y: int| 0 <= y < t ==> #[trigger] pos@[y] < BIN_SIZE,
            decreases total - t,
        {
            indices.push(0);
            pos.push(0);
            t = t + 1;
        }
        let mut p: usize = 0;
        while p < permute
            invariant
                p <= permute,
                total == n * permute,
                1 <= n,
                base == Seq::new(n as nat, |y: int| y as usize),
                n_array@.to_multiset() == base.to_multiset(),
                n_array@.len() == n,
                indices@.len() == total,
                pos@.len() == total,
                forall|y: int| 0 <= y < total ==> #[trigger] pos@[y] < BIN_SIZE,
            decreases permute - p,
        {
            shuffle(&mut n_array);
            proof {
                n_array@.to_multiset_ensures();
                base.to_multiset_ensures();
                lemma_permutation_of_range(n_array@, n as nat);
                assert(p * n + n <= total) by (nonlinear_arith)
                    requires
                        p < permute,
                        total == n * permute,
                ;
            }
            let bin_index = p * n;
            let mut i: usize = 0;
            while i < n
                invariant
                    i <= n,
                    bin_index + n <= total,
                    n_array@.len() == n,
                    forall|y: int| 0 <= y < n ==> #[trigger] n_array@[y] < n,
                    indices@.len() == total,
                    pos@.len() == total,
                    forall|y: int| 0 <= y < total ==> #[trigger] pos@[y] < BIN_SIZE,
                decreases n - i,
            {
                let target = bin_index + n_array[i];
                indices.set(target, (bin_index + i) / BIN_SIZE);
                pos.set(target, (bin_index + i) % BIN_SIZE);
                i = i + 1;
            }
            p = p + 1;
        }
        let mut v: usize = size;
        let mut lognumhashes: usize = 0;
        while v > 1
            invariant
                lognumhashes + floor_log2(v as nat) == floor_log2(size as nat),
                floor_log2(size as nat) <= 32,
            decreases v,
        {
            v = v / 2;
            lognumhashes = lognumhashes + 1;
        }
        let drawn = random_usize();
        let rand_hash = drawn | 1;
        assert(rand_hash % 2 == 1) by (bit_vector)
            requires
                rand_hash == drawn | 1,
        ;
        assert(permute * n == total) by (nonlinear_arith)
            requires
                total == n * permute,
        ;
        assert(floor_log2(v as nat) == 0);
        DesifiedWtaHash { rand_hash, numhashes: size, range_pow: n, lognumhashes, indices, pos, permute }
    }

    /// The slot winners of the sparse input `(values, positions)` before
    /// densification.
    fn scan_input(&self, values: &[u32], positions: &[usize]) -> (r: Vec<usize>)
        requires
            self.wf(),
            values@.len() == positions@.len(),
            forall|i: int| 0 <= i < positions@.len() ==> #[trigger] positions@[i] < self.input_len(),
        ensures
            r@ == self.scan(values@, positions@, self.permute(), 0).0,
            r@.len() == self.numhashes(),
    {
        let nh = self.numhashes;
        let mut hashes: Vec<usize> = Vec::with_capacity(nh);
        let mut best: Vec<u32> = Vec::with_capacity(nh);
        let mut x: usize = 0;
        while x < nh
            invariant
                x <= nh,
                hashes@ == Seq::new(x as nat, |i: int| EMPTY_SLOT),
                best@ == Seq::new(x as nat, |i: int| FLOOR_KEY),
            decreases nh - x,
        {
            hashes.push(EMPTY_SLOT);
            best.push(FLOOR_KEY);
            x = x + 1;
            proof {
                assert(hashes@ =~= Seq::new(x as nat, |i: int| EMPTY_SLOT));
                assert(best@ =~= Seq::new(x as nat, |i: int| FLOOR_KEY));
            }
        }
        proof {
            assert((hashes@, best@) == self.scan_start());
        }
        let mut p: usize = 0;
        while p < self.permute
            invariant
                self.wf(),
                nh == self.numhashes,
                p <= self.permute,
                values@.len() == positions@.len(),
                forall|i: int| 0 <= i < positions@.len() ==> #[trigger] positions@[i] < self.input_len(),
                hashes@.len() == nh,
                best@.len() == nh,
                (hashes@, best@) == self.scan(values@, positions@, p as nat, 0),
            decreases self.permute - p,
        {
            proof {
                assert(p * self.range_pow + self.range_pow <= self.permute * self.range_pow) by (nonlinear_arith)
                    requires
                        p < self.permute,
                ;
            }
            let bin_index = p * self.range_pow;
            let mut i: usize = 0;
            while i < values.len()
                invariant
                    self.wf(),
                    nh == self.numhashes,
                    p < self.permute,
                    bin_index == p * self.range_pow,
                    bin_index + self.range_pow <= self.permute * self.range_pow,
                    i <= values@.len(),
                    values@.len() == positions@.len(),
                    forall|i: int| 0 <= i < positions@.len() ==> #[trigger] positions@[i] < self.input_len(),
                    hashes@.len() == nh,
                    best@.len() == nh,
                    (hashes@, best@) == self.scan(values@, positions@, p as nat, i as nat),
                decreases values@.len() - i,
            {
                let index = bin_index + positions[i];
                let binid = self.indices[index];
                let weight = values[i];
                if binid < nh && best[binid] < weight {
                    best.set(binid, weight);
                    hashes.set(binid, self.pos[index]);
                }
                i = i + 1;
            }
            p = p + 1;
        }
        hashes
    }

    /// Fills each empty slot by probing `get_rand_double_hash`.
    fn fill(&self, hashes: &Vec<usize>) -> (r: Vec<usize>)
        requires
            self.wf(),
            hashes@.len() == self.numhashes(),
        ensures
            r@ == Seq::new(self.numhashes() as nat, |i: int| self.fill_from(hashes@, i as usize, 0, hashes@[i])),
    {
        let nh = self.numhashes;
        let mut hash_array: Vec<usize> = Vec::with_capacity(nh);
        let mut i: usize = 0;
        while i < nh
            invariant
                self.wf(),
                nh == self.numhashes,
                i <= nh,
                hashes@.len() == nh,
                hash_array@.len() == i,
                forall|t: int|
                    0 <= t < i ==> #[trigger] hash_array@[t] == self.fill_from(hashes@, t as usize, 0, hashes@[t]),
            decreases nh - i,
        {
            let mut next = hashes[i];
            let mut count: usize = 0;
            while next == EMPTY_SLOT
                invariant_except_break
                    count <= MAX_PROBES,
                    self.fill_from(hashes@, i, 0, hashes@[i as int]) == self.fill_from(hashes@, i, count as nat, next),
                invariant
                    self.wf(),
                    nh == self.numhashes,
                    i < nh,
                    hashes@.len() == nh,
                    count <= MAX_PROBES + 1,
                ensures
                    self.fill_from(hashes@, i, 0, hashes@[i as int]) == next,
                decreases MAX_PROBES + 1 - count,
            {
                let probe = self.get_rand_double_hash(i, count);
                let slot = if probe < nh - 1 {
                    probe
                } else {
                    nh - 1
                };
                next = hashes[slot];
                count = count + 1;
                if count > MAX_PROBES {
                    break;
                }
            }
            hash_array.push(next);
            i = i + 1;
        }
        proof {
            assert(hash_array@ =~= Seq::new(nh as nat, |t: int| self.fill_from(hashes@, t as usize, 0, hashes@[t])));
        }
        hash_array
    }

    /// Hashes a dense key vector of `input_len` positions.
    pub fn get_hash(&self, weights: &[u32]) -> (r: Vec<usize>)
        requires
            self.wf(),
            weights@.len() == self.input_len(),
        ensures
            r@ == self.hash_of(weights@, Seq::new(weights@.len(), |i: int| i as usize)),
    {
        let mut positions: Vec<usize> = Vec::with_capacity(weights.len());
        let mut x: usize = 0;
        while x < weights.len()
            invariant
                x <= weights@.len(),
                positions@ == Seq::new(x as nat, |i: int| i as usize),
            decreases weights@.len() - x,
        {
            positions.push(x);
            x = x + 1;
            proof {
                assert(positions@ =~= Seq::new(x as nat, |i: int| i as usize));
            }
        }
        let hashes = self.scan_input(weights, positions.as_slice());
        let r = self.fill(&hashes);
        proof {
            assert(r@ =~= self.hash_of(weights@, positions@));
        }
        r
    }

    /// Hashes the sparse key vector that puts `weights[p]` at `indices[p]`.
    pub fn get_hash_sparse(&self, weights: &[u32], indices: &[usize]) -> (r: Vec<usize>)
        requires
            self.wf(),
            weights@.len() == indices@.len(),
            forall|i: int| 0 <= i < indices@.len() ==> #[trigger] indices@[i] < self.input_len(),
        ensures
            r@ == self.hash_of(weights@, indices@),
    {
        let hashes = self.scan_input(weights, indices);
        let r = self.fill(&hashes);
        proof {
            assert(r@ =~= self.hash_of(weights@, indices@));
        }
        r
    }

    /// Folds `k·l` slot hashes into `l` bucket indices: slot `k·i + j` is
    /// shifted left by `SLOT_SHIFT·(k - 1 - j)` and the parts are added,
    /// wrapping.
    pub fn hashes_to_index(hashes: &[usize], k: usize, l: usize, _range_pow: usize) -> (r: Vec<usize>)
        requires
            k * l <= hashes@.len(),
            SLOT_SHIFT * k <= usize::BITS,
        ensures
            r@ == Seq::new(l as nat, |i: int| shifted_sum(hashes@, k as nat, i as nat, k as nat)),
    {
        let len = hashes.len();
        let mut r: Vec<usize> = Vec::with_capacity(l);
        let mut i: usize = 0;
        while i < l
            invariant
                i <= l,
                k * l <= hashes@.len(),
                len == hashes@.len(),
                SLOT_SHIFT * k <= usize::BITS,
                r@.len() == i,
                forall|t: int| 0 <= t < i ==> #[trigger] r@[t] == shifted_sum(hashes@, k as nat, t as nat, k as nat),
            decreases l - i,
        {
            proof {
                assert(k * i + k <= k * l) by (nonlinear_arith)
                    requires
                        i < l,
                ;
            }
            let mut index: usize = 0;
            let mut j: usize = 0;
            while j < k
                invariant
                    j <= k,
                    k * i + k <= len,
                    len == hashes@.len(),
                    SLOT_SHIFT * k <= usize::BITS,
                    index == shifted_sum(hashes@, k as nat, i as nat, j as nat),
                decreases k - j,
            {
                assert(k * i + j < len);
                let h = hashes[k * i + j];
                index = index.wrapping_add(h << ((k - 1 - j) * SLOT_SHIFT));
                j = j + 1;
            }
            r.push(index);
            i = i + 1;
        }
        proof {
            assert(r@ =~= Seq::new(l as nat, |t: int| shifted_sum(hashes@, k as nat, t as nat, k as nat)));
        }
        r
    }

    /// The probe for slot `binid` at attempt `count`.
    pub fn get_rand_double_hash(&self, binid: usize, count: usize) -> (r: usize)
        requires
            self.wf(),
        ensures
            r == double_hash(self.rand_hash(), self.lognumhashes(), binid, count),
    {
        let tohash = (binid.wrapping_add(1) << 6).wrapping_add(count);
        (self.rand_hash.wrapping_mul(tohash) << 3) >> (32 - self.lognumhashes)
    }
}

} // verus!
